//! The conversion pipeline: infer a schema from the sampled prefix,
//! decode every record, cut the decoded rows into bounded row groups,
//! encode and compress each column block, and assemble the file image
//! with footer and trailer.
//!
//! Per-row decode failures never abort a run: the row is skipped and
//! counted. An empty sample aborts with `SchemaInference` and no file
//! image is produced. A successful run's contract pins the whole output:
//! the schema, the surviving rows, every chunk's placement, statistics
//! and (up to compression) its bytes, and the footer and trailer at the
//! image's tail.

use vstd::prelude::*;

use crate::ConvertError;
use crate::codec::{Compression, rle_expand};
use crate::decode::{decode_row, spec_decode_row, lemma_decode_row_wf};
use crate::encode::{
    encode_block,
    lemma_null_count_bound,
    spec_block_image,
    spec_dict_pays,
    stats_ok,
    EncodedBlock,
    EncodingKind,
    ColumnStats,
};
use crate::file::{
    FileWriter,
    finish_file,
    footer_image,
    magic_image,
    spec_merge_bounds,
    ColumnChunk,
    GroupInfo,
};
use crate::bytes::u64_le;
use crate::group::{build_row_groups, row_wf, RowGroup};
use crate::schema::{infer_schema, spec_sample_n, spec_schema_ok, Field, RawRecord, Schema};
use crate::value::{cells_model, Value, ValModel};

verus! {

/// The recognized configuration of one conversion run. The page limits
/// bound the writer's working set and have no effect on the bytes
/// produced; every block here is written as a single page.
#[derive(Debug, Clone)]
pub struct ConvertOptions {
    pub sample_size: Option<usize>,
    pub block_size: usize,
    pub page_size: usize,
    pub dict_page_size: usize,
    pub enable_dict: bool,
    pub compression: Compression,
}

/// What a successful run hands back: the finished file image, the footer's
/// records, and the run's summary.
#[derive(Debug)]
pub struct ConvertOutput {
    pub bytes: Vec<u8>,
    pub schema: Schema,
    pub groups: Vec<GroupInfo>,
    pub totals: Vec<ColumnStats>,
    pub rows_written: usize,
    pub rows_skipped: usize,
    pub n_groups: usize,
}

/// How many of the records fail to decode against the schema's fields.
pub open spec fn spec_skipped(fields: Seq<Field>, records: Seq<RawRecord>) -> int
    decreases records.len(),
{
    if records.len() == 0 {
        0
    } else {
        spec_skipped(fields, records.drop_last()) + if spec_decode_row(
            fields,
            records.last(),
        ) is Err {
            1int
        } else {
            0int
        }
    }
}

/// The rows of the records that decode successfully, in input order.
pub open spec fn spec_surviving(fields: Seq<Field>, records: Seq<RawRecord>) -> Seq<
    Seq<Option<ValModel>>,
>
    decreases records.len(),
{
    if records.len() == 0 {
        Seq::empty()
    } else {
        let prev = spec_surviving(fields, records.drop_last());
        match spec_decode_row(fields, records.last()) {
            Result::Ok(cells) => prev.push(cells),
            Result::Err(_) => prev,
        }
    }
}

/// The models of a row vector sequence.
pub open spec fn rows_models(rs: Seq<Vec<Option<Value>>>) -> Seq<Seq<Option<ValModel>>> {
    rs.map_values(|r: Vec<Option<Value>>| cells_model(r@))
}

/// Column `j` of group `g`: one cell per row of the group, read out of
/// the flat row sequence.
pub open spec fn group_column_cells(
    rows: Seq<Seq<Option<ValModel>>>,
    g: int,
    block_size: int,
    n_rows: int,
    j: int,
) -> Seq<Option<ValModel>> {
    Seq::new(n_rows as nat, |i: int| rows[g * block_size + i][j])
}

/// What the footer's record of one chunk guarantees about the file image:
/// the chunk lies inside the image, its statistics and encoding choice are
/// those of its column's cells, and its bytes are the block image of those
/// cells — exactly under `Uncompressed`, up to token expansion otherwise.
pub open spec fn chunk_ok(
    ch: ColumnChunk,
    cells: Seq<Option<ValModel>>,
    enable_dict: bool,
    codec: Compression,
    bytes: Seq<u8>,
) -> bool {
    &&& ch.offset + ch.comp_len <= bytes.len()
    &&& stats_ok(ch.stats, cells)
    &&& (ch.kind == EncodingKind::Dictionary <==> (enable_dict && spec_dict_pays(cells)))
    &&& ch.uncomp_len == spec_block_image(cells, ch.kind).len()
    &&& (codec == Compression::Uncompressed ==> bytes.subrange(
        ch.offset as int,
        ch.offset + ch.comp_len,
    ) == spec_block_image(cells, ch.kind))
    &&& (codec != Compression::Uncompressed ==> rle_expand(
        bytes.subrange(ch.offset as int, ch.offset + ch.comp_len),
    ) == Option::Some(spec_block_image(cells, ch.kind)))
}

/// The null count aggregated over all groups for column `j`.
pub open spec fn total_null(groups: Seq<GroupInfo>, j: int) -> int
    decreases groups.len(),
{
    if groups.len() == 0 {
        0
    } else {
        total_null(groups.drop_last(), j) + groups.last().columns[j].stats.null_count
    }
}

/// The integer bounds aggregated over all groups for column `j`.
pub open spec fn total_bounds(groups: Seq<GroupInfo>, j: int) -> Option<(i64, i64)>
    decreases groups.len(),
{
    if groups.len() == 0 {
        Option::None
    } else {
        spec_merge_bounds(
            total_bounds(groups.drop_last(), j),
            groups.last().columns[j].stats.int_bounds,
        )
    }
}

/// Runs the whole pipeline over parsed records. Fails with
/// `SchemaInference` exactly when the sampled prefix is empty. On success
/// the schema is the inferred one; the surviving rows are exactly the
/// records that decode, in input order, cut into `ceil(rows /
/// block_size)` groups; the returned group index describes the file
/// image's chunks cell-exactly; the aggregated statistics fold the
/// chunks'; and the image ends with the footer's bytes and the 20-byte
/// trailer locating them.
#[verifier::rlimit(100)]
pub fn convert_records(records: &Vec<RawRecord>, opts: &ConvertOptions) -> (r: Result<
    ConvertOutput,
    ConvertError,
>)
    requires
        opts.block_size >= 1,
    ensures
        match r {
            Result::Err(e) => e == ConvertError::SchemaInference && spec_sample_n(
                records@.len() as int,
                opts.sample_size,
            ) == 0,
            Result::Ok(out) => {
                let surv = spec_surviving(out.schema.fields@, records@);
                &&& spec_schema_ok(records@, opts.sample_size, out.schema)
                &&& out.rows_skipped == spec_skipped(out.schema.fields@, records@)
                &&& out.rows_written + out.rows_skipped == records@.len()
                &&& out.rows_written == surv.len()
                &&& (out.rows_written == 0 <==> out.n_groups == 0)
                &&& out.n_groups > 0 ==> (out.n_groups - 1) * opts.block_size < out.rows_written
                    <= out.n_groups * opts.block_size
                &&& out.groups@.len() == out.n_groups
                &&& out.totals@.len() == out.schema.fields@.len()
                &&& forall|g: int|
                    0 <= g < out.groups@.len() ==> 1 <= (#[trigger] out.groups@[g]).n_rows
                        <= opts.block_size && out.groups@[g].columns@.len()
                        == out.schema.fields@.len() && g * opts.block_size + out.groups@[g].n_rows
                        <= surv.len()
                &&& forall|g: int|
                    0 <= g < out.groups@.len() - 1 ==> (#[trigger] out.groups@[g]).n_rows
                        == opts.block_size
                &&& out.groups@.len() > 0 ==> (out.groups@.len() - 1) * opts.block_size
                    + out.groups@[out.groups@.len() - 1].n_rows == surv.len()
                &&& forall|g: int, j: int|
                    0 <= g < out.groups@.len() && 0 <= j < out.schema.fields@.len() ==> chunk_ok(
                        #[trigger] out.groups@[g].columns@[j],
                        group_column_cells(
                            surv,
                            g,
                            opts.block_size as int,
                            out.groups@[g].n_rows as int,
                            j,
                        ),
                        opts.enable_dict,
                        opts.compression,
                        out.bytes@,
                    )
                &&& forall|j: int|
                    0 <= j < out.totals@.len() ==> (#[trigger] out.totals@[j]).null_count
                        == total_null(out.groups@, j) && out.totals@[j].int_bounds == total_bounds(
                        out.groups@,
                        j,
                    )
                &&& ({
                    let fimg = footer_image(
                        out.schema,
                        out.groups@,
                        out.totals@,
                        out.rows_written,
                        out.rows_skipped,
                        opts.compression,
                    );
                    let body_len = out.bytes@.len() - fimg.len() - 20;
                    &&& out.bytes@.len() >= fimg.len() + 20
                    &&& out.bytes@ == out.bytes@.take(body_len) + fimg + u64_le(body_len as u64)
                        + u64_le(fimg.len() as u64) + magic_image()
                })
            },
        },
{
    let schema = match infer_schema(records, opts.sample_size) {
        Result::Err(e) => {
            return Result::Err(e);
        },
        Result::Ok(s) => s,
    };
    // Decode every record; skip and count the rows that fail.
    let n_rec = records.len();
    let mut rows: Vec<Vec<Option<Value>>> = Vec::new();
    let mut skipped: usize = 0;
    for k in 0..n_rec
        invariant
            n_rec == records@.len(),
            spec_schema_ok(records@, opts.sample_size, schema),
            skipped == spec_skipped(schema.fields@, records@.take(k as int)),
            rows@.len() + skipped == k,
            rows_models(rows@) == spec_surviving(schema.fields@, records@.take(k as int)),
            forall|k2: int| 0 <= k2 < rows@.len() ==> #[trigger] row_wf(rows@[k2]@, schema),
            forall|k2: int|
                0 <= k2 < rows@.len() ==> (#[trigger] rows@[k2])@.len() == schema.fields@.len(),
    {
        proof {
            assert(records@.take(k + 1).drop_last() =~= records@.take(k as int));
            assert(records@.take(k + 1).last() == records@[k as int]);
        }
        match decode_row(&schema, &records[k]) {
            Result::Ok(row) => {
                proof {
                    lemma_decode_row_wf(schema.fields@, records@[k as int], cells_model(row@));
                    assert forall|j: int| 0 <= j < row@.len() implies crate::group::cell_ok(
                        #[trigger] row@[j],
                        schema.fields@[j].ty,
                    ) by {
                        assert(cells_model(row@)[j] == crate::value::cell_model(row@[j]));
                    }
                    assert(row_wf(row@, schema));
                }
                let ghost rows_old = rows@;
                rows.push(row);
                proof {
                    assert(rows_models(rows@) =~= rows_models(rows_old).push(
                        cells_model(row@),
                    ));
                }
            },
            Result::Err(_) => {
                skipped = skipped + 1;
            },
        }
    }
    proof {
        assert(records@.take(n_rec as int) =~= records@);
    }
    let ghost surv = spec_surviving(schema.fields@, records@);
    // Batch into row groups and encode.
    let groups: Vec<RowGroup> = build_row_groups(&schema, &rows, opts.block_size);
    let n_all_rows = rows.len();
    let ng = groups.len();
    let nf = schema.len();
    let ghost gschema = schema;
    let mut writer = FileWriter::new(schema, opts.compression);
    proof {
        assert(writer.total_rows == 0);
        assert(0 * opts.block_size == 0) by (nonlinear_arith);
    }
    for g in 0..ng
        invariant
            ng == groups@.len(),
            nf == gschema.fields@.len(),
            n_all_rows == rows@.len(),
            surv == rows_models(rows@),
            surv.len() == rows@.len(),
            writer.wf(),
            writer.schema == gschema,
            spec_schema_ok(records@, opts.sample_size, gschema),
            writer.schema.fields@.len() == nf,
            writer.codec == opts.compression,
            opts.block_size >= 1,
            forall|g2: int| 0 <= g2 < ng ==> (#[trigger] groups@[g2]).wf(gschema),
            forall|g2: int| 0 <= g2 < ng ==> (#[trigger] groups@[g2]).n_rows >= 1,
            forall|g2: int| 0 <= g2 < ng - 1 ==> (#[trigger] groups@[g2]).n_rows
                == opts.block_size,
            forall|g2: int|
                0 <= g2 < ng ==> g2 * opts.block_size + (#[trigger] groups@[g2]).n_rows
                    <= rows@.len(),
            ng > 0 ==> (ng - 1) * opts.block_size + groups@[ng - 1].n_rows == rows@.len(),
            forall|k2: int| 0 <= k2 < rows@.len() ==> (#[trigger] rows@[k2])@.len() == nf,
            forall|g2: int, i: int, j: int|
                0 <= g2 < ng && 0 <= i < groups@[g2].n_rows && 0 <= j
                    < groups@[g2].columns@.len() ==> crate::value::cell_model(
                    #[trigger] groups@[g2].columns@[j].cells@[i],
                ) == crate::value::cell_model(rows@[g2 * opts.block_size + i]@[j]),
            g < ng ==> writer.total_rows == g * opts.block_size,
            g == ng ==> writer.total_rows == rows@.len(),
            writer.total_rows <= rows@.len(),
            writer.groups@.len() == g,
            forall|g2: int|
                0 <= g2 < g ==> (#[trigger] writer.groups@[g2]).n_rows == groups@[g2].n_rows
                    && writer.groups@[g2].columns@.len() == nf,
            forall|g2: int, j: int|
                0 <= g2 < g && 0 <= j < nf ==> chunk_ok(
                    #[trigger] writer.groups@[g2].columns@[j],
                    group_column_cells(
                        surv,
                        g2,
                        opts.block_size as int,
                        groups@[g2].n_rows as int,
                        j,
                    ),
                    opts.enable_dict,
                    opts.compression,
                    writer.out@,
                ),
            forall|j: int|
                0 <= j < nf ==> (#[trigger] writer.totals@[j]).null_count == total_null(
                    writer.groups@,
                    j,
                ) && writer.totals@[j].int_bounds == total_bounds(writer.groups@, j),
    {
        let group = &groups[g];
        let n_rows = group.n_rows;
        let mut blocks: Vec<EncodedBlock> = Vec::new();
        let ghost gcells = |j: int|
            group_column_cells(surv, g as int, opts.block_size as int, n_rows as int, j);
        for j in 0..nf
            invariant
                g < ng,
                ng == groups@.len(),
                nf == gschema.fields@.len(),
                surv == rows_models(rows@),
                opts.block_size >= 1,
                g * opts.block_size + groups@[g as int].n_rows <= rows@.len(),
                groups@[g as int].wf(gschema),
                group == groups@[g as int],
                n_rows == groups@[g as int].n_rows,
                forall|k2: int| 0 <= k2 < rows@.len() ==> (#[trigger] rows@[k2])@.len() == nf,
                forall|i: int, j2: int|
                    0 <= i < groups@[g as int].n_rows && 0 <= j2
                        < groups@[g as int].columns@.len() ==> crate::value::cell_model(
                        #[trigger] groups@[g as int].columns@[j2].cells@[i],
                    ) == crate::value::cell_model(rows@[g * opts.block_size + i]@[j2]),
                gcells == (|j2: int|
                    group_column_cells(
                        surv,
                        g as int,
                        opts.block_size as int,
                        n_rows as int,
                        j2,
                    )),
                blocks@.len() == j,
                forall|j2: int|
                    0 <= j2 < j ==> (#[trigger] blocks@[j2]).stats.null_count <= n_rows,
                forall|j2: int|
                    0 <= j2 < j ==> {
                        let b = #[trigger] blocks@[j2];
                        let cells = gcells(j2);
                        &&& stats_ok(b.stats, cells)
                        &&& (b.kind == EncodingKind::Dictionary <==> (opts.enable_dict
                            && spec_dict_pays(cells)))
                        &&& b.uncompressed_len == spec_block_image(cells, b.kind).len()
                        &&& (opts.compression == Compression::Uncompressed ==> b.payload@
                            == spec_block_image(cells, b.kind))
                        &&& (opts.compression != Compression::Uncompressed ==> rle_expand(
                            b.payload@,
                        ) == Option::Some(spec_block_image(cells, b.kind)))
                    },
        {
            match encode_block(&group.columns[j], opts.enable_dict, opts.compression) {
                Result::Ok(b) => {
                    proof {
                        lemma_null_count_bound(
                            crate::value::cells_model(
                                groups@[g as int].columns@[j as int].cells@,
                            ),
                        );
                        assert(cells_model(groups@[g as int].columns@[j as int].cells@) =~= gcells(
                            j as int,
                        )) by {
                            assert(groups@[g as int].columns@[j as int].cells@.len()
                                == n_rows as int);
                            assert forall|i: int| 0 <= i < n_rows as int implies cells_model(
                                groups@[g as int].columns@[j as int].cells@,
                            )[i] == gcells(j as int)[i] by {
                                let k = g * opts.block_size + i;
                                assert(cells_model(
                                    groups@[g as int].columns@[j as int].cells@,
                                )[i] == crate::value::cell_model(
                                    groups@[g as int].columns@[j as int].cells@[i],
                                ));
                                assert(rows_models(rows@)[k] == cells_model(rows@[k]@));
                                assert(surv[k] == cells_model(rows@[k]@));
                                assert(rows@[k]@.len() == nf);
                                assert(cells_model(rows@[k]@)[j as int]
                                    == crate::value::cell_model(rows@[k]@[j as int]));
                                assert(gcells(j as int)[i] == surv[k][j as int]);
                            }
                        }
                    }
                    blocks.push(b);
                },
                Result::Err(_) => {
                    // Unreachable: the group invariant makes every column
                    // well-typed.
                    proof {
                        assert(groups@[g as int].wf(gschema));
                        assert(groups@[g as int].columns@.len() == gschema.fields@.len());
                        assert(groups@[g as int].columns@[j as int].wf());
                        assert(false);
                    }
                    return Result::Err(ConvertError::Encoding);
                },
            }
        }
        proof {
            assert(g * opts.block_size + groups@[g as int].n_rows <= rows@.len());
            if g + 1 < ng {
                assert(groups@[g as int].n_rows == opts.block_size);
                assert((g + 1) * opts.block_size == g * opts.block_size + opts.block_size)
                    by (nonlinear_arith);
            }
        }
        let ghost writer_old = writer;
        writer.append_group(&blocks, n_rows);
        proof {
            assert(writer.total_rows <= rows@.len());
            if g + 1 == ng {
                assert((ng - 1) * opts.block_size + groups@[ng - 1].n_rows == rows@.len());
            }
            // The new group's chunks satisfy `chunk_ok`, and the old ones
            // keep it: the image only grew at the end.
            let gnew = writer.groups@.len() - 1;
            assert(writer.groups@[gnew] == writer.groups@.last());
            assert forall|g2: int, j: int|
                0 <= g2 < g + 1 && 0 <= j < nf implies chunk_ok(
                #[trigger] writer.groups@[g2].columns@[j],
                group_column_cells(
                    surv,
                    g2,
                    opts.block_size as int,
                    groups@[g2].n_rows as int,
                    j,
                ),
                opts.enable_dict,
                opts.compression,
                writer.out@,
            ) by {
                if g2 < g {
                    assert(writer.groups@.take(writer_old.groups@.len() as int)[g2]
                        == writer.groups@[g2]);
                    assert(writer.groups@[g2] == writer_old.groups@[g2]);
                    let ch = writer.groups@[g2].columns@[j];
                    assert(chunk_ok(
                        ch,
                        group_column_cells(
                            surv,
                            g2,
                            opts.block_size as int,
                            groups@[g2].n_rows as int,
                            j,
                        ),
                        opts.enable_dict,
                        opts.compression,
                        writer_old.out@,
                    ));
                    assert(writer.out@.subrange(ch.offset as int, ch.offset + ch.comp_len)
                        =~= writer_old.out@.subrange(ch.offset as int, ch.offset + ch.comp_len))
                        by {
                        assert forall|q: int|
                            ch.offset <= q < ch.offset + ch.comp_len implies writer.out@[q]
                            == writer_old.out@[q] by {
                            assert(writer.out@.take(writer_old.out@.len() as int)[q]
                                == writer.out@[q]);
                        }
                    }
                } else {
                    assert(writer.groups@[g2] == writer.groups@.last());
                    let ch = writer.groups@.last().columns@[j];
                    assert(ch.kind == blocks@[j].kind && ch.stats == blocks@[j].stats
                        && ch.uncomp_len == blocks@[j].uncompressed_len && ch.comp_len
                        == blocks@[j].payload@.len());
                    assert(writer.out@.subrange(ch.offset as int, ch.offset + ch.comp_len)
                        == blocks@[j].payload@);
                }
            }
            // Totals keep folding the per-group statistics.
            assert forall|j: int|
                0 <= j < nf implies (#[trigger] writer.totals@[j]).null_count == total_null(
                writer.groups@,
                j,
            ) && writer.totals@[j].int_bounds == total_bounds(writer.groups@, j) by {
                assert(writer.groups@.drop_last() =~= writer_old.groups@);
                assert(writer.groups@.last().columns@[j] == writer.groups@.last().columns@[j]);
                assert(writer.totals@[j].null_count == writer_old.totals@[j].null_count
                    + blocks@[j].stats.null_count);
                assert(writer.groups@.last().columns@[j].stats == blocks@[j].stats);
            }
            assert forall|g2: int|
                0 <= g2 < g + 1 implies (#[trigger] writer.groups@[g2]).n_rows
                == groups@[g2].n_rows && writer.groups@[g2].columns@.len() == nf by {
                if g2 < g {
                    assert(writer.groups@.take(writer_old.groups@.len() as int)[g2]
                        == writer.groups@[g2]);
                    assert(writer.groups@[g2] == writer_old.groups@[g2]);
                }
            }
        }
    }
    let rows_written = rows.len();
    proof {
        if ng > 0 {
            assert((ng - 1) * opts.block_size + groups@[ng - 1].n_rows == rows@.len());
            assert(groups@[ng - 1].n_rows <= opts.block_size);
            assert(ng * opts.block_size == (ng - 1) * opts.block_size + opts.block_size)
                by (nonlinear_arith);
        }
    }
    let ghost writer_before = writer;
    finish_file(&mut writer, skipped);
    proof {
        let fimg = footer_image(
            gschema,
            writer.groups@,
            writer.totals@,
            rows_written,
            skipped,
            opts.compression,
        );
        assert(writer.out@ == writer_before.out@ + fimg + u64_le(
            writer_before.out@.len() as u64,
        ) + u64_le(fimg.len() as u64) + magic_image());
        assert(writer.out@.take(writer.out@.len() - fimg.len() - 20) =~= writer_before.out@);
        // The old subranges survive the appended footer and trailer.
        assert forall|g2: int, j: int|
            0 <= g2 < ng && 0 <= j < nf implies chunk_ok(
            #[trigger] writer.groups@[g2].columns@[j],
            group_column_cells(
                surv,
                g2,
                opts.block_size as int,
                groups@[g2].n_rows as int,
                j,
            ),
            opts.enable_dict,
            opts.compression,
            writer.out@,
        ) by {
            let ch = writer.groups@[g2].columns@[j];
            assert(chunk_ok(
                ch,
                group_column_cells(
                    surv,
                    g2,
                    opts.block_size as int,
                    groups@[g2].n_rows as int,
                    j,
                ),
                opts.enable_dict,
                opts.compression,
                writer_before.out@,
            ));
            assert(writer.out@.subrange(ch.offset as int, ch.offset + ch.comp_len)
                =~= writer_before.out@.subrange(ch.offset as int, ch.offset + ch.comp_len)) by {
                assert forall|q: int|
                    ch.offset <= q < ch.offset + ch.comp_len implies writer.out@[q]
                    == writer_before.out@[q] by {
                    assert(writer.out@.take(writer.out@.len() - fimg.len() - 20)[q]
                        == writer.out@[q]);
                }
            }
        }
    }
    let out_schema = writer.schema;
    let bytes = writer.out;
    let out_groups = writer.groups;
    let out_totals = writer.totals;
    Result::Ok(
        ConvertOutput {
            bytes,
            schema: out_schema,
            groups: out_groups,
            totals: out_totals,
            rows_written,
            rows_skipped: skipped,
            n_groups: ng,
        },
    )
}

} // verus!
