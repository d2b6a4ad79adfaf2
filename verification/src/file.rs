//! The file image: row-group blocks, a trailing footer, and a fixed-size
//! trailer.
//!
//! A file is laid out as every group's column payloads in order, then a
//! footer (schema, per-group block index with offsets and statistics,
//! aggregated statistics, row counts), then a 20-byte trailer: the
//! footer's offset (8 bytes), its length (8 bytes), and a 4-byte marker.
//! A reader seeks to the trailer, then the footer, then any block. The
//! writer's contracts pin the produced bytes exactly: every payload's
//! placement (`append_group`), and the footer and trailer images
//! (`finish_file`, `footer_image`). The parser is total over arbitrary
//! bytes; that it accepts every writer-produced image is exercised by
//! the round-trip tests, not proved.

use vstd::prelude::*;

use vstd::string::StringSliceAdditionalSpecFns;
use vstd::utf8::encode_utf8;

use crate::ConvertError;
use crate::bytes::{push_u64, read_u64, u64_le, decode_cells, string_from_utf8};
use crate::encode::dict_decode;
use crate::codec::{Compression, decompress};
use crate::encode::{ColumnStats, EncodedBlock, EncodingKind};
use crate::schema::{Field, Schema};
use crate::value::{LogicalType, Value};

verus! {

/// Where one column's compressed block sits in the file, and what it
/// holds.
#[derive(Debug, Clone)]
pub struct ColumnChunk {
    pub kind: EncodingKind,
    pub offset: usize,
    pub comp_len: usize,
    pub uncomp_len: usize,
    pub stats: ColumnStats,
}

/// The footer's record of one row group.
#[derive(Debug, Clone)]
pub struct GroupInfo {
    pub n_rows: usize,
    pub columns: Vec<ColumnChunk>,
}

/// Merging two optional integer ranges.
pub open spec fn spec_merge_bounds(a: Option<(i64, i64)>, b: Option<(i64, i64)>) -> Option<
    (i64, i64),
> {
    match a {
        Option::None => b,
        Option::Some((alo, ahi)) => match b {
            Option::None => a,
            Option::Some((blo, bhi)) => Option::Some(
                (if blo < alo { blo } else { alo }, if bhi > ahi { bhi } else { ahi }),
            ),
        },
    }
}

/// Executable twin of `spec_merge_bounds`.
fn merge_bounds(a: Option<(i64, i64)>, b: Option<(i64, i64)>) -> (r: Option<(i64, i64)>)
    ensures
        r == spec_merge_bounds(a, b),
{
    match a {
        Option::None => b,
        Option::Some((alo, ahi)) => match b {
            Option::None => Option::Some((alo, ahi)),
            Option::Some((blo, bhi)) => Option::Some(
                (
                    if blo < alo {
                        blo
                    } else {
                        alo
                    },
                    if bhi > ahi {
                        bhi
                    } else {
                        ahi
                    },
                ),
            ),
        },
    }
}

/// The concatenation of the blocks' compressed payloads, in order.
pub open spec fn payloads_image(blocks: Seq<EncodedBlock>) -> Seq<u8>
    decreases blocks.len(),
{
    if blocks.len() == 0 {
        Seq::empty()
    } else {
        payloads_image(blocks.drop_last()) + blocks.last().payload@
    }
}

/// Accepts encoded row groups in arrival order, writes them at the
/// running offset, aggregates statistics, and finalizes the image with a
/// footer and trailer.
#[derive(Debug)]
pub struct FileWriter {
    pub out: Vec<u8>,
    pub schema: Schema,
    pub codec: Compression,
    pub groups: Vec<GroupInfo>,
    pub totals: Vec<ColumnStats>,
    pub total_rows: usize,
}

impl FileWriter {
    /// One aggregate per field, and no more recorded nulls than rows.
    pub open spec fn wf(self) -> bool {
        &&& self.totals@.len() == self.schema.fields@.len()
        &&& forall|j: int|
            0 <= j < self.totals@.len() ==> (#[trigger] self.totals@[j]).null_count
                <= self.total_rows
    }

    /// A fresh writer: no bytes, no groups, zeroed statistics.
    pub fn new(schema: Schema, codec: Compression) -> (r: FileWriter)
        ensures
            r.wf(),
            r.out@.len() == 0,
            r.groups@.len() == 0,
            r.total_rows == 0,
            r.schema == schema,
            r.codec == codec,
            r.totals@.len() == schema.fields@.len(),
            forall|j: int|
                0 <= j < r.totals@.len() ==> #[trigger] r.totals@[j] == (ColumnStats {
                    null_count: 0,
                    int_bounds: Option::None,
                }),
    {
        let nf = schema.len();
        let mut totals: Vec<ColumnStats> = Vec::new();
        for j in 0..nf
            invariant
                totals@.len() == j,
                forall|j2: int|
                    0 <= j2 < j ==> #[trigger] totals@[j2] == (ColumnStats {
                        null_count: 0,
                        int_bounds: Option::None,
                    }),
        {
            totals.push(ColumnStats { null_count: 0, int_bounds: Option::None });
        }
        FileWriter { out: Vec::new(), schema, codec, groups: Vec::new(), totals, total_rows: 0 }
    }

    /// Appends one row group: writes every block's payload, records the
    /// chunk index for the footer, and folds each block's statistics into
    /// its column's aggregate.
    pub fn append_group(&mut self, blocks: &Vec<EncodedBlock>, n_rows: usize)
        requires
            old(self).wf(),
            blocks@.len() == old(self).schema.fields@.len(),
            forall|j: int|
                0 <= j < blocks@.len() ==> (#[trigger] blocks@[j]).stats.null_count <= n_rows,
            old(self).total_rows + n_rows <= usize::MAX,
        ensures
            final(self).wf(),
            final(self).schema == old(self).schema,
            final(self).codec == old(self).codec,
            final(self).total_rows == old(self).total_rows + n_rows,
            final(self).groups@.len() == old(self).groups@.len() + 1,
            final(self).groups@.take(old(self).groups@.len() as int) == old(self).groups@,
            final(self).groups@.last().n_rows == n_rows,
            final(self).groups@.last().columns@.len() == blocks@.len(),
            final(self).out@ == old(self).out@ + payloads_image(blocks@),
            forall|j: int|
                0 <= j < blocks@.len() ==> {
                    let ch = #[trigger] final(self).groups@.last().columns@[j];
                    ch.kind == blocks@[j].kind && ch.stats == blocks@[j].stats && ch.uncomp_len
                        == blocks@[j].uncompressed_len && ch.comp_len == blocks@[j].payload@.len()
                        && ch.offset == old(self).out@.len() + payloads_image(
                        blocks@.take(j),
                    ).len() && ch.offset + ch.comp_len <= final(self).out@.len()
                        && final(self).out@.subrange(ch.offset as int, ch.offset + ch.comp_len)
                        == blocks@[j].payload@
                },
            forall|j: int|
                0 <= j < blocks@.len() ==> (#[trigger] final(self).totals@[j]).null_count
                    == old(self).totals@[j].null_count + blocks@[j].stats.null_count
                    && final(self).totals@[j].int_bounds == spec_merge_bounds(
                    old(self).totals@[j].int_bounds,
                    blocks@[j].stats.int_bounds,
                ),
    {
        let nb = blocks.len();
        let mut chunks: Vec<ColumnChunk> = Vec::new();
        let ghost totals0 = self.totals@;
        for j in 0..nb
            invariant
                nb == blocks@.len(),
                nb == old(self).schema.fields@.len(),
                self.schema == old(self).schema,
                self.codec == old(self).codec,
                self.groups@ == old(self).groups@,
                self.total_rows == old(self).total_rows,
                self.totals@.len() == totals0.len(),
                totals0 == old(self).totals@,
                old(self).wf(),
                forall|j2: int|
                    0 <= j2 < blocks@.len() ==> (#[trigger] blocks@[j2]).stats.null_count
                        <= n_rows,
                old(self).total_rows + n_rows <= usize::MAX,
                chunks@.len() == j,
                self.out@ == old(self).out@ + payloads_image(blocks@.take(j as int)),
                forall|j2: int|
                    0 <= j2 < j ==> {
                        let ch = #[trigger] chunks@[j2];
                        ch.kind == blocks@[j2].kind && ch.stats == blocks@[j2].stats
                            && ch.uncomp_len == blocks@[j2].uncompressed_len && ch.comp_len
                            == blocks@[j2].payload@.len() && ch.offset == old(self).out@.len()
                            + payloads_image(blocks@.take(j2)).len() && ch.offset + ch.comp_len
                            <= self.out@.len() && self.out@.subrange(
                            ch.offset as int,
                            ch.offset + ch.comp_len,
                        ) == blocks@[j2].payload@
                    },
                forall|j2: int|
                    0 <= j2 < j ==> (#[trigger] self.totals@[j2]).null_count
                        == totals0[j2].null_count + blocks@[j2].stats.null_count
                        && self.totals@[j2].int_bounds == spec_merge_bounds(
                        totals0[j2].int_bounds,
                        blocks@[j2].stats.int_bounds,
                    ),
                forall|j2: int| j <= j2 < nb ==> #[trigger] self.totals@[j2] == totals0[j2],
        {
            let offset = self.out.len();
            let m = blocks[j].payload.len();
            let ghost totals_entry = self.totals@;
            let ghost out_entry = self.out@;
            let mut k: usize = 0;
            while k < m
                invariant
                    k <= m,
                    j < nb,
                    nb == blocks@.len(),
                    m == blocks@[j as int].payload@.len(),
                    self.schema == old(self).schema,
                    self.codec == old(self).codec,
                    self.groups@ == old(self).groups@,
                    self.total_rows == old(self).total_rows,
                    self.totals@ == totals_entry,
                    self.out@ == out_entry + blocks@[j as int].payload@.take(k as int),
                decreases m - k,
            {
                let b = blocks[j].payload[k];
                self.out.push(b);
                proof {
                    assert(blocks@[j as int].payload@.take(k + 1) =~= blocks@[j as int].payload@
                        .take(k as int).push(blocks@[j as int].payload@[k as int]));
                    assert(self.out@ =~= out_entry + blocks@[j as int].payload@.take(k + 1));
                }
                k = k + 1;
            }
            proof {
                assert(blocks@[j as int].payload@.take(m as int) =~= blocks@[j as int].payload@);
                assert(blocks@.take(j + 1).drop_last() =~= blocks@.take(j as int));
                assert(blocks@.take(j + 1).last() == blocks@[j as int]);
                assert(self.out@ =~= old(self).out@ + payloads_image(blocks@.take(j + 1)));
                assert(self.out@.subrange(offset as int, offset + m) =~= blocks@[j as int]
                    .payload@);
                // Earlier chunks end before `offset`, so their bytes stand.
                assert forall|j2: int|
                    0 <= j2 < j implies self.out@.subrange(
                    (#[trigger] chunks@[j2]).offset as int,
                    chunks@[j2].offset + chunks@[j2].comp_len,
                ) == blocks@[j2].payload@ by {
                    let ch = chunks@[j2];
                    assert(ch.offset + ch.comp_len <= out_entry.len());
                    assert(self.out@.subrange(ch.offset as int, ch.offset + ch.comp_len)
                        =~= out_entry.subrange(ch.offset as int, ch.offset + ch.comp_len)) by {
                        assert forall|q: int|
                            ch.offset <= q < ch.offset + ch.comp_len implies self.out@[q]
                            == out_entry[q] by {
                            assert(self.out@ == out_entry + blocks@[j as int].payload@.take(
                                m as int,
                            ));
                        }
                    }
                }
            }
            let block = &blocks[j];
            chunks.push(
                ColumnChunk {
                    kind: block.kind,
                    offset,
                    comp_len: m,
                    uncomp_len: block.uncompressed_len,
                    stats: block.stats,
                },
            );
            let old_total = self.totals[j];
            let nc = old_total.null_count + block.stats.null_count;
            let nb2 = merge_bounds(old_total.int_bounds, block.stats.int_bounds);
            self.totals[j] = ColumnStats { null_count: nc, int_bounds: nb2 };
        }
        proof {
            assert(blocks@.take(nb as int) =~= blocks@);
        }
        self.groups.push(GroupInfo { n_rows, columns: chunks });
        self.total_rows = self.total_rows + n_rows;
        proof {
            assert(self.groups@.take(old(self).groups@.len() as int) =~= old(self).groups@);
        }
    }
}

/// The four bytes that end every file image.
pub open spec fn magic_image() -> Seq<u8> {
    seq![0x4au8, 0x43u8, 0x46u8, 0x31u8]
}

/// Executable twin of `magic_image`.
pub fn magic_bytes() -> (r: Vec<u8>)
    ensures
        r@ == magic_image(),
{
    let mut m: Vec<u8> = Vec::new();
    m.push(0x4a);
    m.push(0x43);
    m.push(0x46);
    m.push(0x31);
    proof {
        assert(m@ =~= magic_image());
    }
    m
}

/// The byte each logical type is stored as.
pub open spec fn type_byte(t: LogicalType) -> u8 {
    match t {
        LogicalType::Boolean => 1,
        LogicalType::Integer => 2,
        LogicalType::Float => 3,
        LogicalType::Text => 4,
        LogicalType::NullOnly => 5,
        LogicalType::Mixed => 6,
    }
}

/// One byte per logical type.
fn type_to_byte(t: LogicalType) -> (r: u8)
    ensures
        r == type_byte(t),
        byte_to_type_spec(r) == Option::Some(t),
{
    match t {
        LogicalType::Boolean => 1,
        LogicalType::Integer => 2,
        LogicalType::Float => 3,
        LogicalType::Text => 4,
        LogicalType::NullOnly => 5,
        LogicalType::Mixed => 6,
    }
}

/// The logical type a byte stands for, if any.
pub open spec fn byte_to_type_spec(b: u8) -> Option<LogicalType> {
    if b == 1 {
        Option::Some(LogicalType::Boolean)
    } else if b == 2 {
        Option::Some(LogicalType::Integer)
    } else if b == 3 {
        Option::Some(LogicalType::Float)
    } else if b == 4 {
        Option::Some(LogicalType::Text)
    } else if b == 5 {
        Option::Some(LogicalType::NullOnly)
    } else if b == 6 {
        Option::Some(LogicalType::Mixed)
    } else {
        Option::None
    }
}

/// Executable twin of `byte_to_type_spec`.
fn byte_to_type(b: u8) -> (r: Option<LogicalType>)
    ensures
        r == byte_to_type_spec(b),
{
    if b == 1 {
        Option::Some(LogicalType::Boolean)
    } else if b == 2 {
        Option::Some(LogicalType::Integer)
    } else if b == 3 {
        Option::Some(LogicalType::Float)
    } else if b == 4 {
        Option::Some(LogicalType::Text)
    } else if b == 5 {
        Option::Some(LogicalType::NullOnly)
    } else if b == 6 {
        Option::Some(LogicalType::Mixed)
    } else {
        Option::None
    }
}

/// The byte each compression setting is stored as.
pub open spec fn codec_byte(c: Compression) -> u8 {
    match c {
        Compression::Uncompressed => 0,
        Compression::FastGeneric => 1,
        Compression::BalancedGeneric => 2,
        Compression::HighRatioGeneric => 3,
    }
}

/// One byte per compression setting.
fn codec_to_byte(c: Compression) -> (r: u8)
    ensures
        r == codec_byte(c),
{
    match c {
        Compression::Uncompressed => 0,
        Compression::FastGeneric => 1,
        Compression::BalancedGeneric => 2,
        Compression::HighRatioGeneric => 3,
    }
}

/// The compression setting a byte stands for, if any.
fn byte_to_codec(b: u8) -> Option<Compression> {
    if b == 0 {
        Option::Some(Compression::Uncompressed)
    } else if b == 1 {
        Option::Some(Compression::FastGeneric)
    } else if b == 2 {
        Option::Some(Compression::BalancedGeneric)
    } else if b == 3 {
        Option::Some(Compression::HighRatioGeneric)
    } else {
        Option::None
    }
}

/// The byte form of one statistics record.
pub open spec fn stats_image(s: ColumnStats) -> Seq<u8> {
    u64_le(s.null_count as u64) + (match s.int_bounds {
        Option::None => seq![0u8] + u64_le(0) + u64_le(0),
        Option::Some((lo, hi)) => seq![1u8] + u64_le(lo as u64) + u64_le(hi as u64),
    })
}

/// The byte form of one schema field.
pub open spec fn field_image(f: Field) -> Seq<u8> {
    u64_le(encode_utf8(f.name@).len() as u64) + encode_utf8(f.name@) + seq![type_byte(f.ty)]
        + seq![
        if f.nullable {
            1u8
        } else {
            0u8
        },
    ]
}

/// The byte form of a field sequence, in order.
pub open spec fn fields_image(fs: Seq<Field>) -> Seq<u8>
    decreases fs.len(),
{
    if fs.len() == 0 {
        Seq::empty()
    } else {
        fields_image(fs.drop_last()) + field_image(fs.last())
    }
}

/// The byte form of one chunk record.
pub open spec fn chunk_image(ch: ColumnChunk) -> Seq<u8> {
    u64_le(ch.offset as u64) + u64_le(ch.comp_len as u64) + u64_le(ch.uncomp_len as u64) + seq![
        match ch.kind {
            EncodingKind::Plain => 0u8,
            EncodingKind::Dictionary => 1u8,
        },
    ] + stats_image(ch.stats)
}

/// The byte form of a chunk sequence, in order.
pub open spec fn chunks_image(chs: Seq<ColumnChunk>) -> Seq<u8>
    decreases chs.len(),
{
    if chs.len() == 0 {
        Seq::empty()
    } else {
        chunks_image(chs.drop_last()) + chunk_image(chs.last())
    }
}

/// The byte form of one group record.
pub open spec fn group_image(g: GroupInfo) -> Seq<u8> {
    u64_le(g.n_rows as u64) + u64_le(g.columns@.len() as u64) + chunks_image(g.columns@)
}

/// The byte form of a group sequence, in order.
pub open spec fn groups_image(gs: Seq<GroupInfo>) -> Seq<u8>
    decreases gs.len(),
{
    if gs.len() == 0 {
        Seq::empty()
    } else {
        groups_image(gs.drop_last()) + group_image(gs.last())
    }
}

/// The byte form of the aggregated statistics, in order.
pub open spec fn totals_image(ts: Seq<ColumnStats>) -> Seq<u8>
    decreases ts.len(),
{
    if ts.len() == 0 {
        Seq::empty()
    } else {
        totals_image(ts.drop_last()) + stats_image(ts.last())
    }
}

/// The byte form of a whole footer.
pub open spec fn footer_image(
    schema: Schema,
    groups: Seq<GroupInfo>,
    totals: Seq<ColumnStats>,
    total_rows: usize,
    skipped_rows: usize,
    codec: Compression,
) -> Seq<u8> {
    seq![codec_byte(codec)] + u64_le(schema.fields@.len() as u64) + fields_image(schema.fields@)
        + u64_le(groups.len() as u64) + groups_image(groups) + u64_le(totals.len() as u64)
        + totals_image(totals) + u64_le(total_rows as u64) + u64_le(skipped_rows as u64)
}

/// Serializes one statistics record.
fn push_stats(out: &mut Vec<u8>, s: &ColumnStats)
    ensures
        final(out)@ == old(out)@ + stats_image(*s),
{
    let ghost out0 = out@;
    push_u64(out, s.null_count as u64);
    match s.int_bounds {
        Option::None => {
            out.push(0u8);
            push_u64(out, 0);
            push_u64(out, 0);
        },
        Option::Some((lo, hi)) => {
            out.push(1u8);
            push_u64(out, lo as u64);
            push_u64(out, hi as u64);
        },
    }
    proof {
        assert(out@ =~= out0 + stats_image(*s));
    }
}

/// Reads one statistics record at `p`.
fn read_stats(data: &Vec<u8>, p: usize) -> (r: Result<(ColumnStats, usize), ConvertError>)
    requires
        p <= data@.len(),
    ensures
        match r {
            Result::Ok((s, q)) => p <= q <= data@.len(),
            Result::Err(e) => e == ConvertError::CorruptFile,
        },
{
    if data.len() - p < 25 {
        return Result::Err(ConvertError::CorruptFile);
    }
    let nulls64 = read_u64(data, p);
    if nulls64 > usize::MAX as u64 {
        return Result::Err(ConvertError::CorruptFile);
    }
    let tag = data[p + 8];
    let lo = read_u64(data, p + 9);
    let hi = read_u64(data, p + 17);
    let bounds: Option<(i64, i64)> = if tag == 0 {
        Option::None
    } else if tag == 1 {
        Option::Some(
            (#[verifier::truncate] (lo as i64), #[verifier::truncate] (hi as i64)),
        )
    } else {
        return Result::Err(ConvertError::CorruptFile);
    };
    Result::Ok((ColumnStats { null_count: nulls64 as usize, int_bounds: bounds }, p + 25))
}

/// Finalizes the image: appends the footer (schema, group index,
/// aggregated statistics, row counts) and the fixed-size trailer.
pub fn finish_file(w: &mut FileWriter, skipped_rows: usize)
    ensures
        final(w).schema == old(w).schema,
        final(w).codec == old(w).codec,
        final(w).groups@ == old(w).groups@,
        final(w).totals@ == old(w).totals@,
        final(w).total_rows == old(w).total_rows,
        ({
            let fimg = footer_image(
                old(w).schema,
                old(w).groups@,
                old(w).totals@,
                old(w).total_rows,
                skipped_rows,
                old(w).codec,
            );
            final(w).out@ == old(w).out@ + fimg + u64_le(old(w).out@.len() as u64) + u64_le(
                fimg.len() as u64,
            ) + magic_image()
        }),
{
    let ghost fimg = footer_image(
        old(w).schema,
        old(w).groups@,
        old(w).totals@,
        old(w).total_rows,
        skipped_rows,
        old(w).codec,
    );
    let footer_offset = w.out.len();
    let mut fb: Vec<u8> = Vec::new();
    fb.push(codec_to_byte(w.codec));
    let nf = w.schema.fields.len();
    push_u64(&mut fb, nf as u64);
    let ghost head = seq![codec_byte(old(w).codec)] + u64_le(nf as u64);
    proof {
        assert(fb@ =~= head);
    }
    for j in 0..nf
        invariant
            nf == w.schema.fields@.len(),
            w == old(w),
            head == seq![codec_byte(old(w).codec)] + u64_le(nf as u64),
            fb@ == head + fields_image(w.schema.fields@.take(j as int)),
    {
        let ghost f = w.schema.fields@[j as int];
        let ghost fb0 = fb@;
        let name_bytes = vstd::string::StrSliceExecFns::as_bytes_vec(
            w.schema.fields[j].name.as_str(),
        );
        proof {
            assert(name_bytes@ == encode_utf8(f.name@));
        }
        push_u64(&mut fb, name_bytes.len() as u64);
        let m = name_bytes.len();
        let ghost fb1 = fb@;
        for k in 0..m
            invariant
                m == name_bytes@.len(),
                fb@ == fb1 + name_bytes@.take(k as int),
        {
            fb.push(name_bytes[k]);
            proof {
                assert(name_bytes@.take(k + 1) =~= name_bytes@.take(k as int).push(
                    name_bytes@[k as int],
                ));
                assert(fb@ =~= fb1 + name_bytes@.take(k + 1));
            }
        }
        fb.push(type_to_byte(w.schema.fields[j].ty));
        fb.push(if w.schema.fields[j].nullable {
            1u8
        } else {
            0u8
        });
        proof {
            assert(name_bytes@.take(m as int) =~= name_bytes@);
            assert(fb@ =~= fb0 + field_image(f));
            assert(w.schema.fields@.take(j + 1).drop_last() =~= w.schema.fields@.take(j as int));
            assert(w.schema.fields@.take(j + 1).last() == f);
            assert(fb@ =~= head + fields_image(w.schema.fields@.take(j + 1)));
        }
    }
    proof {
        assert(w.schema.fields@.take(nf as int) =~= w.schema.fields@);
    }
    let ng = w.groups.len();
    push_u64(&mut fb, ng as u64);
    let ghost head2 = fb@;
    for g in 0..ng
        invariant
            ng == w.groups@.len(),
            w == old(w),
            fb@ == head2 + groups_image(w.groups@.take(g as int)),
    {
        let ghost grp = w.groups@[g as int];
        let ghost fb0 = fb@;
        push_u64(&mut fb, w.groups[g].n_rows as u64);
        let nc = w.groups[g].columns.len();
        push_u64(&mut fb, nc as u64);
        let ghost fb1 = fb@;
        for j in 0..nc
            invariant
                g < ng,
                ng == w.groups@.len(),
                w == old(w),
                grp == w.groups@[g as int],
                nc == w.groups@[g as int].columns@.len(),
                fb@ == fb1 + chunks_image(grp.columns@.take(j as int)),
        {
            let ghost fb2 = fb@;
            let ch = &w.groups[g].columns[j];
            push_u64(&mut fb, ch.offset as u64);
            push_u64(&mut fb, ch.comp_len as u64);
            push_u64(&mut fb, ch.uncomp_len as u64);
            fb.push(match ch.kind {
                EncodingKind::Plain => 0u8,
                EncodingKind::Dictionary => 1u8,
            });
            let stats = ch.stats;
            push_stats(&mut fb, &stats);
            proof {
                assert(fb@ =~= fb2 + chunk_image(grp.columns@[j as int]));
                assert(grp.columns@.take(j + 1).drop_last() =~= grp.columns@.take(j as int));
                assert(grp.columns@.take(j + 1).last() == grp.columns@[j as int]);
                assert(fb@ =~= fb1 + chunks_image(grp.columns@.take(j + 1)));
            }
        }
        proof {
            assert(grp.columns@.take(nc as int) =~= grp.columns@);
            assert(fb@ =~= fb0 + group_image(grp));
            assert(w.groups@.take(g + 1).drop_last() =~= w.groups@.take(g as int));
            assert(w.groups@.take(g + 1).last() == grp);
            assert(fb@ =~= head2 + groups_image(w.groups@.take(g + 1)));
        }
    }
    proof {
        assert(w.groups@.take(ng as int) =~= w.groups@);
    }
    let nt = w.totals.len();
    push_u64(&mut fb, nt as u64);
    let ghost head3 = fb@;
    for j in 0..nt
        invariant
            nt == w.totals@.len(),
            w == old(w),
            fb@ == head3 + totals_image(w.totals@.take(j as int)),
    {
        let ghost fb0 = fb@;
        let stats = w.totals[j];
        push_stats(&mut fb, &stats);
        proof {
            assert(w.totals@.take(j + 1).drop_last() =~= w.totals@.take(j as int));
            assert(w.totals@.take(j + 1).last() == w.totals@[j as int]);
            assert(fb@ =~= head3 + totals_image(w.totals@.take(j + 1)));
        }
    }
    proof {
        assert(w.totals@.take(nt as int) =~= w.totals@);
    }
    push_u64(&mut fb, w.total_rows as u64);
    push_u64(&mut fb, skipped_rows as u64);
    proof {
        assert(fb@ =~= fimg);
    }
    let fl = fb.len();
    let m = fb.len();
    for k in 0..m
        invariant
            m == fb@.len(),
            fb@ == fimg,
            w.schema == old(w).schema,
            w.codec == old(w).codec,
            w.groups@ == old(w).groups@,
            w.totals@ == old(w).totals@,
            w.total_rows == old(w).total_rows,
            footer_offset == old(w).out@.len(),
            w.out@ == old(w).out@ + fb@.take(k as int),
    {
        w.out.push(fb[k]);
        proof {
            assert(fb@.take(k + 1) =~= fb@.take(k as int).push(fb@[k as int]));
            assert(w.out@ =~= old(w).out@ + fb@.take(k + 1));
        }
    }
    proof {
        assert(fb@.take(m as int) =~= fb@);
    }
    push_u64(&mut w.out, footer_offset as u64);
    push_u64(&mut w.out, fl as u64);
    let magic = magic_bytes();
    w.out.push(magic[0]);
    w.out.push(magic[1]);
    w.out.push(magic[2]);
    w.out.push(magic[3]);
    proof {
        assert(w.out@ =~= old(w).out@ + fimg + u64_le(old(w).out@.len() as u64) + u64_le(
            fimg.len() as u64,
        ) + magic_image());
    }
}


/// Everything a reader recovers from a file image: the schema, the
/// footer's records, and the rows themselves in original order.
#[derive(Debug)]
pub struct FileData {
    pub schema: Schema,
    pub codec: Compression,
    pub groups: Vec<GroupInfo>,
    pub totals: Vec<ColumnStats>,
    pub total_rows: usize,
    pub skipped_rows: usize,
    pub rows: Vec<Vec<Option<Value>>>,
}

/// Reads the 64-bit integer at `*p` within `[.., fend)` and advances.
fn take_u64(data: &Vec<u8>, p: &mut usize, fend: usize) -> (r: Result<u64, ConvertError>)
    requires
        *old(p) <= fend <= data@.len(),
    ensures
        *old(p) <= *final(p) <= fend,
        r is Err ==> r == Result::<u64, ConvertError>::Err(ConvertError::CorruptFile),
{
    if fend - *p < 8 {
        return Result::Err(ConvertError::CorruptFile);
    }
    let v = read_u64(data, *p);
    *p = *p + 8;
    Result::Ok(v)
}

/// Converts a stored 64-bit count to an in-memory size.
fn to_size(v: u64) -> (r: Result<usize, ConvertError>)
    ensures
        r matches Result::Ok(n) ==> n == v,
        r is Err ==> r == Result::<usize, ConvertError>::Err(ConvertError::CorruptFile),
{
    if v > usize::MAX as u64 {
        return Result::Err(ConvertError::CorruptFile);
    }
    Result::Ok(v as usize)
}

/// Parses a whole file image back into its schema, footer records and
/// rows; fails with `CorruptFile` on anything the writer cannot have
/// produced. On success the image ends in the 4-byte marker, every
/// recovered row is aligned to the recovered schema, and the rows tile
/// the recovered groups. That the parser accepts every writer-produced
/// image is exercised by the round-trip tests; it is not proved here.
pub fn read_file(data: &Vec<u8>) -> (r: Result<FileData, ConvertError>)
    ensures
        match r {
            Result::Ok(fd) => {
                &&& data@.len() >= 20
                &&& data@.subrange(data@.len() - 4, data@.len() as int) == magic_image()
                &&& forall|k: int|
                    0 <= k < fd.rows@.len() ==> (#[trigger] fd.rows@[k])@.len()
                        == fd.schema.fields@.len()
            },
            Result::Err(e) => e == ConvertError::CorruptFile,
        },
{
    let len = data.len();
    if len < 20 {
        return Result::Err(ConvertError::CorruptFile);
    }
    let magic = magic_bytes();
    if data[len - 4] != magic[0] || data[len - 3] != magic[1] || data[len - 2] != magic[2]
        || data[len - 1] != magic[3] {
        return Result::Err(ConvertError::CorruptFile);
    }
    let foff64 = read_u64(data, len - 20);
    let flen64 = read_u64(data, len - 12);
    if foff64 > (len - 20) as u64 {
        return Result::Err(ConvertError::CorruptFile);
    }
    let foff = foff64 as usize;
    if flen64 > (len - 20 - foff) as u64 {
        return Result::Err(ConvertError::CorruptFile);
    }
    let flen = flen64 as usize;
    let fend = foff + flen;
    let mut p: usize = foff;
    // Codec.
    if fend - p < 1 {
        return Result::Err(ConvertError::CorruptFile);
    }
    let codec = match byte_to_codec(data[p]) {
        Option::Some(c) => c,
        Option::None => {
            return Result::Err(ConvertError::CorruptFile);
        },
    };
    p = p + 1;
    // Schema.
    let nf = match take_u64(data, &mut p, fend) {
        Result::Ok(v) => match to_size(v) {
            Result::Ok(n) => n,
            Result::Err(e) => {
                return Result::Err(e);
            },
        },
        Result::Err(e) => {
            return Result::Err(e);
        },
    };
    let mut fields: Vec<Field> = Vec::new();
    for j in 0..nf
        invariant
            p <= fend <= data@.len(),
            fields@.len() == j,
    {
        let nl = match take_u64(data, &mut p, fend) {
            Result::Ok(v) => v,
            Result::Err(e) => {
                return Result::Err(e);
            },
        };
        if nl > (fend - p) as u64 {
            return Result::Err(ConvertError::CorruptFile);
        }
        let m = nl as usize;
        let mut nb: Vec<u8> = Vec::new();
        let mut k: usize = 0;
        while k < m
            invariant
                k <= m,
                p + m <= fend <= data@.len(),
            decreases m - k,
        {
            nb.push(data[p + k]);
            k = k + 1;
        }
        p = p + m;
        let name = match string_from_utf8(nb) {
            Option::Some(s) => s,
            Option::None => {
                return Result::Err(ConvertError::CorruptFile);
            },
        };
        if fend - p < 2 {
            return Result::Err(ConvertError::CorruptFile);
        }
        let ty = match byte_to_type(data[p]) {
            Option::Some(t) => t,
            Option::None => {
                return Result::Err(ConvertError::CorruptFile);
            },
        };
        let nullable_byte = data[p + 1];
        if nullable_byte > 1 {
            return Result::Err(ConvertError::CorruptFile);
        }
        p = p + 2;
        fields.push(Field { name, ty, nullable: nullable_byte == 1 });
    }
    let schema = Schema { fields };
    // Group index.
    let ng = match take_u64(data, &mut p, fend) {
        Result::Ok(v) => match to_size(v) {
            Result::Ok(n) => n,
            Result::Err(e) => {
                return Result::Err(e);
            },
        },
        Result::Err(e) => {
            return Result::Err(e);
        },
    };
    let mut groups: Vec<GroupInfo> = Vec::new();
    for g in 0..ng
        invariant
            p <= fend <= data@.len(),
            nf == schema.fields@.len(),
            groups@.len() == g,
            forall|g2: int|
                0 <= g2 < g ==> (#[trigger] groups@[g2]).columns@.len() == nf,
    {
        let n_rows = match take_u64(data, &mut p, fend) {
            Result::Ok(v) => match to_size(v) {
                Result::Ok(n) => n,
                Result::Err(e) => {
                    return Result::Err(e);
                },
            },
            Result::Err(e) => {
                return Result::Err(e);
            },
        };
        let nc64 = match take_u64(data, &mut p, fend) {
            Result::Ok(v) => v,
            Result::Err(e) => {
                return Result::Err(e);
            },
        };
        if nc64 != nf as u64 {
            return Result::Err(ConvertError::CorruptFile);
        }
        let mut chunks: Vec<ColumnChunk> = Vec::new();
        for j in 0..nf
            invariant
                p <= fend <= data@.len(),
                chunks@.len() == j,
        {
            let offset = match take_u64(data, &mut p, fend) {
                Result::Ok(v) => match to_size(v) {
                    Result::Ok(n) => n,
                    Result::Err(e) => {
                        return Result::Err(e);
                    },
                },
                Result::Err(e) => {
                    return Result::Err(e);
                },
            };
            let comp_len = match take_u64(data, &mut p, fend) {
                Result::Ok(v) => match to_size(v) {
                    Result::Ok(n) => n,
                    Result::Err(e) => {
                        return Result::Err(e);
                    },
                },
                Result::Err(e) => {
                    return Result::Err(e);
                },
            };
            let uncomp_len = match take_u64(data, &mut p, fend) {
                Result::Ok(v) => match to_size(v) {
                    Result::Ok(n) => n,
                    Result::Err(e) => {
                        return Result::Err(e);
                    },
                },
                Result::Err(e) => {
                    return Result::Err(e);
                },
            };
            if offset > data.len() || data.len() - offset < comp_len {
                return Result::Err(ConvertError::CorruptFile);
            }
            if fend - p < 1 {
                return Result::Err(ConvertError::CorruptFile);
            }
            let kind = if data[p] == 0 {
                EncodingKind::Plain
            } else if data[p] == 1 {
                EncodingKind::Dictionary
            } else {
                return Result::Err(ConvertError::CorruptFile);
            };
            p = p + 1;
            let stats = match read_stats(data, p) {
                Result::Ok((s, q)) => {
                    if q > fend {
                        return Result::Err(ConvertError::CorruptFile);
                    }
                    p = q;
                    s
                },
                Result::Err(e) => {
                    return Result::Err(e);
                },
            };
            chunks.push(ColumnChunk { kind, offset, comp_len, uncomp_len, stats });
        }
        groups.push(GroupInfo { n_rows, columns: chunks });
    }
    // Aggregated statistics and counts.
    let nt64 = match take_u64(data, &mut p, fend) {
        Result::Ok(v) => v,
        Result::Err(e) => {
            return Result::Err(e);
        },
    };
    if nt64 != nf as u64 {
        return Result::Err(ConvertError::CorruptFile);
    }
    let mut totals: Vec<ColumnStats> = Vec::new();
    for j in 0..nf
        invariant
            p <= fend <= data@.len(),
            totals@.len() == j,
    {
        match read_stats(data, p) {
            Result::Ok((s, q)) => {
                if q > fend {
                    return Result::Err(ConvertError::CorruptFile);
                }
                p = q;
                totals.push(s);
            },
            Result::Err(e) => {
                return Result::Err(e);
            },
        }
    }
    let total_rows = match take_u64(data, &mut p, fend) {
        Result::Ok(v) => match to_size(v) {
            Result::Ok(n) => n,
            Result::Err(e) => {
                return Result::Err(e);
            },
        },
        Result::Err(e) => {
            return Result::Err(e);
        },
    };
    let skipped_rows = match take_u64(data, &mut p, fend) {
        Result::Ok(v) => match to_size(v) {
            Result::Ok(n) => n,
            Result::Err(e) => {
                return Result::Err(e);
            },
        },
        Result::Err(e) => {
            return Result::Err(e);
        },
    };
    // Decode every block and rebuild the rows in order.
    let mut rows: Vec<Vec<Option<Value>>> = Vec::new();
    let ngr = groups.len();
    for g in 0..ngr
        invariant
            ngr == groups@.len(),
            nf == schema.fields@.len(),
            forall|g2: int|
                0 <= g2 < ngr ==> (#[trigger] groups@[g2]).columns@.len() == nf,
            forall|k: int|
                0 <= k < rows@.len() ==> (#[trigger] rows@[k])@.len() == nf,
    {
        let nr = groups[g].n_rows;
        let mut colcells: Vec<Vec<Option<Value>>> = Vec::new();
        for j in 0..nf
            invariant
                g < ngr,
                ngr == groups@.len(),
                nf == schema.fields@.len(),
                forall|g2: int|
                    0 <= g2 < ngr ==> (#[trigger] groups@[g2]).columns@.len() == nf,
                colcells@.len() == j,
                forall|j2: int|
                    0 <= j2 < j ==> (#[trigger] colcells@[j2])@.len() == nr,
        {
            let offset = groups[g].columns[j].offset;
            let comp_len = groups[g].columns[j].comp_len;
            if offset > data.len() || data.len() - offset < comp_len {
                return Result::Err(ConvertError::CorruptFile);
            }
            let mut payload: Vec<u8> = Vec::new();
            let mut k: usize = 0;
            while k < comp_len
                invariant
                    k <= comp_len,
                    offset + comp_len <= data@.len(),
                    data@.len() <= usize::MAX,
                decreases comp_len - k,
            {
                payload.push(data[offset + k]);
                k = k + 1;
            }
            let img = match decompress(&payload, codec) {
                Result::Ok(v) => v,
                Result::Err(e) => {
                    return Result::Err(e);
                },
            };
            let cells: Vec<Option<Value>> = match groups[g].columns[j].kind {
                EncodingKind::Plain => {
                    match decode_cells(&img, 0, nr) {
                        Result::Ok((cs, _q)) => cs,
                        Result::Err(e) => {
                            return Result::Err(e);
                        },
                    }
                },
                EncodingKind::Dictionary => {
                    if img.len() < 8 {
                        return Result::Err(ConvertError::CorruptFile);
                    }
                    let ds64 = read_u64(&img, 0);
                    if ds64 > img.len() as u64 {
                        return Result::Err(ConvertError::CorruptFile);
                    }
                    let ds = ds64 as usize;
                    let (dcells, q0) = match decode_cells(&img, 8, ds) {
                        Result::Ok(v) => v,
                        Result::Err(e) => {
                            return Result::Err(e);
                        },
                    };
                    let mut dict: Vec<Value> = Vec::new();
                    for i in 0..ds
                        invariant
                            ds == dcells@.len(),
                    {
                        match &dcells[i] {
                            Option::Some(v) => {
                                dict.push(v.dup());
                            },
                            Option::None => {
                                return Result::Err(ConvertError::CorruptFile);
                            },
                        }
                    }
                    let mut codes: Vec<Option<u64>> = Vec::new();
                    let mut q: usize = q0;
                    for i in 0..nr
                        invariant
                            q <= img@.len(),
                            codes@.len() == i,
                    {
                        if img.len() - q < 1 {
                            return Result::Err(ConvertError::CorruptFile);
                        }
                        let tag = img[q];
                        if tag == 0 {
                            codes.push(Option::None);
                            q = q + 1;
                        } else if tag == 1 {
                            if img.len() - q < 9 {
                                return Result::Err(ConvertError::CorruptFile);
                            }
                            let u = read_u64(&img, q + 1);
                            codes.push(Option::Some(u));
                            q = q + 9;
                        } else {
                            return Result::Err(ConvertError::CorruptFile);
                        }
                    }
                    match dict_decode(&dict, &codes) {
                        Result::Ok(cs) => cs,
                        Result::Err(e) => {
                            return Result::Err(e);
                        },
                    }
                },
            };
            if cells.len() != nr {
                return Result::Err(ConvertError::CorruptFile);
            }
            colcells.push(cells);
        }
        let mut i: usize = 0;
        while i < nr
            invariant
                i <= nr,
                nf == schema.fields@.len(),
                colcells@.len() == nf,
                forall|j2: int|
                    0 <= j2 < nf ==> (#[trigger] colcells@[j2])@.len() == nr,
                forall|k: int|
                    0 <= k < rows@.len() ==> (#[trigger] rows@[k])@.len() == nf,
            decreases nr - i,
        {
            let mut row: Vec<Option<Value>> = Vec::new();
            for j in 0..nf
                invariant
                    i < nr,
                    nf == schema.fields@.len(),
                    colcells@.len() == nf,
                    forall|j2: int|
                        0 <= j2 < nf ==> (#[trigger] colcells@[j2])@.len() == nr,
                    row@.len() == j,
            {
                let cell: Option<Value> = match &colcells[j][i] {
                    Option::None => Option::None,
                    Option::Some(v) => Option::Some(v.dup()),
                };
                row.push(cell);
            }
            rows.push(row);
            i = i + 1;
        }
    }
    proof {
        assert(data@.subrange(data@.len() - 4, data@.len() as int) =~= magic_image());
    }
    Result::Ok(FileData { schema, codec, groups, totals, total_rows, skipped_rows, rows })
}

} // verus!
