//! Block encoding: dictionary or plain encoding of one column buffer,
//! byte serialization, per-block statistics, and compression.
//!
//! Dictionary encoding maps the distinct present values, in order of first
//! appearance, to small integer codes; a null cell keeps no code. Plain
//! encoding serializes every cell in place. Either byte image is then
//! handed to the configured compression.

use vstd::prelude::*;
use vstd::string::StringSliceAdditionalSpecFns;
use vstd::utf8::encode_utf8;

use crate::ConvertError;
use crate::bytes::{enc_cells, encode_cells, push_u64, u64_le};
use crate::codec::{Compression, compress, rle_expand};
use crate::group::ColumnBuffer;
use crate::value::{Value, ValModel, cell_model, cells_model, spec_matches_type, matches_type};

verus! {

/// How a column block's values are laid out.
#[derive(Debug, Clone, Copy, PartialEq, Eq, Structural)]
pub enum EncodingKind {
    Plain,
    Dictionary,
}

/// Whether a value occurs in a dictionary.
pub open spec fn dict_contains(dict: Seq<ValModel>, v: ValModel) -> bool {
    exists|j: int| 0 <= j < dict.len() && dict[j] == v
}

/// The distinct present values of a cell sequence, in order of first
/// appearance.
pub open spec fn spec_dict_of(cells: Seq<Option<ValModel>>) -> Seq<ValModel>
    decreases cells.len(),
{
    if cells.len() == 0 {
        Seq::empty()
    } else {
        let rest = spec_dict_of(cells.drop_last());
        match cells.last() {
            Option::None => rest,
            Option::Some(v) => if dict_contains(rest, v) {
                rest
            } else {
                rest.push(v)
            },
        }
    }
}

/// The first index of a value in a dictionary.
pub open spec fn first_index(dict: Seq<ValModel>, v: ValModel) -> int
    decreases dict.len(),
{
    if dict.len() == 0 {
        0
    } else if dict[0] == v {
        0
    } else {
        1 + first_index(dict.drop_first(), v)
    }
}

/// The canonical code sequence: one code per present cell, none per null.
pub open spec fn spec_codes(dict: Seq<ValModel>, cells: Seq<Option<ValModel>>) -> Seq<
    Option<u64>,
> {
    cells.map_values(
        |c: Option<ValModel>|
            match c {
                Option::None => Option::None,
                Option::Some(v) => Option::Some(first_index(dict, v) as u64),
            },
    )
}

/// The decoding of a code sequence through a dictionary.
pub open spec fn spec_dict_decode(dict: Seq<ValModel>, codes: Seq<Option<u64>>) -> Seq<
    Option<ValModel>,
> {
    codes.map_values(
        |c: Option<u64>|
            match c {
                Option::None => Option::None,
                Option::Some(j) => Option::Some(dict[j as int]),
            },
    )
}

/// `first_index` of a contained value lands on that value, before any
/// other occurrence.
pub proof fn lemma_first_index(dict: Seq<ValModel>, v: ValModel)
    requires
        dict_contains(dict, v),
    ensures
        0 <= first_index(dict, v) < dict.len(),
        dict[first_index(dict, v)] == v,
        forall|j: int| 0 <= j < first_index(dict, v) ==> dict[j] != v,
    decreases dict.len(),
{
    if dict[0] == v {
    } else {
        let tail = dict.drop_first();
        assert(dict_contains(tail, v)) by {
            let j = choose|j: int| 0 <= j < dict.len() && dict[j] == v;
            assert(tail[j - 1] == v);
        }
        lemma_first_index(tail, v);
        assert(forall|j: int| 0 <= j < tail.len() ==> tail[j] == dict[j + 1]);
        assert forall|j: int| 0 <= j < first_index(dict, v) implies dict[j] != v by {
            if j > 0 {
                assert(dict[j] == tail[j - 1]);
            }
        }
    }
}

/// The canonical dictionary holds exactly the present values, each once.
pub proof fn lemma_dict_of_ok(cells: Seq<Option<ValModel>>)
    ensures
        forall|i: int|
            0 <= i < cells.len() && cells[i] is Some ==> dict_contains(
                spec_dict_of(cells),
                cells[i].unwrap(),
            ),
        forall|j: int|
            0 <= j < spec_dict_of(cells).len() ==> exists|i: int|
                0 <= i < cells.len() && cells[i] == Option::Some(
                    #[trigger] spec_dict_of(cells)[j],
                ),
        forall|j1: int, j2: int|
            0 <= j1 < j2 < spec_dict_of(cells).len() ==> spec_dict_of(cells)[j1]
                != spec_dict_of(cells)[j2],
    decreases cells.len(),
{
    if cells.len() > 0 {
        let prev = cells.drop_last();
        lemma_dict_of_ok(prev);
        let rest = spec_dict_of(prev);
        let dict = spec_dict_of(cells);
        assert(forall|i: int| 0 <= i < prev.len() ==> cells[i] == prev[i]);
        assert forall|i: int|
            0 <= i < cells.len() && cells[i] is Some implies dict_contains(
            dict,
            cells[i].unwrap(),
        ) by {
            if i < cells.len() - 1 {
                assert(dict_contains(rest, prev[i].unwrap()));
                let j = choose|j: int| 0 <= j < rest.len() && rest[j] == prev[i].unwrap();
                assert(dict[j] == cells[i].unwrap());
            } else {
                let v = cells[i].unwrap();
                if dict_contains(rest, v) {
                    let j = choose|j: int| 0 <= j < rest.len() && rest[j] == v;
                    assert(dict[j] == v);
                } else {
                    assert(dict.last() == v);
                }
            }
        }
        assert forall|j: int|
            0 <= j < dict.len() implies exists|i: int|
            0 <= i < cells.len() && cells[i] == Option::Some(#[trigger] dict[j]) by {
            if j < rest.len() {
                let i = choose|i: int|
                    0 <= i < prev.len() && prev[i] == Option::Some(rest[j]);
                assert(cells[i] == Option::Some(dict[j]));
            } else {
                assert(cells[cells.len() - 1] == Option::Some(dict[j]));
            }
        }
    }
}

/// The canonical dictionary is no longer than its cell sequence.
pub proof fn lemma_dict_of_len(cells: Seq<Option<ValModel>>)
    ensures
        spec_dict_of(cells).len() <= cells.len(),
    decreases cells.len(),
{
    if cells.len() > 0 {
        lemma_dict_of_len(cells.drop_last());
    }
}

/// Per-column statistics: nulls and, for integer values, global bounds.
#[derive(Debug, Clone, Copy, PartialEq, Eq)]
pub struct ColumnStats {
    pub null_count: usize,
    pub int_bounds: Option<(i64, i64)>,
}

/// The number of null cells.
pub open spec fn spec_null_count(cells: Seq<Option<ValModel>>) -> int
    decreases cells.len(),
{
    if cells.len() == 0 {
        0
    } else {
        spec_null_count(cells.drop_last()) + if cells.last() is None {
            1int
        } else {
            0int
        }
    }
}

/// Minimum and maximum of the integer values present, if any.
pub open spec fn spec_int_bounds(cells: Seq<Option<ValModel>>) -> Option<(int, int)>
    decreases cells.len(),
{
    if cells.len() == 0 {
        Option::None
    } else {
        let prev = spec_int_bounds(cells.drop_last());
        match cells.last() {
            Option::Some(ValModel::Int(i)) => match prev {
                Option::None => Option::Some((i, i)),
                Option::Some((lo, hi)) => Option::Some(
                    (if i < lo { i } else { lo }, if i > hi { i } else { hi }),
                ),
            },
            _ => prev,
        }
    }
}

/// Whether an executable stats record matches the specification.
pub open spec fn stats_ok(s: ColumnStats, cells: Seq<Option<ValModel>>) -> bool {
    &&& s.null_count == spec_null_count(cells)
    &&& match s.int_bounds {
        Option::None => spec_int_bounds(cells) is None,
        Option::Some((lo, hi)) => spec_int_bounds(cells) == Option::Some((lo as int, hi as int)),
    }
}

/// Computes null count and integer bounds for one column.
pub fn compute_stats(col: &ColumnBuffer) -> (r: ColumnStats)
    ensures
        stats_ok(r, cells_model(col.cells@)),
{
    let n = col.cells.len();
    let mut nulls: usize = 0;
    let mut bounds: Option<(i64, i64)> = Option::None;
    let ghost cm = cells_model(col.cells@);
    for i in 0..n
        invariant
            n == col.cells@.len(),
            cm == cells_model(col.cells@),
            cm.len() == n,
            nulls == spec_null_count(cm.take(i as int)),
            nulls <= i,
            match bounds {
                Option::None => spec_int_bounds(cm.take(i as int)) is None,
                Option::Some((lo, hi)) => spec_int_bounds(cm.take(i as int)) == Option::Some(
                    (lo as int, hi as int),
                ),
            },
    {
        proof {
            assert(cm.take(i + 1).drop_last() =~= cm.take(i as int));
            assert(cm.take(i + 1).last() == cm[i as int]);
        }
        match &col.cells[i] {
            Option::None => {
                nulls = nulls + 1;
            },
            Option::Some(v) => {
                match v {
                    Value::Int(x) => {
                        bounds = match bounds {
                            Option::None => Option::Some((*x, *x)),
                            Option::Some((lo, hi)) => Option::Some(
                                (
                                    if *x < lo {
                                        *x
                                    } else {
                                        lo
                                    },
                                    if *x > hi {
                                        *x
                                    } else {
                                        hi
                                    },
                                ),
                            ),
                        };
                    },
                    _ => {},
                }
            },
        }
    }
    proof {
        assert(cm.take(n as int) =~= cm);
    }
    ColumnStats { null_count: nulls, int_bounds: bounds }
}

/// Builds the first-appearance dictionary and the canonical code per cell.
pub fn dict_encode(col: &ColumnBuffer) -> (r: (Vec<Value>, Vec<Option<u64>>))
    ensures
        r.0@.map_values(|v: Value| v@) == spec_dict_of(cells_model(col.cells@)),
        r.1@ == spec_codes(spec_dict_of(cells_model(col.cells@)), cells_model(col.cells@)),
{
    let n = col.cells.len();
    let mut dict: Vec<Value> = Vec::new();
    let mut codes: Vec<Option<u64>> = Vec::new();
    let ghost cm = cells_model(col.cells@);
    for i in 0..n
        invariant
            n == col.cells@.len(),
            cm == cells_model(col.cells@),
            cm.len() == n,
            dict@.map_values(|v: Value| v@) == spec_dict_of(cm.take(i as int)),
            codes@ == spec_codes(spec_dict_of(cm), cm.take(i as int)),
            dict@.len() <= i,
    {
        let ghost dm = dict@.map_values(|v: Value| v@);
        proof {
            assert(cm.take(i + 1).drop_last() =~= cm.take(i as int));
            assert(cm.take(i + 1).last() == cm[i as int]);
            lemma_dict_of_prefix(cm, i as int);
            lemma_dict_of_prefix(cm, i + 1);
        }
        match &col.cells[i] {
            Option::None => {
                codes.push(Option::None);
                proof {
                    assert(spec_dict_of(cm.take(i + 1)) =~= dm);
                }
            },
            Option::Some(v) => {
                // Find the value's first dictionary index, or append it.
                let dn = dict.len();
                let mut j: usize = 0;
                let mut hit = false;
                while j < dn && !hit
                    invariant
                        j <= dn,
                        dn == dict@.len(),
                        dm == dict@.map_values(|v2: Value| v2@),
                        forall|j2: int| 0 <= j2 < j ==> dm[j2] != v@,
                        hit ==> j < dn && dm[j as int] == v@,
                    decreases dn - j + (if hit { 0int } else { 1int }),
                {
                    if dict[j].model_eq(v) {
                        hit = true;
                        proof {
                            assert(dm[j as int] == dict@[j as int]@);
                        }
                    } else {
                        j = j + 1;
                    }
                }
                if hit {
                    proof {
                        assert(dict_contains(dm, v@)) by {
                            assert(dm[j as int] == v@);
                        }
                        lemma_first_index(dm, v@);
                        assert(first_index(dm, v@) == j);
                        assert(spec_dict_of(cm.take(i + 1)) =~= dm);
                        assert(first_index(spec_dict_of(cm), v@) == j);
                    }
                    codes.push(Option::Some(j as u64));
                } else {
                    proof {
                        assert(j == dn);
                        assert(!dict_contains(dm, v@)) by {
                            if dict_contains(dm, v@) {
                                let j2 = choose|j2: int| 0 <= j2 < dm.len() && dm[j2] == v@;
                                assert(dm[j2] == v@);
                            }
                        }
                        lemma_first_index_push(dm, v@);
                    }
                    let c = dict.len() as u64;
                    dict.push(v.dup());
                    codes.push(Option::Some(c));
                    proof {
                        assert(dict@.map_values(|v2: Value| v2@) =~= dm.push(v@));
                        assert(spec_dict_of(cm.take(i + 1)) =~= dm.push(v@));
                        assert(dict_contains(dm.push(v@), v@)) by {
                            assert(dm.push(v@)[dm.len() as int] == v@);
                        }
                        assert(first_index(spec_dict_of(cm), v@) == c);
                    }
                }
            },
        }
        proof {
            assert(codes@ =~= spec_codes(spec_dict_of(cm), cm.take(i + 1)));
        }
    }
    proof {
        assert(cm.take(n as int) =~= cm);
    }
    (dict, codes)
}

/// The canonical dictionary of a prefix agrees with the full dictionary on
/// first indices of values present in the prefix.
proof fn lemma_dict_of_prefix(cells: Seq<Option<ValModel>>, k: int)
    requires
        0 <= k <= cells.len(),
    ensures
        forall|v: ValModel|
            dict_contains(#[trigger] spec_dict_of(cells.take(k)), v) ==> dict_contains(
                spec_dict_of(cells),
                v,
            ) && first_index(spec_dict_of(cells), v) == first_index(
                spec_dict_of(cells.take(k)),
                v,
            ),
    decreases cells.len() - k,
{
    if k < cells.len() {
        lemma_dict_of_prefix(cells, k + 1);
        let a = spec_dict_of(cells.take(k));
        let b = spec_dict_of(cells.take(k + 1));
        assert(cells.take(k + 1).drop_last() =~= cells.take(k));
        assert(cells.take(k + 1).last() == cells[k]);
        assert forall|v: ValModel| #[trigger] dict_contains(a, v) implies dict_contains(b, v)
            && first_index(b, v) == first_index(a, v) by {
            let j = choose|j: int| 0 <= j < a.len() && a[j] == v;
            match cells[k] {
                Option::None => {
                    assert(b == a);
                },
                Option::Some(w) => {
                    if dict_contains(a, w) {
                        assert(b == a);
                    } else {
                        assert(b == a.push(w));
                        assert(b[j] == v);
                        lemma_first_index_prefix(a, w, v);
                    }
                },
            }
        }
    } else {
        assert(cells.take(k) =~= cells);
    }
}

/// Appending a fresh value to a dictionary does not move the first index
/// of any value already present.
proof fn lemma_first_index_prefix(dict: Seq<ValModel>, w: ValModel, v: ValModel)
    requires
        dict_contains(dict, v),
    ensures
        first_index(dict.push(w), v) == first_index(dict, v),
    decreases dict.len(),
{
    if dict.len() > 0 && dict[0] != v {
        let tail = dict.drop_first();
        assert(dict_contains(tail, v)) by {
            let j = choose|j: int| 0 <= j < dict.len() && dict[j] == v;
            assert(tail[j - 1] == v);
        }
        lemma_first_index_prefix(tail, w, v);
        assert(dict.push(w).drop_first() =~= tail.push(w));
    } else {
        assert(dict.push(w)[0] == dict[0]);
    }
}

/// The first index of a value absent from a dictionary, once appended, is
/// the old length.
proof fn lemma_first_index_push(dict: Seq<ValModel>, v: ValModel)
    requires
        !dict_contains(dict, v),
    ensures
        first_index(dict.push(v), v) == dict.len(),
    decreases dict.len(),
{
    if dict.len() == 0 {
        assert(dict.push(v)[0] == v);
    } else {
        assert(dict[0] != v);
        assert(dict.push(v)[0] == dict[0]);
        let tail = dict.drop_first();
        assert(!dict_contains(tail, v)) by {
            if dict_contains(tail, v) {
                let j = choose|j: int| 0 <= j < tail.len() && tail[j] == v;
                assert(dict[j + 1] == v);
            }
        }
        lemma_first_index_push(tail, v);
        assert(dict.push(v).drop_first() =~= tail.push(v));
    }
}

/// Rebuilds the cells that a dictionary and code sequence stand for;
/// fails exactly when some code is out of the dictionary's range.
pub fn dict_decode(dict: &Vec<Value>, codes: &Vec<Option<u64>>) -> (r: Result<
    Vec<Option<Value>>,
    ConvertError,
>)
    ensures
        match r {
            Result::Ok(cells) => cells_model(cells@) == spec_dict_decode(
                dict@.map_values(|v: Value| v@),
                codes@,
            ) && (forall|i: int|
                0 <= i < codes@.len() ==> ((#[trigger] codes@[i]) matches Option::Some(c) ==> c
                    < dict@.len())),
            Result::Err(e) => e == ConvertError::CorruptFile && exists|i: int|
                0 <= i < codes@.len() && ((#[trigger] codes@[i]) matches Option::Some(c)
                    && c >= dict@.len()),
        },
{
    let n = codes.len();
    let mut out: Vec<Option<Value>> = Vec::new();
    let ghost dm = dict@.map_values(|v: Value| v@);
    for i in 0..n
        invariant
            n == codes@.len(),
            dm == dict@.map_values(|v: Value| v@),
            out@.len() == i,
            cells_model(out@) =~= spec_dict_decode(dm, codes@.take(i as int)),
            forall|i2: int|
                0 <= i2 < i ==> ((#[trigger] codes@[i2]) matches Option::Some(c) ==> c
                    < dict@.len()),
    {
        let ghost out_old = out@;
        match &codes[i] {
            Option::None => {
                out.push(Option::None);
            },
            Option::Some(c) => {
                if *c >= dict.len() as u64 {
                    return Result::Err(ConvertError::CorruptFile);
                }
                let ci = *c as usize;
                let dv = dict[ci].dup();
                out.push(Option::Some(dv));
                proof {
                    assert(dm[ci as int] == dict@[ci as int]@);
                    assert(cell_model(out@[i as int]) == Option::Some(dm[ci as int]));
                }
            },
        }
        proof {
            assert(codes@.take(i + 1) =~= codes@.take(i as int).push(codes@[i as int]));
            assert forall|k: int| 0 <= k < i + 1 implies cells_model(out@)[k]
                == spec_dict_decode(dm, codes@.take(i + 1))[k] by {
                assert(codes@.take(i + 1)[k] == codes@[k]);
                if k < i {
                    assert(out@[k] == out_old[k]);
                    assert(cells_model(out_old)[k] == spec_dict_decode(
                        dm,
                        codes@.take(i as int),
                    )[k]);
                    assert(codes@.take(i as int)[k] == codes@[k]);
                }
            }
            assert(cells_model(out@) =~= spec_dict_decode(dm, codes@.take(i + 1)));
        }
    }
    proof {
        assert(codes@.take(n as int) =~= codes@);
    }
    Result::Ok(out)
}


/// The byte encoding of one dictionary code.
pub open spec fn enc_code(c: Option<u64>) -> Seq<u8> {
    match c {
        Option::None => seq![0u8],
        Option::Some(u) => seq![1u8] + u64_le(u),
    }
}

/// The byte encoding of a code sequence, in order.
pub open spec fn enc_codes(codes: Seq<Option<u64>>) -> Seq<u8>
    decreases codes.len(),
{
    if codes.len() == 0 {
        Seq::empty()
    } else {
        enc_codes(codes.drop_last()) + enc_code(codes.last())
    }
}

/// The uncompressed byte image of a column under an encoding kind: plain
/// encoding is the cells in place; dictionary encoding is the dictionary
/// size, the dictionary entries, then one code per row.
pub open spec fn spec_block_image(cells: Seq<Option<ValModel>>, kind: EncodingKind) -> Seq<u8> {
    match kind {
        EncodingKind::Plain => enc_cells(cells),
        EncodingKind::Dictionary => {
            let dict = spec_dict_of(cells);
            u64_le(dict.len() as u64) + enc_cells(
                dict.map_values(|v: ValModel| Option::Some(v)),
            ) + enc_codes(spec_codes(dict, cells))
        },
    }
}

/// Whether the dictionary pays off: the distinct present values are fewer
/// than half the present cells.
pub open spec fn spec_dict_pays(cells: Seq<Option<ValModel>>) -> bool {
    2 * spec_dict_of(cells).len() < cells.len() - spec_null_count(cells)
}

/// Null cells never outnumber the cells.
pub proof fn lemma_null_count_bound(cells: Seq<Option<ValModel>>)
    ensures
        0 <= spec_null_count(cells) <= cells.len(),
    decreases cells.len(),
{
    if cells.len() > 0 {
        lemma_null_count_bound(cells.drop_last());
    }
}

/// One encoded column block: the compressed payload plus its metadata.
#[derive(Debug)]
pub struct EncodedBlock {
    pub kind: EncodingKind,
    pub codec: Compression,
    pub n_rows: usize,
    pub uncompressed_len: usize,
    pub payload: Vec<u8>,
    pub stats: ColumnStats,
}

/// Serializes the dictionary entries as present cells.
fn encode_dict_entries(out: &mut Vec<u8>, dict: &Vec<Value>)
    ensures
        final(out)@ == old(out)@ + enc_cells(
            dict@.map_values(|v: Value| v@).map_values(|v: ValModel| Option::Some(v)),
        ),
{
    let ghost out_old = out@;
    let ghost dcells = dict@.map_values(|v: Value| v@).map_values(
        |v: ValModel| Option::Some(v),
    );
    let n = dict.len();
    for j in 0..n
        invariant
            n == dict@.len(),
            dcells == dict@.map_values(|v: Value| v@).map_values(|v: ValModel| Option::Some(v)),
            dcells.len() == n,
            out@ == out_old + enc_cells(dcells.take(j as int)),
    {
        let c: Option<Value> = Option::Some(dict[j].dup());
        crate::bytes::push_cell(out, &c);
        proof {
            assert(dcells.take(j + 1).drop_last() =~= dcells.take(j as int));
            assert(dcells.take(j + 1).last() == dcells[j as int]);
            assert(cell_model(c) == dcells[j as int]);
            assert(out@ =~= out_old + enc_cells(dcells.take(j + 1)));
        }
    }
    proof {
        assert(dcells.take(n as int) =~= dcells);
    }
}

/// Serializes the code sequence.
fn encode_code_seq(out: &mut Vec<u8>, codes: &Vec<Option<u64>>)
    ensures
        final(out)@ == old(out)@ + enc_codes(codes@),
{
    let ghost out_old = out@;
    let n = codes.len();
    for i in 0..n
        invariant
            n == codes@.len(),
            out@ == out_old + enc_codes(codes@.take(i as int)),
    {
        let ghost mid = out@;
        match &codes[i] {
            Option::None => {
                out.push(0u8);
            },
            Option::Some(u) => {
                out.push(1u8);
                push_u64(out, *u);
            },
        }
        proof {
            assert(codes@.take(i + 1).drop_last() =~= codes@.take(i as int));
            assert(codes@.take(i + 1).last() == codes@[i as int]);
            assert(out@ =~= mid + enc_code(codes@[i as int]));
            assert(out@ =~= out_old + enc_codes(codes@.take(i + 1)));
        }
    }
    proof {
        assert(codes@.take(n as int) =~= codes@);
    }
}

/// Encodes one column buffer into a block: checks the cells against the
/// column's committed type (the defensive `Encoding` failure), computes
/// the statistics, picks dictionary or plain encoding, and compresses the
/// image. Under `Uncompressed` the payload is exactly the image, so the
/// block occupies exactly its encoded size.
pub fn encode_block(col: &ColumnBuffer, enable_dict: bool, codec: Compression) -> (r: Result<
    EncodedBlock,
    ConvertError,
>)
    ensures
        match r {
            Result::Err(e) => e == ConvertError::Encoding && !col.wf(),
            Result::Ok(b) => {
                let cm = cells_model(col.cells@);
                col.wf() && b.codec == codec && b.n_rows == col.cells@.len() && stats_ok(
                    b.stats,
                    cm,
                ) && (b.kind == EncodingKind::Dictionary <==> (enable_dict && spec_dict_pays(cm)))
                    && b.uncompressed_len == spec_block_image(cm, b.kind).len() && (codec
                    == Compression::Uncompressed ==> b.payload@ == spec_block_image(cm, b.kind))
                    && (codec != Compression::Uncompressed ==> rle_expand(b.payload@)
                    == Option::Some(spec_block_image(cm, b.kind)))
            },
        },
{
    let n = col.cells.len();
    let ghost cm = cells_model(col.cells@);
    // Defensive type check.
    for i in 0..n
        invariant
            n == col.cells@.len(),
            forall|i2: int|
                0 <= i2 < i ==> crate::group::cell_ok(#[trigger] col.cells@[i2], col.ty),
    {
        match &col.cells[i] {
            Option::None => {},
            Option::Some(v) => {
                if !matches_type(v, col.ty) {
                    return Result::Err(ConvertError::Encoding);
                }
            },
        }
    }
    let stats = compute_stats(col);
    proof {
        lemma_null_count_bound(cm);
    }
    let present = n - stats.null_count;
    let (dict, codes) = dict_encode(col);
    let use_dict = enable_dict && present > 0 && dict.len() <= (present - 1) / 2;
    proof {
        assert(dict@.map_values(|v: Value| v@).len() == spec_dict_of(cm).len());
        assert(use_dict <==> (enable_dict && spec_dict_pays(cm)));
    }
    let kind = if use_dict {
        EncodingKind::Dictionary
    } else {
        EncodingKind::Plain
    };
    let image: Vec<u8> = if use_dict {
        let mut img: Vec<u8> = Vec::new();
        push_u64(&mut img, dict.len() as u64);
        encode_dict_entries(&mut img, &dict);
        encode_code_seq(&mut img, &codes);
        proof {
            assert(img@ =~= spec_block_image(cm, EncodingKind::Dictionary));
        }
        img
    } else {
        encode_cells(&col.cells)
    };
    let uncompressed_len = image.len();
    let payload = compress(&image, codec);
    Result::Ok(
        EncodedBlock { kind, codec, n_rows: n, uncompressed_len, payload, stats },
    )
}

/// Dictionary encoding round-trips: decoding the canonical dictionary and
/// codes of any cell sequence — nulls included — yields that sequence.
pub proof fn lemma_dict_round_trip(cells: Seq<Option<ValModel>>)
    requires
        cells.len() <= 0xffffffffffffffff,
    ensures
        spec_dict_decode(spec_dict_of(cells), spec_codes(spec_dict_of(cells), cells)) == cells,
{
    let dict = spec_dict_of(cells);
    lemma_dict_of_ok(cells);
    lemma_dict_of_len(cells);
    assert forall|i: int| 0 <= i < cells.len() implies spec_dict_decode(
        dict,
        spec_codes(dict, cells),
    )[i] == cells[i] by {
        match cells[i] {
            Option::None => {
                assert(spec_codes(dict, cells)[i] is None);
            },
            Option::Some(v) => {
                assert(dict_contains(dict, v));
                lemma_first_index(dict, v);
                let fi = first_index(dict, v);
                assert(spec_codes(dict, cells)[i] == Option::Some(fi as u64));
                assert(fi as u64 as int == fi);
                assert(spec_dict_decode(dict, spec_codes(dict, cells))[i] == Option::Some(
                    dict[fi],
                ));
            },
        }
    }
    assert(spec_dict_decode(dict, spec_codes(dict, cells)) =~= cells);
}

} // verus!
