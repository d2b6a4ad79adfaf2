//! Schema model and schema inference.
//!
//! Inference scans a bounded prefix of the input records ("the sample").
//! For every key that occurs in the sample it commits one field; the field's
//! logical type is the widening fold of the types of all values observed
//! under that key, and the field is nullable exactly when some sampled
//! record lacks a non-null value for it (a JSON null counts as an absent
//! value). Fields appear in order of first appearance.

use vstd::prelude::*;

use crate::value::{LogicalType, RawValue, spec_raw_type, raw_type};
use crate::ConvertError;

verus! {

/// One column: a name, a committed logical type, and a nullability flag.
#[derive(Debug, Clone)]
pub struct Field {
    pub name: String,
    pub ty: LogicalType,
    pub nullable: bool,
}

/// An ordered sequence of fields with pairwise distinct names.
#[derive(Debug, Clone)]
pub struct Schema {
    pub fields: Vec<Field>,
}

/// One input record: the key/value pairs of a parsed JSON object.
#[derive(Debug, Clone)]
pub struct RawRecord {
    pub fields: Vec<(String, RawValue)>,
}

impl Schema {
    /// Field names are pairwise distinct.
    pub open spec fn wf(self) -> bool {
        forall|i: int, j: int|
            0 <= i < j < self.fields@.len() ==> self.fields@[i].name@ != self.fields@[j].name@
    }

    /// The field names, in schema order.
    pub open spec fn names(self) -> Seq<Seq<char>> {
        self.fields@.map_values(|f: Field| f.name@)
    }

    /// The number of fields, as an executable accessor.
    pub fn len(&self) -> (n: usize)
        ensures
            n == self.fields@.len(),
    {
        self.fields.len()
    }
}

/// The narrowest common supertype of two logical types: `NullOnly` is the
/// neutral element, integer and float widen to float, and anything else
/// that differs widens to `Mixed`.
pub open spec fn spec_widen(a: LogicalType, b: LogicalType) -> LogicalType {
    if a == LogicalType::NullOnly {
        b
    } else if b == LogicalType::NullOnly {
        a
    } else if a == b {
        a
    } else if (a == LogicalType::Integer && b == LogicalType::Float) || (a == LogicalType::Float
        && b == LogicalType::Integer) {
        LogicalType::Float
    } else {
        LogicalType::Mixed
    }
}

/// Executable twin of `spec_widen`.
pub fn widen(a: LogicalType, b: LogicalType) -> (r: LogicalType)
    ensures
        r == spec_widen(a, b),
{
    if a == LogicalType::NullOnly {
        b
    } else if b == LogicalType::NullOnly {
        a
    } else if a == b {
        a
    } else if (a == LogicalType::Integer && b == LogicalType::Float) || (a == LogicalType::Float
        && b == LogicalType::Integer) {
        LogicalType::Float
    } else {
        LogicalType::Mixed
    }
}

/// All key/value pairs of the first `k` records, concatenated in input order.
pub open spec fn pairs_of_prefix(records: Seq<RawRecord>, k: int) -> Seq<(String, RawValue)>
    decreases k,
{
    if k <= 0 {
        Seq::empty()
    } else {
        pairs_of_prefix(records, k - 1) + records[k - 1].fields@
    }
}

/// The keys of a pair sequence, as character sequences.
pub open spec fn keys_of(ps: Seq<(String, RawValue)>) -> Seq<Seq<char>> {
    ps.map_values(|p: (String, RawValue)| p.0@)
}

/// First-appearance deduplication of a key sequence.
pub open spec fn dedup_first(keys: Seq<Seq<char>>) -> Seq<Seq<char>>
    decreases keys.len(),
{
    if keys.len() == 0 {
        Seq::empty()
    } else {
        let rest = dedup_first(keys.drop_last());
        if rest.contains(keys.last()) {
            rest
        } else {
            rest.push(keys.last())
        }
    }
}

/// The widening fold over every value observed under `name`, starting from
/// the neutral type `NullOnly`.
pub open spec fn fold_field_type(ps: Seq<(String, RawValue)>, name: Seq<char>) -> LogicalType
    decreases ps.len(),
{
    if ps.len() == 0 {
        LogicalType::NullOnly
    } else {
        let prev = fold_field_type(ps.drop_last(), name);
        if ps.last().0@ == name {
            spec_widen(prev, spec_raw_type(ps.last().1))
        } else {
            prev
        }
    }
}

/// Whether a record carries a non-null value under `name`.
pub open spec fn rec_has_value(r: RawRecord, name: Seq<char>) -> bool {
    exists|i: int|
        0 <= i < r.fields@.len() && r.fields@[i].0@ == name && !(r.fields@[i].1 is Null)
}

/// How many records inference samples: the whole input, or the first
/// `sample_size` records if a bound is set.
pub open spec fn spec_sample_n(len: int, sample_size: Option<usize>) -> int {
    match sample_size {
        Option::None => len,
        Option::Some(k) => if (k as int) < len {
            k as int
        } else {
            len
        },
    }
}

/// Everything `infer_schema` promises of a successful result.
pub open spec fn spec_schema_ok(records: Seq<RawRecord>, sample_size: Option<usize>, s: Schema) -> bool {
    let n = spec_sample_n(records.len() as int, sample_size);
    let ps = pairs_of_prefix(records, n);
    &&& n > 0
    &&& s.wf()
    &&& s.names() == dedup_first(keys_of(ps))
    &&& forall|j: int|
        0 <= j < s.fields@.len() ==> s.fields@[j].ty == fold_field_type(ps, s.fields@[j].name@)
    &&& forall|j: int|
        0 <= j < s.fields@.len() ==> (s.fields@[j].nullable <==> exists|k: int|
            0 <= k < n && !rec_has_value(records[k], s.fields@[j].name@))
}

proof fn lemma_fold_push(ps: Seq<(String, RawValue)>, p: (String, RawValue), name: Seq<char>)
    ensures
        fold_field_type(ps.push(p), name) == (if p.0@ == name {
            spec_widen(fold_field_type(ps, name), spec_raw_type(p.1))
        } else {
            fold_field_type(ps, name)
        }),
{
    assert(ps.push(p).drop_last() =~= ps);
    assert(ps.push(p).last() == p);
}

proof fn lemma_dedup_push(keys: Seq<Seq<char>>, k: Seq<char>)
    ensures
        dedup_first(keys.push(k)) == (if dedup_first(keys).contains(k) {
            dedup_first(keys)
        } else {
            dedup_first(keys).push(k)
        }),
{
    assert(keys.push(k).drop_last() =~= keys);
    assert(keys.push(k).last() == k);
}

/// `dedup_first` keeps exactly the members of its input, each once.
pub proof fn lemma_dedup_first_ok(keys: Seq<Seq<char>>)
    ensures
        forall|i: int, j: int|
            0 <= i < j < dedup_first(keys).len() ==> dedup_first(keys)[i] != dedup_first(keys)[j],
        forall|x: Seq<char>| #[trigger] dedup_first(keys).contains(x) <==> keys.contains(x),
    decreases keys.len(),
{
    if keys.len() == 0 {
    } else {
        let prev = keys.drop_last();
        lemma_dedup_first_ok(prev);
        let rest = dedup_first(prev);
        assert forall|x: Seq<char>| #[trigger] dedup_first(keys).contains(x) <==> keys.contains(
            x,
        ) by {
            if dedup_first(keys).contains(x) {
                if rest.contains(x) {
                    let i = choose|i: int| 0 <= i < prev.len() && prev[i] == x;
                    assert(keys[i] == x);
                } else {
                    assert(x == keys.last());
                    assert(keys[keys.len() - 1] == x);
                }
            }
            if keys.contains(x) {
                let i = choose|i: int| 0 <= i < keys.len() && keys[i] == x;
                if i < keys.len() - 1 {
                    assert(prev[i] == x);
                    assert(rest.contains(x));
                    if !rest.contains(keys.last()) {
                        assert(dedup_first(keys) == rest.push(keys.last()));
                        assert(dedup_first(keys)[choose|j: int|
                            0 <= j < rest.len() && rest[j] == x] == x);
                    }
                } else {
                    if rest.contains(keys.last()) {
                        assert(dedup_first(keys) == rest);
                    } else {
                        assert(dedup_first(keys).last() == x);
                    }
                }
            }
        }
    }
}

/// Looks a key up in a field list; returns the index of a field with that
/// name, or `None` when no field carries it.
fn find_field(fields: &Vec<Field>, key: &String) -> (r: Option<usize>)
    ensures
        match r {
            Option::Some(j) => 0 <= j < fields@.len() && fields@[j as int].name@ == key@,
            Option::None => forall|j: int| 0 <= j < fields@.len() ==> fields@[j].name@ != key@,
        },
{
    let n = fields.len();
    for j in 0..n
        invariant
            n == fields@.len(),
            forall|j2: int| 0 <= j2 < j ==> fields@[j2].name@ != key@,
    {
        if fields[j].name == *key {
            return Option::Some(j);
        }
    }
    Option::None
}

/// Whether a record carries a non-null value under `name`; executable twin
/// of `rec_has_value`.
fn record_has_value(rec: &RawRecord, name: &String) -> (r: bool)
    ensures
        r == rec_has_value(*rec, name@),
{
    let n = rec.fields.len();
    for i in 0..n
        invariant
            n == rec.fields@.len(),
            forall|i2: int|
                0 <= i2 < i ==> !(rec.fields@[i2].0@ == name@ && !(rec.fields@[i2].1 is Null)),
    {
        let has = rec.fields[i].0 == *name;
        if has && !matches!(rec.fields[i].1, RawValue::Null) {
            assert(rec_has_value(*rec, name@));
            return true;
        }
    }
    false
}

/// Infers the unified schema from the sampled prefix of `records`.
///
/// Fails with `SchemaInference` exactly when the sample is empty. On
/// success the schema lists, in order of first appearance, one field per
/// distinct sampled key; each field's type is the widening fold of the
/// observed value types, and a field is nullable exactly when some sampled
/// record has no non-null value for it.
pub fn infer_schema(records: &Vec<RawRecord>, sample_size: Option<usize>) -> (r: Result<
    Schema,
    ConvertError,
>)
    ensures
        match r {
            Result::Err(e) => e == ConvertError::SchemaInference && spec_sample_n(
                records@.len() as int,
                sample_size,
            ) == 0,
            Result::Ok(s) => spec_schema_ok(records@, sample_size, s),
        },
{
    let len = records.len();
    let n: usize = match sample_size {
        Option::None => len,
        Option::Some(k) => if k < len {
            k
        } else {
            len
        },
    };
    if n == 0 {
        return Result::Err(ConvertError::SchemaInference);
    }
    let ghost gn = n as int;
    let mut fields: Vec<Field> = Vec::new();
    for k in 0..n
        invariant
            n <= records@.len(),
            gn == n as int,
            fields@.map_values(|f: Field| f.name@) == dedup_first(
                keys_of(pairs_of_prefix(records@, k as int)),
            ),
            forall|j: int|
                0 <= j < fields@.len() ==> fields@[j].ty == fold_field_type(
                    pairs_of_prefix(records@, k as int),
                    fields@[j].name@,
                ),
            forall|j: int| 0 <= j < fields@.len() ==> fields@[j].nullable == false,
            forall|i: int, j: int|
                0 <= i < j < fields@.len() ==> fields@[i].name@ != fields@[j].name@,
    {
        let m = records[k].fields.len();
        for i in 0..m
            invariant
                n <= records@.len(),
                k < n,
                m == records@[k as int].fields@.len(),
                fields@.map_values(|f: Field| f.name@) == dedup_first(
                    keys_of(
                        pairs_of_prefix(records@, k as int) + records@[k as int].fields@.take(
                            i as int,
                        ),
                    ),
                ),
                forall|j: int|
                    0 <= j < fields@.len() ==> fields@[j].ty == fold_field_type(
                        pairs_of_prefix(records@, k as int) + records@[k as int].fields@.take(
                            i as int,
                        ),
                        fields@[j].name@,
                    ),
                forall|j: int| 0 <= j < fields@.len() ==> fields@[j].nullable == false,
                forall|i2: int, j: int|
                    0 <= i2 < j < fields@.len() ==> fields@[i2].name@ != fields@[j].name@,
        {
            let ghost ps_old = pairs_of_prefix(records@, k as int)
                + records@[k as int].fields@.take(i as int);
            let pair_key = records[k].fields[i].0.clone();
            let t = raw_type(&records[k].fields[i].1);
            let ghost pair = records@[k as int].fields@[i as int];
            let ghost ps_new = pairs_of_prefix(records@, k as int)
                + records@[k as int].fields@.take(i as int + 1);
            proof {
                assert(ps_new =~= ps_old.push(pair));
                lemma_dedup_push(keys_of(ps_old), pair.0@);
                lemma_dedup_first_ok(keys_of(ps_old));
                assert(keys_of(ps_old.push(pair)) =~= keys_of(ps_old).push(pair.0@));
                assert forall|name: Seq<char>|
                    fold_field_type(ps_new, name) == (if pair.0@ == name {
                        spec_widen(fold_field_type(ps_old, name), spec_raw_type(pair.1))
                    } else {
                        fold_field_type(ps_old, name)
                    }) by {
                    lemma_fold_push(ps_old, pair, name);
                }
            }
            match find_field(&fields, &pair_key) {
                Option::Some(j) => {
                    let ghost fields_old = fields@;
                    let old_ty = fields[j].ty;
                    fields[j].ty = widen(old_ty, t);
                    proof {
                        assert(fields@.map_values(|f: Field| f.name@) =~= fields_old.map_values(
                            |f: Field| f.name@,
                        ));
                        assert(fields_old.map_values(|f: Field| f.name@)[j as int] == pair.0@);
                        assert(dedup_first(keys_of(ps_old)).contains(pair.0@));
                        assert(keys_of(ps_old).contains(pair.0@));
                        assert(fields@.map_values(|f: Field| f.name@) =~= dedup_first(
                            keys_of(ps_new),
                        ));
                        assert(forall|j2: int|
                            0 <= j2 < fields@.len() && j2 != j ==> fields@[j2].name@ != pair.0@);
                    }
                },
                Option::None => {
                    fields.push(
                        Field { name: pair_key, ty: t, nullable: false },
                    );
                    proof {
                        assert(!keys_of(ps_old).contains(pair.0@)) by {
                            lemma_dedup_first_ok(keys_of(ps_old));
                            if keys_of(ps_old).contains(pair.0@) {
                                let jj = choose|jj: int|
                                    0 <= jj < dedup_first(keys_of(ps_old)).len() && dedup_first(
                                        keys_of(ps_old),
                                    )[jj] == pair.0@;
                                assert(fields@.drop_last().map_values(|f: Field| f.name@)[jj]
                                    == pair.0@);
                                assert(fields@.drop_last()[jj].name@ == pair.0@);
                            }
                        }
                        assert(fields@.map_values(|f: Field| f.name@) =~= dedup_first(
                            keys_of(ps_old),
                        ).push(pair.0@));
                        assert(fields@.map_values(|f: Field| f.name@) =~= dedup_first(
                            keys_of(ps_new),
                        ));
                        assert(fold_field_type(ps_new, pair.0@) == spec_widen(
                            fold_field_type(ps_old, pair.0@),
                            spec_raw_type(pair.1),
                        ));
                        assert(fold_field_type(ps_old, pair.0@) == LogicalType::NullOnly) by {
                            lemma_fold_absent(ps_old, pair.0@);
                        }
                    }
                },
            }
        }
        proof {
            assert(records@[k as int].fields@.take(m as int) =~= records@[k as int].fields@);
            assert(pairs_of_prefix(records@, k as int) + records@[k as int].fields@
                =~= pairs_of_prefix(records@, k as int + 1));
        }
    }
    // Second pass: a field is nullable when some sampled record has no
    // non-null value under its name.
    let nf = fields.len();
    for j in 0..nf
        invariant
            n <= records@.len(),
            gn == n as int,
            nf == fields@.len(),
            fields@.map_values(|f: Field| f.name@) == dedup_first(
                keys_of(pairs_of_prefix(records@, gn)),
            ),
            forall|j2: int|
                0 <= j2 < fields@.len() ==> fields@[j2].ty == fold_field_type(
                    pairs_of_prefix(records@, gn),
                    fields@[j2].name@,
                ),
            forall|i: int, j2: int|
                0 <= i < j2 < fields@.len() ==> fields@[i].name@ != fields@[j2].name@,
            forall|j2: int|
                0 <= j2 < j ==> (fields@[j2].nullable <==> exists|k: int|
                    0 <= k < gn && !rec_has_value(records@[k], fields@[j2].name@)),
            forall|j2: int| j <= j2 < fields@.len() ==> fields@[j2].nullable == false,
    {
        let mut absent = false;
        let name = fields[j].name.clone();
        for k in 0..n
            invariant
                n <= records@.len(),
                j < fields@.len(),
                name@ == fields@[j as int].name@,
                absent == exists|k2: int| 0 <= k2 < k && !rec_has_value(records@[k2], name@),
        {
            if !record_has_value(&records[k], &name) {
                absent = true;
            }
        }
        if absent {
            fields[j].nullable = true;
        }
    }
    proof {
        lemma_dedup_first_ok(keys_of(pairs_of_prefix(records@, gn)));
    }
    Result::Ok(Schema { fields })
}

/// Folding over pairs whose keys all differ from `name` yields the neutral
/// type.
proof fn lemma_fold_absent(ps: Seq<(String, RawValue)>, name: Seq<char>)
    requires
        !keys_of(ps).contains(name),
    ensures
        fold_field_type(ps, name) == LogicalType::NullOnly,
    decreases ps.len(),
{
    if ps.len() > 0 {
        assert(keys_of(ps)[ps.len() - 1] == ps.last().0@);
        assert(forall|i: int| 0 <= i < ps.len() - 1 ==> keys_of(ps.drop_last())[i] == keys_of(ps)[i]);
        assert(!keys_of(ps.drop_last()).contains(name)) by {
            if keys_of(ps.drop_last()).contains(name) {
                let i = choose|i: int|
                    0 <= i < ps.len() - 1 && keys_of(ps.drop_last())[i] == name;
                assert(keys_of(ps)[i] == name);
            }
        }
        lemma_fold_absent(ps.drop_last(), name);
    }
}

} // verus!
