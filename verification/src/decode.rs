//! Row decoding against a committed schema.
//!
//! One record becomes one decoded row: an ordered sequence of optional
//! typed values aligned to the schema's field order. A missing (or null)
//! value for a non-nullable field fails the row with `MissingField`; a
//! value that neither matches the column type nor coerces to it fails the
//! row with `TypeMismatch`. The only coercion is integer-to-float, exact
//! for magnitudes up to 2^53.

use vstd::prelude::*;

use crate::fp::{FLOAT_EXACT_BOUND, spec_int_to_float_bits, int_to_float_bits};
use crate::schema::{Field, Schema, RawRecord};
use crate::value::{LogicalType, RawValue, Value, ValModel, cell_model, cells_model};

verus! {

/// A per-row decode failure; the row is skipped and counted, the run
/// continues.
#[derive(Debug, Clone, Copy, PartialEq, Eq, Structural)]
pub enum RowError {
    /// A non-nullable field had no (non-null) value.
    MissingField,
    /// A value neither matched the column type nor coerced to it.
    TypeMismatch,
}

/// The first value stored under `name`, if any.
pub open spec fn lookup_pairs(ps: Seq<(String, RawValue)>, name: Seq<char>) -> Option<RawValue>
    decreases ps.len(),
{
    if ps.len() == 0 {
        Option::None
    } else if ps[0].0@ == name {
        Option::Some(ps[0].1)
    } else {
        lookup_pairs(ps.drop_first(), name)
    }
}

/// Decoding a present, non-null value against a column type.
pub open spec fn spec_decode_value(t: LogicalType, v: RawValue) -> Result<ValModel, RowError> {
    match t {
        LogicalType::Boolean => match v {
            RawValue::Bool(b) => Result::Ok(ValModel::Bool(b)),
            _ => Result::Err(RowError::TypeMismatch),
        },
        LogicalType::Integer => match v {
            RawValue::Int(i) => Result::Ok(ValModel::Int(i as int)),
            _ => Result::Err(RowError::TypeMismatch),
        },
        LogicalType::Float => match v {
            RawValue::Float(bits) => Result::Ok(ValModel::Float(bits)),
            RawValue::Int(i) => if -FLOAT_EXACT_BOUND <= i <= FLOAT_EXACT_BOUND {
                Result::Ok(ValModel::Float(spec_int_to_float_bits(i as int)))
            } else {
                Result::Err(RowError::TypeMismatch)
            },
            _ => Result::Err(RowError::TypeMismatch),
        },
        LogicalType::Text => match v {
            RawValue::Text(s) => Result::Ok(ValModel::Text(s@)),
            _ => Result::Err(RowError::TypeMismatch),
        },
        LogicalType::NullOnly => Result::Err(RowError::TypeMismatch),
        LogicalType::Mixed => match v {
            RawValue::Bool(b) => Result::Ok(ValModel::Bool(b)),
            RawValue::Int(i) => Result::Ok(ValModel::Int(i as int)),
            RawValue::Float(bits) => Result::Ok(ValModel::Float(bits)),
            RawValue::Text(s) => Result::Ok(ValModel::Text(s@)),
            _ => Result::Err(RowError::TypeMismatch),
        },
    }
}

/// Decoding one cell: absent and null values are interchangeable.
pub open spec fn spec_decode_cell(f: Field, ov: Option<RawValue>) -> Result<
    Option<ValModel>,
    RowError,
> {
    match ov {
        Option::None => if f.nullable {
            Result::Ok(Option::None)
        } else {
            Result::Err(RowError::MissingField)
        },
        Option::Some(v) => match v {
            RawValue::Null => if f.nullable {
                Result::Ok(Option::None)
            } else {
                Result::Err(RowError::MissingField)
            },
            _ => match spec_decode_value(f.ty, v) {
                Result::Ok(m) => Result::Ok(Option::Some(m)),
                Result::Err(e) => Result::Err(e),
            },
        },
    }
}

/// Decoding a whole row, field by field in schema order; the first failing
/// field decides the row's error.
pub open spec fn spec_decode_row(fields: Seq<Field>, r: RawRecord) -> Result<
    Seq<Option<ValModel>>,
    RowError,
>
    decreases fields.len(),
{
    if fields.len() == 0 {
        Result::Ok(Seq::empty())
    } else {
        match spec_decode_cell(fields[0], lookup_pairs(r.fields@, fields[0].name@)) {
            Result::Err(e) => Result::Err(e),
            Result::Ok(c) => match spec_decode_row(fields.drop_first(), r) {
                Result::Err(e) => Result::Err(e),
                Result::Ok(rest) => Result::Ok(seq![c] + rest),
            },
        }
    }
}

/// A successfully decoded row is aligned to the schema and well-typed.
pub proof fn lemma_decode_row_wf(fields: Seq<Field>, r: RawRecord, cells: Seq<Option<ValModel>>)
    requires
        spec_decode_row(fields, r) == Result::<Seq<Option<ValModel>>, RowError>::Ok(cells),
    ensures
        cells.len() == fields.len(),
        forall|j: int|
            0 <= j < cells.len() ==> match #[trigger] cells[j] {
                Option::Some(m) => crate::value::spec_matches_type(m, fields[j].ty),
                Option::None => true,
            },
    decreases fields.len(),
{
    if fields.len() > 0 {
        let c0 = spec_decode_cell(fields[0], lookup_pairs(r.fields@, fields[0].name@));
        let rest = spec_decode_row(fields.drop_first(), r);
        let rest_cells = rest.unwrap();
        lemma_decode_row_wf(fields.drop_first(), r, rest_cells);
        assert(cells == seq![c0.unwrap()] + rest_cells);
        assert forall|j: int|
            0 <= j < cells.len() implies match #[trigger] cells[j] {
            Option::Some(m) => crate::value::spec_matches_type(m, fields[j].ty),
            Option::None => true,
        } by {
            if j == 0 {
                match c0.unwrap() {
                    Option::Some(m) => {
                        assert(spec_decode_value(fields[0].ty, lookup_pairs(
                            r.fields@,
                            fields[0].name@,
                        ).unwrap()) == Result::<ValModel, RowError>::Ok(m));
                        lemma_decode_value_typed(fields[0].ty, lookup_pairs(
                            r.fields@,
                            fields[0].name@,
                        ).unwrap(), m);
                    },
                    Option::None => {},
                }
            } else {
                assert(cells[j] == rest_cells[j - 1]);
                assert(fields[j] == fields.drop_first()[j - 1]);
            }
        }
    }
}

/// A value that `spec_decode_value` accepts is a member of the type.
proof fn lemma_decode_value_typed(t: LogicalType, v: RawValue, m: ValModel)
    requires
        spec_decode_value(t, v) == Result::<ValModel, RowError>::Ok(m),
    ensures
        crate::value::spec_matches_type(m, t),
{
}

/// Finds the first value stored under `name` in a record.
fn lookup_record<'a>(rec: &'a RawRecord, name: &String) -> (r: Option<&'a RawValue>)
    ensures
        match r {
            Option::Some(v) => lookup_pairs(rec.fields@, name@) == Option::Some(*v),
            Option::None => lookup_pairs(rec.fields@, name@) == Option::<RawValue>::None,
        },
{
    let n = rec.fields.len();
    proof {
        assert(rec.fields@.skip(0) =~= rec.fields@);
    }
    for i in 0..n
        invariant
            n == rec.fields@.len(),
            lookup_pairs(rec.fields@, name@) == lookup_pairs(rec.fields@.skip(i as int), name@),
    {
        proof {
            assert(rec.fields@.skip(i as int).len() > 0);
            assert(rec.fields@.skip(i as int)[0] == rec.fields@[i as int]);
            assert(rec.fields@.skip(i as int).drop_first() =~= rec.fields@.skip(i as int + 1));
        }
        if rec.fields[i].0 == *name {
            return Option::Some(&rec.fields[i].1);
        }
    }
    proof {
        assert(rec.fields@.skip(n as int).len() == 0);
    }
    Option::None
}

/// Decodes a present, non-null value against a column type; executable
/// twin of `spec_decode_value`.
fn decode_value(t: LogicalType, v: &RawValue) -> (r: Result<Value, RowError>)
    requires
        !(v is Null),
    ensures
        match r {
            Result::Ok(out) => spec_decode_value(t, *v) == Result::<ValModel, RowError>::Ok(out@),
            Result::Err(e) => spec_decode_value(t, *v) == Result::<ValModel, RowError>::Err(e),
        },
{
    match t {
        LogicalType::Boolean => match v {
            RawValue::Bool(b) => Result::Ok(Value::Bool(*b)),
            _ => Result::Err(RowError::TypeMismatch),
        },
        LogicalType::Integer => match v {
            RawValue::Int(i) => Result::Ok(Value::Int(*i)),
            _ => Result::Err(RowError::TypeMismatch),
        },
        LogicalType::Float => match v {
            RawValue::Float(bits) => Result::Ok(Value::Float(*bits)),
            RawValue::Int(i) => if -FLOAT_EXACT_BOUND <= *i && *i <= FLOAT_EXACT_BOUND {
                Result::Ok(Value::Float(int_to_float_bits(*i)))
            } else {
                Result::Err(RowError::TypeMismatch)
            },
            _ => Result::Err(RowError::TypeMismatch),
        },
        LogicalType::Text => match v {
            RawValue::Text(s) => Result::Ok(Value::Text(s.clone())),
            _ => Result::Err(RowError::TypeMismatch),
        },
        LogicalType::NullOnly => Result::Err(RowError::TypeMismatch),
        LogicalType::Mixed => match v {
            RawValue::Bool(b) => Result::Ok(Value::Bool(*b)),
            RawValue::Int(i) => Result::Ok(Value::Int(*i)),
            RawValue::Float(bits) => Result::Ok(Value::Float(*bits)),
            RawValue::Text(s) => Result::Ok(Value::Text(s.clone())),
            _ => Result::Err(RowError::TypeMismatch),
        },
    }
}

/// Decodes one record against the schema into one row of optional typed
/// values, aligned to the schema's field order.
pub fn decode_row(schema: &Schema, rec: &RawRecord) -> (r: Result<Vec<Option<Value>>, RowError>)
    ensures
        match r {
            Result::Ok(out) => spec_decode_row(schema.fields@, *rec) == Result::<
                Seq<Option<ValModel>>,
                RowError,
            >::Ok(cells_model(out@)),
            Result::Err(e) => spec_decode_row(schema.fields@, *rec) == Result::<
                Seq<Option<ValModel>>,
                RowError,
            >::Err(e),
        },
{
    let n = schema.fields.len();
    let mut out: Vec<Option<Value>> = Vec::new();
    proof {
        assert(schema.fields@.skip(0) =~= schema.fields@);
        assert(forall|rest: Seq<Option<ValModel>>| cells_model(out@) + rest =~= rest);
    }
    for j in 0..n
        invariant
            n == schema.fields@.len(),
            out@.len() == j,
            spec_decode_row(schema.fields@, *rec) == (match spec_decode_row(
                schema.fields@.skip(j as int),
                *rec,
            ) {
                Result::<Seq<Option<ValModel>>, RowError>::Ok(rest) => Result::<
                    Seq<Option<ValModel>>,
                    RowError,
                >::Ok(cells_model(out@) + rest),
                Result::<Seq<Option<ValModel>>, RowError>::Err(e) => Result::<
                    Seq<Option<ValModel>>,
                    RowError,
                >::Err(e),
            }),
    {
        let ghost tail = schema.fields@.skip(j as int);
        proof {
            assert(tail.len() > 0);
            assert(tail[0] == schema.fields@[j as int]);
            assert(tail.drop_first() =~= schema.fields@.skip(j as int + 1));
        }
        let f = &schema.fields[j];
        let looked = lookup_record(rec, &f.name);
        let cell: Option<Value> = match looked {
            Option::None => {
                if !f.nullable {
                    return Result::Err(RowError::MissingField);
                }
                Option::None
            },
            Option::Some(v) => match v {
                RawValue::Null => {
                    if !f.nullable {
                        return Result::Err(RowError::MissingField);
                    }
                    Option::None
                },
                _ => match decode_value(f.ty, v) {
                    Result::Err(e) => {
                        return Result::Err(e);
                    },
                    Result::Ok(dv) => Option::Some(dv),
                },
            },
        };
        let ghost cm = cell_model(cell);
        proof {
            assert(spec_decode_cell(tail[0], lookup_pairs(rec.fields@, tail[0].name@))
                == Result::<Option<ValModel>, RowError>::Ok(cm));
        }
        let ghost out_old = out@;
        out.push(cell);
        proof {
            let tail1 = schema.fields@.skip(j as int + 1);
            assert(cells_model(out@) =~= cells_model(out_old).push(cm));
            assert(spec_decode_row(tail, *rec) == (match spec_decode_row(tail1, *rec) {
                Result::<Seq<Option<ValModel>>, RowError>::Ok(rest) => Result::<
                    Seq<Option<ValModel>>,
                    RowError,
                >::Ok(seq![cm] + rest),
                Result::<Seq<Option<ValModel>>, RowError>::Err(e) => Result::<
                    Seq<Option<ValModel>>,
                    RowError,
                >::Err(e),
            }));
            assert forall|rest: Seq<Option<ValModel>>|
                cells_model(out_old) + (seq![cm] + rest) =~= cells_model(out@) + rest by {
                assert(cells_model(out@) =~= cells_model(out_old).push(cm));
            }
        }
    }
    proof {
        assert(schema.fields@.skip(n as int).len() == 0);
        assert(cells_model(out@) + Seq::<Option<ValModel>>::empty() =~= cells_model(out@));
    }
    Result::Ok(out)
}

} // verus!
