//! Byte-level serialization of cells and integers.
//!
//! Every multi-byte integer is little-endian. A cell is self-describing:
//! one tag byte (0 null, 1 boolean, 2 integer, 3 float, 4 text) followed
//! by the value's payload; a text payload is a length-prefixed UTF-8 byte
//! sequence. The encoder's output is pinned exactly by `enc_cells`, and
//! the decoder's contract pins the bytes it consumed: whatever cells it
//! returns re-encode to exactly the bytes it read.

use vstd::prelude::*;
use vstd::string::StrSliceExecFns;
use vstd::string::StringSliceAdditionalSpecFns;
use vstd::utf8::{encode_utf8, decode_utf8, valid_utf8};

use crate::ConvertError;
use crate::value::{Value, ValModel, cells_model};

verus! {

/// The little-endian bytes of a 64-bit integer.
pub open spec fn u64_le(n: u64) -> Seq<u8> {
    seq![
        (n & 0xff) as u8,
        ((n >> 8) & 0xff) as u8,
        ((n >> 16) & 0xff) as u8,
        ((n >> 24) & 0xff) as u8,
        ((n >> 32) & 0xff) as u8,
        ((n >> 40) & 0xff) as u8,
        ((n >> 48) & 0xff) as u8,
        ((n >> 56) & 0xff) as u8,
    ]
}

/// The two's-complement 64-bit image of an integer value.
pub open spec fn to_u64(i: int) -> u64
    recommends
        i64::MIN <= i <= i64::MAX,
{
    if i >= 0 {
        i as u64
    } else {
        (i + 0x10000000000000000) as u64
    }
}

/// The byte encoding of one cell.
pub open spec fn enc_cell(c: Option<ValModel>) -> Seq<u8> {
    match c {
        Option::None => seq![0u8],
        Option::Some(v) => match v {
            ValModel::Bool(b) => seq![1u8, if b { 1u8 } else { 0u8 }],
            ValModel::Int(i) => seq![2u8] + u64_le(to_u64(i)),
            ValModel::Float(bits) => seq![3u8] + u64_le(bits),
            ValModel::Text(cs) => seq![4u8] + u64_le(encode_utf8(cs).len() as u64) + encode_utf8(
                cs,
            ),
        },
    }
}

/// The byte encoding of a cell sequence, in order.
pub open spec fn enc_cells(cells: Seq<Option<ValModel>>) -> Seq<u8>
    decreases cells.len(),
{
    if cells.len() == 0 {
        Seq::empty()
    } else {
        enc_cells(cells.drop_last()) + enc_cell(cells.last())
    }
}

/// Appends the little-endian bytes of `n`.
pub fn push_u64(out: &mut Vec<u8>, n: u64)
    ensures
        final(out)@ == old(out)@ + u64_le(n),
{
    let ghost out_old = out@;
    out.push((n & 0xff) as u8);
    out.push(((n >> 8) & 0xff) as u8);
    out.push(((n >> 16) & 0xff) as u8);
    out.push(((n >> 24) & 0xff) as u8);
    out.push(((n >> 32) & 0xff) as u8);
    out.push(((n >> 40) & 0xff) as u8);
    out.push(((n >> 48) & 0xff) as u8);
    out.push(((n >> 56) & 0xff) as u8);
    proof {
        assert(out@ =~= out_old + u64_le(n));
    }
}

/// Reads the little-endian 64-bit integer at `p`.
pub fn read_u64(data: &Vec<u8>, p: usize) -> (r: u64)
    requires
        p + 8 <= data@.len(),
    ensures
        u64_le(r) == data@.subrange(p as int, p + 8),
{
    let len = data.len();
    let b0 = data[p] as u64;
    let b1 = data[p + 1] as u64;
    let b2 = data[p + 2] as u64;
    let b3 = data[p + 3] as u64;
    let b4 = data[p + 4] as u64;
    let b5 = data[p + 5] as u64;
    let b6 = data[p + 6] as u64;
    let b7 = data[p + 7] as u64;
    let r = b0 | (b1 << 8) | (b2 << 16) | (b3 << 24) | (b4 << 32) | (b5 << 40) | (b6 << 48) | (
    b7 << 56);
    proof {
        assert((r & 0xff) as u8 == b0 as u8 && ((r >> 8) & 0xff) as u8 == b1 as u8 && ((r >> 16)
            & 0xff) as u8 == b2 as u8 && ((r >> 24) & 0xff) as u8 == b3 as u8 && ((r >> 32) & 0xff)
            as u8 == b4 as u8 && ((r >> 40) & 0xff) as u8 == b5 as u8 && ((r >> 48) & 0xff) as u8
            == b6 as u8 && ((r >> 56) & 0xff) as u8 == b7 as u8) by (bit_vector)
            requires
                b0 < 256 && b1 < 256 && b2 < 256 && b3 < 256 && b4 < 256 && b5 < 256 && b6 < 256
                    && b7 < 256,
                r == b0 | (b1 << 8) | (b2 << 16) | (b3 << 24) | (b4 << 32) | (b5 << 40) | (b6
                    << 48) | (b7 << 56),
        ;
        assert(u64_le(r) =~= data@.subrange(p as int, p + 8));
    }
    r
}

/// Relies on `String::from_utf8`: it succeeds exactly on valid UTF-8 and
/// returns the string those bytes spell.
#[verifier::external_body]
pub(crate) fn string_from_utf8(bytes: Vec<u8>) -> (r: Option<String>)
    ensures
        match r {
            Option::Some(s) => valid_utf8(bytes@) && s@ == decode_utf8(bytes@),
            Option::None => !valid_utf8(bytes@),
        },
{
    match String::from_utf8(bytes) {
        Ok(s) => Option::Some(s),
        Err(_) => Option::None,
    }
}

/// Appends the encoding of one cell.
pub fn push_cell(out: &mut Vec<u8>, c: &Option<Value>)
    ensures
        final(out)@ == old(out)@ + enc_cell(crate::value::cell_model(*c)),
{
    let ghost out_old = out@;
    match c {
        Option::None => {
            out.push(0u8);
            proof {
                assert(out@ =~= out_old + enc_cell(Option::None));
            }
        },
        Option::Some(v) => match v {
            Value::Bool(b) => {
                out.push(1u8);
                out.push(if *b {
                    1u8
                } else {
                    0u8
                });
                proof {
                    assert(out@ =~= out_old + enc_cell(crate::value::cell_model(*c)));
                }
            },
            Value::Int(i) => {
                out.push(2u8);
                let u: u64 = *i as u64;
                proof {
                    assert(u == to_u64(*i as int)) by (bit_vector)
                        requires
                            u == *i as u64,
                            to_u64(*i as int) == (if *i as int >= 0 {
                                (*i as int) as u64
                            } else {
                                ((*i as int) + 0x10000000000000000) as u64
                            }),
                    ;
                }
                push_u64(out, u);
                proof {
                    assert(out@ =~= out_old + enc_cell(crate::value::cell_model(*c)));
                }
            },
            Value::Float(bits) => {
                out.push(3u8);
                push_u64(out, *bits);
                proof {
                    assert(out@ =~= out_old + enc_cell(crate::value::cell_model(*c)));
                }
            },
            Value::Text(s) => {
                out.push(4u8);
                let sb = s.as_str().as_bytes_vec();
                push_u64(out, sb.len() as u64);
                let m = sb.len();
                let ghost mid = out@;
                for k in 0..m
                    invariant
                        m == sb@.len(),
                        out@ =~= mid + sb@.take(k as int),
                {
                    out.push(sb[k]);
                    proof {
                        assert(sb@.take(k + 1) =~= sb@.take(k as int).push(sb@[k as int]));
                    }
                }
                proof {
                    assert(sb@.take(m as int) =~= sb@);
                    assert(sb@ == encode_utf8(s@));
                    assert(out@ =~= out_old + enc_cell(crate::value::cell_model(*c)));
                }
            },
        },
    }
}

/// Serializes a cell sequence; the output is exactly `enc_cells` of the
/// cells' models.
pub fn encode_cells(cells: &Vec<Option<Value>>) -> (r: Vec<u8>)
    ensures
        r@ == enc_cells(cells_model(cells@)),
{
    let n = cells.len();
    let mut out: Vec<u8> = Vec::new();
    let ghost cm = cells_model(cells@);
    for i in 0..n
        invariant
            n == cells@.len(),
            cm == cells_model(cells@),
            cm.len() == n,
            out@ == enc_cells(cm.take(i as int)),
    {
        push_cell(&mut out, &cells[i]);
        proof {
            assert(cm.take(i + 1).drop_last() =~= cm.take(i as int));
            assert(cm.take(i + 1).last() == cm[i as int]);
        }
    }
    proof {
        assert(cm.take(n as int) =~= cm);
    }
    out
}

/// Reads one cell at `p`; returns the cell and the position after it.
/// The shape checks make any truncated or mistagged byte image fail.
fn read_cell(data: &Vec<u8>, p: usize) -> (r: Result<(Option<Value>, usize), ConvertError>)
    requires
        p <= data@.len(),
    ensures
        match r {
            Result::Ok((c, q)) => p < q <= data@.len() && enc_cell(crate::value::cell_model(c))
                == data@.subrange(p as int, q as int),
            Result::Err(e) => e == ConvertError::CorruptFile,
        },
{
    if p >= data.len() {
        return Result::Err(ConvertError::CorruptFile);
    }
    let tag = data[p];
    if tag == 0 {
        proof {
            assert(enc_cell(Option::None) =~= data@.subrange(p as int, p + 1));
        }
        Result::Ok((Option::None, p + 1))
    } else if tag == 1 {
        if data.len() - p < 2 {
            return Result::Err(ConvertError::CorruptFile);
        }
        let byte = data[p + 1];
        if byte > 1 {
            return Result::Err(ConvertError::CorruptFile);
        }
        let c = Option::Some(Value::Bool(byte == 1));
        proof {
            assert(enc_cell(crate::value::cell_model(c)) =~= data@.subrange(p as int, p + 2));
        }
        Result::Ok((c, p + 2))
    } else if tag == 2 {
        if data.len() - p < 9 {
            return Result::Err(ConvertError::CorruptFile);
        }
        let u = read_u64(data, p + 1);
        let i: i64 = #[verifier::truncate] (u as i64);
        proof {
            assert(to_u64(i as int) == u) by (bit_vector)
                requires
                    i == u as i64,
                    to_u64(i as int) == (if i as int >= 0 {
                        (i as int) as u64
                    } else {
                        ((i as int) + 0x10000000000000000) as u64
                    }),
            ;
            assert(enc_cell(crate::value::cell_model(Option::Some(Value::Int(i)))) =~= data@
                .subrange(p as int, p + 9));
        }
        Result::Ok((Option::Some(Value::Int(i)), p + 9))
    } else if tag == 3 {
        if data.len() - p < 9 {
            return Result::Err(ConvertError::CorruptFile);
        }
        let bits = read_u64(data, p + 1);
        proof {
            assert(enc_cell(crate::value::cell_model(Option::Some(Value::Float(bits)))) =~= data@
                .subrange(p as int, p + 9));
        }
        Result::Ok((Option::Some(Value::Float(bits)), p + 9))
    } else if tag == 4 {
        if data.len() - p < 9 {
            return Result::Err(ConvertError::CorruptFile);
        }
        let m64 = read_u64(data, p + 1);
        if m64 > (data.len() - p - 9) as u64 {
            return Result::Err(ConvertError::CorruptFile);
        }
        let m = m64 as usize;
        let mut sb: Vec<u8> = Vec::new();
        for k in 0..m
            invariant
                p + 9 + m <= data@.len(),
                data@.len() <= usize::MAX,
                sb@.len() == k,
                sb@ == data@.subrange(p + 9, p + 9 + k),
        {
            sb.push(data[p + 9 + k]);
            proof {
                assert(data@.subrange(p + 9, p + 9 + k + 1) =~= data@.subrange(
                    p + 9,
                    p + 9 + k,
                ).push(data@[p + 9 + k]));
            }
        }
        let ghost sbv = sb@;
        match string_from_utf8(sb) {
            Option::Some(s) => {
                proof {
                    vstd::utf8::decode_utf8_encode_utf8(sbv);
                    assert(encode_utf8(s@) == sbv);
                    assert(m64 == encode_utf8(s@).len() as u64);
                    assert(enc_cell(
                        crate::value::cell_model(Option::Some(Value::Text(s))),
                    ) =~= data@.subrange(p as int, p + 9 + m));
                }
                Result::Ok((Option::Some(Value::Text(s)), p + 9 + m))
            },
            Option::None => Result::Err(ConvertError::CorruptFile),
        }
    } else {
        Result::Err(ConvertError::CorruptFile)
    }
}

/// Reads `n` consecutive cells starting at `p`; fails on any malformed
/// cell. On success the consumed bytes are exactly the encoding of the
/// cells returned, so no decoder result misstates the image it was read
/// from.
pub fn decode_cells(data: &Vec<u8>, p: usize, n: usize) -> (r: Result<
    (Vec<Option<Value>>, usize),
    ConvertError,
>)
    requires
        p <= data@.len(),
    ensures
        match r {
            Result::Ok((cells, q)) => cells@.len() == n && p <= q <= data@.len() && enc_cells(
                cells_model(cells@),
            ) == data@.subrange(p as int, q as int),
            Result::Err(e) => e == ConvertError::CorruptFile,
        },
{
    let mut out: Vec<Option<Value>> = Vec::new();
    let mut q: usize = p;
    proof {
        assert(enc_cells(cells_model(out@)) =~= data@.subrange(p as int, p as int));
    }
    for i in 0..n
        invariant
            out@.len() == i,
            p <= q <= data@.len(),
            enc_cells(cells_model(out@)) == data@.subrange(p as int, q as int),
    {
        match read_cell(data, q) {
            Result::Ok((c, q2)) => {
                let ghost out_old = out@;
                let ghost q_old = q;
                out.push(c);
                q = q2;
                proof {
                    assert(cells_model(out@) =~= cells_model(out_old).push(
                        crate::value::cell_model(c),
                    ));
                    assert(cells_model(out@).drop_last() =~= cells_model(out_old));
                    assert(cells_model(out@).last() == crate::value::cell_model(c));
                    assert(data@.subrange(p as int, q_old as int) + data@.subrange(
                        q_old as int,
                        q as int,
                    ) =~= data@.subrange(p as int, q as int));
                }
            },
            Result::Err(e) => {
                return Result::Err(e);
            },
        }
    }
    Result::Ok((out, q))
}

} // verus!
