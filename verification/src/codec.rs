//! Byte-level compression of encoded blocks.
//!
//! Four settings are recognized: `Uncompressed` passes bytes through, and
//! the three generic settings share one run-length token scheme at
//! different run thresholds (a lower threshold encodes more runs and
//! trades token overhead for ratio). A token is a control byte `c`:
//! `c < 128` announces `c + 1` literal bytes, `c >= 128` announces
//! `c - 126` repetitions of the next byte. `rle_expand` is the meaning of
//! a token stream, and `compress` guarantees that its output expands back
//! to its input exactly.

use vstd::prelude::*;

use crate::ConvertError;

verus! {

/// The selectable compression settings.
#[derive(Debug, Clone, Copy, PartialEq, Eq, Structural)]
pub enum Compression {
    Uncompressed,
    FastGeneric,
    BalancedGeneric,
    HighRatioGeneric,
}

/// The meaning of a run-length token stream: the bytes it expands to, or
/// nothing if the stream is truncated.
pub open spec fn rle_expand(s: Seq<u8>) -> Option<Seq<u8>>
    decreases s.len(),
{
    if s.len() == 0 {
        Option::Some(Seq::empty())
    } else {
        let c = s[0] as int;
        if c < 128 {
            let cnt = c + 1;
            if s.len() < 1 + cnt {
                Option::None
            } else {
                match rle_expand(s.skip(1 + cnt)) {
                    Option::None => Option::None,
                    Option::Some(rest) => Option::Some(s.subrange(1, 1 + cnt) + rest),
                }
            }
        } else {
            let cnt = c - 126;
            if s.len() < 2 {
                Option::None
            } else {
                match rle_expand(s.skip(2)) {
                    Option::None => Option::None,
                    Option::Some(rest) => Option::Some(Seq::new(cnt as nat, |i: int| s[1]) + rest),
                }
            }
        }
    }
}

/// Expanding a literal token peels the literal bytes off the front.
proof fn lemma_expand_lit_token(lit: Seq<u8>, s: Seq<u8>)
    requires
        1 <= lit.len() <= 128,
    ensures
        rle_expand(seq![(lit.len() - 1) as u8] + lit + s) == (match rle_expand(s) {
            Option::Some(r) => Option::Some(lit + r),
            Option::None => Option::<Seq<u8>>::None,
        }),
{
    let t = seq![(lit.len() - 1) as u8] + lit + s;
    assert(t[0] == (lit.len() - 1) as u8);
    assert(t[0] as int == lit.len() - 1);
    assert(t.subrange(1, lit.len() as int + 1) =~= lit);
    assert(t.skip(1 + lit.len() as int) =~= s);
}

/// Expanding a run token peels `cnt` copies of its byte off the front.
proof fn lemma_expand_run_token(b: u8, cnt: int, s: Seq<u8>)
    requires
        2 <= cnt <= 129,
    ensures
        rle_expand(seq![(126 + cnt) as u8, b] + s) == (match rle_expand(s) {
            Option::Some(r) => Option::Some(Seq::new(cnt as nat, |i: int| b) + r),
            Option::None => Option::<Seq<u8>>::None,
        }),
{
    let t = seq![(126 + cnt) as u8, b] + s;
    assert(t[0] == (126 + cnt) as u8);
    assert(t[0] as int == 126 + cnt);
    assert(t[1] == b);
    assert(t.skip(2) =~= s);
    if rle_expand(s) is Some {
        assert(Seq::new(cnt as nat, |i: int| t[1]) =~= Seq::new(cnt as nat, |i: int| b));
    }
}

/// The compositional encoder invariant: the tokens emitted so far expand,
/// in front of any continuation, to the bytes consumed so far.
spec fn encodes_prefix(out: Seq<u8>, data: Seq<u8>, done: int) -> bool {
    forall|s: Seq<u8>|
        #[trigger] rle_expand(out + s) == (match rle_expand(s) {
            Option::Some(r) => Option::Some(data.take(done) + r),
            Option::None => Option::<Seq<u8>>::None,
        })
}

/// Run-length-encodes `data`; runs of at least `min_run` equal bytes
/// become run tokens, everything else rides in literal tokens.
#[verifier::loop_isolation(false)]
fn rle_compress(data: &Vec<u8>, min_run: usize) -> (out: Vec<u8>)
    requires
        2 <= min_run <= 129,
    ensures
        rle_expand(out@) == Option::Some(data@),
{
    let len = data.len();
    let mut out: Vec<u8> = Vec::new();
    let mut lit: Vec<u8> = Vec::new();
    let mut i: usize = 0;
    let ghost gdata = data@;
    proof {
        assert forall|s: Seq<u8>| #[trigger] rle_expand(out@ + s) == (match rle_expand(s) {
            Option::Some(r) => Option::Some(gdata.take(0) + r),
            Option::None => Option::<Seq<u8>>::None,
        }) by {
            assert(out@ + s =~= s);
            if rle_expand(s) is Some {
                assert(gdata.take(0) + rle_expand(s).unwrap() =~= rle_expand(s).unwrap());
            }
        }
    }
    while i < len
        invariant
            i <= len,
            lit@.len() <= 128,
            lit@.len() <= i,
            lit@ =~= gdata.subrange(i - lit@.len(), i as int),
            encodes_prefix(out@, gdata, i - lit@.len()),
        decreases len - i,
    {
        // Measure the run starting at `i`.
        let b = data[i];
        let mut runlen: usize = 1;
        while i + runlen < len && runlen < 129 && data[i + runlen] == b
            invariant
                1 <= runlen <= 129,
                i + runlen <= len,
                forall|k: int| i <= k < i + runlen ==> gdata[k] == b,
            decreases len - i - runlen,
        {
            runlen = runlen + 1;
        }
        if runlen >= min_run {
            // Flush the pending literal, then emit a run token.
            if lit.len() > 0 {
                flush_literal(&mut out, &mut lit, Ghost(gdata), Ghost(i as int));
            }
            let ghost out_old = out@;
            out.push((126 + runlen) as u8);
            out.push(b);
            proof {
                let t = seq![(126 + runlen as int) as u8, b];
                assert(out@ =~= out_old + t);
                assert forall|s: Seq<u8>| #[trigger] rle_expand(out@ + s) == (match rle_expand(
                    s,
                ) {
                    Option::Some(r) => Option::Some(gdata.take(i + runlen) + r),
                    Option::None => Option::<Seq<u8>>::None,
                }) by {
                    assert(out@ + s =~= out_old + (t + s));
                    assert(rle_expand(out@ + s) == rle_expand(out_old + (t + s)));
                    lemma_expand_run_token(b, runlen as int, s);
                    if rle_expand(s) is Some {
                        let r = rle_expand(s).unwrap();
                        assert(Seq::new(runlen as nat, |k: int| b) =~= gdata.subrange(
                            i as int,
                            i + runlen,
                        ));
                        assert(gdata.take(i as int) + (gdata.subrange(i as int, i + runlen) + r)
                            =~= gdata.take(i + runlen) + r);
                    }
                }
            }
            i = i + runlen;
        } else {
            if lit.len() == 128 {
                flush_literal(&mut out, &mut lit, Ghost(gdata), Ghost(i as int));
            }
            lit.push(b);
            proof {
                assert(lit@ =~= gdata.subrange(i + 1 - lit@.len(), i + 1));
            }
            i = i + 1;
        }
    }
    if lit.len() > 0 {
        flush_literal(&mut out, &mut lit, Ghost(gdata), Ghost(len as int));
    }
    proof {
        assert(out@ + Seq::<u8>::empty() =~= out@);
        assert(rle_expand(Seq::<u8>::empty()) == Option::Some(Seq::<u8>::empty()));
        assert(gdata.take(len as int) + Seq::<u8>::empty() =~= gdata);
    }
    out
}

/// Emits the pending literal bytes as one literal token.
fn flush_literal(out: &mut Vec<u8>, lit: &mut Vec<u8>, Ghost(gdata): Ghost<Seq<u8>>, Ghost(i):
    Ghost<int>)
    requires
        1 <= old(lit)@.len() <= 128,
        old(lit)@.len() <= i <= gdata.len(),
        old(lit)@ =~= gdata.subrange(i - old(lit)@.len(), i),
        encodes_prefix(old(out)@, gdata, i - old(lit)@.len()),
    ensures
        final(lit)@.len() == 0,
        encodes_prefix(final(out)@, gdata, i),
{
    let ghost out_old = out@;
    let ghost litv = lit@;
    let n = lit.len();
    out.push((n - 1) as u8);
    let mut k: usize = 0;
    while k < n
        invariant
            k <= n,
            n == litv.len(),
            lit@ =~= litv,
            out@ =~= out_old + seq![(n - 1) as u8] + litv.take(k as int),
        decreases n - k,
    {
        let byte = lit[k];
        out.push(byte);
        proof {
            assert(litv.take(k + 1) =~= litv.take(k as int).push(litv[k as int]));
            assert(out@ =~= out_old + seq![(n - 1) as u8] + litv.take(k + 1));
        }
        k = k + 1;
    }
    lit.clear();
    proof {
        assert(litv.take(n as int) =~= litv);
        assert(out@ =~= out_old + (seq![(n - 1) as u8] + litv));
        assert forall|s: Seq<u8>| #[trigger] rle_expand(out@ + s) == (match rle_expand(s) {
            Option::Some(r) => Option::Some(gdata.take(i) + r),
            Option::None => Option::<Seq<u8>>::None,
        }) by {
            assert(out@ + s =~= out_old + ((seq![(n - 1) as u8] + litv) + s));
            assert(rle_expand(out@ + s) == rle_expand(out_old + ((seq![(n - 1) as u8] + litv)
                + s)));
            assert(seq![(n - 1) as u8] + litv + s =~= (seq![(n - 1) as u8] + litv) + s);
            lemma_expand_lit_token(litv, s);
            if rle_expand(s) is Some {
                let r = rle_expand(s).unwrap();
                assert(gdata.take(i - litv.len()) + (litv + r) =~= gdata.take(i) + r);
            }
        }
    }
}

/// Expands a run-length token stream; fails on a truncated stream.
fn rle_decompress(data: &Vec<u8>) -> (r: Result<Vec<u8>, ConvertError>)
    ensures
        match rle_expand(data@) {
            Option::Some(d) => r matches Result::Ok(out) && out@ == d,
            Option::None => r == Result::<Vec<u8>, ConvertError>::Err(ConvertError::CorruptFile),
        },
{
    let len = data.len();
    let mut out: Vec<u8> = Vec::new();
    let mut p: usize = 0;
    proof {
        assert(data@.skip(0) =~= data@);
    }
    while p < len
        invariant
            p <= len,
            len == data@.len(),
            rle_expand(data@) == (match rle_expand(data@.skip(p as int)) {
                Option::Some(r) => Option::Some(out@ + r),
                Option::None => Option::<Seq<u8>>::None,
            }),
        decreases len - p,
    {
        let ghost tail = data@.skip(p as int);
        proof {
            assert(tail.len() > 0);
            assert(tail[0] == data@[p as int]);
        }
        let c = data[p];
        if c < 128 {
            let cnt = c as usize + 1;
            if len - p < 1 + cnt {
                proof {
                    assert(rle_expand(tail) == Option::<Seq<u8>>::None);
                }
                return Result::Err(ConvertError::CorruptFile);
            }
            let ghost out_old = out@;
            let mut k: usize = 0;
            while k < cnt
                invariant
                    k <= cnt,
                    p + 1 + cnt <= len,
                    len == data@.len(),
                    out@ =~= out_old + data@.subrange(p + 1, p + 1 + k),
                decreases cnt - k,
            {
                let byte = data[p + 1 + k];
                out.push(byte);
                proof {
                    assert(data@.subrange(p + 1, p + 1 + k + 1) =~= data@.subrange(
                        p + 1,
                        p + 1 + k,
                    ).push(data@[p + 1 + k]));
                }
                k = k + 1;
            }
            proof {
                assert(forall|q: int| 1 <= q < tail.len() ==> tail[q] == data@[p + q]);
                assert(tail.subrange(1, 1 + cnt) =~= data@.subrange(p + 1, p + 1 + cnt));
                assert(tail.skip(1 + cnt) =~= data@.skip(p + 1 + cnt));
                if rle_expand(data@.skip(p + 1 + cnt)) is Some {
                    let r = rle_expand(data@.skip(p + 1 + cnt)).unwrap();
                    assert(out_old + (tail.subrange(1, 1 + cnt) + r) =~= out@ + r);
                }
            }
            p = p + 1 + cnt;
        } else {
            let cnt = c as usize - 126;
            if len - p < 2 {
                proof {
                    assert(rle_expand(tail) == Option::<Seq<u8>>::None);
                }
                return Result::Err(ConvertError::CorruptFile);
            }
            let b = data[p + 1];
            let ghost out_old = out@;
            let mut k: usize = 0;
            while k < cnt
                invariant
                    k <= cnt,
                    out@ =~= out_old + Seq::new(k as nat, |q: int| b),
                decreases cnt - k,
            {
                out.push(b);
                proof {
                    assert(Seq::new((k + 1) as nat, |q: int| b) =~= Seq::new(
                        k as nat,
                        |q: int| b,
                    ).push(b));
                }
                k = k + 1;
            }
            proof {
                assert(tail[1] == data@[p + 1]);
                assert(tail.skip(2) =~= data@.skip(p + 2));
                if rle_expand(data@.skip(p + 2)) is Some {
                    let r = rle_expand(data@.skip(p + 2)).unwrap();
                    assert(Seq::new(cnt as nat, |q: int| tail[1]) =~= Seq::new(
                        cnt as nat,
                        |q: int| b,
                    ));
                    assert(out_old + (Seq::new(cnt as nat, |q: int| b) + r) =~= out@ + r);
                }
            }
            p = p + 2;
        }
    }
    proof {
        assert(data@.skip(len as int).len() == 0);
        assert(out@ + Seq::<u8>::empty() =~= out@);
    }
    Result::Ok(out)
}

/// Copies a byte vector.
fn copy_bytes(data: &Vec<u8>) -> (r: Vec<u8>)
    ensures
        r@ == data@,
{
    let mut r: Vec<u8> = Vec::new();
    let n = data.len();
    for i in 0..n
        invariant
            n == data@.len(),
            r@ =~= data@.take(i as int),
    {
        r.push(data[i]);
        proof {
            assert(data@.take(i + 1) =~= data@.take(i as int).push(data@[i as int]));
        }
    }
    proof {
        assert(data@.take(n as int) =~= data@);
    }
    r
}

/// Compresses a byte payload under the selected setting. `Uncompressed`
/// output is the input itself; any other setting produces a token stream
/// that expands back to the input exactly.
pub fn compress(data: &Vec<u8>, c: Compression) -> (r: Vec<u8>)
    ensures
        c == Compression::Uncompressed ==> r@ == data@,
        c != Compression::Uncompressed ==> rle_expand(r@) == Option::Some(data@),
{
    match c {
        Compression::Uncompressed => copy_bytes(data),
        Compression::FastGeneric => rle_compress(data, 8),
        Compression::BalancedGeneric => rle_compress(data, 4),
        Compression::HighRatioGeneric => rle_compress(data, 2),
    }
}

/// Undoes `compress` under the same setting; fails on a byte stream that
/// no compressed payload produces.
pub fn decompress(data: &Vec<u8>, c: Compression) -> (r: Result<Vec<u8>, ConvertError>)
    ensures
        c == Compression::Uncompressed ==> (r matches Result::Ok(out) && out@ == data@),
        c != Compression::Uncompressed ==> match rle_expand(data@) {
            Option::Some(d) => r matches Result::Ok(out) && out@ == d,
            Option::None => r == Result::<Vec<u8>, ConvertError>::Err(ConvertError::CorruptFile),
        },
{
    match c {
        Compression::Uncompressed => Result::Ok(copy_bytes(data)),
        _ => rle_decompress(data),
    }
}

} // verus!
