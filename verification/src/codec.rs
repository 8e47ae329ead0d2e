//! The general-purpose byte codec used for entity payloads.
//!
//! Payloads are run-length encoded: the payload is a sequence of `(count,
//! byte)` pairs, each standing for `count` repetitions of `byte`, with
//! `1 <= count <= 255`.  Decoding rejects malformed payloads (a dangling
//! count or a zero count) with a compression error, so a truncated or
//! corrupted payload is never silently expanded.

use vstd::prelude::*;
use crate::error::ErrorKind;

verus! {

/// Longest run one pair can carry.
pub open spec fn max_run() -> nat {
    255
}

/// Length of the maximal leading run of `d`: how many copies of `d[0]`
/// stand at the start.
pub open spec fn full_run(d: Seq<u8>) -> nat
    decreases d.len(),
{
    if d.len() == 0 {
        0
    } else if d.len() >= 2 && d[1] == d[0] {
        1 + full_run(d.drop_first())
    } else {
        1
    }
}

/// The run the encoder takes in one pair: the leading run, capped at what a
/// count byte can carry.
pub open spec fn run_len(d: Seq<u8>) -> nat {
    if full_run(d) <= max_run() {
        full_run(d)
    } else {
        max_run()
    }
}

/// The run-length encoding of `d`.
pub open spec fn rle_encode(d: Seq<u8>) -> Seq<u8>
    decreases d.len(),
    via rle_encode_decreases
{
    if d.len() == 0 {
        Seq::empty()
    } else {
        let m = run_len(d);
        seq![m as u8, d[0]] + rle_encode(d.skip(m as int))
    }
}

#[via_fn]
proof fn rle_encode_decreases(d: Seq<u8>) {
    if d.len() > 0 {
        lemma_run_len_bounds(d);
    }
}

/// A well-formed payload: a whole number of pairs, each with a nonzero count.
pub open spec fn rle_valid(p: Seq<u8>) -> bool
    decreases p.len(),
{
    if p.len() == 0 {
        true
    } else {
        p.len() >= 2 && p[0] != 0 && rle_valid(p.skip(2))
    }
}

/// The expansion of a well-formed payload.
pub open spec fn rle_decode(p: Seq<u8>) -> Seq<u8>
    decreases p.len(),
{
    if p.len() < 2 {
        Seq::empty()
    } else {
        Seq::new(p[0] as nat, |i: int| p[1]) + rle_decode(p.skip(2))
    }
}

proof fn lemma_full_run_bounds(d: Seq<u8>)
    requires
        d.len() > 0,
    ensures
        1 <= full_run(d) <= d.len(),
        forall|i: int| 0 <= i < full_run(d) ==> #[trigger] d[i] == d[0],
        full_run(d) < d.len() ==> d[full_run(d) as int] != d[0],
    decreases d.len(),
{
    if d.len() >= 2 && d[1] == d[0] {
        let rest = d.drop_first();
        lemma_full_run_bounds(rest);
        assert forall|i: int| 0 <= i < full_run(d) implies #[trigger] d[i] == d[0] by {
            if i > 0 {
                assert(rest[i - 1] == rest[0]);
                assert(d[i] == rest[i - 1] && d[1] == rest[0]);
            }
        }
        if full_run(d) < d.len() {
            assert(d[full_run(d) as int] == rest[full_run(rest) as int]);
        }
    }
}

/// If the first `k` bytes are all equal, the leading run is at least `k`.
proof fn lemma_full_run_at_least(d: Seq<u8>, k: nat)
    requires
        1 <= k <= d.len(),
        forall|i: int| 0 <= i < k ==> #[trigger] d[i] == d[0],
    ensures
        full_run(d) >= k,
    decreases d.len(),
{
    if k >= 2 {
        let rest = d.drop_first();
        assert(d[1] == d[0]);
        assert forall|i: int| 0 <= i < k - 1 implies #[trigger] rest[i] == rest[0] by {
            assert(rest[i] == d[i + 1] && rest[0] == d[1]);
        }
        lemma_full_run_at_least(rest, (k - 1) as nat);
    }
}

proof fn lemma_run_len_bounds(d: Seq<u8>)
    requires
        d.len() > 0,
    ensures
        1 <= run_len(d) <= max_run(),
        run_len(d) <= d.len(),
        forall|i: int| 0 <= i < run_len(d) ==> #[trigger] d[i] == d[0],
    decreases d.len(),
{
    lemma_full_run_bounds(d);
}

/// Round trip: every encoded payload is well formed and decodes to the
/// original bytes.
pub proof fn lemma_rle_round_trip(d: Seq<u8>)
    ensures
        rle_valid(rle_encode(d)),
        rle_decode(rle_encode(d)) == d,
    decreases d.len(),
{
    if d.len() > 0 {
        let m = run_len(d);
        lemma_run_len_bounds(d);
        let rest = d.skip(m as int);
        lemma_rle_round_trip(rest);
        let p = rle_encode(d);
        assert(p == seq![m as u8, d[0]] + rle_encode(rest));
        assert(p.skip(2) =~= rle_encode(rest));
        assert(rle_decode(p) == Seq::new(m, |i: int| d[0]) + rle_decode(rle_encode(rest)));
        assert(Seq::new(m, |i: int| d[0]) + rest =~= d);
    } else {
        assert(rle_decode(rle_encode(d)) =~= d);
    }
}

/// Compress a byte string into a run-length payload.
pub fn compress_bytes(raw: &Vec<u8>) -> (payload: Vec<u8>)
    ensures
        payload@ == rle_encode(raw@),
        rle_valid(payload@),
        rle_decode(payload@) == raw@,
{
    let mut out: Vec<u8> = Vec::new();
    let mut i: usize = 0;
    proof {
        assert(raw@.skip(0) =~= raw@);
    }
    while i < raw.len()
        invariant
            i <= raw.len(),
            rle_encode(raw@) == out@ + rle_encode(raw@.skip(i as int)),
        decreases raw.len() - i,
    {
        let b = raw[i];
        let mut m: usize = 1;
        proof {
            lemma_run_len_bounds(raw@.skip(i as int));
        }
        while i + m < raw.len() && raw[i + m] == b && m < 255
            invariant
                i < raw.len(),
                1 <= m <= 255,
                i + m <= raw.len(),
                b == raw@[i as int],
                forall|k: int| i <= k < i + m ==> #[trigger] raw@[k] == raw@[i as int],
            decreases raw.len() - i - m,
        {
            m = m + 1;
        }
        proof {
            let tail = raw@.skip(i as int);
            // The scanned run is exactly the spec run length of the tail.
            assert forall|k: int| 0 <= k < m implies #[trigger] tail[k] == tail[0] by {
                assert(tail[k] == raw@[i + k]);
            }
            lemma_run_len_spec(tail, m as nat);
            assert(rle_encode(tail) == seq![m as u8, tail[0]] + rle_encode(tail.skip(m as int)));
            assert(tail.skip(m as int) =~= raw@.skip(i + m));
            assert(out@ + rle_encode(tail) =~= (out@ + seq![m as u8, tail[0]]) + rle_encode(
                raw@.skip(i + m)));
        }
        out.push(m as u8);
        out.push(b);
        i = i + m;
    }
    proof {
        assert(raw@.skip(raw@.len() as int) =~= Seq::<u8>::empty());
        assert(out@ + Seq::<u8>::empty() =~= out@);
        lemma_rle_round_trip(raw@);
    }
    out
}

/// A maximal scan of the leading run finds the spec run length.
proof fn lemma_run_len_spec(d: Seq<u8>, m: nat)
    requires
        d.len() > 0,
        1 <= m <= max_run(),
        m <= d.len(),
        forall|k: int| 0 <= k < m ==> #[trigger] d[k] == d[0],
        m < max_run() ==> m == d.len() || d[m as int] != d[0],
    ensures
        run_len(d) == m,
{
    lemma_full_run_bounds(d);
    lemma_full_run_at_least(d, m);
    if m < max_run() {
        // The scan stopped at the end or at a differing byte, so the full
        // run cannot reach past `m`.
        if full_run(d) > m {
            assert(m < d.len());
            assert(d[m as int] == d[0]);
            assert(false);
        }
    }
}

/// Decompress a run-length payload; rejects malformed payloads.
pub fn decompress_bytes(payload: &Vec<u8>) -> (r: Result<Vec<u8>, ErrorKind>)
    ensures
        r is Ok <==> rle_valid(payload@),
        r matches Ok(raw) ==> raw@ == rle_decode(payload@),
        r matches Err(e) ==> e == ErrorKind::Compression,
{
    let mut out: Vec<u8> = Vec::new();
    let mut i: usize = 0;
    proof {
        assert(payload@.skip(0) =~= payload@);
    }
    while i < payload.len()
        invariant
            i <= payload.len(),
            i % 2 == 0,
            rle_valid(payload@) <==> rle_valid(payload@.skip(i as int)),
            rle_decode(payload@) == out@ + rle_decode(payload@.skip(i as int)),
        decreases payload.len() - i,
    {
        if i + 1 >= payload.len() {
            // A dangling count byte: not a whole pair.
            assert(!rle_valid(payload@.skip(i as int)));
            return Err(ErrorKind::Compression);
        }
        let m = payload[i];
        let b = payload[i + 1];
        if m == 0 {
            assert(!rle_valid(payload@.skip(i as int)));
            return Err(ErrorKind::Compression);
        }
        let ghost tail = payload@.skip(i as int);
        let ghost prefix = out@;
        let mut k: usize = 0;
        while k < m as usize
            invariant
                k <= m,
                out@ == prefix + Seq::new(k as nat, |j: int| b),
            decreases m - k,
        {
            proof {
                assert(prefix + Seq::new((k + 1) as nat, |j: int| b) =~= (prefix + Seq::new(
                    k as nat,
                    |j: int| b,
                )).push(b));
            }
            out.push(b);
            k = k + 1;
        }
        proof {
            assert(tail.skip(2) =~= payload@.skip(i + 2));
            assert(tail[0] == m && tail[1] == b);
            assert(rle_decode(tail) == Seq::new(m as nat, |j: int| b) + rle_decode(tail.skip(2)));
            assert(rle_decode(payload@) == prefix + rle_decode(tail));
            assert(prefix + (Seq::new(m as nat, |j: int| b) + rle_decode(tail.skip(2))) =~= (prefix
                + Seq::new(m as nat, |j: int| b)) + rle_decode(tail.skip(2)));
        }
        i = i + 2;
    }
    proof {
        assert(payload@.skip(i as int) =~= Seq::<u8>::empty());
        assert(out@ + Seq::<u8>::empty() =~= out@);
    }
    Ok(out)
}

} // verus!

