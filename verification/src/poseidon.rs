//! The algebraic hash primitive.
//!
//! A fixed three-word sponge permutation over the prime field: eight full
//! rounds, fifty-seven partial rounds, eight full rounds.  Every round adds
//! round constants, applies the quintic S-box to all words (full round) or
//! only the first word (partial round), and multiplies the state by a fixed
//! mixing matrix.  The same permutation combines Merkle tree nodes and binds
//! entity commitments, so commitments can stand as leaves of the same tree
//! family.
//!
//! The specification is the round structure itself, stated over natural
//! numbers modulo the prime; the executable code is proved to follow it
//! step by step, with only the field operations trusted.
//!
//! The round constants and the mixing matrix are this crate's own fixed
//! choice of parameters for that structure, not those of any standardized
//! instance; they must stay exactly as they are, since changing either
//! changes every digest, commitment and tree node ever produced.

use vstd::prelude::*;
use crate::field::{
    fe_add, fe_from_le_bytes, fe_from_u64, fe_mul, fe_zero, field_p, le_bytes, le_nat,
    lemma_le_bytes_of_le_nat, Fe,
};

verus! {

/// Field addition.
pub open spec fn fadd(a: nat, b: nat) -> nat {
    (a + b) % field_p()
}

/// Field multiplication.
pub open spec fn fmul(a: nat, b: nat) -> nat {
    (a * b) % field_p()
}

/// The quintic S-box, computed as a chain of four multiplications.
pub open spec fn sbox5(x: nat) -> nat {
    fmul(fmul(fmul(fmul(x, x), x), x), x)
}

pub open spec fn n_full_rounds() -> nat {
    8
}

pub open spec fn n_partial_rounds() -> nat {
    57
}

/// Total rounds: full, then partial, then full again.
pub open spec fn n_rounds() -> nat {
    n_full_rounds() + n_partial_rounds() + n_full_rounds()
}

/// A round is full when it lies in the first or last block of full rounds.
pub open spec fn is_full_round(r: nat) -> bool {
    r < n_full_rounds() || r >= n_full_rounds() + n_partial_rounds()
}

/// Round constant for round `r`, word `i`: a distinct small scalar per
/// round and word.
pub open spec fn round_const(r: nat, i: nat) -> nat {
    1 + 3 * r + i
}

/// The three-word permutation state.
pub open spec fn st(w0: nat, w1: nat, w2: nat) -> (nat, nat, nat) {
    (w0, w1, w2)
}

pub open spec fn add_consts(s: (nat, nat, nat), r: nat) -> (nat, nat, nat) {
    (fadd(s.0, round_const(r, 0)), fadd(s.1, round_const(r, 1)), fadd(s.2, round_const(r, 2)))
}

/// Multiply by the fixed mixing matrix with rows (2,1,1), (1,2,1), (1,1,2).
pub open spec fn mix(s: (nat, nat, nat)) -> (nat, nat, nat) {
    (
        fadd(fadd(fmul(2, s.0), s.1), s.2),
        fadd(fadd(s.0, fmul(2, s.1)), s.2),
        fadd(fadd(s.0, s.1), fmul(2, s.2)),
    )
}

/// One round of the permutation.
pub open spec fn apply_round(s: (nat, nat, nat), r: nat) -> (nat, nat, nat) {
    let a = add_consts(s, r);
    let b = if is_full_round(r) {
        (sbox5(a.0), sbox5(a.1), sbox5(a.2))
    } else {
        (sbox5(a.0), a.1, a.2)
    };
    mix(b)
}

/// Apply rounds `r .. n_rounds()` to `s`.
pub open spec fn rounds_from(s: (nat, nat, nat), r: nat) -> (nat, nat, nat)
    decreases n_rounds() - r,
{
    if r >= n_rounds() {
        s
    } else {
        rounds_from(apply_round(s, r), r + 1)
    }
}

/// The full permutation.
#[verifier::opaque]
pub open spec fn permute(s: (nat, nat, nat)) -> (nat, nat, nat) {
    rounds_from(s, 0)
}

/// A byte string split into 32-byte chunks, each reduced into the field.
pub open spec fn chunks32(d: Seq<u8>) -> Seq<nat>
    decreases d.len(),
{
    if d.len() == 0 {
        Seq::empty()
    } else if d.len() <= 32 {
        seq![le_nat(d) % field_p()]
    } else {
        seq![le_nat(d.take(32)) % field_p()] + chunks32(d.skip(32))
    }
}

/// Load up to two chunks into the state's rate words by field addition.
pub open spec fn load2(s: (nat, nat, nat), cs: Seq<nat>) -> (nat, nat, nat) {
    if cs.len() == 0 {
        s
    } else if cs.len() == 1 {
        (fadd(s.0, cs[0]), s.1, s.2)
    } else {
        (fadd(s.0, cs[0]), fadd(s.1, cs[1]), s.2)
    }
}

/// Absorb a chunk sequence two chunks per permutation, ending with one
/// final permutation over the last (possibly empty) block.
pub open spec fn sponge(s: (nat, nat, nat), cs: Seq<nat>) -> (nat, nat, nat)
    decreases cs.len(),
{
    if cs.len() <= 2 {
        permute(load2(s, cs))
    } else {
        sponge(permute(load2(s, cs.take(2))), cs.skip(2))
    }
}

/// The hash of a byte string, as a field value.
pub open spec fn hash_bytes_val(d: Seq<u8>) -> nat {
    sponge(st(0, 0, 0), chunks32(d)).0
}

/// The hash of a byte string, as a 32-byte digest.
pub open spec fn spec_hash_bytes(d: Seq<u8>) -> Seq<u8> {
    le_bytes(hash_bytes_val(d), 32)
}

/// The combination of two child digests into a parent digest.
pub open spec fn spec_hash_pair(l: Seq<u8>, r: Seq<u8>) -> Seq<u8> {
    le_bytes(permute(st(le_nat(l) % field_p(), le_nat(r) % field_p(), 0)).0, 32)
}

struct State3 {
    w0: Fe,
    w1: Fe,
    w2: Fe,
}

impl State3 {
    spec fn view3(&self) -> (nat, nat, nat) {
        (self.w0@, self.w1@, self.w2@)
    }

    spec fn wf3(&self) -> bool {
        self.w0.wf() && self.w1.wf() && self.w2.wf()
    }
}

/// The quintic S-box.
fn sbox_exec(x: &Fe) -> (r: Fe)
    ensures
        r@ == sbox5(x@),
{
    let x2 = fe_mul(x, x);
    let x3 = fe_mul(&x2, x);
    let x4 = fe_mul(&x3, x);
    fe_mul(&x4, x)
}

/// One mixing-matrix multiply.
fn mix_exec(s: State3) -> (r: State3)
    ensures
        r.view3() == mix(s.view3()),
        r.wf3(),
{
    let two = fe_from_u64(2);
    let d0 = fe_add(&fe_add(&fe_mul(&two, &s.w0), &s.w1), &s.w2);
    let d1 = fe_add(&fe_add(&s.w0, &fe_mul(&two, &s.w1)), &s.w2);
    let d2 = fe_add(&fe_add(&s.w0, &s.w1), &fe_mul(&two, &s.w2));
    State3 { w0: d0, w1: d1, w2: d2 }
}

/// One round: constants, S-box, mix.
fn round_exec(s: State3, r: u64) -> (out: State3)
    requires
        r < n_rounds(),
    ensures
        out.view3() == apply_round(s.view3(), r as nat),
        out.wf3(),
{
    let c0 = fe_from_u64(1 + 3 * r);
    let c1 = fe_from_u64(2 + 3 * r);
    let c2 = fe_from_u64(3 + 3 * r);
    let a0 = fe_add(&s.w0, &c0);
    let a1 = fe_add(&s.w1, &c1);
    let a2 = fe_add(&s.w2, &c2);
    let full = r < 8 || r >= 65;
    assert(full == is_full_round(r as nat));
    if full {
        mix_exec(State3 { w0: sbox_exec(&a0), w1: sbox_exec(&a1), w2: sbox_exec(&a2) })
    } else {
        mix_exec(State3 { w0: sbox_exec(&a0), w1: a1, w2: a2 })
    }
}

/// The full permutation.
fn permute_exec(s: State3) -> (out: State3)
    ensures
        out.view3() == permute(s.view3()),
        out.wf3(),
{
    let ghost init = s.view3();
    proof {
        reveal(permute);
    }
    let mut cur = s;
    let mut r: u64 = 0;
    while r < 73
        invariant
            r <= 73,
            73 == n_rounds(),
            rounds_from(cur.view3(), r as nat) == permute(init),
            r >= 1 ==> cur.wf3(),
        decreases 73 - r,
    {
        cur = round_exec(cur, r);
        r = r + 1;
    }
    cur
}

/// The first 64 bytes of `d`, as its first two chunks, precede the rest.
proof fn lemma_chunks_step(d: Seq<u8>)
    requires
        d.len() > 64,
    ensures
        chunks32(d).len() > 2,
        chunks32(d).take(2) == seq![
            le_nat(d.take(32)) % field_p(),
            le_nat(d.skip(32).take(32)) % field_p(),
        ],
        chunks32(d).skip(2) == chunks32(d.skip(64)),
{
    let rest = d.skip(32);
    assert(chunks32(d) == seq![le_nat(d.take(32)) % field_p()] + chunks32(rest));
    assert(rest.len() > 32);
    assert(chunks32(rest) == seq![le_nat(rest.take(32)) % field_p()] + chunks32(rest.skip(32)));
    assert(rest.skip(32) =~= d.skip(64));
    assert(chunks32(d).take(2) =~= seq![
        le_nat(d.take(32)) % field_p(),
        le_nat(rest.take(32)) % field_p(),
    ]);
    assert(chunks32(d).skip(2) =~= chunks32(rest.skip(32)));
}


/// The fixed-arity hash over field elements: up to three inputs loaded
/// into the state, one permutation, the first word out.
pub open spec fn spec_hash_elements(inputs: Seq<nat>) -> nat {
    permute(
        st(
            if inputs.len() > 0 {
                inputs[0]
            } else {
                0
            },
            if inputs.len() > 1 {
                inputs[1]
            } else {
                0
            },
            if inputs.len() > 2 {
                inputs[2]
            } else {
                0
            },
        ),
    ).0
}

/// Hash up to three field elements into one.
pub fn hash_elements(inputs: &Vec<Fe>) -> (r: Fe)
    requires
        inputs@.len() <= 3,
    ensures
        r@ == spec_hash_elements(inputs@.map_values(|f: Fe| f@)),
        r.wf(),
{
    let w0 = if inputs.len() > 0 {
        Fe { bytes: inputs[0].bytes }
    } else {
        fe_zero()
    };
    let w1 = if inputs.len() > 1 {
        Fe { bytes: inputs[1].bytes }
    } else {
        fe_zero()
    };
    let w2 = if inputs.len() > 2 {
        Fe { bytes: inputs[2].bytes }
    } else {
        fe_zero()
    };
    let out = permute_exec(State3 { w0, w1, w2 });
    Fe { bytes: out.w0.bytes }
}


/// Node combination is the same hash family applied to the two reduced
/// children, so entity commitments can stand as leaves of the same tree.
pub proof fn lemma_pair_is_element_hash(l: Seq<u8>, r: Seq<u8>)
    ensures
        spec_hash_pair(l, r) == le_bytes(
            spec_hash_elements(seq![le_nat(l) % field_p(), le_nat(r) % field_p()]),
            32,
        ),
{
}

/// Absorb one full 64-byte block starting at `i`.
fn absorb_block(cur: State3, data: &Vec<u8>, i: usize) -> (out: State3)
    requires
        i + 64 < data.len(),
    ensures
        out.view3() == permute(load2(cur.view3(), chunks32(data@.skip(i as int)).take(2))),
        out.wf3(),
{
    let ghost tail = data@.skip(i as int);
    let c0 = fe_from_le_bytes(vstd::slice::slice_subrange(data.as_slice(), i, i + 32));
    let c1 = fe_from_le_bytes(vstd::slice::slice_subrange(data.as_slice(), i + 32, i + 64));
    proof {
        assert(data@.subrange(i as int, i + 32) =~= tail.take(32));
        assert(data@.subrange(i + 32, i + 64) =~= tail.skip(32).take(32));
        lemma_chunks_step(tail);
    }
    let loaded = State3 { w0: fe_add(&cur.w0, &c0), w1: fe_add(&cur.w1, &c1), w2: cur.w2 };
    permute_exec(loaded)
}

/// Absorb the final partial block (fewer than 64 bytes) starting at `i`.
fn absorb_tail(cur: State3, data: &Vec<u8>, i: usize) -> (out: State3)
    requires
        i <= data.len(),
        data.len() - i <= 64,
    ensures
        out.view3() == sponge(cur.view3(), chunks32(data@.skip(i as int))),
        out.wf3(),
{
    let remaining = data.len() - i;
    let ghost tail = data@.skip(i as int);
    let loaded = if remaining == 0 {
        proof {
            assert(chunks32(tail).len() == 0);
        }
        cur
    } else if remaining <= 32 {
        let c0 = fe_from_le_bytes(vstd::slice::slice_subrange(data.as_slice(), i, data.len()));
        proof {
            assert(data@.subrange(i as int, data@.len() as int) =~= tail);
            assert(chunks32(tail) =~= seq![le_nat(tail) % field_p()]);
        }
        State3 { w0: fe_add(&cur.w0, &c0), w1: cur.w1, w2: cur.w2 }
    } else {
        let c0 = fe_from_le_bytes(vstd::slice::slice_subrange(data.as_slice(), i, i + 32));
        let c1 = fe_from_le_bytes(vstd::slice::slice_subrange(data.as_slice(), i + 32, data.len()));
        proof {
            assert(data@.subrange(i as int, i + 32) =~= tail.take(32));
            assert(data@.subrange(i + 32, data@.len() as int) =~= tail.skip(32));
            assert(tail.skip(32).len() <= 32 && tail.skip(32).len() > 0);
            assert(chunks32(tail.skip(32)) =~= seq![le_nat(tail.skip(32)) % field_p()]);
            assert(chunks32(tail) =~= seq![
                le_nat(tail.take(32)) % field_p(),
                le_nat(tail.skip(32)) % field_p(),
            ]);
        }
        State3 { w0: fe_add(&cur.w0, &c0), w1: fe_add(&cur.w1, &c1), w2: cur.w2 }
    };
    proof {
        assert(chunks32(tail).len() <= 2);
        assert(loaded.view3() == load2(cur.view3(), chunks32(tail)));
    }
    permute_exec(loaded)
}

/// Hash an arbitrary byte string into a 32-byte digest.
pub fn poseidon_hash(data: &Vec<u8>) -> (digest: [u8; 32])
    ensures
        digest@ == spec_hash_bytes(data@),
        le_nat(digest@) == hash_bytes_val(data@),
        le_nat(digest@) < field_p(),
{
    let mut cur = State3 { w0: fe_zero(), w1: fe_zero(), w2: fe_zero() };
    let mut i: usize = 0;
    proof {
        assert(data@.skip(0) =~= data@);
    }
    while data.len() - i > 64
        invariant
            i <= data.len(),
            sponge(st(0, 0, 0), chunks32(data@)) == sponge(
                cur.view3(),
                chunks32(data@.skip(i as int)),
            ),
        decreases data.len() - i,
    {
        let ghost tail = data@.skip(i as int);
        cur = absorb_block(cur, data, i);
        proof {
            lemma_chunks_step(tail);
            assert(tail.skip(64) =~= data@.skip(i as int + 64));
        }
        i = i + 64;
    }
    let out = absorb_tail(cur, data, i);
    proof {
        lemma_le_bytes_of_le_nat(out.w0.bytes@);
    }
    out.w0.bytes
}

/// Combine two 32-byte digests into their parent digest.
pub fn hash_pair(l: &[u8; 32], r: &[u8; 32]) -> (digest: [u8; 32])
    ensures
        digest@ == spec_hash_pair(l@, r@),
{
    let fl = fe_from_le_bytes(l.as_slice());
    let fr = fe_from_le_bytes(r.as_slice());
    let out = permute_exec(State3 { w0: fl, w1: fr, w2: fe_zero() });
    proof {
        lemma_le_bytes_of_le_nat(out.w0.bytes@);
    }
    out.w0.bytes
}

} // verus!
