//! Field elements of the scalar field shared by the hash permutation and the
//! proving scheme.
//!
//! A field element is carried as its canonical 32-byte little-endian
//! encoding; its mathematical value is the little-endian integer of those
//! bytes.  All arithmetic is delegated to the arkworks implementation of the
//! field through a small set of trusted wrappers whose contracts state the
//! result as integer arithmetic modulo the prime.

use vstd::prelude::*;
use vstd::arithmetic::div_mod::lemma_fundamental_div_mod;
use ark_ff::BigInteger;
use ark_ff::PrimeField;

verus! {

/// The prime modulus: the order of the scalar field of the pairing curve,
/// which is also the base field of its embedded curve.
pub open spec fn field_p() -> nat {
    52435875175126190479447740508185965837690552500527637822603658699938581184513nat
}

/// Little-endian integer value of a byte sequence.
pub open spec fn le_nat(s: Seq<u8>) -> nat
    decreases s.len(),
{
    if s.len() == 0 {
        0
    } else {
        s[0] as nat + 256 * le_nat(s.drop_first())
    }
}

/// Little-endian encoding of `n` in exactly `width` bytes (truncating high
/// bytes if `n` does not fit).
pub open spec fn le_bytes(n: nat, width: nat) -> Seq<u8>
    decreases width,
{
    if width == 0 {
        Seq::empty()
    } else {
        seq![(n % 256) as u8] + le_bytes(n / 256, (width - 1) as nat)
    }
}

pub proof fn lemma_le_bytes_len(n: nat, width: nat)
    ensures
        le_bytes(n, width).len() == width,
    decreases width,
{
    if width > 0 {
        lemma_le_bytes_len(n / 256, (width - 1) as nat);
    }
}

/// Encoding inverts evaluation: a byte sequence is recovered from its value.
pub proof fn lemma_le_bytes_of_le_nat(s: Seq<u8>)
    ensures
        le_bytes(le_nat(s), s.len()) == s,
    decreases s.len(),
{
    if s.len() > 0 {
        let rest = s.drop_first();
        let n = le_nat(s);
        assert(n == s[0] + 256 * le_nat(rest));
        lemma_fundamental_div_mod(n as int, 256);
        assert(n % 256 == s[0] && n / 256 == le_nat(rest)) by {
            vstd::arithmetic::div_mod::lemma_fundamental_div_mod_converse(
                n as int, 256, le_nat(rest) as int, s[0] as int);
        }
        lemma_le_bytes_of_le_nat(rest);
        assert(le_bytes(n, s.len()) == seq![s[0]] + rest);
        assert(seq![s[0]] + rest =~= s);
    } else {
        assert(le_bytes(le_nat(s), 0) =~= s);
    }
}

pub proof fn lemma_le_nat_all_zero(s: Seq<u8>)
    requires
        forall|i: int| 0 <= i < s.len() ==> s[i] == 0,
    ensures
        le_nat(s) == 0,
    decreases s.len(),
{
    if s.len() > 0 {
        lemma_le_nat_all_zero(s.drop_first());
    }
}


/// 256 to the power `w`: the number of values a `w`-byte field can hold.
pub open spec fn pow256(w: nat) -> nat
    decreases w,
{
    if w == 0 {
        1
    } else {
        256 * pow256((w - 1) as nat)
    }
}

/// Evaluation inverts encoding: a value below the field's capacity is
/// recovered from its encoding, so the encoding is injective there.
pub proof fn lemma_le_nat_of_le_bytes(n: nat, w: nat)
    requires
        n < pow256(w),
    ensures
        le_nat(le_bytes(n, w)) == n,
    decreases w,
{
    if w > 0 {
        let rest = le_bytes(n / 256, (w - 1) as nat);
        assert(le_bytes(n, w) == seq![(n % 256) as u8] + rest);
        assert(le_bytes(n, w).drop_first() =~= rest);
        assert(n / 256 < pow256((w - 1) as nat)) by {
            lemma_fundamental_div_mod(n as int, 256);
        }
        lemma_le_nat_of_le_bytes(n / 256, (w - 1) as nat);
        lemma_fundamental_div_mod(n as int, 256);
    }
}

/// An element of the prime field, held as canonical little-endian bytes.
pub struct Fe {
    pub bytes: [u8; 32],
}

impl View for Fe {
    type V = nat;

    open spec fn view(&self) -> nat {
        le_nat(self.bytes@)
    }
}

impl Fe {
    /// Canonical: the value is reduced, so the bytes are its unique encoding.
    pub open spec fn wf(&self) -> bool {
        self@ < field_p()
    }
}

/// The additive identity, as its canonical encoding.
pub fn fe_zero() -> (r: Fe)
    ensures
        r@ == 0,
        r.wf(),
{
    let z = Fe { bytes: [0; 32] };
    proof {
        lemma_le_nat_all_zero(z.bytes@);
    }
    z
}

/// Relies on field addition of `ark_ed_on_bls12_381::Fq` (with
/// `from_le_bytes_mod_order` / `into_repr().to_bytes_le()` for the byte
/// encoding): the sum modulo the prime, canonically encoded.
#[verifier::external_body]
pub fn fe_add(a: &Fe, b: &Fe) -> (r: Fe)
    ensures
        r@ == (a@ + b@) % field_p(),
        r.wf(),
{
    let x = ark_ed_on_bls12_381::Fq::from_le_bytes_mod_order(&a.bytes)
        + ark_ed_on_bls12_381::Fq::from_le_bytes_mod_order(&b.bytes);
    let v = x.into_repr().to_bytes_le();
    let mut bytes = [0u8; 32];
    bytes.copy_from_slice(&v[..32]);
    Fe { bytes }
}

/// Relies on field multiplication of `ark_ed_on_bls12_381::Fq`: the product
/// modulo the prime, canonically encoded.
#[verifier::external_body]
pub fn fe_mul(a: &Fe, b: &Fe) -> (r: Fe)
    ensures
        r@ == (a@ * b@) % field_p(),
        r.wf(),
{
    let x = ark_ed_on_bls12_381::Fq::from_le_bytes_mod_order(&a.bytes)
        * ark_ed_on_bls12_381::Fq::from_le_bytes_mod_order(&b.bytes);
    let v = x.into_repr().to_bytes_le();
    let mut bytes = [0u8; 32];
    bytes.copy_from_slice(&v[..32]);
    Fe { bytes }
}

/// Relies on `ark_ed_on_bls12_381::Fq::from(u64)`: embeds a machine word,
/// which is always below the prime.
#[verifier::external_body]
pub fn fe_from_u64(x: u64) -> (r: Fe)
    ensures
        r@ == x as nat,
        r.wf(),
{
    let f = ark_ed_on_bls12_381::Fq::from(x);
    let v = f.into_repr().to_bytes_le();
    let mut bytes = [0u8; 32];
    bytes.copy_from_slice(&v[..32]);
    Fe { bytes }
}

/// Relies on `ark_ed_on_bls12_381::Fq::from_le_bytes_mod_order`: the
/// little-endian value of the bytes, reduced modulo the prime.
#[verifier::external_body]
pub fn fe_from_le_bytes(s: &[u8]) -> (r: Fe)
    ensures
        r@ == le_nat(s@) % field_p(),
        r.wf(),
{
    let f = ark_ed_on_bls12_381::Fq::from_le_bytes_mod_order(s);
    let v = f.into_repr().to_bytes_le();
    let mut bytes = [0u8; 32];
    bytes.copy_from_slice(&v[..32]);
    Fe { bytes }
}

} // verus!
