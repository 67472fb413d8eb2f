//! Bit sequences as numbers: the mathematical model behind a chromosome.
//!
//! A chromosome is a sequence of bits read as an unsigned binary integer,
//! most significant bit first. The functions here are specifications and the
//! facts proved of them; the executable types are in [`crate::dna`].

use vstd::arithmetic::power2::{lemma2_to64, lemma_pow2_pos, lemma_pow2_unfold, pow2};
use vstd::prelude::*;

verus! {

/// Every element of `s` is 0 or 1.
pub open spec fn is_bits(s: Seq<u8>) -> bool {
    forall|i: int| 0 <= i < s.len() ==> #[trigger] s[i] <= 1
}

/// The number that `s` spells in binary, most significant bit first:
/// the sum of `s[i] * 2^(len - 1 - i)`.
pub open spec fn bits_value(s: Seq<u8>) -> nat
    decreases s.len(),
{
    if s.len() == 0 {
        0
    } else {
        s[0] as nat * pow2((s.len() - 1) as nat) + bits_value(s.skip(1))
    }
}

/// The largest number that `len` bits can spell: `2^len - 1`.
pub open spec fn max_value(len: nat) -> nat {
    (pow2(len) - 1) as nat
}

/// The other bit.
pub open spec fn flipped(bit: u8) -> u8 {
    if bit == 0 {
        1
    } else {
        0
    }
}

/// `s` with `slice` written over it from position `offset` on.
pub open spec fn overwritten(s: Seq<u8>, offset: int, slice: Seq<u8>) -> Seq<u8> {
    s.take(offset) + slice + s.skip(offset + slice.len())
}

/// `a1` and `b1` are `a0` and `b0` with their first `cut` elements
/// exchanged: each has the other's old prefix and its own old suffix.
pub open spec fn is_prefix_swap(a0: Seq<u8>, b0: Seq<u8>, a1: Seq<u8>, b1: Seq<u8>, cut: int) -> bool {
    &&& a1 == b0.take(cut) + a0.skip(cut)
    &&& b1 == a0.take(cut) + b0.skip(cut)
}

/// Appending a bit doubles the number and adds the bit.
pub proof fn lemma_value_push(s: Seq<u8>, bit: u8)
    ensures
        bits_value(s.push(bit)) == 2 * bits_value(s) + bit as nat,
    decreases s.len(),
{
    let t = s.push(bit);
    lemma2_to64();
    if s.len() == 0 {
        assert(t.skip(1) =~= Seq::<u8>::empty());
        assert(bits_value(t.skip(1)) == 0);
        assert(bit as nat * pow2(0) == bit as nat) by (nonlinear_arith)
            requires
                pow2(0) == 1,
        ;
    } else {
        assert(t.skip(1) =~= s.skip(1).push(bit));
        lemma_value_push(s.skip(1), bit);
        lemma_pow2_unfold(s.len());
        let high = s[0] as nat;
        let weight = pow2((s.len() - 1) as nat);
        assert(t[0] == s[0]);
        assert(bits_value(t) == high * pow2(s.len()) + bits_value(t.skip(1)));
        assert(high * (2 * weight) == 2 * (high * weight)) by (nonlinear_arith);
    }
}

/// A sequence of `len` bits spells a number between 0 and `2^len - 1`.
pub proof fn lemma_value_bound(s: Seq<u8>)
    requires
        is_bits(s),
    ensures
        bits_value(s) <= max_value(s.len()),
    decreases s.len(),
{
    lemma_pow2_pos(s.len());
    if s.len() > 0 {
        lemma_value_bound(s.skip(1));
        lemma_pow2_unfold(s.len());
        lemma_pow2_pos((s.len() - 1) as nat);
        let high = s[0] as nat;
        let weight = pow2((s.len() - 1) as nat);
        assert(high * weight <= weight) by (nonlinear_arith)
            requires
                high <= 1,
        ;
    }
}

/// All bits clear spell 0: the decoded ratio is 0.
pub proof fn lemma_all_zero(s: Seq<u8>)
    requires
        forall|i: int| 0 <= i < s.len() ==> s[i] == 0,
    ensures
        bits_value(s) == 0,
    decreases s.len(),
{
    if s.len() > 0 {
        lemma_all_zero(s.skip(1));
        let weight = pow2((s.len() - 1) as nat);
        assert(0 * weight == 0) by (nonlinear_arith);
    }
}

/// All bits set spell `2^len - 1`: the decoded ratio is 1.
pub proof fn lemma_all_one(s: Seq<u8>)
    requires
        forall|i: int| 0 <= i < s.len() ==> s[i] == 1,
    ensures
        bits_value(s) == max_value(s.len()),
    decreases s.len(),
{
    lemma2_to64();
    lemma_pow2_pos(s.len());
    if s.len() > 0 {
        lemma_all_one(s.skip(1));
        lemma_pow2_unfold(s.len());
        lemma_pow2_pos((s.len() - 1) as nat);
        let weight = pow2((s.len() - 1) as nat);
        assert(1 * weight == weight) by (nonlinear_arith);
    }
}

/// Setting a clear bit adds the weight of its position, so the number, and
/// with it the decoded ratio, never decreases.
pub proof fn lemma_set_bit(s: Seq<u8>, i: int)
    requires
        0 <= i < s.len(),
        s[i] == 0,
    ensures
        bits_value(s.update(i, 1)) == bits_value(s) + pow2((s.len() - 1 - i) as nat),
        bits_value(s.update(i, 1)) >= bits_value(s),
    decreases s.len(),
{
    let t = s.update(i, 1);
    let weight = pow2((s.len() - 1) as nat);
    if i == 0 {
        assert(t.skip(1) =~= s.skip(1));
        assert(1 * weight == weight) by (nonlinear_arith);
        assert(0 * weight == 0) by (nonlinear_arith);
    } else {
        assert(t.skip(1) =~= s.skip(1).update(i - 1, 1));
        lemma_set_bit(s.skip(1), i - 1);
    }
}

/// Exchanging the first `n` bits of two sequences is a true swap: each ends
/// with the other's old prefix, and both keep their suffix.
pub proof fn lemma_prefix_swap(a: Seq<u8>, b: Seq<u8>, n: int)
    requires
        0 <= n <= a.len(),
        a.len() == b.len(),
    ensures
        ({
            let into_a = overwritten(a, 0, b.take(n));
            let into_b = overwritten(b, 0, a.take(n));
            &&& into_a.len() == a.len()
            &&& into_b.len() == b.len()
            &&& into_a.take(n) == b.take(n)
            &&& into_b.take(n) == a.take(n)
            &&& into_a.skip(n) == a.skip(n)
            &&& into_b.skip(n) == b.skip(n)
        }),
{
    let into_a = overwritten(a, 0, b.take(n));
    let into_b = overwritten(b, 0, a.take(n));
    assert(into_a.take(n) =~= b.take(n));
    assert(into_b.take(n) =~= a.take(n));
    assert(into_a.skip(n) =~= a.skip(n));
    assert(into_b.skip(n) =~= b.skip(n));
}

} // verus!
