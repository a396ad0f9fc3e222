//! Facts about the numeric value of bit sequences.

use crate::binary::{low_bits, nat_of, not_bits, zext};
use vstd::arithmetic::power2::{lemma_pow2_pos, lemma_pow2_unfold, pow2};
use vstd::prelude::*;

verus! {

/// Appending a bit above the top adds its weight.
pub proof fn lemma_nat_of_push(s: Seq<bool>, b: bool)
    ensures
        nat_of(s.push(b)) == nat_of(s) + if b { pow2(s.len()) } else { 0 },
{
    assert(s.push(b).drop_last() =~= s);
}

/// The value of `n` bits is below `2^n`.
pub proof fn lemma_nat_of_bound(s: Seq<bool>)
    ensures
        nat_of(s) < pow2(s.len()),
    decreases s.len(),
{
    if s.len() == 0 {
        lemma_pow2_pos(0);
    } else {
        lemma_nat_of_bound(s.drop_last());
        lemma_pow2_unfold(s.len());
    }
}

/// Two sequences of one length with one value are the same sequence.
pub proof fn lemma_nat_of_injective(s: Seq<bool>, t: Seq<bool>)
    requires
        s.len() == t.len(),
        nat_of(s) == nat_of(t),
    ensures
        s == t,
    decreases s.len(),
{
    if s.len() > 0 {
        lemma_nat_of_bound(s.drop_last());
        lemma_nat_of_bound(t.drop_last());
        lemma_nat_of_injective(s.drop_last(), t.drop_last());
        assert(s =~= s.drop_last().push(s.last()));
        assert(t =~= t.drop_last().push(t.last()));
    } else {
        assert(s =~= t);
    }
}

/// Widening with zeros keeps the value.
pub proof fn lemma_zext_value(s: Seq<bool>, n: nat)
    requires
        s.len() <= n,
    ensures
        nat_of(zext(s, n)) == nat_of(s),
    decreases n,
{
    if n == s.len() {
        assert(zext(s, n) =~= s);
    } else {
        lemma_zext_value(s, (n - 1) as nat);
        assert(zext(s, n) =~= zext(s, (n - 1) as nat).push(false));
        lemma_nat_of_push(zext(s, (n - 1) as nat), false);
    }
}

/// Inverting every bit of `n` bits gives `2^n - 1` minus the value.
pub proof fn lemma_not_value(s: Seq<bool>)
    ensures
        nat_of(not_bits(s)) + nat_of(s) + 1 == pow2(s.len()),
    decreases s.len(),
{
    if s.len() == 0 {
        assert(pow2(0) == 1) by { vstd::arithmetic::power2::lemma2_to64(); }
    } else {
        let d = s.drop_last();
        lemma_not_value(d);
        assert(not_bits(s).drop_last() =~= not_bits(d));
        lemma_pow2_unfold(s.len());
    }
}

/// A prefix one bit longer adds the weight of that bit.
pub proof fn lemma_nat_of_prefix(s: Seq<bool>, i: int)
    requires
        0 <= i < s.len(),
    ensures
        nat_of(s.subrange(0, i + 1)) == nat_of(s.subrange(0, i)) + if s[i] { pow2(i as nat) } else { 0 },
{
    assert(s.subrange(0, i + 1) =~= s.subrange(0, i).push(s[i]));
    lemma_nat_of_push(s.subrange(0, i), s[i]);
}

/// Putting a bit below the lowest doubles the value and adds the bit.
pub proof fn lemma_nat_of_cons(b: bool, s: Seq<bool>)
    ensures
        nat_of(seq![b] + s) == (if b { 1nat } else { 0nat }) + 2 * nat_of(s),
    decreases s.len(),
{
    let t = seq![b] + s;
    if s.len() == 0 {
        assert(t.drop_last() =~= Seq::<bool>::empty());
        vstd::arithmetic::power2::lemma2_to64();
        assert(t.last() == b);
        assert(nat_of(t) == nat_of(t.drop_last()) + if t.last() { pow2(0) } else { 0 });
    } else {
        assert(t.drop_last() =~= seq![b] + s.drop_last());
        assert(t.last() == s.last());
        assert(t.len() - 1 == s.len());
        lemma_nat_of_cons(b, s.drop_last());
        lemma_pow2_unfold(s.len());
        assert(nat_of(t) == nat_of(t.drop_last()) + if t.last() { pow2(s.len()) } else { 0 });
        assert(nat_of(s) == nat_of(s.drop_last()) + if s.last() { pow2((s.len() - 1) as nat) } else { 0 });
    }
}

/// The lowest `n` bits of `v` are worth `v mod 2^n`.
pub proof fn lemma_low_bits_value(v: nat, n: nat)
    ensures
        low_bits(v, n).len() == n,
        nat_of(low_bits(v, n)) == v % pow2(n),
    decreases n,
{
    if n == 0 {
        vstd::arithmetic::power2::lemma2_to64();
    } else {
        lemma_low_bits_value(v / 2, (n - 1) as nat);
        lemma_nat_of_cons(v % 2 == 1, low_bits(v / 2, (n - 1) as nat));
        lemma_pow2_unfold(n);
        lemma_pow2_pos((n - 1) as nat);
        vstd::arithmetic::div_mod::lemma_mod_breakdown(v as int, 2, pow2((n - 1) as nat) as int);
    }
}

/// A sequence of `n` bits worth `v mod 2^n` is the lowest `n` bits of `v`.
pub proof fn lemma_is_low_bits(s: Seq<bool>, v: nat)
    requires
        nat_of(s) == v % pow2(s.len()),
    ensures
        s == low_bits(v, s.len()),
{
    lemma_low_bits_value(v, s.len());
    lemma_nat_of_injective(s, low_bits(v, s.len()));
}

/// The lowest `len` bits of a sequence's value are that sequence.
pub proof fn lemma_low_bits_of_value(s: Seq<bool>)
    ensures
        low_bits(nat_of(s), s.len()) == s,
{
    lemma_nat_of_bound(s);
    vstd::arithmetic::div_mod::lemma_small_mod(nat_of(s), pow2(s.len()));
    lemma_is_low_bits(s, nat_of(s));
}

} // verus!
