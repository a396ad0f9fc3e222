//! Equality and numeric ordering of values.

use crate::binary::{int_of, nat_of, BinaryBase, SignMode};
use crate::lemmas::{lemma_nat_of_bound, lemma_nat_of_push, lemma_zext_value};
use crate::store::store_get;
use core::cmp::Ordering;
use vstd::arithmetic::power2::{lemma_pow2_pos, lemma_pow2_unfold, pow2};
use vstd::prelude::*;

verus! {

/// The first `n` positions of a value, stored or synthesised.
pub open spec fn extended(a: BinaryBase, n: nat) -> Seq<bool> {
    Seq::new(n, |k: int| a.bit_at(k))
}

/// Splitting a sequence at `k` splits its value.
proof fn lemma_nat_of_split(x: Seq<bool>, k: int)
    requires
        0 <= k <= x.len(),
    ensures
        nat_of(x) == nat_of(x.subrange(0, k)) + pow2(k as nat) * nat_of(x.subrange(k, x.len() as int)),
    decreases x.len(),
{
    if x.len() == k {
        assert(x.subrange(0, k) =~= x);
        assert(x.subrange(k, k) =~= Seq::<bool>::empty());
        assert(nat_of(x.subrange(k, k)) == 0);
        assert(pow2(k as nat) * 0 == 0);
    } else {
        let d = x.drop_last();
        lemma_nat_of_split(d, k);
        let hi = x.subrange(k, x.len() as int);
        assert(hi.drop_last() =~= d.subrange(k, d.len() as int));
        assert(d.subrange(0, k) =~= x.subrange(0, k));
        lemma_pow2_pos(k as nat);
        vstd::arithmetic::power2::lemma_pow2_adds(k as nat, (hi.len() - 1) as nat);
        let b: nat = if x.last() { 1 } else { 0 };
        assert(nat_of(hi) == nat_of(hi.drop_last()) + b * pow2((hi.len() - 1) as nat));
        assert(nat_of(x) == nat_of(d) + b * pow2((x.len() - 1) as nat));
        assert(pow2(k as nat) * nat_of(hi) == pow2(k as nat) * nat_of(hi.drop_last()) + b * (pow2(k as nat)
            * pow2((hi.len() - 1) as nat))) by (nonlinear_arith)
            requires
                nat_of(hi) == nat_of(hi.drop_last()) + b * pow2((hi.len() - 1) as nat),
        ;
        assert(pow2(k as nat) * pow2((hi.len() - 1) as nat) == pow2((x.len() - 1) as nat));
        assert(nat_of(d) == nat_of(d.subrange(0, k)) + pow2(k as nat) * nat_of(d.subrange(k, d.len() as int)));
        assert(hi.drop_last() == d.subrange(k, d.len() as int));
        let p = pow2(k as nat);
        let q = pow2((x.len() - 1) as nat);
        let lo = nat_of(x.subrange(0, k));
        let mid = nat_of(d.subrange(k, d.len() as int));
        assert(nat_of(x) == lo + p * nat_of(hi)) by (nonlinear_arith)
            requires
                nat_of(x) == nat_of(d) + b * q,
                nat_of(d) == lo + p * mid,
                p * nat_of(hi) == p * mid + b * q,
        ;
    }
}

/// Extending by the top bit keeps the two's-complement value.
pub proof fn lemma_sign_extend_value(s: Seq<bool>, w: nat)
    requires
        s.len() <= w,
    ensures
        int_of(Seq::new(w, |k: int| if k < s.len() { s[k] } else { s.len() > 0 && s.last() })) == int_of(s),
    decreases w,
{
    let t = Seq::new(w, |k: int| if k < s.len() { s[k] } else { s.len() > 0 && s.last() });
    if w == s.len() {
        assert(t =~= s);
    } else {
        let prev = Seq::new((w - 1) as nat, |k: int| if k < s.len() { s[k] } else { s.len() > 0 && s.last() });
        lemma_sign_extend_value(s, (w - 1) as nat);
        assert(t =~= prev.push(s.len() > 0 && s.last()));
        lemma_nat_of_push(prev, s.len() > 0 && s.last());
        lemma_pow2_unfold(w);
        if prev.len() > 0 {
            assert(prev.last() == (s.len() > 0 && s.last()));
        } else {
            vstd::arithmetic::power2::lemma2_to64();
        }
    }
}

/// Read over more positions than it stores, a value keeps its number.
proof fn lemma_extended_value(a: BinaryBase, n: nat)
    requires
        a.bits().len() < n,
    ensures
        int_of(extended(a, n)) == a.value(),
{
    let s = a.bits();
    match a.sign_behavior {
        SignMode::Unsigned => {
            assert(extended(a, n) =~= crate::binary::zext(s, n));
            lemma_zext_value(s, n);
        },
        SignMode::Signed => {
            assert(extended(a, n) =~= Seq::new(n, |k: int| if k < s.len() { s[k] } else { s.len() > 0 && s.last() }));
            lemma_sign_extend_value(s, n);
        },
    }
}

/// Two sequences of one length that agree above `i` and differ at `i`
/// order as their bits at `i` do, or oppositely when `i` is the top.
proof fn lemma_first_difference(t: Seq<bool>, u: Seq<bool>, i: int)
    requires
        t.len() == u.len(),
        0 <= i < t.len(),
        t[i] != u[i],
        forall|j: int| i < j < t.len() ==> t[j] == u[j],
    ensures
        (int_of(t) < int_of(u)) == if i == t.len() - 1 { t[i] } else { u[i] },
{
    let n = t.len();
    lemma_nat_of_split(t, i + 1);
    lemma_nat_of_split(u, i + 1);
    assert(t.subrange(i + 1, n as int) =~= u.subrange(i + 1, n as int));
    let tl = t.subrange(0, i + 1);
    let ul = u.subrange(0, i + 1);
    crate::lemmas::lemma_nat_of_prefix(t, i);
    crate::lemmas::lemma_nat_of_prefix(u, i);
    lemma_nat_of_bound(t.subrange(0, i));
    lemma_nat_of_bound(u.subrange(0, i));
    lemma_nat_of_bound(t);
    lemma_nat_of_bound(u);
    lemma_nat_of_bound(t.drop_last());
    lemma_nat_of_bound(u.drop_last());
    if i == n - 1 {
        assert(t.subrange(0, i) =~= t.drop_last());
        assert(u.subrange(0, i) =~= u.drop_last());
    }
}

/// Numeric order of two values under their own sign modes; values with
/// the same bits are `Equal`, and values that are numerically equal but
/// differ in length order as `Greater`.
pub fn cmp(a: &BinaryBase, b: &BinaryBase) -> (r: Ordering)
    requires
        a.wf(),
        b.wf(),
    ensures
        a.bits() == b.bits() ==> r == Ordering::Equal,
        a.bits() != b.bits() ==> r == if a.value() < b.value() {
            Ordering::Less
        } else {
            Ordering::Greater
        },
{
    if crate::utility::equal_cmp(a, b) {
        return Ordering::Equal;
    }
    let la = a.len();
    let lb = b.len();
    let n = if la >= lb { la + 1 } else { lb + 1 };
    let ea = a.sign_extending_bit();
    let eb = b.sign_extending_bit();
    let ghost ta = extended(*a, n as nat);
    let ghost tb = extended(*b, n as nat);
    proof {
        lemma_extended_value(*a, n as nat);
        lemma_extended_value(*b, n as nat);
    }
    let mut i: u64 = n;
    while i > 0
        invariant
            n == ta.len() == tb.len(),
            ta == extended(*a, n as nat),
            tb == extended(*b, n as nat),
            la == a.bits().len(),
            lb == b.bits().len(),
            ea == a.ext_bit(),
            eb == b.ext_bit(),
            i <= n,
            int_of(ta) == a.value(),
            int_of(tb) == b.value(),
            a.bits() != b.bits(),
            forall|j: int| i <= j < n ==> ta[j] == tb[j],
        decreases i,
    {
        let k = i - 1;
        let x = if k < la { store_get(&a.data, k) } else { ea };
        let y = if k < lb { store_get(&b.data, k) } else { eb };
        if x != y {
            proof {
                lemma_first_difference(ta, tb, k as int);
            }
            let less = if k == n - 1 { x } else { y };
            return if less {
                Ordering::Less
            } else {
                Ordering::Greater
            };
        }
        i = k;
    }
    proof {
        assert(ta =~= tb);
    }
    Ordering::Greater
}

} // verus!
