//! Widening multiplication by shift-and-add over the operands' bits.

use crate::arith::add_binary;
use crate::binary::{low_bits, nat_of, BinaryBase, SignMode, MAX_LEN};
use crate::construct::resized;
use crate::lemmas::{lemma_is_low_bits, lemma_low_bits_value, lemma_nat_of_bound, lemma_nat_of_cons, lemma_nat_of_prefix};
use crate::shifts::lsh_bits;
use crate::store::{store_get, store_new, store_resize};
use vstd::arithmetic::power2::{lemma_pow2_pos, lemma_pow2_unfold, pow2};
use vstd::prelude::*;

verus! {

/// Width of a product: the sum of the operand widths.
pub open spec fn product_width(a: BinaryBase, b: BinaryBase) -> nat {
    a.bits().len() + b.bits().len()
}

/// Sign mode of a product: signed when either operand is.
pub open spec fn product_mode(a: BinaryBase, b: BinaryBase) -> SignMode {
    if a.sign_behavior == SignMode::Signed || b.sign_behavior == SignMode::Signed {
        SignMode::Signed
    } else {
        SignMode::Unsigned
    }
}

/// The bits of a product: each operand extended by its own sign mode to
/// the product width, multiplied, and cut to that width.
pub open spec fn product_bits(a: BinaryBase, b: BinaryBase) -> Seq<bool> {
    let w = product_width(a, b);
    low_bits(
        nat_of(resized(a.bits(), a.sign_behavior, w)) * nat_of(resized(b.bits(), b.sign_behavior, w)),
        w,
    )
}

/// A sequence of clear bits is worth zero.
proof fn lemma_nat_of_zeros(s: Seq<bool>)
    requires
        forall|k: int| 0 <= k < s.len() ==> !s[k],
    ensures
        nat_of(s) == 0,
    decreases s.len(),
{
    if s.len() > 0 {
        lemma_nat_of_zeros(s.drop_last());
    }
}

/// Moving up by one doubles the value, modulo the width.
proof fn lemma_shift_one(s: Seq<bool>)
    ensures
        nat_of(lsh_bits(s, 1)) == (2 * nat_of(s)) % pow2(s.len()),
{
    let n = s.len();
    lemma_pow2_pos(n);
    if n == 0 {
        assert(lsh_bits(s, 1) =~= Seq::<bool>::empty());
        vstd::arithmetic::power2::lemma2_to64();
    } else {
        let t = s.drop_last();
        assert(lsh_bits(s, 1) =~= seq![false] + t);
        lemma_nat_of_cons(false, t);
        lemma_nat_of_bound(t);
        lemma_pow2_unfold(n);
        let x = 2 * nat_of(t);
        if s.last() {
            assert(2 * nat_of(s) == x + pow2(n));
            vstd::arithmetic::div_mod::lemma_fundamental_div_mod_converse(
                (x + pow2(n)) as int, pow2(n) as int, 1, x as int);
        } else {
            vstd::arithmetic::div_mod::lemma_small_mod(x, pow2(n));
        }
    }
}

/// The lowest `n` bits of `v` depend on `v` modulo `2^n` only.
proof fn lemma_low_bits_mod(v: nat, n: nat)
    ensures
        low_bits(v, n) == low_bits(v % pow2(n), n),
{
    lemma_pow2_pos(n);
    lemma_low_bits_value(v, n);
    lemma_low_bits_value(v % pow2(n), n);
    vstd::arithmetic::div_mod::lemma_mod_twice(v as int, pow2(n) as int);
    crate::lemmas::lemma_nat_of_injective(low_bits(v, n), low_bits(v % pow2(n), n));
}

/// A value extended to `w` bits by its own sign mode is worth its number
/// modulo `2^w`.
proof fn lemma_extended_mod(a: BinaryBase, w: nat)
    requires
        a.bits().len() <= w,
    ensures
        (nat_of(resized(a.bits(), a.sign_behavior, w)) as int) % (pow2(w) as int) == a.value() % (pow2(w) as int),
{
    let s = a.bits();
    let t = resized(s, a.sign_behavior, w);
    lemma_pow2_pos(w);
    match a.sign_behavior {
        SignMode::Unsigned => {
            assert(t =~= crate::binary::zext(s, w));
            crate::lemmas::lemma_zext_value(s, w);
        },
        SignMode::Signed => {
            assert(t =~= Seq::new(w, |k: int| if k < s.len() { s[k] } else { s.len() > 0 && s.last() }));
            crate::cmp::lemma_sign_extend_value(s, w);
            if t.len() > 0 && t.last() {
                assert(nat_of(t) as int == a.value() + pow2(w));
                vstd::arithmetic::div_mod::lemma_mod_add_multiples_vanish(a.value(), pow2(w) as int);
            }
        },
    }
}

/// The product's bits are the two's-complement form, at the product width,
/// of the product of the operands' numbers.
pub proof fn lemma_product_value(a: BinaryBase, b: BinaryBase)
    ensures
        product_bits(a, b) == low_bits(
            ((a.value() * b.value()) % (pow2(product_width(a, b)) as int)) as nat,
            product_width(a, b),
        ),
{
    let w = product_width(a, b);
    let m = pow2(w) as int;
    let x = nat_of(resized(a.bits(), a.sign_behavior, w)) as int;
    let y = nat_of(resized(b.bits(), b.sign_behavior, w)) as int;
    lemma_pow2_pos(w);
    lemma_extended_mod(a, w);
    lemma_extended_mod(b, w);
    vstd::arithmetic::div_mod::lemma_mul_mod_noop(x, y, m);
    vstd::arithmetic::div_mod::lemma_mul_mod_noop(a.value(), b.value(), m);
    lemma_low_bits_mod((x * y) as nat, w);
}

/// `v` extended to `w` bits by the sign extension of `mode`.
fn extend_to(v: &BinaryBase, w: u64) -> (r: BinaryBase)
    requires
        v.wf(),
        v.bits().len() <= w <= MAX_LEN,
    ensures
        r.bits() == resized(v.bits(), v.sign_behavior, w as nat),
        r.sign_behavior == SignMode::Unsigned,
{
    let mut c = v.copy();
    c.resize_trunc(w);
    proof {
        assert(c.bits() =~= resized(v.bits(), v.sign_behavior, w as nat));
    }
    BinaryBase::from_data(c.data)
}

/// The value shifted up by one within its width.
fn shift_up_one(v: &BinaryBase) -> (r: BinaryBase)
    requires
        v.wf(),
    ensures
        r.bits() == lsh_bits(v.bits(), 1),
        r.sign_behavior == SignMode::Unsigned,
{
    match crate::shifts::wrapping_lsh(v, 1) {
        Ok(x) => x,
        Err(_) => v.copy(),
    }
}

/// The product, as wide as both operands together and signed when either
/// operand is. Each operand is first extended by its own sign mode, so the
/// bits are the two's-complement product.
pub fn multiply(a: &BinaryBase, b: &BinaryBase) -> (r: BinaryBase)
    requires
        a.bits().len() + b.bits().len() <= MAX_LEN,
    ensures
        r.bits() == product_bits(*a, *b),
        r.sign_behavior == product_mode(*a, *b),
{
    let w = a.len() + b.len();
    let ea = extend_to(a, w);
    let eb = extend_to(b, w);
    let ghost av = nat_of(ea.bits());
    let ghost bs = eb.bits();
    let ghost m = pow2(w as nat);
    let mut zero = store_new();
    store_resize(&mut zero, w, false);
    let mut acc = BinaryBase::from_data(zero);
    let mut sh = ea.copy();
    let mut i: u64 = 0;
    proof {
        lemma_pow2_pos(w as nat);
        vstd::arithmetic::power2::lemma2_to64();
        assert(bs.subrange(0, 0) =~= Seq::<bool>::empty());
        lemma_nat_of_zeros(acc.bits());
        lemma_nat_of_bound(ea.bits());
        vstd::arithmetic::div_mod::lemma_small_mod(av, m);
        vstd::arithmetic::div_mod::lemma_small_mod(0, m);
        assert(nat_of(bs.subrange(0, 0)) == 0);
        assert(av * 0 == 0);
        assert(av * 1 == av);
    }
    while i < w
        invariant
            w <= MAX_LEN,
            m == pow2(w as nat),
            m > 0,
            i <= w,
            av == nat_of(ea.bits()),
            bs == eb.bits(),
            bs.len() == w,
            acc.bits().len() == w,
            sh.bits().len() == w,
            acc.sign_behavior == SignMode::Unsigned,
            sh.sign_behavior == SignMode::Unsigned,
            nat_of(acc.bits()) == (av * nat_of(bs.subrange(0, i as int))) % m,
            nat_of(sh.bits()) == (av * pow2(i as nat)) % m,
        decreases w - i,
    {
        let bit = store_get(&eb.data, i);
        proof {
            lemma_nat_of_prefix(bs, i as int);
            assert(av * nat_of(bs.subrange(0, i + 1)) == av * nat_of(bs.subrange(0, i as int)) + if bit {
                av * pow2(i as nat)
            } else {
                0
            }) by (nonlinear_arith)
                requires
                    nat_of(bs.subrange(0, i + 1)) == nat_of(bs.subrange(0, i as int)) + if bit {
                        pow2(i as nat)
                    } else {
                        0
                    },
            ;
        }
        if bit {
            match add_binary(&acc, Some(&sh), false) {
                Ok((s, _)) => {
                    proof {
                        vstd::arithmetic::div_mod::lemma_add_mod_noop(
                            (av * nat_of(bs.subrange(0, i as int))) as int,
                            (av * pow2(i as nat)) as int,
                            m as int,
                        );
                    }
                    acc = s;
                },
                Err(_) => {},
            }
        }
        let next = shift_up_one(&sh);
        proof {
            lemma_shift_one(sh.bits());
            lemma_pow2_unfold((i + 1) as nat);
            assert(av * pow2((i + 1) as nat) == 2 * (av * pow2(i as nat))) by (nonlinear_arith)
                requires
                    pow2((i + 1) as nat) == 2 * pow2(i as nat),
            ;
            vstd::arithmetic::div_mod::lemma_mul_mod_noop_right(2, (av * pow2(i as nat)) as int, m as int);
        }
        sh = next;
        i = i + 1;
    }
    proof {
        assert(bs.subrange(0, w as int) =~= bs);
        lemma_is_low_bits(acc.bits(), av * nat_of(bs));
    }
    let mode = if a.sign_behavior == SignMode::Signed || b.sign_behavior == SignMode::Signed {
        SignMode::Signed
    } else {
        SignMode::Unsigned
    };
    BinaryBase::from_parts(acc.data, mode)
}

/// The product split at `a`'s width: the low part (`a`'s width) and the
/// high part (the rest), both unsigned.
pub fn overflowing_mul(a: &BinaryBase, b: &BinaryBase) -> (r: (BinaryBase, BinaryBase))
    requires
        a.bits().len() + b.bits().len() <= MAX_LEN,
    ensures
        r.0.bits() == product_bits(*a, *b).subrange(0, a.bits().len() as int),
        r.1.bits() == product_bits(*a, *b).subrange(a.bits().len() as int, product_width(*a, *b) as int),
        r.0.sign_behavior == SignMode::Unsigned,
        r.1.sign_behavior == SignMode::Unsigned,
{
    let p = multiply(a, b);
    let la = a.len() as i64;
    proof {
        lemma_low_bits_value(
            nat_of(resized(a.bits(), a.sign_behavior, product_width(*a, *b))) * nat_of(
                resized(b.bits(), b.sign_behavior, product_width(*a, *b)),
            ),
            product_width(*a, *b),
        );
    }
    let w = p.len() as i64;
    let low = match p.get_slice(0, la, 1) {
        Ok(x) => x,
        Err(_) => store_new(),
    };
    let high = match p.get_slice(la, w, 1) {
        Ok(x) => x,
        Err(_) => store_new(),
    };
    proof {
        crate::range::lemma_stride_one(p.window(0, la as int));
        crate::range::lemma_stride_one(p.window(la as int, w as int));
        assert(p.window(0, la as int) =~= p.bits().subrange(0, la as int));
        assert(p.window(la as int, w as int) =~= p.bits().subrange(la as int, w as int));
    }
    (BinaryBase::from_data(low), BinaryBase::from_data(high))
}

/// The product cut to `a`'s width, unsigned.
pub fn wrapping_mul(a: &BinaryBase, b: &BinaryBase) -> (r: BinaryBase)
    requires
        a.bits().len() + b.bits().len() <= MAX_LEN,
    ensures
        r.bits() == product_bits(*a, *b).subrange(0, a.bits().len() as int),
        r.sign_behavior == SignMode::Unsigned,
{
    let (low, _) = overflowing_mul(a, b);
    low
}

} // verus!
