//! Ripple-carry addition and what is built on it: negation, subtraction,
//! and the overflow/zero/sign flags.

use crate::binary::{all_zero, low_bits, nat_of, not_bits, zext, BinaryBase, BinaryError, SignMode, MAX_LEN};
use crate::bitwise::bitwise_not;
use crate::lemmas::{
    lemma_is_low_bits, lemma_low_bits_of_value, lemma_low_bits_value, lemma_nat_of_bound, lemma_nat_of_prefix,
    lemma_not_value, lemma_zext_value,
};
use crate::store::{bits_of, store_get, store_new, store_push, store_len, BitStore};
use vstd::arithmetic::power2::{lemma_pow2_unfold, pow2};
use vstd::prelude::*;

verus! {

/// Overflow, zero and sign flags of an arithmetic result.
#[derive(Clone, Copy, Debug, PartialEq, Eq, Structural)]
pub struct Flags {
    pub overflow: bool,
    pub zeroflag: bool,
    pub signflag: bool,
}

impl Flags {
    pub fn new(overflow: bool, zeroflag: bool, signflag: bool) -> (r: Self)
        ensures
            r.overflow == overflow,
            r.zeroflag == zeroflag,
            r.signflag == signflag,
    {
        Flags { overflow, zeroflag, signflag }
    }

    /// Flags of `binary`: zero when no bit is set, sign from its top bit.
    pub fn from_binary(overflow: bool, binary: &BinaryBase) -> (r: Self)
        ensures
            r.overflow == overflow,
            r.zeroflag == all_zero(binary.bits()),
            r.signflag == binary.top_bit(),
    {
        let n = binary.len();
        let mut zero = true;
        let mut i: u64 = 0;
        while i < n
            invariant
                n == binary.bits().len(),
                i <= n,
                zero == (forall|k: int| 0 <= k < i ==> !binary.bits()[k]),
            decreases n - i,
        {
            if store_get(&binary.data, i) {
                zero = false;
            }
            i = i + 1;
        }
        Flags::new(overflow, zero, binary.sign_bit())
    }

    pub fn overflow(&self) -> (r: bool)
        ensures
            r == self.overflow,
    {
        self.overflow
    }

    pub fn zeroflag(&self) -> (r: bool)
        ensures
            r == self.zeroflag,
    {
        self.zeroflag
    }

    pub fn signflag(&self) -> (r: bool)
        ensures
            r == self.signflag,
    {
        self.signflag
    }
}

pub open spec fn max_len(a: nat, b: nat) -> nat {
    if a >= b { a } else { b }
}

/// The unsigned sum that an addition of `a`, `b` and a carry computes.
pub open spec fn sum_of(a: Seq<bool>, b: Seq<bool>, carry: bool) -> nat {
    nat_of(a) + nat_of(b) + if carry { 1nat } else { 0nat }
}

/// The bits of an addition: the lowest `max(len a, len b)` bits of the sum.
pub open spec fn add_bits(a: Seq<bool>, b: Seq<bool>, carry: bool) -> Seq<bool> {
    low_bits(sum_of(a, b, carry), max_len(a.len(), b.len()))
}

/// The bits of a two's-complement negation at the same width.
pub open spec fn neg_bits(a: Seq<bool>) -> Seq<bool> {
    low_bits((pow2(a.len()) - nat_of(a)) as nat, a.len())
}

/// The bits of a subtraction: `a` plus the complement of `b` plus one.
pub open spec fn sub_bits(a: Seq<bool>, b: Seq<bool>) -> Seq<bool> {
    add_bits(a, not_bits(b), true)
}

/// What an addition returns: `len` bits holding the sum modulo `2^len`,
/// overflow set when the sum does not fit, and the flags of those bits.
pub open spec fn add_result(
    r: (BinaryBase, Flags),
    a: Seq<bool>,
    b: Seq<bool>,
    carry: bool,
    mode: SignMode,
) -> bool {
    let n = max_len(a.len(), b.len());
    let total = sum_of(a, b, carry);
    &&& r.0.bits() == add_bits(a, b, carry)
    &&& r.0.bits().len() == n
    &&& nat_of(r.0.bits()) == total % pow2(n)
    &&& r.0.sign_behavior == mode
    &&& r.1.overflow == (total >= pow2(n))
    &&& r.1.zeroflag == all_zero(r.0.bits())
    &&& r.1.signflag == r.0.top_bit()
}

proof fn lemma_full_add_step(x: bool, y: bool, c: bool, i: nat)
    ensures
        ({
            let s = (x != y) != c;
            let c2 = (x && y) || (c && (x != y));
            (if s { pow2(i) } else { 0 }) + (if c2 { pow2(i + 1) } else { 0 }) == (if x {
                pow2(i)
            } else {
                0
            }) + (if y { pow2(i) } else { 0 }) + (if c { pow2(i) } else { 0 })
        }),
{
    lemma_pow2_unfold(i + 1);
}

/// Adds the stored bits of two sequences bit by bit, each read as zero
/// beyond its length, for `n` positions from `carry`; returns the bits
/// and the final carry.
fn ripple_add(a: &BitStore, b: &BitStore, n: u64, carry: bool) -> (r: (BitStore, bool))
    requires
        n == max_len(bits_of(*a).len(), bits_of(*b).len()),
        n <= MAX_LEN,
    ensures
        bits_of(r.0).len() == n,
        nat_of(bits_of(r.0)) + (if r.1 { pow2(n as nat) } else { 0 }) == sum_of(bits_of(*a), bits_of(*b), carry),
{
    let ghost sa = zext(bits_of(*a), n as nat);
    let ghost sb = zext(bits_of(*b), n as nat);
    let la = store_len(a);
    let lb = store_len(b);
    let mut out = store_new();
    let mut c = carry;
    let mut i: u64 = 0;
    proof {
        vstd::arithmetic::power2::lemma2_to64();
        assert(sa.subrange(0, 0) =~= Seq::<bool>::empty());
        assert(sb.subrange(0, 0) =~= Seq::<bool>::empty());
    }
    while i < n
        invariant
            la == bits_of(*a).len(),
            lb == bits_of(*b).len(),
            n <= MAX_LEN,
            i <= n,
            sa == zext(bits_of(*a), n as nat),
            sb == zext(bits_of(*b), n as nat),
            bits_of(out).len() == i,
            nat_of(bits_of(out)) + (if c { pow2(i as nat) } else { 0 }) == nat_of(sa.subrange(0, i as int))
                + nat_of(sb.subrange(0, i as int)) + if carry { 1nat } else { 0nat },
        decreases n - i,
    {
        let x = if i < la { store_get(a, i) } else { false };
        let y = if i < lb { store_get(b, i) } else { false };
        let s = (x != y) != c;
        let c2 = (x && y) || (c && (x != y));
        proof {
            assert(sa[i as int] == x);
            assert(sb[i as int] == y);
            lemma_nat_of_prefix(sa, i as int);
            lemma_nat_of_prefix(sb, i as int);
            crate::lemmas::lemma_nat_of_push(bits_of(out), s);
            lemma_full_add_step(x, y, c, i as nat);
        }
        store_push(&mut out, s);
        c = c2;
        i = i + 1;
    }
    proof {
        assert(sa.subrange(0, n as int) =~= sa);
        assert(sb.subrange(0, n as int) =~= sb);
        lemma_zext_value(bits_of(*a), n as nat);
        lemma_zext_value(bits_of(*b), n as nat);
    }
    (out, c)
}

/// Adds `a`, `b` (or nothing) and a carry. The result has the longer
/// operand's length; the shorter operand reads as zero beyond its length.
/// Fails with `SignMismatch` when the two sign modes differ.
pub fn add_binary(a: &BinaryBase, b: Option<&BinaryBase>, carry: bool) -> (r: Result<(BinaryBase, Flags), BinaryError>)
    requires
        a.wf(),
        b is Some ==> b->Some_0.wf(),
    ensures
        r is Err <==> (b is Some && b->Some_0.sign_behavior != a.sign_behavior),
        r is Err ==> r->Err_0 == BinaryError::SignMismatch,
        r is Ok ==> add_result(
            r->Ok_0,
            a.bits(),
            match b {
                Some(x) => x.bits(),
                None => Seq::<bool>::empty(),
            },
            carry,
            a.sign_behavior,
        ),
{
    let empty = store_new();
    let b_data = match b {
        Some(x) => {
            if x.sign_behavior != a.sign_behavior {
                return Err(BinaryError::SignMismatch);
            }
            &x.data
        },
        None => &empty,
    };
    let la = a.len();
    let lb = store_len(b_data);
    let n = if la >= lb { la } else { lb };
    let (sum, c) = ripple_add(&a.data, b_data, n, carry);
    let result = BinaryBase::from_parts(sum, a.sign_behavior);
    proof {
        let total = sum_of(a.bits(), bits_of(*b_data), carry);
        lemma_nat_of_bound(result.bits());
        if c {
            assert(total == nat_of(result.bits()) + pow2(n as nat));
            vstd::arithmetic::div_mod::lemma_fundamental_div_mod_converse(
                total as int, pow2(n as nat) as int, 1, nat_of(result.bits()) as int);
        } else {
            vstd::arithmetic::div_mod::lemma_small_mod(total, pow2(n as nat));
        }
        lemma_is_low_bits(result.bits(), total);
    }
    let flags = Flags::from_binary(c, &result);
    Ok((result, flags))
}

/// Two's-complement negation: complement, then add one. The width and
/// sign mode are kept.
pub fn arithmetic_neg(a: &BinaryBase) -> (r: BinaryBase)
    requires
        a.wf(),
    ensures
        r.bits() == neg_bits(a.bits()),
        r.sign_behavior == a.sign_behavior,
{
    let negated = bitwise_not(a);
    let res = add_binary(&negated, None, true);
    proof {
        lemma_not_value(a.bits());
        assert(nat_of(Seq::<bool>::empty()) == 0);
    }
    match res {
        Ok((out, _)) => out,
        Err(_) => negated,
    }
}

/// Sum with the full flags; fails with `SignMismatch` on differing modes.
pub fn flaged_add(a: &BinaryBase, b: &BinaryBase) -> (r: Result<(BinaryBase, Flags), BinaryError>)
    requires
        a.wf(),
        b.wf(),
    ensures
        r is Err <==> b.sign_behavior != a.sign_behavior,
        r is Err ==> r->Err_0 == BinaryError::SignMismatch,
        r is Ok ==> add_result(r->Ok_0, a.bits(), b.bits(), false, a.sign_behavior),
{
    add_binary(a, Some(b), false)
}

/// Sum and whether it overflowed the wider operand's width.
pub fn overflowing_add(a: &BinaryBase, b: &BinaryBase) -> (r: Result<(BinaryBase, bool), BinaryError>)
    requires
        a.wf(),
        b.wf(),
    ensures
        r is Err <==> b.sign_behavior != a.sign_behavior,
        r is Err ==> r->Err_0 == BinaryError::SignMismatch,
        r is Ok ==> r->Ok_0.0.bits() == add_bits(a.bits(), b.bits(), false)
            && r->Ok_0.0.sign_behavior == a.sign_behavior
            && r->Ok_0.1 == (sum_of(a.bits(), b.bits(), false) >= pow2(max_len(a.bits().len(), b.bits().len()))),
{
    let (sum, flags) = flaged_add(a, b)?;
    Ok((sum, flags.overflow))
}

/// Sum truncated to the wider operand's width.
pub fn wrapping_add(a: &BinaryBase, b: &BinaryBase) -> (r: Result<BinaryBase, BinaryError>)
    requires
        a.wf(),
        b.wf(),
    ensures
        r is Err <==> b.sign_behavior != a.sign_behavior,
        r is Err ==> r->Err_0 == BinaryError::SignMismatch,
        r is Ok ==> r->Ok_0.bits() == add_bits(a.bits(), b.bits(), false) && r->Ok_0.sign_behavior
            == a.sign_behavior,
{
    let (sum, _) = overflowing_add(a, b)?;
    Ok(sum)
}

/// The same bits under another sign mode.
pub fn cast_base(binary: &BinaryBase, sign_behavior: SignMode) -> (r: BinaryBase)
    ensures
        r.bits() == binary.bits(),
        r.sign_behavior == sign_behavior,
{
    let mut r = binary.copy();
    r.sign_behavior = sign_behavior;
    r
}

/// `a - b`: both read as signed, `b` complemented, then added with a
/// carry of one. The result is signed and as wide as the wider operand.
pub fn flaged_sub(a: &BinaryBase, b: &BinaryBase) -> (r: (BinaryBase, Flags))
    requires
        a.wf(),
        b.wf(),
    ensures
        add_result(r, a.bits(), not_bits(b.bits()), true, SignMode::Signed),
        r.0.bits() == sub_bits(a.bits(), b.bits()),
{
    let a_signed = cast_base(a, SignMode::Signed);
    let b_signed = bitwise_not(&cast_base(b, SignMode::Signed));
    match add_binary(&a_signed, Some(&b_signed), true) {
        Ok(res) => res,
        Err(_) => {
            let f = Flags::from_binary(false, &a_signed);
            (a_signed, f)
        },
    }
}

/// Difference and whether the addition behind it carried out.
pub fn overflowing_sub(a: &BinaryBase, b: &BinaryBase) -> (r: (BinaryBase, bool))
    requires
        a.wf(),
        b.wf(),
    ensures
        r.0.bits() == sub_bits(a.bits(), b.bits()),
        r.0.sign_behavior == SignMode::Signed,
        r.1 == (sum_of(a.bits(), not_bits(b.bits()), true) >= pow2(max_len(a.bits().len(), b.bits().len()))),
{
    let (d, flags) = flaged_sub(a, b);
    (d, flags.overflow)
}

/// Difference truncated to the wider operand's width.
pub fn wrapping_sub(a: &BinaryBase, b: &BinaryBase) -> (r: BinaryBase)
    requires
        a.wf(),
        b.wf(),
    ensures
        r.bits() == sub_bits(a.bits(), b.bits()),
        r.sign_behavior == SignMode::Signed,
{
    let (d, _) = overflowing_sub(a, b);
    d
}

/// Negating twice gives back the bits at the same width.
pub proof fn lemma_neg_neg(a: BinaryBase)
    ensures
        neg_bits(neg_bits(a.bits())) == a.bits(),
{
    let s = a.bits();
    let n = s.len();
    let v = nat_of(s);
    lemma_nat_of_bound(s);
    lemma_low_bits_value((pow2(n) - v) as nat, n);
    let m = neg_bits(s);
    if v == 0 {
        vstd::arithmetic::div_mod::lemma_mod_self_0(pow2(n) as int);
        assert(nat_of(m) == 0);
        vstd::arithmetic::div_mod::lemma_small_mod(0, pow2(n));
        lemma_is_low_bits(s, pow2(n));
    } else {
        vstd::arithmetic::div_mod::lemma_small_mod((pow2(n) - v) as nat, pow2(n));
        lemma_low_bits_of_value(s);
    }
}

/// Adding `b` and then subtracting it again gives back `a`, for operands
/// of one length.
pub proof fn lemma_add_sub_round_trip(a: BinaryBase, b: BinaryBase)
    requires
        a.bits().len() == b.bits().len(),
    ensures
        sub_bits(add_bits(a.bits(), b.bits(), false), b.bits()) == a.bits(),
{
    let n = a.bits().len();
    let x = nat_of(a.bits());
    let y = nat_of(b.bits());
    let p = pow2(n);
    let s = add_bits(a.bits(), b.bits(), false);
    lemma_nat_of_bound(a.bits());
    lemma_nat_of_bound(b.bits());
    lemma_low_bits_value(x + y, n);
    lemma_not_value(b.bits());
    let sv = nat_of(s);
    let total = sv + nat_of(not_bits(b.bits())) + 1;
    assert(total == sv + p - y);
    if x + y >= p {
        vstd::arithmetic::div_mod::lemma_fundamental_div_mod_converse(
            (x + y) as int, p as int, 1, (x + y - p) as int);
        assert(total == x);
        vstd::arithmetic::div_mod::lemma_small_mod(x, p);
    } else {
        vstd::arithmetic::div_mod::lemma_small_mod(x + y, p);
        assert(total == x + p);
        vstd::arithmetic::div_mod::lemma_mod_add_multiples_vanish(x as int, p as int);
        vstd::arithmetic::div_mod::lemma_small_mod(x, p);
    }
    lemma_is_low_bits(a.bits(), total);
}

} // verus!
