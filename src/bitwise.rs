//! Elementwise logic: complement, and/or/xor with their negated forms.

use crate::binary::{not_bits, BinaryBase, MAX_LEN};
use crate::store::{bits_of, store_get, store_new, store_push};
use vstd::prelude::*;

verus! {

/// The two-input operations that the elementwise engine applies.
#[derive(Clone, Copy, Debug, PartialEq, Eq, Structural)]
pub enum BitOp {
    And,
    Or,
    Xor,
}

pub open spec fn op_spec(op: BitOp, x: bool, y: bool) -> bool {
    match op {
        BitOp::And => x && y,
        BitOp::Or => x || y,
        BitOp::Xor => x != y,
    }
}

pub fn apply_op(op: BitOp, x: bool, y: bool) -> (r: bool)
    ensures
        r == op_spec(op, x, y),
{
    match op {
        BitOp::And => x && y,
        BitOp::Or => x || y,
        BitOp::Xor => x != y,
    }
}

/// The result bits of `op` (inverted when `negate`) over `a` and `b`, the
/// shorter one extended with its own sign-extension bit.
pub open spec fn op_bits(a: BinaryBase, b: BinaryBase, op: BitOp, negate: bool) -> Seq<bool> {
    let n = if a.bits().len() >= b.bits().len() { a.bits().len() } else { b.bits().len() };
    Seq::new(n, |k: int| op_spec(op, a.bit_at(k), b.bit_at(k)) != negate)
}

/// Every bit inverted; length and sign mode kept.
pub fn bitwise_not(binary: &BinaryBase) -> (r: BinaryBase)
    requires
        binary.wf(),
    ensures
        r.bits() == not_bits(binary.bits()),
        r.sign_behavior == binary.sign_behavior,
{
    let n = binary.len();
    let mut out = store_new();
    let mut i: u64 = 0;
    while i < n
        invariant
            n == binary.bits().len() <= MAX_LEN,
            i <= n,
            bits_of(out) == not_bits(binary.bits()).subrange(0, i as int),
        decreases n - i,
    {
        let b = store_get(&binary.data, i);
        store_push(&mut out, !b);
        proof {
            assert(not_bits(binary.bits()).subrange(0, i + 1) =~= bits_of(out));
        }
        i = i + 1;
    }
    proof {
        assert(not_bits(binary.bits()).subrange(0, n as int) =~= not_bits(binary.bits()));
    }
    BinaryBase::from_parts(out, binary.sign_behavior)
}

/// Reads bit `k` of `a`, synthesising the sign-extension bit beyond the
/// stored ones.
fn bit_or_ext(a: &BinaryBase, k: u64, ext: bool) -> (r: bool)
    requires
        ext == a.ext_bit(),
    ensures
        r == a.bit_at(k as int),
{
    if k < a.len() {
        store_get(&a.data, k)
    } else {
        ext
    }
}

/// Applies `op` bit by bit, inverting the result when `negate`. The shorter
/// operand is first extended with its own sign-extension bit; the result
/// is as long as the longer operand and keeps the sign mode of `a`.
pub fn bitwise_op(a: &BinaryBase, b: &BinaryBase, op: BitOp, negate: bool) -> (r: BinaryBase)
    requires
        a.wf(),
        b.wf(),
    ensures
        r.bits() == op_bits(*a, *b, op, negate),
        r.sign_behavior == a.sign_behavior,
{
    let la = a.len();
    let lb = b.len();
    let n = if la >= lb { la } else { lb };
    let ea = a.sign_extending_bit();
    let eb = b.sign_extending_bit();
    let mut out = store_new();
    let mut i: u64 = 0;
    while i < n
        invariant
            n == op_bits(*a, *b, op, negate).len(),
            n <= MAX_LEN,
            i <= n,
            ea == a.ext_bit(),
            eb == b.ext_bit(),
            bits_of(out) == op_bits(*a, *b, op, negate).subrange(0, i as int),
        decreases n - i,
    {
        let x = bit_or_ext(a, i, ea);
        let y = bit_or_ext(b, i, eb);
        let v = apply_op(op, x, y) != negate;
        store_push(&mut out, v);
        proof {
            assert(op_bits(*a, *b, op, negate).subrange(0, i + 1) =~= bits_of(out));
        }
        i = i + 1;
    }
    proof {
        assert(op_bits(*a, *b, op, negate).subrange(0, n as int) =~= op_bits(*a, *b, op, negate));
    }
    BinaryBase::from_parts(out, a.sign_behavior)
}

/// Bitwise and.
pub fn bitwise_and(a: &BinaryBase, b: &BinaryBase) -> (r: BinaryBase)
    requires
        a.wf(),
        b.wf(),
    ensures
        r.bits() == op_bits(*a, *b, BitOp::And, false),
        r.sign_behavior == a.sign_behavior,
{
    bitwise_op(a, b, BitOp::And, false)
}

/// Bitwise or.
pub fn bitwise_or(a: &BinaryBase, b: &BinaryBase) -> (r: BinaryBase)
    requires
        a.wf(),
        b.wf(),
    ensures
        r.bits() == op_bits(*a, *b, BitOp::Or, false),
        r.sign_behavior == a.sign_behavior,
{
    bitwise_op(a, b, BitOp::Or, false)
}

/// Bitwise exclusive or.
pub fn bitwise_xor(a: &BinaryBase, b: &BinaryBase) -> (r: BinaryBase)
    requires
        a.wf(),
        b.wf(),
    ensures
        r.bits() == op_bits(*a, *b, BitOp::Xor, false),
        r.sign_behavior == a.sign_behavior,
{
    bitwise_op(a, b, BitOp::Xor, false)
}

/// Bitwise not-and.
pub fn bitwise_nand(a: &BinaryBase, b: &BinaryBase) -> (r: BinaryBase)
    requires
        a.wf(),
        b.wf(),
    ensures
        r.bits() == op_bits(*a, *b, BitOp::And, true),
        r.sign_behavior == a.sign_behavior,
{
    bitwise_op(a, b, BitOp::And, true)
}

/// Bitwise not-or.
pub fn bitwise_nor(a: &BinaryBase, b: &BinaryBase) -> (r: BinaryBase)
    requires
        a.wf(),
        b.wf(),
    ensures
        r.bits() == op_bits(*a, *b, BitOp::Or, true),
        r.sign_behavior == a.sign_behavior,
{
    bitwise_op(a, b, BitOp::Or, true)
}

/// Bitwise equivalence (inverted exclusive or).
pub fn bitwise_xnor(a: &BinaryBase, b: &BinaryBase) -> (r: BinaryBase)
    requires
        a.wf(),
        b.wf(),
    ensures
        r.bits() == op_bits(*a, *b, BitOp::Xor, true),
        r.sign_behavior == a.sign_behavior,
{
    bitwise_op(a, b, BitOp::Xor, true)
}

/// Complementing twice gives back the value.
pub proof fn lemma_not_not(a: BinaryBase)
    ensures
        not_bits(not_bits(a.bits())) == a.bits(),
{
    assert(not_bits(not_bits(a.bits())) =~= a.bits());
}

} // verus!
