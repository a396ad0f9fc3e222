//! Left shifts and logical/arithmetic right shifts, with the bits shifted
//! out returned as a carry.

use crate::binary::{BinaryBase, BinaryError, SignMode, MAX_LEN};
use crate::store::{bits_of, store_get, store_new, store_push, BitStore};
use vstd::prelude::*;

verus! {

/// The shift amount clamped to the width.
pub open spec fn clamp_shift(shift: int, len: int) -> int {
    if shift < len {
        shift
    } else {
        len
    }
}

/// Bits of `s` moved up by `shift`, zeros coming in at the bottom; the
/// width is kept.
pub open spec fn lsh_bits(s: Seq<bool>, shift: int) -> Seq<bool> {
    let c = clamp_shift(shift, s.len() as int);
    Seq::new(s.len(), |k: int| k >= c && s[k - c])
}

/// The `shift` bits that a left shift pushes out of the top, lowest first;
/// positions below the value read as zero.
pub open spec fn lsh_carry(s: Seq<bool>, shift: int) -> Seq<bool> {
    Seq::new(shift as nat, |k: int| s.len() - shift + k >= 0 && s[s.len() - shift + k])
}

/// Bits of `s` moved down by `shift`, `fill` coming in at the top; the
/// width is kept.
pub open spec fn rsh_bits(s: Seq<bool>, shift: int, fill: bool) -> Seq<bool> {
    let c = clamp_shift(shift, s.len() as int);
    Seq::new(s.len(), |k: int| if k + c < s.len() { s[k + c] } else { fill })
}

fn bits_lsh(a: &BinaryBase, shift: u64) -> (r: BitStore)
    requires
        a.wf(),
    ensures
        bits_of(r) == lsh_bits(a.bits(), shift as int),
{
    let n = a.len();
    let c = if shift < n { shift } else { n };
    let mut out = store_new();
    let mut i: u64 = 0;
    while i < n
        invariant
            n == a.bits().len() <= MAX_LEN,
            c == clamp_shift(shift as int, n as int),
            i <= n,
            bits_of(out) == lsh_bits(a.bits(), shift as int).subrange(0, i as int),
        decreases n - i,
    {
        let b = if i >= c { store_get(&a.data, i - c) } else { false };
        store_push(&mut out, b);
        proof {
            assert(bits_of(out) =~= lsh_bits(a.bits(), shift as int).subrange(0, i + 1));
        }
        i = i + 1;
    }
    proof {
        assert(lsh_bits(a.bits(), shift as int).subrange(0, n as int) =~= lsh_bits(a.bits(), shift as int));
    }
    out
}

fn bits_rsh(a: &BinaryBase, shift: u64, fill: bool) -> (r: BitStore)
    requires
        a.wf(),
    ensures
        bits_of(r) == rsh_bits(a.bits(), shift as int, fill),
{
    let n = a.len();
    let c = if shift < n { shift } else { n };
    let mut out = store_new();
    let mut i: u64 = 0;
    while i < n
        invariant
            n == a.bits().len() <= MAX_LEN,
            c == clamp_shift(shift as int, n as int),
            i <= n,
            bits_of(out) == rsh_bits(a.bits(), shift as int, fill).subrange(0, i as int),
        decreases n - i,
    {
        let b = if i + c < n { store_get(&a.data, i + c) } else { fill };
        store_push(&mut out, b);
        proof {
            assert(bits_of(out) =~= rsh_bits(a.bits(), shift as int, fill).subrange(0, i + 1));
        }
        i = i + 1;
    }
    proof {
        assert(rsh_bits(a.bits(), shift as int, fill).subrange(0, n as int) =~= rsh_bits(a.bits(), shift as int, fill));
    }
    out
}

/// The low `shift` positions of `a`, read as a slice: beyond the stored
/// bits they read as the sign-extension bit.
fn low_window(a: &BinaryBase, shift: u64) -> (r: BitStore)
    requires
        a.wf(),
        shift <= MAX_LEN,
    ensures
        bits_of(r) == a.window(0, shift as int),
{
    let n = a.len();
    let ext = a.sign_extending_bit();
    let mut out = store_new();
    let mut i: u64 = 0;
    while i < shift
        invariant
            n == a.bits().len(),
            shift <= MAX_LEN,
            ext == a.ext_bit(),
            i <= shift,
            bits_of(out) == a.window(0, shift as int).subrange(0, i as int),
        decreases shift - i,
    {
        let b = if i < n { store_get(&a.data, i) } else { ext };
        store_push(&mut out, b);
        proof {
            assert(bits_of(out) =~= a.window(0, shift as int).subrange(0, i + 1));
        }
        i = i + 1;
    }
    proof {
        assert(a.window(0, shift as int).subrange(0, shift as int) =~= a.window(0, shift as int));
    }
    out
}

/// Left shift by `shift`, with the bits pushed out of the top. Fails with
/// `NegativeShift` on a negative amount. Both results are unsigned.
pub fn overflowing_lsh(a: &BinaryBase, shift: i64) -> (r: Result<(BinaryBase, BinaryBase), BinaryError>)
    requires
        a.wf(),
        shift <= MAX_LEN,
    ensures
        r is Err <==> shift < 0,
        r is Err ==> r->Err_0 == BinaryError::NegativeShift,
        r is Ok ==> r->Ok_0.0.bits() == lsh_bits(a.bits(), shift as int) && r->Ok_0.0.sign_behavior
            == SignMode::Unsigned && r->Ok_0.1.bits() == lsh_carry(a.bits(), shift as int)
            && r->Ok_0.1.sign_behavior == SignMode::Unsigned,
{
    if shift < 0 {
        return Err(BinaryError::NegativeShift);
    }
    let sh = shift as u64;
    let result = bits_lsh(a, sh);
    let n = a.len();
    let mut carry = store_new();
    let mut k: u64 = 0;
    while k < sh
        invariant
            n == a.bits().len() <= MAX_LEN,
            sh == shift <= MAX_LEN,
            k <= sh,
            bits_of(carry) == lsh_carry(a.bits(), shift as int).subrange(0, k as int),
        decreases sh - k,
    {
        let b = if n + k >= sh { store_get(&a.data, n + k - sh) } else { false };
        store_push(&mut carry, b);
        proof {
            assert(bits_of(carry) =~= lsh_carry(a.bits(), shift as int).subrange(0, k + 1));
        }
        k = k + 1;
    }
    proof {
        assert(lsh_carry(a.bits(), shift as int).subrange(0, sh as int) =~= lsh_carry(a.bits(), shift as int));
    }
    Ok((BinaryBase::from_data(result), BinaryBase::from_data(carry)))
}

/// Left shift by `shift`, dropping what leaves the top.
pub fn wrapping_lsh(a: &BinaryBase, shift: i64) -> (r: Result<BinaryBase, BinaryError>)
    requires
        a.wf(),
    ensures
        r is Err <==> shift < 0,
        r is Err ==> r->Err_0 == BinaryError::NegativeShift,
        r is Ok ==> r->Ok_0.bits() == lsh_bits(a.bits(), shift as int) && r->Ok_0.sign_behavior
            == SignMode::Unsigned,
{
    if shift < 0 {
        return Err(BinaryError::NegativeShift);
    }
    Ok(BinaryBase::from_data(bits_lsh(a, shift as u64)))
}

/// Logical right shift: zeros come in at the top; the carry is the low
/// `shift` positions, read as a slice. Fails with `NegativeShift` on a
/// negative amount. Both results are unsigned.
pub fn logical_underflowing_rsh(a: &BinaryBase, shift: i64) -> (r: Result<(BinaryBase, BinaryBase), BinaryError>)
    requires
        a.wf(),
        shift <= MAX_LEN,
    ensures
        r is Err <==> shift < 0,
        r is Err ==> r->Err_0 == BinaryError::NegativeShift,
        r is Ok ==> r->Ok_0.0.bits() == rsh_bits(a.bits(), shift as int, false) && r->Ok_0.0.sign_behavior
            == SignMode::Unsigned && r->Ok_0.1.bits() == a.window(0, shift as int)
            && r->Ok_0.1.sign_behavior == SignMode::Unsigned,
{
    if shift < 0 {
        return Err(BinaryError::NegativeShift);
    }
    let result = bits_rsh(a, shift as u64, false);
    let carry = low_window(a, shift as u64);
    Ok((BinaryBase::from_data(result), BinaryBase::from_data(carry)))
}

/// Logical right shift, dropping what leaves the bottom.
pub fn logical_wrapping_rsh(a: &BinaryBase, shift: i64) -> (r: Result<BinaryBase, BinaryError>)
    requires
        a.wf(),
    ensures
        r is Err <==> shift < 0,
        r is Err ==> r->Err_0 == BinaryError::NegativeShift,
        r is Ok ==> r->Ok_0.bits() == rsh_bits(a.bits(), shift as int, false) && r->Ok_0.sign_behavior
            == SignMode::Unsigned,
{
    if shift < 0 {
        return Err(BinaryError::NegativeShift);
    }
    Ok(BinaryBase::from_data(bits_rsh(a, shift as u64, false)))
}

/// Arithmetic right shift: copies of the sign-extension bit come in at
/// the top; the carry is as for the logical shift. Fails with
/// `NegativeShift` on a negative amount. Both results are unsigned.
pub fn arithmetic_underflowing_rsh(a: &BinaryBase, shift: i64) -> (r: Result<(BinaryBase, BinaryBase), BinaryError>)
    requires
        a.wf(),
        shift <= MAX_LEN,
    ensures
        r is Err <==> shift < 0,
        r is Err ==> r->Err_0 == BinaryError::NegativeShift,
        r is Ok ==> r->Ok_0.0.bits() == rsh_bits(a.bits(), shift as int, a.ext_bit())
            && r->Ok_0.0.sign_behavior == SignMode::Unsigned && r->Ok_0.1.bits() == a.window(0, shift as int)
            && r->Ok_0.1.sign_behavior == SignMode::Unsigned,
{
    if shift < 0 {
        return Err(BinaryError::NegativeShift);
    }
    let se = a.sign_extending_bit();
    let result = bits_rsh(a, shift as u64, se);
    let carry = low_window(a, shift as u64);
    Ok((BinaryBase::from_data(result), BinaryBase::from_data(carry)))
}

/// Arithmetic right shift, dropping what leaves the bottom.
pub fn arithmetic_wrapping_rsh(a: &BinaryBase, shift: i64) -> (r: Result<BinaryBase, BinaryError>)
    requires
        a.wf(),
    ensures
        r is Err <==> shift < 0,
        r is Err ==> r->Err_0 == BinaryError::NegativeShift,
        r is Ok ==> r->Ok_0.bits() == rsh_bits(a.bits(), shift as int, a.ext_bit()) && r->Ok_0.sign_behavior
            == SignMode::Unsigned,
{
    if shift < 0 {
        return Err(BinaryError::NegativeShift);
    }
    let se = a.sign_extending_bit();
    Ok(BinaryBase::from_data(bits_rsh(a, shift as u64, se)))
}

} // verus!
