//! `BinaryBase`: a bit vector with an explicit length and sign mode, its
//! mathematical model, construction helpers, resizing and single-bit access.

use crate::store::{bits_of, store_copy, store_get, store_len, store_push, store_set, store_resize, store_truncate, BitStore};
use vstd::arithmetic::power2::pow2;
use vstd::prelude::*;

verus! {

/// The largest bit length a value may have; it keeps every index and
/// every sum of two lengths within `i64`/`u64`.
pub const MAX_LEN: u64 = 0x3fff_ffff_ffff_ffff;

/// Index sentinel standing for an omitted upper slice bound.
pub const INDEX_TO_END: i64 = 0x7fff_ffff_ffff_ffff;

/// Index sentinel standing for an omitted lower slice bound.
pub const INDEX_FROM_START: i64 = -0x8000_0000_0000_0000;

/// How bits beyond a value's length read, and how it converts to a number.
#[derive(Clone, Copy, Debug, PartialEq, Eq, Structural)]
pub enum SignMode {
    Unsigned,
    Signed,
}

/// Every failure an operation of this library reports.
#[derive(Clone, Copy, Debug, PartialEq, Eq, Structural)]
pub enum BinaryError {
    SignMismatch,
    NegativeShift,
    ZeroStep,
    StopBeforeStart,
    DoesNotFit,
    InvalidSignMode,
    UnsupportedInput,
    IndexOutOfRange,
    EmptyPattern,
    TooManyOperands,
    TableTooSmall,
    TableTooLarge,
}

/// A bit vector of explicit length and sign mode.
#[derive(Clone, Debug)]
pub struct BinaryBase {
    pub data: BitStore,
    pub sign_behavior: SignMode,
}

/// `s` widened to `n` bits with zeros.
pub open spec fn zext(s: Seq<bool>, n: nat) -> Seq<bool> {
    Seq::new(n, |k: int| k < s.len() && s[k])
}

/// Every bit of `s` inverted.
pub open spec fn not_bits(s: Seq<bool>) -> Seq<bool> {
    Seq::new(s.len(), |k: int| !s[k])
}

/// No bit of `s` is set.
pub open spec fn all_zero(s: Seq<bool>) -> bool {
    forall|k: int| 0 <= k < s.len() ==> !s[k]
}

/// Unsigned value of a bit sequence, least significant bit first.
pub open spec fn nat_of(s: Seq<bool>) -> nat
    decreases s.len(),
{
    if s.len() == 0 {
        0
    } else {
        nat_of(s.drop_last()) + if s.last() { pow2((s.len() - 1) as nat) } else { 0 }
    }
}

/// The lowest `n` bits of `v`, least significant first.
pub open spec fn low_bits(v: nat, n: nat) -> Seq<bool>
    decreases n,
{
    if n == 0 {
        Seq::empty()
    } else {
        seq![v % 2 == 1] + low_bits(v / 2, (n - 1) as nat)
    }
}

/// Cutting `s` to `n` bits under `mode` drops a bit that differs from the
/// bit the cut sequence would extend with.
pub open spec fn loses(s: Seq<bool>, mode: SignMode, n: nat) -> bool {
    let new_ext = mode == SignMode::Signed && n > 0 && s[n - 1];
    n < s.len() && exists|k: int| n <= k < s.len() && s[k] != new_ext
}

/// Two's-complement value of a bit sequence.
pub open spec fn int_of(s: Seq<bool>) -> int {
    if s.len() > 0 && s.last() {
        nat_of(s) - pow2(s.len())
    } else {
        nat_of(s) as int
    }
}

impl BinaryBase {
    /// The stored bits, least significant first.
    pub open spec fn bits(&self) -> Seq<bool> {
        bits_of(self.data)
    }

    /// Lengths stay within what indices and sums of lengths can hold.
    pub open spec fn wf(&self) -> bool {
        self.bits().len() <= MAX_LEN
    }

    /// The highest stored bit, or `false` for an empty value.
    pub open spec fn top_bit(&self) -> bool {
        self.bits().len() > 0 && self.bits().last()
    }

    /// The bit that every position at or beyond the length reads as.
    pub open spec fn ext_bit(&self) -> bool {
        self.sign_behavior == SignMode::Signed && self.top_bit()
    }

    /// The bit at any position, stored or synthesised.
    pub open spec fn bit_at(&self, i: int) -> bool {
        if 0 <= i < self.bits().len() {
            self.bits()[i]
        } else {
            self.ext_bit()
        }
    }

    /// The number this value stands for under its sign mode.
    pub open spec fn value(&self) -> int {
        match self.sign_behavior {
            SignMode::Unsigned => nat_of(self.bits()) as int,
            SignMode::Signed => int_of(self.bits()),
        }
    }

    /// Where an index lands: sentinels stand for the two ends, negative
    /// indices count back from the length.
    pub open spec fn flat(&self, i: int) -> int {
        if i == INDEX_TO_END {
            self.bits().len() as int
        } else if i == INDEX_FROM_START {
            0
        } else if i >= 0 {
            i
        } else {
            self.bits().len() + i
        }
    }

    /// The bits after resizing to `n`: kept, or extended with the
    /// sign-extension bit.
    pub open spec fn resized_bits(&self, n: nat) -> Seq<bool> {
        Seq::new(n, |k: int| self.bit_at(k))
    }

    /// Shrinking to `n` loses information: some dropped bit differs from
    /// the bit the shortened value would extend with.
    pub open spec fn loses_bits(&self, n: nat) -> bool {
        loses(self.bits(), self.sign_behavior, n)
    }

    /// Wraps a store with the given sign mode.
    pub fn from_parts(data: BitStore, sign_behavior: SignMode) -> (r: Self)
        ensures
            r.bits() == bits_of(data),
            r.sign_behavior == sign_behavior,
    {
        BinaryBase { data, sign_behavior }
    }

    /// Wraps a store as an unsigned value.
    pub fn from_data(data: BitStore) -> (r: Self)
        ensures
            r.bits() == bits_of(data),
            r.sign_behavior == SignMode::Unsigned,
    {
        BinaryBase { data, sign_behavior: SignMode::Unsigned }
    }

    /// A deep copy.
    pub fn copy(&self) -> (r: Self)
        ensures
            r.bits() == self.bits(),
            r.sign_behavior == self.sign_behavior,
    {
        BinaryBase { data: store_copy(&self.data), sign_behavior: self.sign_behavior }
    }

    /// The stored bits, least significant first.
    pub fn bits_vec(&self) -> (r: Vec<bool>)
        ensures
            r@ == self.bits(),
    {
        let n = self.len();
        let mut out: Vec<bool> = Vec::new();
        let mut i: u64 = 0;
        while i < n
            invariant
                n == self.bits().len(),
                i <= n,
                out@ == self.bits().subrange(0, i as int),
            decreases n - i,
        {
            out.push(store_get(&self.data, i));
            proof {
                assert(out@ =~= self.bits().subrange(0, i + 1));
            }
            i = i + 1;
        }
        proof {
            assert(out@ =~= self.bits());
        }
        out
    }

    /// Number of stored bits.
    pub fn len(&self) -> (r: u64)
        ensures
            r == self.bits().len(),
    {
        store_len(&self.data)
    }

    /// The highest stored bit, `false` when empty.
    pub fn sign_bit(&self) -> (r: bool)
        ensures
            r == self.top_bit(),
    {
        let n = self.len();
        if n == 0 {
            false
        } else {
            store_get(&self.data, n - 1)
        }
    }

    /// The bit that positions beyond the length read as.
    pub fn sign_extending_bit(&self) -> (r: bool)
        ensures
            r == self.ext_bit(),
    {
        match self.sign_behavior {
            SignMode::Signed => self.sign_bit(),
            SignMode::Unsigned => false,
        }
    }

    /// Resolves an index: sentinels, negative counting from the end.
    pub fn flatten_index(&self, index: i64) -> (r: i64)
        requires
            self.wf(),
        ensures
            r == self.flat(index as int),
    {
        let n = self.len() as i64;
        if index == INDEX_TO_END {
            n
        } else if index == INDEX_FROM_START {
            0
        } else if index >= 0 {
            index
        } else {
            n + index
        }
    }

    /// Accepts a resolved index only if it addresses a stored bit.
    pub fn in_bounds(&self, index: i64) -> (r: Result<u64, BinaryError>)
        requires
            self.wf(),
        ensures
            0 <= index < self.bits().len() <==> r is Ok,
            r is Ok ==> r->Ok_0 == index,
            r is Err ==> r->Err_0 == BinaryError::IndexOutOfRange,
    {
        if index < 0 || index >= self.len() as i64 {
            Err(BinaryError::IndexOutOfRange)
        } else {
            Ok(index as u64)
        }
    }

    /// Reads a bit; positions outside the stored bits read as the
    /// sign-extension bit.
    pub fn get_bit(&self, index: i64) -> (r: bool)
        requires
            self.wf(),
        ensures
            r == self.bit_at(self.flat(index as int)),
    {
        let i = self.flatten_index(index);
        match self.in_bounds(i) {
            Ok(k) => store_get(&self.data, k),
            Err(_) => self.sign_extending_bit(),
        }
    }

    /// Writes a stored bit; fails on positions outside the stored bits.
    pub fn set_bit(&mut self, index: i64, value: bool) -> (r: Result<(), BinaryError>)
        requires
            old(self).wf(),
        ensures
            final(self).sign_behavior == old(self).sign_behavior,
            ({
                let k = old(self).flat(index as int);
                if 0 <= k < old(self).bits().len() {
                    r is Ok && final(self).bits() == old(self).bits().update(k, value)
                } else {
                    r == Err::<(), BinaryError>(BinaryError::IndexOutOfRange)
                        && final(self).bits() == old(self).bits()
                }
            }),
    {
        let i = self.flatten_index(index);
        let k = self.in_bounds(i)?;
        store_set(&mut self.data, k, value);
        Ok(())
    }

    /// Fails with `DoesNotFit` exactly when shrinking to `range` bits would
    /// drop a bit that differs from the new sign-extension bit.
    pub fn check_for_size(&self, range: u64) -> (r: Result<(), BinaryError>)
        requires
            self.wf(),
        ensures
            r is Err <==> self.loses_bits(range as nat),
            r is Err ==> r->Err_0 == BinaryError::DoesNotFit,
    {
        let n = self.len();
        if range >= n {
            return Ok(());
        }
        let new_ext = match self.sign_behavior {
            SignMode::Signed => range > 0 && store_get(&self.data, range - 1),
            SignMode::Unsigned => false,
        };
        let mut k: u64 = range;
        while k < n
            invariant
                range <= k <= n,
                n == self.bits().len(),
                range < n,
                new_ext == (self.sign_behavior == SignMode::Signed && range > 0 && self.bits()[range - 1]),
                forall|j: int| range <= j < k ==> self.bits()[j] == new_ext,
            decreases n - k,
        {
            if store_get(&self.data, k) != new_ext {
                return Err(BinaryError::DoesNotFit);
            }
            k = k + 1;
        }
        Ok(())
    }

    /// Cuts or extends to `new_size` bits without checking what is lost.
    pub fn resize_trunc(&mut self, new_size: u64)
        ensures
            final(self).bits() == old(self).resized_bits(new_size as nat),
            final(self).sign_behavior == old(self).sign_behavior,
    {
        store_truncate(&mut self.data, new_size);
        let ghost cut = self.bits();
        let ext = self.sign_extending_bit();
        store_resize(&mut self.data, new_size, ext);
        proof {
            if new_size < old(self).bits().len() && new_size > 0 {
                assert(cut.last() == old(self).bits()[new_size - 1]);
            }
            assert(self.bits() =~= old(self).resized_bits(new_size as nat));
        }
    }

    /// Cuts or extends to `new_size` bits; shrinking that would lose
    /// information fails with `DoesNotFit` and leaves the value unchanged.
    pub fn resize_constrained(&mut self, new_size: u64) -> (r: Result<(), BinaryError>)
        requires
            old(self).wf(),
        ensures
            r is Err <==> old(self).loses_bits(new_size as nat),
            r is Err ==> r->Err_0 == BinaryError::DoesNotFit && final(self).bits() == old(self).bits(),
            r is Ok ==> final(self).bits() == old(self).resized_bits(new_size as nat),
            final(self).sign_behavior == old(self).sign_behavior,
    {
        self.check_for_size(new_size)?;
        self.resize_trunc(new_size);
        Ok(())
    }

    /// Resizes to `new_len` bits: checked, it refuses to lose information;
    /// unchecked, it truncates or extends with the sign-extension bit.
    pub fn resize(&mut self, new_len: u64, checked: bool) -> (r: Result<(), BinaryError>)
        requires
            old(self).wf(),
        ensures
            r is Err <==> checked && old(self).loses_bits(new_len as nat),
            r is Err ==> r->Err_0 == BinaryError::DoesNotFit && final(self).bits() == old(self).bits(),
            r is Ok ==> final(self).bits() == old(self).resized_bits(new_len as nat),
            final(self).sign_behavior == old(self).sign_behavior,
    {
        if checked {
            self.resize_constrained(new_len)
        } else {
            self.resize_trunc(new_len);
            Ok(())
        }
    }

    /// Adds a bit above the highest one.
    pub fn append_bit(&mut self, val: bool)
        requires
            old(self).bits().len() < MAX_LEN,
        ensures
            final(self).bits() == old(self).bits().push(val),
            final(self).sign_behavior == old(self).sign_behavior,
    {
        store_push(&mut self.data, val);
    }

    /// Adds the bits of `val` above the highest one.
    pub fn append_slice(&mut self, val: &BitStore)
        requires
            old(self).bits().len() + bits_of(*val).len() <= MAX_LEN,
        ensures
            final(self).bits() == old(self).bits() + bits_of(*val),
            final(self).sign_behavior == old(self).sign_behavior,
    {
        let n = store_len(val);
        let mut i: u64 = 0;
        while i < n
            invariant
                n == bits_of(*val).len(),
                i <= n,
                old(self).bits().len() + n <= MAX_LEN,
                self.sign_behavior == old(self).sign_behavior,
                self.bits() == old(self).bits() + bits_of(*val).subrange(0, i as int),
            decreases n - i,
        {
            let b = store_get(val, i);
            store_push(&mut self.data, b);
            proof {
                assert(bits_of(*val).subrange(0, i + 1) == bits_of(*val).subrange(0, i as int).push(b));
            }
            i = i + 1;
        }
        proof {
            assert(bits_of(*val).subrange(0, n as int) == bits_of(*val));
        }
    }

    /// Puts the bits of `val` below the lowest one.
    pub fn prepend_slice(&mut self, val: &BitStore)
        requires
            old(self).bits().len() + bits_of(*val).len() <= MAX_LEN,
        ensures
            final(self).bits() == bits_of(*val) + old(self).bits(),
            final(self).sign_behavior == old(self).sign_behavior,
    {
        let mut joined = BinaryBase::from_parts(store_copy(val), self.sign_behavior);
        joined.append_slice(&self.data);
        self.data = joined.data;
    }
}

} // verus!
