//! The value type offered to callers: construction from any supported
//! source, byte and chunk views, appending, joining and splitting.

use crate::binary::{BinaryBase, BinaryError, SignMode, MAX_LEN};
use crate::construct::{
    bytes_bits, int_outcome, len_or, mode_or, parse_bitvec_from_bytes, parse_bitvec_from_copy, parse_bitvec_from_isize,
    parse_bitvec_from_iterable, parse_bitvec_from_str, pattern_outcome, resized, rev_bits, text_outcome,
};
use crate::store::{bits_of, BitStore};
use vstd::prelude::*;

verus! {

/// Everything a value can be built from.
#[derive(Clone, Debug)]
pub enum Source {
    /// Binary or hexadecimal digits.
    Text(String),
    /// A machine integer.
    Int(i64),
    /// Raw bytes, the first one lowest.
    Bytes(Vec<u8>),
    /// Bits, the most significant first.
    Bits(Vec<bool>),
    /// Another value.
    Value(BinaryBase),
    /// A single bit.
    Bit(bool),
    /// No value at all: the number zero.
    Nothing,
}

/// A bit vector value.
#[derive(Clone, Debug)]
pub struct Binary {
    pub inner: BinaryBase,
}

impl Source {
    /// Sizes stay within what a value can hold.
    pub open spec fn fits(&self) -> bool {
        match self {
            Source::Text(s) => s@.len() <= MAX_LEN / 4,
            Source::Bytes(b) => b@.len() <= MAX_LEN / 8,
            Source::Bits(b) => b@.len() <= MAX_LEN,
            Source::Value(v) => v.wf(),
            _ => true,
        }
    }
}

/// What building from `object` gives.
pub open spec fn source_outcome(object: Source, bit_size: Option<u64>, sign_behavior: Option<SignMode>) -> Result<
    (Seq<bool>, SignMode),
    BinaryError,
> {
    match object {
        Source::Text(s) => text_outcome(s@, bit_size, sign_behavior),
        Source::Int(x) => int_outcome(x, bit_size, sign_behavior),
        Source::Bytes(b) => pattern_outcome(bytes_bits(b@), bit_size, sign_behavior),
        Source::Bits(b) => pattern_outcome(rev_bits(b@), bit_size, sign_behavior),
        Source::Value(v) => {
            let mode = mode_or(sign_behavior, v.sign_behavior);
            Ok((resized(v.bits(), mode, len_or(bit_size, v.bits().len())), mode))
        },
        Source::Bit(b) => pattern_outcome(seq![b], bit_size, sign_behavior),
        Source::Nothing => int_outcome(0, bit_size, sign_behavior),
    }
}

/// A result agrees with an expected outcome.
pub open spec fn binary_matches(r: Result<Binary, BinaryError>, o: Result<(Seq<bool>, SignMode), BinaryError>) -> bool {
    match o {
        Ok((bits, mode)) => r is Ok && r->Ok_0.bits() == bits && r->Ok_0.inner.sign_behavior == mode,
        Err(e) => r == Err::<Binary, BinaryError>(e),
    }
}

impl Binary {
    pub open spec fn bits(&self) -> Seq<bool> {
        self.inner.bits()
    }

    pub open spec fn wf(&self) -> bool {
        self.inner.wf()
    }

    pub fn wrap(inner: BinaryBase) -> (r: Self)
        ensures
            r.inner == inner,
    {
        Binary { inner }
    }

    pub fn unwrap(&self) -> (r: &BinaryBase)
        ensures
            *r == self.inner,
    {
        &self.inner
    }

    /// Builds a value from any source: text, machine integer, bytes and
    /// bit sequences as their constructors do; another value is copied
    /// (re-sized without a check); a single bit is a one-bit value; no
    /// value is the number zero.
    pub fn from(object: &Source, bit_size: Option<u64>, sign_behavior: Option<SignMode>) -> (r: Result<Self, BinaryError>)
        requires
            object.fits(),
            bit_size is Some ==> bit_size->Some_0 <= MAX_LEN,
        ensures
            binary_matches(r, source_outcome(*object, bit_size, sign_behavior)),
    {
        let out = match object {
            Source::Text(s) => parse_bitvec_from_str(s.as_str(), bit_size, sign_behavior),
            Source::Int(x) => parse_bitvec_from_isize(*x, bit_size, sign_behavior),
            Source::Bytes(b) => parse_bitvec_from_bytes(b, bit_size, sign_behavior),
            Source::Bits(b) => parse_bitvec_from_iterable(b, bit_size, sign_behavior),
            Source::Value(v) => Ok(parse_bitvec_from_copy(v, bit_size, sign_behavior)),
            Source::Bit(b) => {
                let one = vec![*b];
                proof {
                    assert(rev_bits(one@) =~= seq![*b]);
                }
                parse_bitvec_from_iterable(&one, bit_size, sign_behavior)
            },
            Source::Nothing => parse_bitvec_from_isize(0, bit_size, sign_behavior),
        };
        match out {
            Ok(v) => Ok(Binary { inner: v }),
            Err(e) => Err(e),
        }
    }
}

/// Successive chunks of `c` positions from `start`: each as long as `c`
/// when `extend` (reading beyond the stored bits as a slice does),
/// otherwise cut at the length.
pub open spec fn chunk_list(a: BinaryBase, start: nat, c: nat, extend: bool) -> Seq<Seq<bool>>
    decreases a.bits().len() - start,
{
    if start >= a.bits().len() || c == 0 {
        Seq::empty()
    } else {
        let stop = if extend || start + c <= a.bits().len() { start + c } else { a.bits().len() };
        if start + c >= a.bits().len() {
            seq![a.window(start as int, stop as int)]
        } else {
            seq![a.window(start as int, stop as int)] + chunk_list(a, start + c, c, extend)
        }
    }
}

/// The bits of `parts` one after another (the first lowest), with `sep`
/// between each two.
pub open spec fn joined(parts: Seq<Binary>, sep: Seq<bool>) -> Seq<bool>
    decreases parts.len(),
{
    if parts.len() == 0 {
        Seq::empty()
    } else if parts.len() == 1 {
        parts[0].bits()
    } else {
        joined(parts.drop_last(), sep) + sep + parts.last().bits()
    }
}

/// A joined prefix of the parts is no longer than all of them joined.
proof fn lemma_joined_prefix(parts: Seq<Binary>, sep: Seq<bool>, i: int)
    requires
        0 <= i < parts.len(),
    ensures
        joined(parts.subrange(0, i + 1), sep).len() <= joined(parts, sep).len(),
    decreases parts.len(),
{
    if i + 1 == parts.len() {
        assert(parts.subrange(0, i + 1) =~= parts);
    } else {
        let d = parts.drop_last();
        lemma_joined_prefix(d, sep, i);
        assert(d.subrange(0, i + 1) =~= parts.subrange(0, i + 1));
    }
}

/// The bits of `parts` with the last one lowest and the first one highest.
pub open spec fn concatenated(parts: Seq<Binary>) -> Seq<bool>
    decreases parts.len(),
{
    if parts.len() == 0 {
        Seq::empty()
    } else {
        parts.last().bits() + concatenated(parts.drop_last())
    }
}

/// The bits `obj` contributes when appended to a value of sign mode
/// `mode`: a value's bits, a single bit, or what building from it gives.
pub open spec fn piece_outcome(obj: Source, mode: SignMode) -> Result<Seq<bool>, BinaryError> {
    match obj {
        Source::Value(v) => Ok(v.bits()),
        Source::Bit(b) => Ok(seq![b]),
        _ => match source_outcome(obj, None, Some(mode)) {
            Ok((bits, _)) => Ok(bits),
            Err(e) => Err(e),
        },
    }
}

impl Binary {
    /// The bits `obj` contributes when appended or prepended.
    fn piece(&self, obj: &Source) -> (r: Result<BitStore, BinaryError>)
        requires
            self.wf(),
            obj.fits(),
        ensures
            match piece_outcome(*obj, self.inner.sign_behavior) {
                Ok(b) => r is Ok && bits_of(r->Ok_0) == b,
                Err(e) => r == Err::<BitStore, BinaryError>(e),
            },
    {
        match obj {
            Source::Value(v) => Ok(v.data.clone()),
            Source::Bit(b) => {
                let mut one = crate::store::store_new();
                crate::store::store_push(&mut one, *b);
                proof {
                    assert(bits_of(one) =~= seq![*b]);
                }
                Ok(one)
            },
            _ => {
                let v = Binary::from(obj, None, Some(self.inner.sign_behavior))?;
                Ok(v.inner.data)
            },
        }
    }

    /// Number of bits.
    pub fn len(&self) -> (r: u64)
        ensures
            r == self.bits().len(),
    {
        self.inner.len()
    }

    pub fn sign_behavior(&self) -> (r: SignMode)
        ensures
            r == self.inner.sign_behavior,
    {
        self.inner.sign_behavior
    }

    /// The largest number of this width and sign mode, as a value of this
    /// width and sign mode: all ones, below a zero top bit when signed.
    pub fn maximum_value(&self) -> (r: Binary)
        ensures
            r.inner.sign_behavior == self.inner.sign_behavior,
            r.bits() == Seq::new(
                self.bits().len(),
                |k: int| !(self.inner.sign_behavior == SignMode::Signed && k == self.bits().len() - 1),
            ),
    {
        let n = self.len();
        let signed = self.inner.sign_behavior == SignMode::Signed;
        let mut out = crate::store::store_new();
        crate::store::store_resize(&mut out, n, true);
        if signed && n > 0 {
            crate::store::store_set(&mut out, n - 1, false);
        }
        proof {
            assert(bits_of(out) =~= Seq::new(
                self.bits().len(),
                |k: int| !(self.inner.sign_behavior == SignMode::Signed && k == self.bits().len() - 1),
            ));
        }
        Binary { inner: BinaryBase::from_parts(out, self.inner.sign_behavior) }
    }

    /// The smallest number of this width and sign mode, as a value of this
    /// width and sign mode: all zeros, below a one top bit when signed.
    pub fn minimum_value(&self) -> (r: Binary)
        ensures
            r.inner.sign_behavior == self.inner.sign_behavior,
            r.bits() == Seq::new(
                self.bits().len(),
                |k: int| self.inner.sign_behavior == SignMode::Signed && k == self.bits().len() - 1,
            ),
    {
        let n = self.len();
        let signed = self.inner.sign_behavior == SignMode::Signed;
        let mut out = crate::store::store_new();
        crate::store::store_resize(&mut out, n, false);
        if signed && n > 0 {
            crate::store::store_set(&mut out, n - 1, true);
        }
        proof {
            assert(bits_of(out) =~= Seq::new(
                self.bits().len(),
                |k: int| self.inner.sign_behavior == SignMode::Signed && k == self.bits().len() - 1,
            ));
        }
        Binary { inner: BinaryBase::from_parts(out, self.inner.sign_behavior) }
    }

    /// A signed value whose top bit is set.
    pub fn is_negative(&self) -> (r: bool)
        ensures
            r == (self.inner.sign_behavior == SignMode::Signed && self.inner.top_bit()),
    {
        self.inner.sign_extending_bit()
    }

    pub fn sign_extending_bit(&self) -> (r: bool)
        ensures
            r == self.inner.ext_bit(),
    {
        self.inner.sign_extending_bit()
    }

    /// The slice `start:stop:step` as an unsigned value.
    pub fn slice(&self, start: i64, stop: i64, step: i64) -> (r: Result<Binary, BinaryError>)
        requires
            self.wf(),
            step != 0 ==> self.inner.slice_bits(start as int, stop as int, step as int).len() <= MAX_LEN,
        ensures
            step == 0 ==> r == Err::<Binary, BinaryError>(BinaryError::ZeroStep),
            step != 0 ==> (r is Err <==> self.inner.slice_hi(start as int, stop as int, step as int)
                < self.inner.slice_lo(start as int, stop as int, step as int)),
            step != 0 && r is Err ==> r->Err_0 == BinaryError::StopBeforeStart,
            r is Ok ==> r->Ok_0.bits() == self.inner.slice_bits(start as int, stop as int, step as int)
                && r->Ok_0.inner.sign_behavior == SignMode::Unsigned,
    {
        let data = self.inner.get_slice(start, stop, step)?;
        Ok(Binary { inner: BinaryBase::from_data(data) })
    }

    /// `size` positions from `offset`, read as a slice; a negative `offset`
    /// counts from the top, and a window that would reach past the top
    /// from there ends relative to the length.
    pub fn get_slice(&self, offset: i64, size: i64) -> (r: Result<Binary, BinaryError>)
        requires
            self.wf(),
            -MAX_LEN <= offset <= MAX_LEN,
            -MAX_LEN <= size <= MAX_LEN,
        ensures
            ({
                let stop = if offset >= 0 {
                    offset + size
                } else if offset + size >= 0 {
                    self.bits().len() + offset + size
                } else {
                    offset + size
                };
                let lo = self.inner.slice_lo(offset as int, stop, 1);
                let hi = self.inner.slice_hi(offset as int, stop, 1);
                if hi < lo {
                    r == Err::<Binary, BinaryError>(BinaryError::StopBeforeStart)
                } else {
                    r is Ok && r->Ok_0.bits() == self.inner.slice_bits(offset as int, stop, 1)
                        && r->Ok_0.inner.sign_behavior == SignMode::Unsigned
                }
            }),
    {
        let stop = if offset >= 0 {
            offset + size
        } else if offset + size >= 0 {
            self.len() as i64 + offset + size
        } else {
            offset + size
        };
        let data = self.inner.get_slice(offset, stop, 1)?;
        Ok(Binary { inner: BinaryBase::from_data(data) })
    }

    /// Positions `lo..hi`, read as a slice.
    fn span(&self, lo: i64, hi: i64) -> (r: Binary)
        requires
            self.wf(),
            0 <= lo <= hi <= MAX_LEN,
        ensures
            r.bits() == self.inner.window(lo as int, hi as int),
            r.inner.sign_behavior == SignMode::Unsigned,
    {
        proof {
            crate::range::lemma_stride_one(self.inner.window(lo as int, hi as int));
        }
        match self.slice(lo, hi, 1) {
            Ok(b) => b,
            Err(_) => Binary { inner: BinaryBase::from_data(crate::store::store_new()) },
        }
    }

    /// Bits 0 to 7.
    pub fn low_byte(&self) -> (r: Binary)
        requires
            self.wf(),
        ensures
            r.bits() == self.inner.window(0, 8),
    {
        self.span(0, 8)
    }

    /// Bits 8 to 15.
    pub fn high_byte(&self) -> (r: Binary)
        requires
            self.wf(),
        ensures
            r.bits() == self.inner.window(8, 16),
    {
        self.span(8, 16)
    }

    /// Bits 0 to 15.
    pub fn extended_low(&self) -> (r: Binary)
        requires
            self.wf(),
        ensures
            r.bits() == self.inner.window(0, 16),
    {
        self.span(0, 16)
    }

    /// Bits 16 to 31.
    pub fn extended_high(&self) -> (r: Binary)
        requires
            self.wf(),
        ensures
            r.bits() == self.inner.window(16, 32),
    {
        self.span(16, 32)
    }

    /// Byte `byte_index`: bits `8 * byte_index` to `8 * byte_index + 7`.
    pub fn get_byte(&self, byte_index: u64) -> (r: Binary)
        requires
            self.wf(),
            byte_index < MAX_LEN / 8,
        ensures
            r.bits() == self.inner.window(8 * byte_index, 8 * byte_index + 8),
    {
        self.span((8 * byte_index) as i64, (8 * byte_index + 8) as i64)
    }

    /// Splits at `idx`: the bits below it and the bits from it up.
    pub fn split_at(&self, idx: u64) -> (r: (Binary, Binary))
        requires
            self.wf(),
            idx <= self.bits().len(),
        ensures
            r.0.bits() == self.bits().subrange(0, idx as int),
            r.1.bits() == self.bits().subrange(idx as int, self.bits().len() as int),
    {
        let n = self.len();
        let lo = self.span(0, idx as i64);
        let hi = self.span(idx as i64, n as i64);
        proof {
            assert(self.inner.window(0, idx as int) =~= self.bits().subrange(0, idx as int));
            assert(self.inner.window(idx as int, n as int) =~= self.bits().subrange(idx as int, n as int));
        }
        (lo, hi)
    }

    /// The value cut into successive chunks of `chunk_size` bits, lowest
    /// first; the last chunk is extended as a slice would be when `extend`,
    /// and shorter otherwise.
    pub fn iter(&self, chunk_size: u64, extend: bool) -> (r: Vec<Binary>)
        requires
            self.wf(),
            0 < chunk_size <= MAX_LEN,
        ensures
            r@.len() == chunk_list(self.inner, 0, chunk_size as nat, extend).len(),
            forall|j: int|
                0 <= j < r@.len() ==> (#[trigger] r@[j]).bits() == chunk_list(self.inner, 0, chunk_size as nat, extend)[j],
    {
        let n = self.len();
        let ghost all = chunk_list(self.inner, 0, chunk_size as nat, extend);
        let mut out: Vec<Binary> = Vec::new();
        let mut index: u64 = 0;
        proof {
            assert(all.subrange(0, all.len() as int) =~= all);
        }
        while index < n
            invariant
                n == self.bits().len() <= MAX_LEN,
                0 < chunk_size <= MAX_LEN,
                self.wf(),
                index <= n + chunk_size,
                out@.len() <= all.len(),
                all == chunk_list(self.inner, 0, chunk_size as nat, extend),
                chunk_list(self.inner, index as nat, chunk_size as nat, extend) == all.subrange(out@.len() as int, all.len() as int),
                forall|j: int| 0 <= j < out@.len() ==> (#[trigger] out@[j]).bits() == all[j],
            decreases n + chunk_size - index,
        {
            let stop = if extend || index + chunk_size <= n { index + chunk_size } else { n };
            let ghost rest = chunk_list(self.inner, index as nat, chunk_size as nat, extend);
            proof {
                if index + chunk_size >= n {
                    assert(chunk_list(self.inner, (index + chunk_size) as nat, chunk_size as nat, extend) =~= Seq::<Seq<bool>>::empty());
                }
                assert(rest =~= seq![self.inner.window(index as int, stop as int)] + chunk_list(self.inner, (index + chunk_size) as nat, chunk_size as nat, extend));
                crate::range::lemma_stride_one(self.inner.window(index as int, stop as int));
                assert(rest.len() > 0);
                assert(all[out@.len() as int] == rest[0]);
                assert(all.subrange(out@.len() as int + 1, all.len() as int) =~= rest.subrange(1, rest.len() as int));
                assert(rest.subrange(1, rest.len() as int) =~= chunk_list(self.inner, (index + chunk_size) as nat, chunk_size as nat, extend));
            }
            let piece = match self.slice(index as i64, stop as i64, 1) {
                Ok(b) => b,
                Err(_) => Binary { inner: BinaryBase::from_data(crate::store::store_new()) },
            };
            out.push(piece);
            index = index + chunk_size;
        }
        proof {
            assert(chunk_list(self.inner, index as nat, chunk_size as nat, extend) == Seq::<Seq<bool>>::empty());
        }
        out
    }

    /// Chunks of eight bits.
    pub fn bytes(&self, extend: bool) -> (r: Vec<Binary>)
        requires
            self.wf(),
        ensures
            r@.len() == chunk_list(self.inner, 0, 8, extend).len(),
            forall|j: int| 0 <= j < r@.len() ==> (#[trigger] r@[j]).bits() == chunk_list(self.inner, 0, 8, extend)[j],
    {
        self.iter(8, extend)
    }

    /// Every bit as a one-bit value, lowest first.
    pub fn bits_list(&self) -> (r: Vec<Binary>)
        requires
            self.wf(),
        ensures
            r@.len() == chunk_list(self.inner, 0, 1, false).len(),
            forall|j: int| 0 <= j < r@.len() ==> (#[trigger] r@[j]).bits() == chunk_list(self.inner, 0, 1, false)[j],
    {
        self.iter(1, false)
    }

    /// The value as bytes, the first one lowest, its length rounded up to
    /// whole bytes with the sign-extension bit.
    pub fn raw_bytes(&self) -> (r: Vec<u8>)
        requires
            self.wf(),
        ensures
            bytes_bits(r@) == self.inner.window(0, 8 * ((self.bits().len() as int + 7) / 8)),
    {
        let n = self.len();
        let nb = (n + 7) / 8;
        let ext = self.inner.sign_extending_bit();
        let ghost w = self.inner.window(0, (8 * nb) as int);
        let mut out: Vec<u8> = Vec::new();
        let mut j: u64 = 0;
        proof {
            assert(out@ =~= Seq::<u8>::empty());
            assert(w.subrange(0, 0) =~= bytes_bits(out@));
        }
        while j < nb
            invariant
                n == self.bits().len() <= MAX_LEN,
                nb == (n + 7) / 8,
                ext == self.inner.ext_bit(),
                w == self.inner.window(0, (8 * nb) as int),
                j <= nb,
                out@.len() == j,
                bytes_bits(out@) == w.subrange(0, (8 * j) as int),
            decreases nb - j,
        {
            let ghost q = w.subrange((8 * j) as int, (8 * j + 8) as int);
            let mut v: u64 = 0;
            let mut wt: u64 = 1;
            let mut i: u64 = 0;
            proof {
                vstd::arithmetic::power2::lemma2_to64();
                assert(q.subrange(0, 0) =~= Seq::<bool>::empty());
            }
            while i < 8
                invariant
                    n == self.bits().len() <= MAX_LEN,
                    j < nb,
                    nb == (n + 7) / 8,
                    ext == self.inner.ext_bit(),
                    w == self.inner.window(0, (8 * nb) as int),
                    q == w.subrange((8 * j) as int, (8 * j + 8) as int),
                    i <= 8,
                    wt == vstd::arithmetic::power2::pow2(i as nat),
                    v == crate::binary::nat_of(q.subrange(0, i as int)),
                    v < wt,
                decreases 8 - i,
            {
                let p = 8 * j + i;
                let b = if p < n { crate::store::store_get(&self.inner.data, p) } else { ext };
                proof {
                    assert(q[i as int] == b);
                    crate::lemmas::lemma_nat_of_prefix(q, i as int);
                    vstd::arithmetic::power2::lemma_pow2_unfold((i + 1) as nat);
                    vstd::arithmetic::power2::lemma2_to64();
                }
                if b {
                    v = v + wt;
                }
                wt = wt * 2;
                i = i + 1;
            }
            proof {
                assert(q.subrange(0, 8) =~= q);
                crate::lemmas::lemma_low_bits_of_value(q);
                let next = out@.push(v as u8);
                assert(next.drop_last() =~= out@);
                assert(bytes_bits(next) == bytes_bits(out@) + crate::binary::low_bits(v as nat, 8));
                assert(w.subrange(0, (8 * (j + 1)) as int) =~= w.subrange(0, (8 * j) as int) + q);
            }
            out.push(v as u8);
            j = j + 1;
        }
        proof {
            assert(w.subrange(0, (8 * nb) as int) =~= w);
        }
        out
    }

    /// Appends what `obj` stands for above the top bit: a value's bits, a
    /// bit, or a value built from `obj` under this sign mode. Fails as that
    /// construction does, or with `DoesNotFit` when the result would exceed
    /// the largest length; on failure nothing changes.
    pub fn append(&mut self, obj: &Source) -> (r: Result<(), BinaryError>)
        requires
            old(self).wf(),
            obj.fits(),
        ensures
            final(self).inner.sign_behavior == old(self).inner.sign_behavior,
            match piece_outcome(*obj, old(self).inner.sign_behavior) {
                Ok(b) => if old(self).bits().len() + b.len() <= MAX_LEN {
                    r is Ok && final(self).bits() == old(self).bits() + b
                } else {
                    r == Err::<(), BinaryError>(BinaryError::DoesNotFit) && final(self).bits() == old(self).bits()
                },
                Err(e) => r == Err::<(), BinaryError>(e) && final(self).bits() == old(self).bits(),
            },
    {
        let p = self.piece(obj)?;
        let pl = crate::store::store_len(&p);
        if pl > MAX_LEN - self.len() {
            return Err(BinaryError::DoesNotFit);
        }
        self.inner.append_slice(&p);
        Ok(())
    }

    /// Puts what `obj` stands for below the lowest bit; otherwise as
    /// `append`.
    pub fn prepend(&mut self, obj: &Source) -> (r: Result<(), BinaryError>)
        requires
            old(self).wf(),
            obj.fits(),
        ensures
            final(self).inner.sign_behavior == old(self).inner.sign_behavior,
            match piece_outcome(*obj, old(self).inner.sign_behavior) {
                Ok(b) => if old(self).bits().len() + b.len() <= MAX_LEN {
                    r is Ok && final(self).bits() == b + old(self).bits()
                } else {
                    r == Err::<(), BinaryError>(BinaryError::DoesNotFit) && final(self).bits() == old(self).bits()
                },
                Err(e) => r == Err::<(), BinaryError>(e) && final(self).bits() == old(self).bits(),
            },
    {
        let p = self.piece(obj)?;
        let pl = crate::store::store_len(&p);
        if pl > MAX_LEN - self.len() {
            return Err(BinaryError::DoesNotFit);
        }
        self.inner.prepend_slice(&p);
        Ok(())
    }
}

impl Binary {
    /// The parts joined with this value between each two, the first part
    /// lowest; unsigned.
    pub fn join(&self, parts: &Vec<Binary>) -> (r: Binary)
        requires
            joined(parts@, self.bits()).len() <= MAX_LEN,
        ensures
            r.bits() == joined(parts@, self.bits()),
            r.inner.sign_behavior == SignMode::Unsigned,
    {
        let mut out = BinaryBase::from_data(crate::store::store_new());
        let mut i: usize = 0;
        proof {
            assert(parts@.subrange(0, 0) =~= Seq::<Binary>::empty());
        }
        while i < parts.len()
            invariant
                i <= parts@.len(),
                joined(parts@, self.bits()).len() <= MAX_LEN,
                out.bits() == joined(parts@.subrange(0, i as int), self.bits()),
                out.sign_behavior == SignMode::Unsigned,
            decreases parts@.len() - i,
        {
            let ghost sub = parts@.subrange(0, i + 1);
            proof {
                lemma_joined_prefix(parts@, self.bits(), i as int);
                assert(sub.drop_last() =~= parts@.subrange(0, i as int));
                assert(sub.last() == parts@[i as int]);
                assert(joined(sub, self.bits()).len() <= MAX_LEN);
                if i > 0 {
                    assert(sub.len() > 1);
                    assert(joined(sub, self.bits()) == joined(parts@.subrange(0, i as int), self.bits()) + self.bits()
                        + parts@[i as int].bits());
                } else {
                    assert(joined(sub, self.bits()) == parts@[0].bits());
                    assert(out.bits() =~= Seq::<bool>::empty());
                }
            }
            if i > 0 {
                out.append_slice(&self.inner.data);
            }
            out.append_slice(&parts[i].inner.data);
            proof {
                if i == 0 {
                    assert(out.bits() =~= joined(sub, self.bits()));
                }
            }
            i = i + 1;
        }
        proof {
            assert(parts@.subrange(0, parts@.len() as int) =~= parts@);
        }
        Binary { inner: out }
    }
}

/// The parts one above another, the first one highest; unsigned.
pub fn concat(args: &Vec<Binary>) -> (r: Binary)
    requires
        concatenated(args@).len() <= MAX_LEN,
    ensures
        r.bits() == concatenated(args@),
        r.inner.sign_behavior == SignMode::Unsigned,
{
    let mut out = BinaryBase::from_data(crate::store::store_new());
    let n = args.len();
    let mut i: usize = n;
    proof {
        assert(args@.subrange(n as int, n as int) =~= Seq::<Binary>::empty());
        assert(concatenated(args@.subrange(n as int, n as int)) =~= Seq::<bool>::empty());
        assert(args@.subrange(0, n as int) =~= args@);
    }
    while i > 0
        invariant
            n == args@.len(),
            i <= n,
            concatenated(args@).len() <= MAX_LEN,
            concatenated(args@) == out.bits() + concatenated(args@.subrange(0, i as int)),
            out.sign_behavior == SignMode::Unsigned,
        decreases i,
    {
        let ghost pre = args@.subrange(0, i as int);
        proof {
            assert(pre.drop_last() =~= args@.subrange(0, i - 1));
            assert(pre.last() == args@[i - 1]);
            assert(out.bits() + concatenated(pre) =~= (out.bits() + args@[i - 1].bits()) + concatenated(
                args@.subrange(0, i - 1),
            ));
        }
        out.append_slice(&args[i - 1].inner.data);
        i = i - 1;
    }
    proof {
        assert(args@.subrange(0, 0) =~= Seq::<Binary>::empty());
        assert(out.bits() + concatenated(args@.subrange(0, 0)) =~= out.bits());
    }
    Binary { inner: out }
}

} // verus!
