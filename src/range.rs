//! Slice descriptors and the slice resolver: Python-style `start:stop:step`
//! bounds turned into concrete bit ranges, and reads and writes through them.

use crate::binary::{BinaryBase, BinaryError, MAX_LEN};
use crate::store::{bits_of, store_get, store_new, store_push, store_set, BitStore};
use vstd::prelude::*;

verus! {

/// A resolved slice: positions `start..stop` read with `step`, of which
/// `start..wrapped_end` (cut at zero) lie within the stored bits.
pub struct BinaryRange {
    range_start: i64,
    range_end: i64,
    stop: i64,
    step: i64,
}

/// `hi - lo` for `lo <= hi`, which may exceed `i64::MAX`.
fn span_len(lo: i64, hi: i64) -> (r: u64)
    requires
        lo <= hi,
    ensures
        r == hi - lo,
{
    if lo >= 0 {
        (hi - lo) as u64
    } else if hi >= 0 {
        (hi as u64) + ((-(lo + 1)) as u64) + 1
    } else {
        (hi - lo) as u64
    }
}

impl BinaryRange {
    pub closed spec fn spec_start(&self) -> int {
        self.range_start as int
    }

    pub closed spec fn spec_wrapped_end(&self) -> int {
        self.range_end as int
    }

    pub closed spec fn spec_stop(&self) -> int {
        self.stop as int
    }

    pub closed spec fn spec_step(&self) -> int {
        self.step as int
    }

    /// A range over `start..stop` for a value of `len` bits; fails with
    /// `StopBeforeStart` when `stop < start`.
    pub fn new(start: i64, stop: i64, step: i64, len: u64) -> (r: Result<BinaryRange, BinaryError>)
        requires
            len <= MAX_LEN,
        ensures
            r is Err <==> stop < start,
            r is Err ==> r->Err_0 == BinaryError::StopBeforeStart,
            r is Ok ==> r->Ok_0.spec_start() == start && r->Ok_0.spec_stop() == stop
                && r->Ok_0.spec_step() == step && r->Ok_0.spec_wrapped_end() == if stop <= len {
                stop as int
            } else {
                len as int
            },
    {
        if stop < start {
            return Err(BinaryError::StopBeforeStart);
        }
        let wrapped = if stop <= len as i64 { stop } else { len as i64 };
        Ok(BinaryRange { range_start: start, range_end: wrapped, stop, step })
    }

    /// The stored positions the range covers: from the start (or zero) to
    /// the wrapped end (or zero); empty, at that end, when the start lies at
    /// or beyond it.
    pub fn range(&self) -> (r: (u64, u64))
        ensures
            ({
                let we = if self.spec_wrapped_end() < 0 { 0 } else { self.spec_wrapped_end() };
                let ws = if self.spec_start() < 0 { 0 } else { self.spec_start() };
                r.1 == we && r.0 == if ws >= we { we } else { ws }
            }),
    {
        let we: u64 = if self.range_end < 0 { 0 } else { self.range_end as u64 };
        let ws: u64 = if self.range_start < 0 { 0 } else { self.range_start as u64 };
        if ws >= we {
            (we, we)
        } else {
            (ws, we)
        }
    }

    /// Number of positions from start to the unwrapped stop.
    pub fn len(&self) -> (r: u64)
        requires
            self.spec_start() <= self.spec_stop(),
        ensures
            r == self.spec_stop() - self.spec_start(),
    {
        span_len(self.range_start, self.stop)
    }

    pub fn get_step(&self) -> (r: i64)
        ensures
            r == self.spec_step(),
    {
        self.step
    }

    pub fn get_wrapped_end(&self) -> (r: i64)
        ensures
            r == self.spec_wrapped_end(),
    {
        self.range_end
    }

    pub fn get_real_end(&self) -> (r: i64)
        ensures
            r == self.spec_stop(),
    {
        self.stop
    }

    pub fn get_start(&self) -> (r: i64)
        ensures
            r == self.spec_start(),
    {
        self.range_start
    }
}

/// `s` read from its end.
pub open spec fn reversed(s: Seq<bool>) -> Seq<bool> {
    Seq::new(s.len(), |k: int| s[s.len() - 1 - k])
}

/// Every `step`-th element of `w`, from the first.
pub open spec fn stride(w: Seq<bool>, step: nat) -> Seq<bool>
    decreases w.len(),
{
    if w.len() == 0 || step == 0 {
        Seq::empty()
    } else {
        let next = if step < w.len() { step as int } else { w.len() as int };
        seq![w[0]] + stride(w.subrange(next, w.len() as int), step)
    }
}

/// A stride of one keeps every element.
pub proof fn lemma_stride_one(w: Seq<bool>)
    ensures
        stride(w, 1) == w,
    decreases w.len(),
{
    if w.len() > 0 {
        lemma_stride_one(w.subrange(1, w.len() as int));
        assert(seq![w[0]] + w.subrange(1, w.len() as int) =~= w);
    } else {
        assert(w =~= Seq::<bool>::empty());
    }
}

/// `old` with positions `ws..we` written from `vals`: going up from `ws`
/// (or down from `we - 1`), every `s`-th position takes the next value.
pub open spec fn strided_write(old: Seq<bool>, ws: int, we: int, s: int, forward: bool, vals: Seq<bool>) -> Seq<bool> {
    Seq::new(
        old.len(),
        |p: int|
            {
                let off = if forward { p - ws } else { we - 1 - p };
                if ws <= p < we && off % s == 0 {
                    vals[off / s]
                } else {
                    old[p]
                }
            },
    )
}

/// Facts about offsets `q` relative to the `j`-th written offset `i = j*s`.
proof fn lemma_stride_offsets(q: int, s: int, j: int, i: int)
    requires
        s > 0,
        j >= 0,
        i == j * s,
        q >= 0,
    ensures
        q == i ==> q % s == 0 && q / s == j,
        q % s == 0 && q / s == j ==> q == i,
        q % s == 0 && q / s >= j ==> q >= i,
        q / s >= 0,
{
    vstd::arithmetic::div_mod::lemma_fundamental_div_mod(q, s);
    if q == i {
        vstd::arithmetic::div_mod::lemma_fundamental_div_mod_converse(q, s, j, 0);
    }
    vstd::arithmetic::div_mod::lemma_div_pos_is_pos(q, s);
    if q / s >= j {
        vstd::arithmetic::mul::lemma_mul_inequality(j, q / s, s);
        vstd::arithmetic::mul::lemma_mul_is_commutative(s, q / s);
    }
}

impl BinaryBase {
    /// Writes `vals` (or, without them, `fill`) into positions `ws..we`,
    /// every `s`-th one, upwards from `ws` or downwards from `we - 1`.
    fn write_strided(&mut self, ws: u64, we: u64, s: u64, forward: bool, src: Option<&BinaryBase>, fill: bool)
        requires
            ws <= we <= old(self).bits().len(),
            0 < s <= 0x8000_0000_0000_0000u64,
            we <= MAX_LEN,
            src is Some ==> src->Some_0.bits().len() >= we - ws,
        ensures
            final(self).sign_behavior == old(self).sign_behavior,
            final(self).bits() == strided_write(
                old(self).bits(),
                ws as int,
                we as int,
                s as int,
                forward,
                match src {
                    Some(v) => v.bits(),
                    None => Seq::new((we - ws) as nat, |k: int| fill),
                },
            ),
    {
        let ghost vals = match src {
            Some(v) => v.bits(),
            None => Seq::new((we - ws) as nat, |k: int| fill),
        };
        let ghost old_bits = self.bits();
        let slen = we - ws;
        let mut i: u64 = 0;
        let mut j: u64 = 0;
        while i < slen
            invariant
                ws <= we <= old_bits.len(),
                we <= MAX_LEN,
                slen == we - ws,
                0 < s <= 0x8000_0000_0000_0000u64,
                i == j * s,
                j <= i,
                vals.len() >= slen,
                src is Some ==> vals == src->Some_0.bits(),
                src is None ==> vals == Seq::new((we - ws) as nat, |k: int| fill),
                self.sign_behavior == old(self).sign_behavior,
                old_bits == old(self).bits(),
                self.bits().len() == old_bits.len(),
                forall|p: int|
                    0 <= p < old_bits.len() ==> #[trigger] self.bits()[p] == {
                        let off = if forward { p - ws } else { we - 1 - p };
                        if ws <= p < we && off % (s as int) == 0 && off / (s as int) < j {
                            vals[off / (s as int)]
                        } else {
                            old_bits[p]
                        }
                    },
            decreases slen - j,
        {
            let pos = if forward { ws + i } else { we - 1 - i };
            let v = match src {
                Some(x) => store_get(&x.data, j),
                None => fill,
            };
            store_set(&mut self.data, pos, v);
            proof {
                assert forall|p: int| 0 <= p < old_bits.len() implies #[trigger] self.bits()[p] == {
                    let off = if forward { p - ws } else { we - 1 - p };
                    if ws <= p < we && off % (s as int) == 0 && off / (s as int) < j + 1 {
                        vals[off / (s as int)]
                    } else {
                        old_bits[p]
                    }
                } by {
                    let off = if forward { p - ws } else { we - 1 - p };
                    if ws <= p < we {
                        lemma_stride_offsets(off, s as int, j as int, i as int);
                    }
                    if p == pos {
                        assert(off == i);
                    }
                }
            }
            proof {
                assert((j + 1) * s == j * s + s) by (nonlinear_arith);
            }
            i = i + s;
            j = j + 1;
        }
        proof {
            assert(self.bits() =~= strided_write(old_bits, ws as int, we as int, s as int, forward, vals)) by {
                assert forall|p: int| 0 <= p < old_bits.len() implies self.bits()[p] == strided_write(old_bits, ws as int, we as int, s as int, forward, vals)[p] by {
                    let off = if forward { p - ws } else { we - 1 - p };
                    if ws <= p < we {
                        lemma_stride_offsets(off, s as int, j as int, i as int);
                    }
                }
            }
        }
    }

    /// Lower end of the positions a slice covers: the resolved start, or
    /// for a negative step the resolved stop. It may lie below zero.
    pub open spec fn slice_lo(&self, start: int, stop: int, step: int) -> int {
        if step < 0 {
            self.flat(stop)
        } else {
            self.flat(start)
        }
    }

    /// Upper (exclusive) end of the positions a slice covers.
    pub open spec fn slice_hi(&self, start: int, stop: int, step: int) -> int {
        if step < 0 {
            self.flat(start)
        } else {
            self.flat(stop)
        }
    }

    /// Positions `lo..hi`; those outside the stored bits (below zero or at
    /// or beyond the length) read as the sign-extension bit.
    pub open spec fn window(&self, lo: int, hi: int) -> Seq<bool> {
        Seq::new((hi - lo) as nat, |k: int| self.bit_at(lo + k))
    }

    /// The bits a slice reads: the window, reversed for a negative step,
    /// then every `|step|`-th bit.
    pub open spec fn slice_bits(&self, start: int, stop: int, step: int) -> Seq<bool> {
        let w = self.window(self.slice_lo(start, stop, step), self.slice_hi(start, stop, step));
        if step > 0 {
            stride(w, step as nat)
        } else {
            stride(reversed(w), (-step) as nat)
        }
    }

    /// Turns `start:stop:step` into a range. Fails with `ZeroStep` on a zero
    /// step and with `StopBeforeStart` when the covered positions would run
    /// backwards.
    pub fn slice_to_range(&self, start: i64, stop: i64, step: i64) -> (r: Result<BinaryRange, BinaryError>)
        requires
            self.wf(),
        ensures
            step == 0 ==> r == Err::<BinaryRange, BinaryError>(BinaryError::ZeroStep),
            step != 0 ==> (r is Err <==> self.slice_hi(start as int, stop as int, step as int) < self.slice_lo(
                start as int,
                stop as int,
                step as int,
            )),
            step != 0 && r is Err ==> r->Err_0 == BinaryError::StopBeforeStart,
            r is Ok ==> ({
                let rg = r->Ok_0;
                &&& rg.spec_start() == self.slice_lo(start as int, stop as int, step as int)
                &&& rg.spec_stop() == self.slice_hi(start as int, stop as int, step as int)
                &&& rg.spec_step() == step
                &&& rg.spec_wrapped_end() == if rg.spec_stop() <= self.bits().len() {
                    rg.spec_stop()
                } else {
                    self.bits().len() as int
                }
            }),
    {
        if step == 0 {
            return Err(BinaryError::ZeroStep);
        }
        let s = self.flatten_index(start);
        let e = self.flatten_index(stop);
        if step < 0 {
            BinaryRange::new(e, s, step, self.len())
        } else {
            BinaryRange::new(s, e, step, self.len())
        }
    }

    /// The bit at `base + p` (or `base - p` going down), positions outside
    /// the stored bits reading as `ext`.
    fn read_at(&self, base: i64, forward: bool, p: u64, ext: bool) -> (r: bool)
        requires
            ext == self.ext_bit(),
            forward ==> base + p <= i64::MAX,
            !forward ==> base - p >= i64::MIN,
        ensures
            r == self.bit_at(if forward { base + p } else { base - p }),
    {
        let len = self.len();
        if forward {
            if base >= 0 {
                let idx = base as u64 + p;
                if idx < len { store_get(&self.data, idx) } else { ext }
            } else {
                let m = ((-(base + 1)) as u64) + 1;
                if p >= m && p - m < len {
                    store_get(&self.data, p - m)
                } else {
                    ext
                }
            }
        } else if base >= 0 && p <= base as u64 {
            let idx = base as u64 - p;
            if idx < len { store_get(&self.data, idx) } else { ext }
        } else {
            ext
        }
    }

    /// Reads a slice of `stop - start` positions (start and stop swapped
    /// for a negative step). Positions below zero or at or beyond the
    /// length read as the sign-extension bit; a negative step reads from the
    /// top down.
    pub fn get_slice(&self, start: i64, stop: i64, step: i64) -> (r: Result<BitStore, BinaryError>)
        requires
            self.wf(),
        ensures
            step == 0 ==> r == Err::<BitStore, BinaryError>(BinaryError::ZeroStep),
            step != 0 ==> (r is Err <==> self.slice_hi(start as int, stop as int, step as int) < self.slice_lo(
                start as int,
                stop as int,
                step as int,
            )),
            step != 0 && r is Err ==> r->Err_0 == BinaryError::StopBeforeStart,
            r is Ok ==> bits_of(r->Ok_0) == self.slice_bits(start as int, stop as int, step as int),
    {
        let range = self.slice_to_range(start, stop, step)?;
        let lo = range.get_start();
        let hi = range.get_real_end();
        let n = span_len(lo, hi);
        let s: u64 = if step > 0 { step as u64 } else { ((-(step + 1)) as u64) + 1 };
        let ext = self.sign_extending_bit();
        let len = self.len();
        let ghost w = self.window(lo as int, hi as int);
        let ghost src = if step > 0 { w } else { reversed(w) };
        let mut out = store_new();
        let mut p: u64 = 0;
        proof {
            assert(src.subrange(0, n as int) =~= src);
        }
        while p < n
            invariant
                n == hi - lo,
                lo <= hi,
                src.len() == n,
                p <= n,
                s > 0,
                s == if step > 0 { step as int } else { -step },
                ext == self.ext_bit(),
                len == self.bits().len(),
                forall|k: int| 0 <= k < n ==> #[trigger] src[k] == if step > 0 {
                    self.bit_at(lo + k)
                } else {
                    self.bit_at(hi - 1 - k)
                },
                bits_of(out) + stride(src.subrange(p as int, n as int), s as nat) == stride(src, s as nat),
                bits_of(out).len() <= p,
            decreases n - p,
        {
            let b = if step > 0 {
                self.read_at(lo, true, p, ext)
            } else {
                self.read_at(hi - 1, false, p, ext)
            };
            let ghost rest = src.subrange(p as int, n as int);
            let next = if n - p <= s { n } else { p + s };
            proof {
                assert(b == src[p as int]);
                assert(rest.subrange(if (s as int) < rest.len() { s as int } else { rest.len() as int }, rest.len() as int)
                    =~= src.subrange(next as int, n as int));
                assert(bits_of(out).push(b) + stride(src.subrange(next as int, n as int), s as nat)
                    =~= bits_of(out) + stride(rest, s as nat));
            }
            store_push(&mut out, b);
            p = next;
        }
        proof {
            assert(src.subrange(n as int, n as int) =~= Seq::<bool>::empty());
            assert(bits_of(out) =~= stride(src, s as nat));
        }
        Ok(out)
    }
}

impl BinaryBase {
    /// The stored positions a slice write reaches: the covered positions
    /// cut at zero and at the length, empty when none is stored.
    pub open spec fn stored_hi(&self, start: int, stop: int, step: int) -> int {
        let hi = self.slice_hi(start, stop, step);
        if hi < 0 {
            0
        } else if hi <= self.bits().len() {
            hi
        } else {
            self.bits().len() as int
        }
    }

    pub open spec fn stored_lo(&self, start: int, stop: int, step: int) -> int {
        let lo = if self.slice_lo(start, stop, step) < 0 { 0 } else { self.slice_lo(start, stop, step) };
        if lo >= self.stored_hi(start, stop, step) {
            self.stored_hi(start, stop, step)
        } else {
            lo
        }
    }

    /// The outcome of a slice write of `vals`: the error it meets, or the
    /// bits after writing.
    pub open spec fn slice_write_result(&self, start: int, stop: int, step: int, vals: Seq<bool>) -> Result<
        Seq<bool>,
        BinaryError,
    > {
        let ws = self.stored_lo(start, stop, step);
        let we = self.stored_hi(start, stop, step);
        if step == 0 {
            Err(BinaryError::ZeroStep)
        } else if self.slice_hi(start, stop, step) < self.slice_lo(start, stop, step) {
            Err(BinaryError::StopBeforeStart)
        } else if we - ws > vals.len() {
            Err(BinaryError::IndexOutOfRange)
        } else {
            Ok(strided_write(self.bits(), ws, we, if step > 0 { step } else { -step }, step > 0, vals))
        }
    }

    fn write_slice(&mut self, start: i64, stop: i64, step: i64, src: Option<&BinaryBase>, fill: bool) -> (r: Result<(), BinaryError>)
        requires
            old(self).wf(),
        ensures
            final(self).sign_behavior == old(self).sign_behavior,
            ({
                let vals = match src {
                    Some(v) => v.bits(),
                    None => Seq::new(old(self).bits().len(), |k: int| fill),
                };
                let expect = old(self).slice_write_result(start as int, stop as int, step as int, vals);
                match expect {
                    Ok(b) => r is Ok && final(self).bits() == b,
                    Err(e) => r == Err::<(), BinaryError>(e) && final(self).bits() == old(self).bits(),
                }
            }),
    {
        let range = self.slice_to_range(start, stop, step)?;
        let (ws, we) = range.range();
        let slen = we - ws;
        let vlen = match src {
            Some(v) => v.len(),
            None => self.len(),
        };
        if slen > vlen {
            return Err(BinaryError::IndexOutOfRange);
        }
        let s: u64 = if step > 0 { step as u64 } else { ((-(step + 1)) as u64) + 1 };
        let ghost old_bits = self.bits();
        self.write_strided(ws, we, s, step > 0, src, fill);
        proof {
            let vals = match src {
                Some(v) => v.bits(),
                None => Seq::new(old_bits.len(), |k: int| fill),
            };
            let short = Seq::new((we - ws) as nat, |k: int| fill);
            let fwd = step > 0;
            if src is None {
                assert(strided_write(old_bits, ws as int, we as int, s as int, fwd, short) =~= strided_write(
                    old_bits,
                    ws as int,
                    we as int,
                    s as int,
                    fwd,
                    vals,
                )) by {
                    assert forall|p: int| 0 <= p < old_bits.len() implies #[trigger] strided_write(old_bits, ws as int, we as int, s as int, fwd, short)[p]
                        == strided_write(old_bits, ws as int, we as int, s as int, fwd, vals)[p] by {
                        let off = if step > 0 { p - ws } else { we - 1 - p };
                        if ws <= p < we && off % (s as int) == 0 {
                            vstd::arithmetic::div_mod::lemma_div_pos_is_pos(off, s as int);
                            vstd::arithmetic::div_mod::lemma_div_is_ordered_by_denominator(off, 1, s as int);
                        }
                    }
                }
            }
        }
        Ok(())
    }

    /// Writes `value` into a slice: its bits, lowest first, go to every
    /// `|step|`-th stored position of the slice (from the top for a negative
    /// step). Fails with `ZeroStep` or `StopBeforeStart` as a read would, and
    /// with `IndexOutOfRange` when `value` is shorter than the stored part
    /// of the slice; on failure nothing is written.
    pub fn set_slice(&mut self, start: i64, stop: i64, step: i64, value: &BinaryBase) -> (r: Result<(), BinaryError>)
        requires
            old(self).wf(),
        ensures
            final(self).sign_behavior == old(self).sign_behavior,
            match old(self).slice_write_result(start as int, stop as int, step as int, value.bits()) {
                Ok(b) => r is Ok && final(self).bits() == b,
                Err(e) => r == Err::<(), BinaryError>(e) && final(self).bits() == old(self).bits(),
            },
    {
        self.write_slice(start, stop, step, Some(value), false)
    }

    /// Sets every `|step|`-th stored position of a slice to `value`. Fails
    /// with `ZeroStep` or `StopBeforeStart` as a read would.
    pub fn set_slice_bool(&mut self, start: i64, stop: i64, step: i64, value: bool) -> (r: Result<(), BinaryError>)
        requires
            old(self).wf(),
        ensures
            final(self).sign_behavior == old(self).sign_behavior,
            match old(self).slice_write_result(
                start as int,
                stop as int,
                step as int,
                Seq::new(old(self).bits().len(), |k: int| value),
            ) {
                Ok(b) => r is Ok && final(self).bits() == b,
                Err(e) => r == Err::<(), BinaryError>(e) && final(self).bits() == old(self).bits(),
            },
    {
        self.write_slice(start, stop, step, None, value)
    }
}

/// `old` after writing, for each `j` in order, bit `j` of `vals` at the
/// resolved index `pos[j]`; a later write to a position wins.
pub open spec fn indexed_write(old: Seq<bool>, pos: Seq<int>, vals: Seq<bool>, k: nat) -> Seq<bool>
    decreases k,
{
    if k == 0 {
        old
    } else {
        indexed_write(old, pos, vals, (k - 1) as nat).update(pos[k - 1], vals[k - 1])
    }
}

impl BinaryBase {
    /// The resolved positions of a list of indices.
    pub open spec fn flat_all(&self, indices: Seq<i64>) -> Seq<int> {
        Seq::new(indices.len(), |j: int| self.flat(indices[j] as int))
    }

    /// Every index addresses a stored bit.
    pub open spec fn all_in_bounds(&self, indices: Seq<i64>) -> bool {
        forall|j: int| 0 <= j < indices.len() ==> 0 <= #[trigger] self.flat(indices[j] as int) < self.bits().len()
    }

    /// The bits at a list of indices, in order; out-of-range positions read
    /// as the sign-extension bit.
    pub fn get_indices(&self, indices: &Vec<i64>) -> (r: BitStore)
        requires
            self.wf(),
            indices@.len() <= MAX_LEN,
        ensures
            bits_of(r) == Seq::new(indices@.len(), |j: int| self.bit_at(self.flat(indices@[j] as int))),
    {
        let mut out = store_new();
        let mut j: usize = 0;
        while j < indices.len()
            invariant
                self.wf(),
                j <= indices@.len() <= MAX_LEN,
                bits_of(out) == Seq::new(indices@.len(), |i: int| self.bit_at(self.flat(indices@[i] as int))).subrange(
                    0,
                    j as int,
                ),
            decreases indices@.len() - j,
        {
            let b = self.get_bit(indices[j]);
            store_push(&mut out, b);
            proof {
                assert(bits_of(out) =~= Seq::new(indices@.len(), |i: int| self.bit_at(self.flat(indices@[i] as int))).subrange(
                    0,
                    j + 1,
                ));
            }
            j = j + 1;
        }
        proof {
            assert(bits_of(out) =~= Seq::new(indices@.len(), |i: int| self.bit_at(self.flat(indices@[i] as int))));
        }
        out
    }

    /// Resolves every index, failing with `IndexOutOfRange` if any misses
    /// the stored bits.
    fn resolve_all(&self, indices: &Vec<i64>) -> (r: Result<Vec<u64>, BinaryError>)
        requires
            self.wf(),
        ensures
            r is Ok <==> self.all_in_bounds(indices@),
            r is Err ==> r->Err_0 == BinaryError::IndexOutOfRange,
            r is Ok ==> r->Ok_0@.len() == indices@.len() && forall|j: int|
                0 <= j < indices@.len() ==> r->Ok_0@[j] == self.flat(indices@[j] as int),
    {
        let mut out: Vec<u64> = Vec::new();
        let mut j: usize = 0;
        while j < indices.len()
            invariant
                self.wf(),
                j <= indices@.len(),
                out@.len() == j,
                forall|i: int| 0 <= i < j ==> out@[i] == self.flat(indices@[i] as int),
                forall|i: int| 0 <= i < j ==> 0 <= #[trigger] self.flat(indices@[i] as int) < self.bits().len(),
            decreases indices@.len() - j,
        {
            let k = self.flatten_index(indices[j]);
            let p = self.in_bounds(k)?;
            out.push(p);
            j = j + 1;
        }
        Ok(out)
    }

    fn write_indices(&mut self, pos: &Vec<u64>, src: Option<&BinaryBase>, fill: bool)
        requires
            old(self).wf(),
            forall|j: int| 0 <= j < pos@.len() ==> #[trigger] pos@[j] < old(self).bits().len(),
            src is Some ==> src->Some_0.wf(),
            pos@.len() <= MAX_LEN,
        ensures
            final(self).sign_behavior == old(self).sign_behavior,
            final(self).bits() == indexed_write(
                old(self).bits(),
                Seq::new(pos@.len(), |j: int| pos@[j] as int),
                match src {
                    Some(v) => Seq::new(pos@.len(), |j: int| v.bit_at(j)),
                    None => Seq::new(pos@.len(), |j: int| fill),
                },
                pos@.len(),
            ),
    {
        let ghost ps = Seq::new(pos@.len(), |j: int| pos@[j] as int);
        let ghost vals = match src {
            Some(v) => Seq::new(pos@.len(), |j: int| v.bit_at(j)),
            None => Seq::new(pos@.len(), |j: int| fill),
        };
        let mut j: usize = 0;
        while j < pos.len()
            invariant
                j <= pos@.len() <= MAX_LEN,
                ps == Seq::new(pos@.len(), |i: int| pos@[i] as int),
                vals == match src {
                    Some(v) => Seq::new(pos@.len(), |i: int| v.bit_at(i)),
                    None => Seq::new(pos@.len(), |i: int| fill),
                },
                src is Some ==> src->Some_0.wf(),
                forall|i: int| 0 <= i < pos@.len() ==> #[trigger] pos@[i] < old(self).bits().len(),
                self.sign_behavior == old(self).sign_behavior,
                self.bits().len() == old(self).bits().len(),
                self.bits() == indexed_write(old(self).bits(), ps, vals, j as nat),
            decreases pos@.len() - j,
        {
            let v = match src {
                Some(x) => x.get_bit(j as i64),
                None => fill,
            };
            store_set(&mut self.data, pos[j], v);
            j = j + 1;
        }
    }

    /// Sets the bit at every index to `value`. Fails with `IndexOutOfRange`
    /// if any index misses the stored bits; then nothing is written.
    pub fn set_indices_bool(&mut self, indices: &Vec<i64>, value: bool) -> (r: Result<(), BinaryError>)
        requires
            old(self).wf(),
            indices@.len() <= MAX_LEN,
        ensures
            final(self).sign_behavior == old(self).sign_behavior,
            r is Ok <==> old(self).all_in_bounds(indices@),
            r is Err ==> r->Err_0 == BinaryError::IndexOutOfRange && final(self).bits() == old(self).bits(),
            r is Ok ==> final(self).bits() == indexed_write(
                old(self).bits(),
                old(self).flat_all(indices@),
                Seq::new(indices@.len(), |j: int| value),
                indices@.len(),
            ),
    {
        let pos = self.resolve_all(indices)?;
        self.write_indices(&pos, None, value);
        proof {
            assert(Seq::new(pos@.len(), |j: int| pos@[j] as int) =~= old(self).flat_all(indices@));
        }
        Ok(())
    }

    /// Writes bit `j` of `value` (read as a slice would, beyond its length)
    /// at the `j`-th index. Fails with `IndexOutOfRange` if any index misses
    /// the stored bits; then nothing is written.
    pub fn set_indices_slice(&mut self, indices: &Vec<i64>, value: &BinaryBase) -> (r: Result<(), BinaryError>)
        requires
            old(self).wf(),
            value.wf(),
            indices@.len() <= MAX_LEN,
        ensures
            final(self).sign_behavior == old(self).sign_behavior,
            r is Ok <==> old(self).all_in_bounds(indices@),
            r is Err ==> r->Err_0 == BinaryError::IndexOutOfRange && final(self).bits() == old(self).bits(),
            r is Ok ==> final(self).bits() == indexed_write(
                old(self).bits(),
                old(self).flat_all(indices@),
                Seq::new(indices@.len(), |j: int| value.bit_at(j)),
                indices@.len(),
            ),
    {
        let pos = self.resolve_all(indices)?;
        self.write_indices(&pos, Some(value), false);
        proof {
            assert(Seq::new(pos@.len(), |j: int| pos@[j] as int) =~= old(self).flat_all(indices@));
        }
        Ok(())
    }
}

/// The full slice `[:]` reads back every stored bit.
pub proof fn lemma_full_slice(a: BinaryBase)
    requires
        a.wf(),
    ensures
        a.slice_bits(0, crate::binary::INDEX_TO_END as int, 1) == a.bits(),
{
    let w = a.window(0, a.bits().len() as int);
    assert(w =~= a.bits());
    lemma_stride_one(w);
}

} // verus!
