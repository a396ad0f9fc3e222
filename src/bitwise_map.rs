//! Evaluation of an arbitrary boolean function of up to 31 inputs, given
//! as a truth table, across whole bit vectors at once.

use crate::binary::{nat_of, BinaryBase, BinaryError, SignMode, MAX_LEN};
use crate::bitwise::{op_bits, BitOp};
use crate::store::{bits_of, store_get, store_new, store_push, store_set};
use vstd::arithmetic::power2::{lemma_pow2_unfold, pow2};
use vstd::prelude::*;

verus! {

/// The most operands a truth table can take.
pub const MAX_OPERANDS: usize = 31;

/// The most entries a truth table can have.
pub const MAX_TABLE: u64 = 32;

/// Bit `k` of operand `a`, with zeros beyond its length.
pub open spec fn lane_bit(a: BinaryBase, k: int) -> bool {
    0 <= k < a.bits().len() && a.bits()[k]
}

/// The input combination that lane `k` presents: bit `i` is operand `i`'s
/// bit `k`.
pub open spec fn minterm(args: Seq<BinaryBase>, k: int) -> nat {
    nat_of(Seq::new(args.len(), |i: int| lane_bit(args[i], k)))
}

pub open spec fn longest(args: Seq<BinaryBase>) -> nat
    decreases args.len(),
{
    if args.len() == 0 {
        0
    } else {
        let rest = longest(args.drop_last());
        if args.last().bits().len() > rest {
            args.last().bits().len()
        } else {
            rest
        }
    }
}

/// The output of the table on every lane of the operands.
pub open spec fn map_bits(args: Seq<BinaryBase>, table: Seq<bool>) -> Seq<bool> {
    Seq::new(longest(args), |k: int| table[minterm(args, k) as int])
}

proof fn lemma_longest_bound(args: Seq<BinaryBase>)
    requires
        forall|i: int| 0 <= i < args.len() ==> #[trigger] args[i].wf(),
    ensures
        longest(args) <= MAX_LEN,
        forall|i: int| 0 <= i < args.len() ==> #[trigger] args[i].bits().len() <= longest(args),
    decreases args.len(),
{
    if args.len() > 0 {
        assert(args[args.len() - 1].wf());
        let d = args.drop_last();
        assert forall|i: int| 0 <= i < d.len() implies #[trigger] d[i].wf() by {
            assert(d[i] == args[i]);
        }
        lemma_longest_bound(d);
        assert forall|i: int| 0 <= i < args.len() implies #[trigger] args[i].bits().len() <= longest(args) by {
            if i < args.len() - 1 {
                assert(args[i] == d[i]);
            }
        }
    }
}

proof fn lemma_minterm_bound(args: Seq<BinaryBase>, k: int)
    ensures
        minterm(args, k) < pow2(args.len()),
{
    crate::lemmas::lemma_nat_of_bound(Seq::new(args.len(), |i: int| lane_bit(args[i], k)));
}

/// The length of the longest operand.
fn longest_len(args: &Vec<BinaryBase>) -> (r: u64)
    requires
        forall|i: int| 0 <= i < args@.len() ==> #[trigger] args@[i].wf(),
    ensures
        r == longest(args@),
{
    let mut m: u64 = 0;
    let mut i: usize = 0;
    proof {
        lemma_longest_bound(args@);
    }
    while i < args.len()
        invariant
            i <= args@.len(),
            m == longest(args@.subrange(0, i as int)),
            forall|j: int| 0 <= j < args@.len() ==> #[trigger] args@[j].wf(),
        decreases args@.len() - i,
    {
        let l = args[i].len();
        proof {
            assert(args@.subrange(0, i + 1).drop_last() =~= args@.subrange(0, i as int));
        }
        if l > m {
            m = l;
        }
        i = i + 1;
    }
    proof {
        assert(args@.subrange(0, args@.len() as int) =~= args@);
    }
    m
}

/// Applies the truth table `table` lane by lane: each output bit is the
/// table entry whose index has bit `i` equal to operand `i`'s bit in that
/// lane (operands widened with zeros to the longest). Fails with
/// `TooManyOperands` above 31 operands, with `TableTooSmall` when the table
/// has fewer than `2^k` entries for `k` operands, and with `TableTooLarge`
/// above 32 entries. The result is unsigned.
pub fn bitwise_map(args: &Vec<BinaryBase>, table: &BinaryBase) -> (r: Result<BinaryBase, BinaryError>)
    requires
        forall|i: int| 0 <= i < args@.len() ==> #[trigger] args@[i].wf(),
        table.wf(),
    ensures
        r is Err <==> (args@.len() > MAX_OPERANDS || table.bits().len() < pow2(args@.len())
            || table.bits().len() > MAX_TABLE),
        args@.len() > MAX_OPERANDS ==> r == Err::<BinaryBase, BinaryError>(BinaryError::TooManyOperands),
        args@.len() <= MAX_OPERANDS && table.bits().len() < pow2(args@.len()) ==> r == Err::<
            BinaryBase,
            BinaryError,
        >(BinaryError::TableTooSmall),
        args@.len() <= MAX_OPERANDS && table.bits().len() >= pow2(args@.len()) && table.bits().len() > MAX_TABLE
            ==> r == Err::<BinaryBase, BinaryError>(BinaryError::TableTooLarge),
        r is Ok ==> r->Ok_0.bits() == map_bits(args@, table.bits()) && r->Ok_0.sign_behavior == SignMode::Unsigned,
{
    let k = args.len();
    if k > MAX_OPERANDS {
        return Err(BinaryError::TooManyOperands);
    }
    let mut size: u64 = 1;
    let mut e: usize = 0;
    proof {
        vstd::arithmetic::power2::lemma2_to64();
    }
    while e < k
        invariant
            k <= MAX_OPERANDS,
            e <= k,
            size == pow2(e as nat),
            size <= 0x8000_0000,
        decreases k - e,
    {
        proof {
            lemma_pow2_unfold((e + 1) as nat);
            vstd::arithmetic::power2::lemma_pow2_strictly_increases((e + 1) as nat, 32);
            vstd::arithmetic::power2::lemma2_to64();
        }
        size = size * 2;
        e = e + 1;
    }
    let tlen = table.len();
    if tlen < size {
        return Err(BinaryError::TableTooSmall);
    }
    if tlen > MAX_TABLE {
        return Err(BinaryError::TableTooLarge);
    }
    let n = longest_len(args);
    proof {
        lemma_longest_bound(args@);
    }
    let mut out = store_new();
    let mut lane: u64 = 0;
    while lane < n
        invariant
            n == longest(args@) <= MAX_LEN,
            lane <= n,
            k == args@.len() <= MAX_OPERANDS,
            tlen == table.bits().len() >= pow2(k as nat),
            forall|j: int| 0 <= j < args@.len() ==> #[trigger] args@[j].wf(),
            bits_of(out) == map_bits(args@, table.bits()).subrange(0, lane as int),
        decreases n - lane,
    {
        let mut m: u64 = 0;
        let mut w: u64 = 1;
        let mut i: usize = 0;
        let ghost lanes = Seq::new(args@.len(), |j: int| lane_bit(args@[j], lane as int));
        proof {
            vstd::arithmetic::power2::lemma2_to64();
            assert(lanes.subrange(0, 0) =~= Seq::<bool>::empty());
        }
        while i < k
            invariant
                k == args@.len() <= MAX_OPERANDS,
                i <= k,
                w == pow2(i as nat),
                w <= 0x8000_0000,
                m == nat_of(lanes.subrange(0, i as int)),
                m < w,
                lanes == Seq::new(args@.len(), |j: int| lane_bit(args@[j], lane as int)),
            decreases k - i,
        {
            let a = &args[i];
            let b = if lane < a.len() { store_get(&a.data, lane) } else { false };
            proof {
                crate::lemmas::lemma_nat_of_prefix(lanes, i as int);
                lemma_pow2_unfold((i + 1) as nat);
                vstd::arithmetic::power2::lemma_pow2_strictly_increases((i + 1) as nat, 32);
                vstd::arithmetic::power2::lemma2_to64();
            }
            if b {
                m = m + w;
            }
            w = w * 2;
            i = i + 1;
        }
        proof {
            assert(lanes.subrange(0, k as int) =~= lanes);
            lemma_minterm_bound(args@, lane as int);
        }
        let v = store_get(&table.data, m);
        store_push(&mut out, v);
        proof {
            assert(bits_of(out) =~= map_bits(args@, table.bits()).subrange(0, lane + 1));
        }
        lane = lane + 1;
    }
    proof {
        assert(map_bits(args@, table.bits()).subrange(0, n as int) =~= map_bits(args@, table.bits()));
    }
    Ok(BinaryBase::from_data(out))
}

/// The value the last entry for key `m` assigns, `false` if none does.
pub open spec fn table_entry(terms: Seq<(i64, bool)>, m: int) -> bool
    decreases terms.len(),
{
    if terms.len() == 0 {
        false
    } else if terms.last().0 == m {
        terms.last().1
    } else {
        table_entry(terms.drop_last(), m)
    }
}

/// Builds a 32-entry unsigned truth table from `(minterm, value)` pairs;
/// a later pair for the same minterm wins. Fails with `IndexOutOfRange`
/// when a minterm lies outside `0..32`.
pub fn table_from_terms(terms: &Vec<(i64, bool)>) -> (r: Result<BinaryBase, BinaryError>)
    ensures
        r is Err <==> exists|i: int| 0 <= i < terms@.len() && !(0 <= #[trigger] terms@[i].0 < MAX_TABLE),
        r is Err ==> r->Err_0 == BinaryError::IndexOutOfRange,
        r is Ok ==> r->Ok_0.bits() == Seq::new(MAX_TABLE as nat, |m: int| table_entry(terms@, m))
            && r->Ok_0.sign_behavior == SignMode::Unsigned,
{
    let mut t = store_new();
    crate::store::store_resize(&mut t, MAX_TABLE, false);
    let mut i: usize = 0;
    while i < terms.len()
        invariant
            i <= terms@.len(),
            forall|j: int| 0 <= j < i ==> 0 <= #[trigger] terms@[j].0 < MAX_TABLE,
            bits_of(t) == Seq::new(MAX_TABLE as nat, |m: int| table_entry(terms@.subrange(0, i as int), m)),
        decreases terms@.len() - i,
    {
        let (key, value) = terms[i];
        if key < 0 || key >= MAX_TABLE as i64 {
            return Err(BinaryError::IndexOutOfRange);
        }
        store_set(&mut t, key as u64, value);
        proof {
            let pre = terms@.subrange(0, i + 1);
            assert(pre.drop_last() =~= terms@.subrange(0, i as int));
            assert(bits_of(t) =~= Seq::new(MAX_TABLE as nat, |m: int| table_entry(pre, m)));
        }
        i = i + 1;
    }
    proof {
        assert(terms@.subrange(0, terms@.len() as int) =~= terms@);
    }
    Ok(BinaryBase::from_data(t))
}

/// A table whose only true entry is minterm 3 computes `a AND b` on two
/// operands of one length.
pub proof fn lemma_map_minterm3_is_and(a: BinaryBase, b: BinaryBase, table: Seq<bool>)
    requires
        a.bits().len() == b.bits().len(),
        4 <= table.len(),
        forall|m: int| 0 <= m < table.len() ==> #[trigger] table[m] == (m == 3),
    ensures
        map_bits(seq![a, b], table) == op_bits(a, b, BitOp::And, false),
{
    let args = seq![a, b];
    assert(args.drop_last() =~= seq![a]);
    assert(seq![a].drop_last() =~= Seq::<BinaryBase>::empty());
    assert(longest(Seq::<BinaryBase>::empty()) == 0);
    assert(longest(seq![a]) == a.bits().len());
    assert(longest(args) == a.bits().len());
    assert forall|k: int| 0 <= k < a.bits().len() implies #[trigger] map_bits(args, table)[k] == op_bits(
        a,
        b,
        BitOp::And,
        false,
    )[k] by {
        let l = Seq::new(2, |i: int| lane_bit(args[i], k));
        assert(l.drop_last() =~= seq![a.bits()[k]]);
        assert(seq![a.bits()[k]].drop_last() =~= Seq::<bool>::empty());
        vstd::arithmetic::power2::lemma2_to64();
        let e = Seq::<bool>::empty();
        assert(nat_of(e) == 0);
        let one = seq![a.bits()[k]];
        assert(nat_of(one) == nat_of(one.drop_last()) + if one.last() { pow2(0) } else { 0 });
        assert(nat_of(l) == nat_of(l.drop_last()) + if l.last() { pow2(1) } else { 0 });
        assert(minterm(args, k) == (if a.bits()[k] { 1nat } else { 0nat }) + (if b.bits()[k] { 2nat } else { 0nat }));
    }
    assert(map_bits(args, table) =~= op_bits(a, b, BitOp::And, false));
}

} // verus!
