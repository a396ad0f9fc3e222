//! Counting, searching and comparing bits.

use crate::binary::{BinaryBase, BinaryError, MAX_LEN};
use crate::store::store_get;
use vstd::prelude::*;

verus! {

/// Number of set bits in `s`.
pub open spec fn count_spec(s: Seq<bool>, value: bool) -> nat
    decreases s.len(),
{
    if s.len() == 0 {
        0
    } else {
        count_spec(s.drop_last(), value) + if s.last() == value { 1nat } else { 0nat }
    }
}

/// The positions of `s` holding `value`, in increasing order.
pub open spec fn positions(s: Seq<bool>, value: bool) -> Seq<u64>
    decreases s.len(),
{
    if s.len() == 0 {
        Seq::empty()
    } else if s.last() == value {
        positions(s.drop_last(), value).push((s.len() - 1) as u64)
    } else {
        positions(s.drop_last(), value)
    }
}

/// Bit `j` of `s` counted from the top.
pub open spec fn from_top(s: Seq<bool>, j: int) -> bool {
    s[s.len() - 1 - j]
}

/// `pattern` occurs in `s` at position `i`.
pub open spec fn occurs_at(s: Seq<bool>, pattern: Seq<bool>, i: int) -> bool {
    0 <= i && i + pattern.len() <= s.len() && s.subrange(i, i + pattern.len()) == pattern
}

/// The positions where `pattern` occurs in `s`, in increasing order.
pub open spec fn occurrences(s: Seq<bool>, pattern: Seq<bool>, upto: int) -> Seq<u64>
    decreases upto,
{
    if upto <= 0 {
        Seq::empty()
    } else if occurs_at(s, pattern, upto - 1) {
        occurrences(s, pattern, upto - 1).push((upto - 1) as u64)
    } else {
        occurrences(s, pattern, upto - 1)
    }
}

/// How many bits of `a` equal `value`.
fn count_value(a: &BinaryBase, value: bool) -> (r: u64)
    requires
        a.wf(),
    ensures
        r == count_spec(a.bits(), value),
{
    let n = a.len();
    let mut c: u64 = 0;
    let mut i: u64 = 0;
    while i < n
        invariant
            n == a.bits().len() <= MAX_LEN,
            i <= n,
            c == count_spec(a.bits().subrange(0, i as int), value),
            c <= i,
        decreases n - i,
    {
        proof {
            assert(a.bits().subrange(0, i + 1).drop_last() =~= a.bits().subrange(0, i as int));
        }
        if store_get(&a.data, i) == value {
            c = c + 1;
        }
        i = i + 1;
    }
    proof {
        assert(a.bits().subrange(0, n as int) =~= a.bits());
    }
    c
}

/// Number of set bits.
pub fn count_ones(binary: &BinaryBase) -> (r: u64)
    requires
        binary.wf(),
    ensures
        r == count_spec(binary.bits(), true),
{
    count_value(binary, true)
}

/// Number of clear bits.
pub fn count_zeros(binary: &BinaryBase) -> (r: u64)
    requires
        binary.wf(),
    ensures
        r == count_spec(binary.bits(), false),
{
    count_value(binary, false)
}

/// Position of the lowest bit equal to `value`, if any.
fn find_value(a: &BinaryBase, value: bool) -> (r: Option<u64>)
    requires
        a.wf(),
    ensures
        match r {
            Some(i) => i < a.bits().len() && a.bits()[i as int] == value && forall|j: int|
                0 <= j < i ==> a.bits()[j] != value,
            None => forall|j: int| 0 <= j < a.bits().len() ==> a.bits()[j] != value,
        },
{
    let n = a.len();
    let mut i: u64 = 0;
    while i < n
        invariant
            n == a.bits().len(),
            i <= n,
            forall|j: int| 0 <= j < i ==> a.bits()[j] != value,
        decreases n - i,
    {
        if store_get(&a.data, i) == value {
            return Some(i);
        }
        i = i + 1;
    }
    None
}

/// Distance from the top to the highest bit equal to `value`, if any.
fn find_value_rev(a: &BinaryBase, value: bool) -> (r: Option<u64>)
    requires
        a.wf(),
    ensures
        match r {
            Some(d) => d < a.bits().len() && from_top(a.bits(), d as int) == value && forall|j: int|
                0 <= j < d ==> from_top(a.bits(), j) != value,
            None => forall|j: int| 0 <= j < a.bits().len() ==> a.bits()[j] != value,
        },
{
    let n = a.len();
    let mut d: u64 = 0;
    while d < n
        invariant
            n == a.bits().len(),
            d <= n,
            forall|j: int| 0 <= j < d ==> from_top(a.bits(), j) != value,
        decreases n - d,
    {
        if store_get(&a.data, n - 1 - d) == value {
            return Some(d);
        }
        d = d + 1;
    }
    proof {
        assert forall|j: int| 0 <= j < n implies a.bits()[j] != value by {
            assert(from_top(a.bits(), n - 1 - j) != value);
        }
    }
    None
}

/// Position of the lowest set bit.
pub fn find_one(binary: &BinaryBase) -> (r: Option<u64>)
    requires
        binary.wf(),
    ensures
        match r {
            Some(i) => i < binary.bits().len() && binary.bits()[i as int] && forall|j: int|
                0 <= j < i ==> !binary.bits()[j],
            None => forall|j: int| 0 <= j < binary.bits().len() ==> !binary.bits()[j],
        },
{
    find_value(binary, true)
}

/// Position of the lowest clear bit.
pub fn find_zero(binary: &BinaryBase) -> (r: Option<u64>)
    requires
        binary.wf(),
    ensures
        match r {
            Some(i) => i < binary.bits().len() && !binary.bits()[i as int] && forall|j: int|
                0 <= j < i ==> binary.bits()[j],
            None => forall|j: int| 0 <= j < binary.bits().len() ==> binary.bits()[j],
        },
{
    find_value(binary, false)
}

/// Distance from the top to the highest set bit.
pub fn find_one_rev(binary: &BinaryBase) -> (r: Option<u64>)
    requires
        binary.wf(),
    ensures
        match r {
            Some(d) => d < binary.bits().len() && from_top(binary.bits(), d as int) && forall|j: int|
                0 <= j < d ==> !from_top(binary.bits(), j),
            None => forall|j: int| 0 <= j < binary.bits().len() ==> !binary.bits()[j],
        },
{
    find_value_rev(binary, true)
}

/// Distance from the top to the highest clear bit.
pub fn find_zero_rev(binary: &BinaryBase) -> (r: Option<u64>)
    requires
        binary.wf(),
    ensures
        match r {
            Some(d) => d < binary.bits().len() && !from_top(binary.bits(), d as int) && forall|j: int|
                0 <= j < d ==> from_top(binary.bits(), j),
            None => forall|j: int| 0 <= j < binary.bits().len() ==> binary.bits()[j],
        },
{
    find_value_rev(binary, false)
}

/// Number of clear bits below the lowest set bit (all of them if none).
pub fn trailing_zeros(binary: &BinaryBase) -> (r: u64)
    requires
        binary.wf(),
    ensures
        r <= binary.bits().len(),
        forall|j: int| 0 <= j < r ==> !binary.bits()[j],
        r < binary.bits().len() ==> binary.bits()[r as int],
{
    match find_one(binary) {
        Some(i) => i,
        None => binary.len(),
    }
}

/// Number of clear bits above the highest set bit (all of them if none).
pub fn leading_zeros(binary: &BinaryBase) -> (r: u64)
    requires
        binary.wf(),
    ensures
        r <= binary.bits().len(),
        forall|j: int| 0 <= j < r ==> !from_top(binary.bits(), j),
        r < binary.bits().len() ==> from_top(binary.bits(), r as int),
{
    match find_one_rev(binary) {
        Some(i) => i,
        None => binary.len(),
    }
}

/// Number of set bits below the lowest clear bit (all of them if none).
pub fn trailing_ones(binary: &BinaryBase) -> (r: u64)
    requires
        binary.wf(),
    ensures
        r <= binary.bits().len(),
        forall|j: int| 0 <= j < r ==> binary.bits()[j],
        r < binary.bits().len() ==> !binary.bits()[r as int],
{
    match find_zero(binary) {
        Some(i) => i,
        None => binary.len(),
    }
}

/// Number of set bits above the highest clear bit (all of them if none).
pub fn leading_ones(binary: &BinaryBase) -> (r: u64)
    requires
        binary.wf(),
    ensures
        r <= binary.bits().len(),
        forall|j: int| 0 <= j < r ==> from_top(binary.bits(), j),
        r < binary.bits().len() ==> !from_top(binary.bits(), r as int),
{
    match find_zero_rev(binary) {
        Some(i) => i,
        None => binary.len(),
    }
}

/// Positions of all set bits, lowest first.
pub fn find_all_ones(binary: &BinaryBase) -> (r: Vec<u64>)
    requires
        binary.wf(),
    ensures
        r@ == positions(binary.bits(), true),
{
    find_all_value(binary, true)
}

/// Positions of all clear bits, lowest first.
pub fn find_all_zeros(binary: &BinaryBase) -> (r: Vec<u64>)
    requires
        binary.wf(),
    ensures
        r@ == positions(binary.bits(), false),
{
    find_all_value(binary, false)
}

fn find_all_value(a: &BinaryBase, value: bool) -> (r: Vec<u64>)
    requires
        a.wf(),
    ensures
        r@ == positions(a.bits(), value),
{
    let n = a.len();
    let mut out: Vec<u64> = Vec::new();
    let mut i: u64 = 0;
    while i < n
        invariant
            n == a.bits().len(),
            i <= n,
            out@ == positions(a.bits().subrange(0, i as int), value),
        decreases n - i,
    {
        proof {
            assert(a.bits().subrange(0, i + 1).drop_last() =~= a.bits().subrange(0, i as int));
        }
        if store_get(&a.data, i) == value {
            out.push(i);
        }
        i = i + 1;
    }
    proof {
        assert(a.bits().subrange(0, n as int) =~= a.bits());
    }
    out
}

/// Whether `pattern` occurs in `a` at `i`.
fn matches_at(a: &BinaryBase, pattern: &BinaryBase, i: u64) -> (r: bool)
    requires
        i + pattern.bits().len() <= a.bits().len(),
        a.wf(),
    ensures
        r == occurs_at(a.bits(), pattern.bits(), i as int),
{
    let m = pattern.len();
    let mut k: u64 = 0;
    while k < m
        invariant
            m == pattern.bits().len(),
            i + m <= a.bits().len() <= MAX_LEN,
            k <= m,
            forall|j: int| 0 <= j < k ==> a.bits()[i + j] == pattern.bits()[j],
        decreases m - k,
    {
        if store_get(&a.data, i + k) != store_get(&pattern.data, k) {
            proof {
                assert(a.bits().subrange(i as int, i + m)[k as int] != pattern.bits()[k as int]);
            }
            return false;
        }
        k = k + 1;
    }
    proof {
        assert(a.bits().subrange(i as int, i + m) =~= pattern.bits());
    }
    true
}

/// Lowest position where `sub` occurs. Fails with `EmptyPattern` on an
/// empty pattern.
pub fn find(binary: &BinaryBase, sub: &BinaryBase) -> (r: Result<Option<u64>, BinaryError>)
    requires
        binary.wf(),
        sub.wf(),
    ensures
        sub.bits().len() == 0 <==> r is Err,
        r is Err ==> r->Err_0 == BinaryError::EmptyPattern,
        r is Ok ==> match r->Ok_0 {
            Some(i) => occurs_at(binary.bits(), sub.bits(), i as int) && forall|j: int|
                0 <= j < i ==> !occurs_at(binary.bits(), sub.bits(), j),
            None => forall|j: int| !occurs_at(binary.bits(), sub.bits(), j),
        },
{
    let m = sub.len();
    if m == 0 {
        return Err(BinaryError::EmptyPattern);
    }
    let n = binary.len();
    if m > n {
        return Ok(None);
    }
    let mut i: u64 = 0;
    while i + m <= n
        invariant
            m == sub.bits().len() > 0,
            n == binary.bits().len() <= MAX_LEN,
            m <= n,
            i <= n - m + 1,
            forall|j: int| 0 <= j < i ==> !occurs_at(binary.bits(), sub.bits(), j),
        decreases n - i,
    {
        if matches_at(binary, sub, i) {
            return Ok(Some(i));
        }
        i = i + 1;
    }
    Ok(None)
}

/// Every position where `sub` occurs, overlapping ones included, lowest
/// first. Fails with `EmptyPattern` on an empty pattern.
pub fn find_all(binary: &BinaryBase, sub: &BinaryBase) -> (r: Result<Vec<u64>, BinaryError>)
    requires
        binary.wf(),
        sub.wf(),
    ensures
        sub.bits().len() == 0 <==> r is Err,
        r is Err ==> r->Err_0 == BinaryError::EmptyPattern,
        r is Ok ==> r->Ok_0@ == occurrences(binary.bits(), sub.bits(), binary.bits().len() as int),
{
    let m = sub.len();
    if m == 0 {
        return Err(BinaryError::EmptyPattern);
    }
    let n = binary.len();
    let mut out: Vec<u64> = Vec::new();
    let mut i: u64 = 0;
    while i < n
        invariant
            m == sub.bits().len() > 0,
            m <= MAX_LEN,
            n == binary.bits().len() <= MAX_LEN,
            i <= n,
            out@ == occurrences(binary.bits(), sub.bits(), i as int),
        decreases n - i,
    {
        if i + m <= n && matches_at(binary, sub, i) {
            out.push(i);
        }
        i = i + 1;
    }
    Ok(out)
}

/// Number of positions where the two differ, each read as zero beyond its
/// length. Fails with `SignMismatch` on differing sign modes.
pub fn hamming_distance(a: &BinaryBase, b: &BinaryBase) -> (r: Result<u64, BinaryError>)
    requires
        a.wf(),
        b.wf(),
    ensures
        r is Err <==> a.sign_behavior != b.sign_behavior,
        r is Err ==> r->Err_0 == BinaryError::SignMismatch,
        r is Ok ==> r->Ok_0 == count_spec(
            Seq::new(
                crate::arith::max_len(a.bits().len(), b.bits().len()),
                |k: int| crate::bitwise_map::lane_bit(*a, k) != crate::bitwise_map::lane_bit(*b, k),
            ),
            true,
        ),
{
    if a.sign_behavior != b.sign_behavior {
        return Err(BinaryError::SignMismatch);
    }
    let la = a.len();
    let lb = b.len();
    let n = if la >= lb { la } else { lb };
    let ghost d = Seq::new(
        n as nat,
        |k: int| crate::bitwise_map::lane_bit(*a, k) != crate::bitwise_map::lane_bit(*b, k),
    );
    let mut c: u64 = 0;
    let mut i: u64 = 0;
    while i < n
        invariant
            la == a.bits().len(),
            lb == b.bits().len(),
            n <= MAX_LEN,
            d.len() == n,
            d == Seq::new(
                n as nat,
                |k: int| crate::bitwise_map::lane_bit(*a, k) != crate::bitwise_map::lane_bit(*b, k),
            ),
            i <= n,
            c <= i,
            c == count_spec(d.subrange(0, i as int), true),
        decreases n - i,
    {
        let x = if i < la { store_get(&a.data, i) } else { false };
        let y = if i < lb { store_get(&b.data, i) } else { false };
        proof {
            assert(d.subrange(0, i + 1).drop_last() =~= d.subrange(0, i as int));
        }
        if x != y {
            c = c + 1;
        }
        i = i + 1;
    }
    proof {
        assert(d.subrange(0, n as int) =~= d);
    }
    Ok(c)
}

/// Same length and same bits; sign modes are not compared.
pub fn equal_cmp(a: &BinaryBase, b: &BinaryBase) -> (r: bool)
    ensures
        r == (a.bits() == b.bits()),
{
    let n = a.len();
    if n != b.len() {
        return false;
    }
    let mut i: u64 = 0;
    while i < n
        invariant
            n == a.bits().len() == b.bits().len(),
            i <= n,
            forall|j: int| 0 <= j < i ==> a.bits()[j] == b.bits()[j],
        decreases n - i,
    {
        if store_get(&a.data, i) != store_get(&b.data, i) {
            return false;
        }
        i = i + 1;
    }
    proof {
        assert(a.bits() =~= b.bits());
    }
    true
}

} // verus!
