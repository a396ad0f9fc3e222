//! Whole-value reductions: whether no, all, or some bits are set.

use crate::binary::BinaryBase;
use crate::store::store_get;
use vstd::prelude::*;

verus! {

/// Reductions over a sequence of bits.
pub trait ReduceOps {
    /// The bits reduced over.
    spec fn reduced(&self) -> Seq<bool>;

    /// No bit is set.
    fn none(&self) -> (r: bool)
        ensures
            r == forall|k: int| 0 <= k < self.reduced().len() ==> !#[trigger] self.reduced()[k],
    ;

    /// Every bit is set.
    fn all(&self) -> (r: bool)
        ensures
            r == forall|k: int| 0 <= k < self.reduced().len() ==> #[trigger] self.reduced()[k],
    ;

    /// Some bit is clear.
    fn any_false(&self) -> (r: bool)
        ensures
            r == exists|k: int| 0 <= k < self.reduced().len() && !#[trigger] self.reduced()[k],
    ;

    /// Some bit is set.
    fn any(&self) -> (r: bool)
        ensures
            r == exists|k: int| 0 <= k < self.reduced().len() && #[trigger] self.reduced()[k],
    {
        !self.none()
    }
}

/// Whether every bit of `a` equals `value`.
fn all_equal(a: &BinaryBase, value: bool) -> (r: bool)
    ensures
        r == forall|k: int| 0 <= k < a.bits().len() ==> #[trigger] a.bits()[k] == value,
{
    let n = a.len();
    let mut i: u64 = 0;
    while i < n
        invariant
            n == a.bits().len(),
            i <= n,
            forall|k: int| 0 <= k < i ==> #[trigger] a.bits()[k] == value,
        decreases n - i,
    {
        if store_get(&a.data, i) != value {
            return false;
        }
        i = i + 1;
    }
    true
}

impl ReduceOps for BinaryBase {
    open spec fn reduced(&self) -> Seq<bool> {
        self.bits()
    }

    fn none(&self) -> (r: bool) {
        let r = all_equal(self, false);
        proof {
            assert(self.reduced() == self.bits());
            assert(r == forall|k: int| 0 <= k < self.bits().len() ==> !#[trigger] self.bits()[k]);
        }
        r
    }

    fn all(&self) -> (r: bool) {
        let r = all_equal(self, true);
        proof {
            assert(self.reduced() == self.bits());
            assert(r == forall|k: int| 0 <= k < self.bits().len() ==> #[trigger] self.bits()[k]);
        }
        r
    }

    fn any_false(&self) -> (r: bool) {
        let r = !all_equal(self, true);
        proof {
            assert(self.reduced() == self.bits());
            assert(r == exists|k: int| 0 <= k < self.bits().len() && !#[trigger] self.bits()[k]);
        }
        r
    }
}

} // verus!
