use vstd::prelude::*;
use vstd::slice::slice_to_vec;

verus! {

/// Identifier of one stored version within the archive.
#[derive(Clone, Debug)]
pub struct BandId {
    nums: Vec<u64>,
}

impl View for BandId {
    type V = Seq<u64>;

    closed spec fn view(&self) -> Seq<u64> {
        self.nums@
    }
}

impl BandId {
    pub fn new(nums: &[u64]) -> (b: BandId)
        ensures
            b@ == nums@,
    {
        BandId { nums: slice_to_vec(nums) }
    }

    /// Whether two identifiers name the same band.
    pub fn same(&self, other: &BandId) -> (r: bool)
        ensures
            r == (self@ == other@),
    {
        if self.nums.len() != other.nums.len() {
            return false;
        }
        let n = self.nums.len();
        let mut i: usize = 0;
        while i < n
            invariant
                i <= n,
                n == self@.len(),
                n == other@.len(),
                forall|j: int| 0 <= j < i ==> self@[j] == other@[j],
            decreases n - i,
        {
            if self.nums[i] != other.nums[i] {
                return false;
            }
            i += 1;
        }
        proof {
            assert(self@ =~= other@);
        }
        true
    }
}

/// Image of a [`BandSelectionPolicy`].
pub enum BandPolicyV {
    LatestClosed,
    Specified(Seq<u64>),
}

/// Which stored version a restore reads: the most recent fully committed
/// band, or one named explicitly.
#[derive(Clone, Debug)]
pub enum BandSelectionPolicy {
    LatestClosed,
    Specified(BandId),
}

impl View for BandSelectionPolicy {
    type V = BandPolicyV;

    open spec fn view(&self) -> BandPolicyV {
        match self {
            BandSelectionPolicy::LatestClosed => BandPolicyV::LatestClosed,
            BandSelectionPolicy::Specified(id) => BandPolicyV::Specified(id@),
        }
    }
}

} // verus!
