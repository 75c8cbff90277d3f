use vstd::prelude::*;

verus! {

/// Aggregate counters for one copy run.  The identity value is all zero and
/// totals combine associatively, saturating at the counter width.
#[derive(Clone, Copy, PartialEq, Eq, Structural, Debug)]
pub struct CopyStats {
    pub files: u64,
    pub uncompressed_bytes: u64,
}

/// Addition clamped to the range of a `u64` counter.
pub open spec fn sat_add(a: int, b: int) -> int {
    if a + b > u64::MAX {
        u64::MAX as int
    } else {
        a + b
    }
}

impl Default for CopyStats {
    /// The identity element: no files, no bytes.
    fn default() -> (s: CopyStats)
        ensures
            s.files == 0,
            s.uncompressed_bytes == 0,
    {
        CopyStats { files: 0, uncompressed_bytes: 0 }
    }
}

impl CopyStats {
    /// Fold another operation's counters into this running total.
    pub fn add(&mut self, other: &CopyStats)
        ensures
            final(self).files == sat_add(old(self).files as int, other.files as int),
            final(self).uncompressed_bytes == sat_add(
                old(self).uncompressed_bytes as int,
                other.uncompressed_bytes as int,
            ),
    {
        self.files = sat_add_u64(self.files, other.files);
        self.uncompressed_bytes = sat_add_u64(self.uncompressed_bytes, other.uncompressed_bytes);
    }
}

/// Saturating `u64` addition.
pub fn sat_add_u64(a: u64, b: u64) -> (r: u64)
    ensures
        r as int == sat_add(a as int, b as int),
{
    if u64::MAX - a < b {
        u64::MAX
    } else {
        a + b
    }
}

/// The zero stats value is the identity of the combination.
pub proof fn lemma_sat_add_identity(a: int)
    requires
        0 <= a <= u64::MAX,
    ensures
        sat_add(a, 0) == a,
        sat_add(0, a) == a,
{
}

/// Stats combination is associative, so per-entry contributions may be
/// folded into the running total in any grouping.
pub proof fn lemma_sat_add_associative(a: int, b: int, c: int)
    requires
        0 <= a,
        0 <= b,
        0 <= c,
    ensures
        sat_add(sat_add(a, b), c) == sat_add(a, sat_add(b, c)),
{
}

} // verus!
