use vstd::prelude::*;

verus! {

/// The most destinations a single router may hold. The backing storage for a
/// router is sized for this many entries when the router is created, so the
/// bound is enforced on every create and replace rather than discovered as a
/// storage overflow later.
pub const MAX_DESTINATIONS: usize = 10;

/// The number of basis points that make up 100%.
pub const TOTAL_BASIS_POINTS: u16 = 10000;

/// An opaque 256-bit account identity supplied by the hosting environment,
/// held as four 64-bit words. The core never looks inside a handle; it only
/// compares handles for equality.
#[derive(Clone, Copy, Debug, PartialEq, Eq, Structural)]
pub struct Handle {
    pub w0: u64,
    pub w1: u64,
    pub w2: u64,
    pub w3: u64,
}

/// One entry of a destination table: where to send a share, and how large the
/// share is, in basis points.
#[derive(Clone, Copy, Debug, PartialEq, Eq, Structural)]
pub struct FeeDestination {
    pub address: Handle,
    /// Share in basis points; a committed table sums to exactly 10000.
    pub percentage: u16,
}

/// A router: one owner and the ordered destination table that distribution
/// follows. Stored tables always satisfy [`valid_destinations`] and fit in
/// [`MAX_DESTINATIONS`] entries.
pub struct Router {
    pub owner: Handle,
    pub destinations: Vec<FeeDestination>,
}

/// The exact sum of the `percentage` fields of a destination table, with no
/// wrap-around: the mathematical integer, however long the table is.
pub open spec fn sum_percentage(s: Seq<FeeDestination>) -> int
    decreases s.len(),
{
    if s.len() == 0 {
        0
    } else {
        sum_percentage(s.drop_last()) + s.last().percentage
    }
}

/// What the validator accepts: a non-empty table whose shares sum to exactly
/// 10000 basis points. Duplicate addresses and zero-percentage entries are
/// deliberately allowed.
pub open spec fn valid_destinations(s: Seq<FeeDestination>) -> bool {
    &&& s.len() > 0
    &&& sum_percentage(s) == TOTAL_BASIS_POINTS
}

/// A destination table that may be committed: valid, and small enough for the
/// storage reserved at creation time.
pub open spec fn storable_destinations(s: Seq<FeeDestination>) -> bool {
    &&& valid_destinations(s)
    &&& s.len() <= MAX_DESTINATIONS
}

/// A percentage sum is never negative.
pub proof fn lemma_sum_nonneg(s: Seq<FeeDestination>)
    ensures
        sum_percentage(s) >= 0,
    decreases s.len(),
{
    if s.len() > 0 {
        lemma_sum_nonneg(s.drop_last());
    }
}

/// No single entry exceeds the sum of the whole table; in particular, in a
/// table summing to 10000 every share is at most 10000.
pub proof fn lemma_entry_le_sum(s: Seq<FeeDestination>, i: int)
    requires
        0 <= i < s.len(),
    ensures
        s[i].percentage <= sum_percentage(s),
    decreases s.len(),
{
    lemma_sum_nonneg(s.drop_last());
    if i < s.len() - 1 {
        lemma_entry_le_sum(s.drop_last(), i);
    }
}

} // verus!
