use vstd::prelude::*;

use crate::config::{sum_percentage, valid_destinations, FeeDestination, TOTAL_BASIS_POINTS};
use crate::errors::ErrorCode;

verus! {

/// Accepts or rejects a candidate destination table.
///
/// Accepted exactly when the table is non-empty and its shares sum to 10000
/// basis points. An empty table is `Empty`; a non-empty table with any other
/// sum is `BadTotal`. Nothing else is checked here: duplicate addresses and
/// zero-percentage entries pass.
pub fn validate_destinations(destinations: &Vec<FeeDestination>) -> (r: Result<(), ErrorCode>)
    ensures
        r is Ok <==> valid_destinations(destinations@),
        r == Err::<(), ErrorCode>(ErrorCode::Empty) <==> destinations@.len() == 0,
        r == Err::<(), ErrorCode>(ErrorCode::BadTotal) <==> (destinations@.len() > 0
            && sum_percentage(destinations@) != TOTAL_BASIS_POINTS),
{
    if destinations.is_empty() {
        return Err(ErrorCode::Empty);
    }

    // The accumulator is exact: entries are at most u16::MAX and the count is
    // at most usize::MAX, so the true sum always fits in a u128.
    let mut total: u128 = 0;
    let mut i: usize = 0;
    while i < destinations.len()
        invariant
            i <= destinations@.len(),
            total == sum_percentage(destinations@.take(i as int)),
            total <= i * (u16::MAX as int),
        decreases destinations@.len() - i,
    {
        proof {
            assert(destinations@.take(i + 1).drop_last() =~= destinations@.take(i as int));
        }
        total = total + destinations[i].percentage as u128;
        i = i + 1;
    }
    proof {
        assert(destinations@.take(destinations@.len() as int) =~= destinations@);
    }

    if total == TOTAL_BASIS_POINTS as u128 {
        Ok(())
    } else {
        Err(ErrorCode::BadTotal)
    }
}

} // verus!
