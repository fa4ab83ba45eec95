//! The leaderboard query.

use vstd::prelude::*;

verus! {

#[derive(Debug, Clone)]
pub struct LeaderboardQuery {
    pub map_name: Option<String>,
    pub limit: i64,
}

/// The number of entries asked for where a query names none.
pub fn default_limit() -> (limit: i64)
    ensures
        limit == 100,
{
    100
}

/// The number of entries a query is answered with: what it asks for, but at
/// least 1 and at most 1000.
pub open spec fn clamped(limit: i64) -> i64 {
    if limit > 1000 {
        1000
    } else if limit < 1 {
        1
    } else {
        limit
    }
}

pub fn clamp_limit(limit: i64) -> (clamped_limit: i64)
    ensures
        clamped_limit == clamped(limit),
        1 <= clamped_limit <= 1000,
{
    if limit > 1000 {
        1000
    } else if limit < 1 {
        1
    } else {
        limit
    }
}

} // verus!
