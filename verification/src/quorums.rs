//! Quorum sizes for a replication group of `n` replicas.
//!
//! The classic quorum is a majority: `Q = n/2 + 1`.
//! The fast quorum uses the formula `F = n - (n-1)/2` (all divisions floor);
//! for `n = 3` this gives `Q = 2, F = 2`, and for `n = 5` it gives
//! `Q = 3, F = 3`.

use vstd::prelude::*;

verus! {

/// The classic (majority) quorum for a group of `n` replicas: `n/2 + 1`.
pub fn quorum(n: i64) -> (q: i64)
    requires
        1 <= n,
    ensures
        q == n / 2 + 1,
        n / 2 < q <= n,
{
    n / 2 + 1
}

/// The fast-path quorum for a group of `n` replicas: `n - (n-1)/2`.
pub fn fast_quorum(n: i64) -> (f: i64)
    requires
        1 <= n,
    ensures
        f == n - (n - 1) / 2,
        n / 2 < f <= n,
{
    n - (n - 1) / 2
}

} // verus!
