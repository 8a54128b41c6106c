//! Three-way comparison of integers.

use std::cmp::Ordering;
use vstd::prelude::*;

verus! {

/// How `n` stands to `m`.
pub open spec fn ordering_of(n: i32, m: i32) -> Ordering {
    if n < m {
        Ordering::Less
    } else if n > m {
        Ordering::Greater
    } else {
        Ordering::Equal
    }
}

/// Compares `n` with `m`.
pub fn compare(n: i32, m: i32) -> (o: Ordering)
    ensures
        o == ordering_of(n, m),
        o == Ordering::Less <==> n < m,
        o == Ordering::Equal <==> n == m,
        o == Ordering::Greater <==> n > m,
{
    if n < m {
        Ordering::Less
    } else if n > m {
        Ordering::Greater
    } else {
        Ordering::Equal
    }
}

/// Swapping the arguments of [`compare`] turns `Less` into `Greater` and
/// back, and keeps `Equal`.
pub proof fn lemma_ordering_of_swapped(n: i32, m: i32)
    ensures
        ordering_of(n, m) == Ordering::Less <==> ordering_of(m, n) == Ordering::Greater,
        ordering_of(n, m) == Ordering::Equal <==> ordering_of(m, n) == Ordering::Equal,
        ordering_of(n, m) == Ordering::Greater <==> ordering_of(m, n) == Ordering::Less,
{
}

} // verus!
