use vstd::prelude::*;
use rayon::iter::{IntoParallelIterator, ParallelIterator};

verus! {

/// The number after `x` in the Collatz sequence.
pub open spec fn collatz_next(x: nat) -> nat {
    if x % 2 == 0 {
        x / 2
    } else {
        3 * x + 1
    }
}

/// The number `k` places after `x` in the Collatz sequence.
pub open spec fn collatz_iter(x: nat, k: nat) -> nat
    decreases k,
{
    if k == 0 {
        x
    } else {
        collatz_next(collatz_iter(x, (k - 1) as nat))
    }
}

/// The successor of `x` can be computed in a `u64`.
pub open spec fn next_fits(x: nat) -> bool {
    x % 2 == 0 || 3 * x + 1 <= u64::MAX
}

/// The sequence from `x` reaches 1 for the first time after `k` steps.
pub open spec fn reaches_one_in(x: nat, k: nat) -> bool {
    &&& collatz_iter(x, k) == 1
    &&& forall|j: nat| j < k ==> collatz_iter(x, j) != 1
}

/// The sequence from `x` reaches 1 within `u64::MAX` steps, and every number
/// before that has a successor that fits in a `u64`.
pub open spec fn steps_computable(x: nat) -> bool {
    exists|k: nat|
        k <= u64::MAX && collatz_iter(x, k) == 1 && forall|j: nat|
            j < k ==> next_fits(#[trigger] collatz_iter(x, j))
}

/// How many steps the sequence from `x` takes to reach 1.
pub open spec fn steps_of(x: nat) -> nat {
    choose|k: nat| reaches_one_in(x, k)
}

/// The sum of `steps_of` over `[start, end]`.
pub open spec fn steps_total(start: nat, end: int) -> nat
    decreases end + 1 - start,
{
    if end < start {
        0
    } else {
        steps_total(start, end - 1) + steps_of(end as nat)
    }
}

proof fn lemma_reaches_one_unique(x: nat, k1: nat, k2: nat)
    requires
        reaches_one_in(x, k1),
        reaches_one_in(x, k2),
    ensures
        k1 == k2,
{
    if k1 < k2 {
        assert(collatz_iter(x, k1) != 1);
    } else if k2 < k1 {
        assert(collatz_iter(x, k2) != 1);
    }
}

proof fn lemma_steps_total_monotone(start: nat, i: int, end: int)
    requires
        i <= end,
    ensures
        steps_total(start, i) <= steps_total(start, end),
    decreases end - i,
{
    if i < end {
        lemma_steps_total_monotone(start, i, end - 1);
    }
}

/// The number after `x` in the Collatz sequence: `x / 2` for an even `x`,
/// `3x + 1` for an odd one.
pub fn collatz(x: u64) -> (r: u64)
    requires
        next_fits(x as nat),
    ensures
        r == collatz_next(x as nat),
{
    if x % 2 == 0 {
        return x / 2;
    }
    3 * x + 1
}

/// How many steps the Collatz sequence from `x` takes to reach 1.
pub fn steps(x: u64) -> (r: u64)
    requires
        steps_computable(x as nat),
    ensures
        reaches_one_in(x as nat, r as nat),
        r == steps_of(x as nat),
{
    let ghost k0: nat = choose|k: nat|
        k <= u64::MAX && collatz_iter(x as nat, k) == 1 && forall|j: nat|
            j < k ==> next_fits(#[trigger] collatz_iter(x as nat, j));
    let mut count: u64 = 0;
    let mut n: u64 = x;
    while n != 1
        invariant
            n == collatz_iter(x as nat, count as nat),
            count <= k0 <= u64::MAX,
            collatz_iter(x as nat, k0) == 1,
            forall|j: nat| j < k0 ==> next_fits(#[trigger] collatz_iter(x as nat, j)),
            forall|j: nat| j < count ==> collatz_iter(x as nat, j) != 1,
        decreases k0 - count,
    {
        n = collatz(n);
        count += 1;
    }
    proof {
        lemma_reaches_one_unique(x as nat, count as nat, steps_of(x as nat));
    }
    count
}

/// The sum of `steps` over every number from `start` to `end`, both included.
pub fn steps_sum(start: u64, end: u64) -> (r: u64)
    requires
        start > 0,
        end > start,
        forall|x: nat| start <= x <= end ==> steps_computable(x),
        steps_total(start as nat, end as int) <= u64::MAX,
    ensures
        r == steps_total(start as nat, end as int),
{
    let mut sum: u64 = 0;
    let mut i: u64 = start;
    while i < end
        invariant
            start <= i <= end,
            sum == steps_total(start as nat, i - 1),
            forall|x: nat| start <= x <= end ==> steps_computable(x),
            steps_total(start as nat, end as int) <= u64::MAX,
        decreases end - i,
    {
        proof {
            lemma_steps_total_monotone(start as nat, i as int, end as int);
        }
        sum = sum + steps(i);
        i += 1;
    }
    proof {
        assert(steps_computable(end as nat));
    }
    sum + steps(end)
}

/// Relies on rayon: `into_par_iter` on `start..=end` yields each number of the
/// range once, `map` applies `steps` to each, and `sum` adds the results.
#[verifier::external_body]
fn par_sum_of_steps(start: u64, end: u64) -> (r: u64)
    requires
        start <= end,
        forall|x: nat| start <= x <= end ==> steps_computable(x),
        steps_total(start as nat, end as int) <= u64::MAX,
    ensures
        r == steps_total(start as nat, end as int),
{
    (start..=end).into_par_iter().map(steps).sum()
}

/// The same sum as `steps_sum`, computed in parallel.
pub fn par_steps_sum(start: u64, end: u64) -> (r: u64)
    requires
        start > 0,
        end > start,
        forall|x: nat| start <= x <= end ==> steps_computable(x),
        steps_total(start as nat, end as int) <= u64::MAX,
    ensures
        r == steps_total(start as nat, end as int),
{
    par_sum_of_steps(start, end)
}

} // verus!
