//! Figures over the measured durations of a run of operations, in
//! microseconds.

use vstd::prelude::*;

verus! {

/// The sum of the durations.
pub open spec fn sum(times: Seq<u64>) -> nat
    decreases times.len(),
{
    if times.len() == 0 {
        0
    } else {
        sum(times.drop_last()) + times.last() as nat
    }
}

/// The durations are in ascending order.
pub open spec fn ascending(times: Seq<u64>) -> bool {
    forall|i: int, j: int| 0 <= i <= j < times.len() ==> times[i] <= times[j]
}

/// What is reported of a run: the first and the last duration, which are the
/// shortest and the longest when the durations are in ascending order, their
/// sum, and their mean rounded down.
#[derive(Clone, Copy, Debug, PartialEq, Eq, Structural)]
pub struct Summary {
    pub min: u64,
    pub max: u64,
    pub avg: u64,
    pub total: u64,
}

/// The sum of the first `n` durations is no more than the sum of all.
proof fn lemma_sum_of_prefix(times: Seq<u64>, n: int)
    requires
        0 <= n <= times.len(),
    ensures
        sum(times.take(n)) <= sum(times),
    decreases times.len(),
{
    if n == times.len() {
        assert(times.take(n) =~= times);
    } else {
        lemma_sum_of_prefix(times.drop_last(), n);
        assert(times.drop_last().take(n) =~= times.take(n));
    }
}

/// Adds up the durations. The result is `None` exactly when the sum does not
/// fit in 64 bits.
pub fn total(times: &[u64]) -> (total: Option<u64>)
    ensures
        match total {
            Some(t) => t == sum(times@),
            None => sum(times@) > u64::MAX,
        },
{
    let mut acc: u64 = 0;
    let mut i: usize = 0;
    while i < times.len()
        invariant
            i <= times.len(),
            acc == sum(times@.take(i as int)),
        decreases times.len() - i,
    {
        proof {
            assert(times@.take(i + 1).drop_last() =~= times@.take(i as int));
            lemma_sum_of_prefix(times@, i + 1);
        }
        match acc.checked_add(times[i]) {
            Some(next) => {
                acc = next;
            },
            None => {
                return None;
            },
        }
        i += 1;
    }
    assert(times@.take(times.len() as int) =~= times@);
    Some(acc)
}

/// Sums up a run. There is a summary exactly when there is at least one
/// duration and the sum of all fits in 64 bits.
pub fn summarize(times: &[u64]) -> (summary: Option<Summary>)
    ensures
        summary is Some <==> times@.len() > 0 && sum(times@) <= u64::MAX,
        summary matches Some(s) ==> s.min == times@[0] && s.max == times@.last() && s.total
            == sum(times@) && s.avg == sum(times@) / times@.len(),
{
    if times.len() == 0 {
        return None;
    }
    match total(times) {
        Some(all) => Some(
            Summary {
                min: times[0],
                max: times[times.len() - 1],
                avg: all / (times.len() as u64),
                total: all,
            },
        ),
        None => None,
    }
}

/// Of durations in ascending order, the first is the shortest and the last
/// the longest, and the mean lies between them.
pub proof fn lemma_summary_of_ascending(times: Seq<u64>, i: int)
    requires
        ascending(times),
        0 <= i < times.len(),
    ensures
        times[0] <= times[i] <= times.last(),
        times[0] * times.len() <= sum(times) <= times.last() * times.len(),
        times[0] <= sum(times) / times.len() <= times.last(),
{
    lemma_sum_bounds(times, times[0], times.last());
    let n = times.len() as int;
    let low = times[0] as int;
    let high = times.last() as int;
    let s = sum(times) as int;
    assert(low <= s / n <= high) by (nonlinear_arith)
        requires
            n > 0,
            low * n <= s,
            s <= high * n,
    ;
}

/// The sum of durations that all lie between `low` and `high` lies between
/// `low` and `high` times their number.
proof fn lemma_sum_bounds(times: Seq<u64>, low: u64, high: u64)
    requires
        forall|i: int| 0 <= i < times.len() ==> low <= #[trigger] times[i] && times[i] <= high,
    ensures
        low * times.len() <= sum(times) <= high * times.len(),
    decreases times.len(),
{
    if times.len() > 0 {
        let front = times.drop_last();
        assert forall|i: int| 0 <= i < front.len() implies low <= #[trigger] front[i] && front[i]
            <= high by {
            assert(front[i] == times[i]);
        }
        lemma_sum_bounds(front, low, high);
        let n = front.len() as int;
        assert(low * (n + 1) == low * n + low) by (nonlinear_arith);
        assert(high * (n + 1) == high * n + high) by (nonlinear_arith);
    } else {
        assert(low * 0 == 0) by (nonlinear_arith);
        assert(high * 0 == 0) by (nonlinear_arith);
    }
}

} // verus!
