//! Averages of the durations that the stages of a run took.

use vstd::prelude::*;

verus! {

/// Sum of the first `i` durations.
pub open spec fn sum_to(durations: Seq<u64>, i: int) -> int
    decreases i,
{
    if i <= 0 {
        0
    } else {
        sum_to(durations, i - 1) + durations[i - 1]
    }
}

/// The mean of the durations, in the unit they are given in, rounded down.
/// `None` where there is no duration or the sum is more than `u64::MAX`.
pub fn avg_duration(durations: &Vec<u64>) -> (r: Option<u64>)
    ensures
        r == if durations@.len() > 0 && sum_to(durations@, durations@.len() as int) <= u64::MAX {
            Some((sum_to(durations@, durations@.len() as int) / (durations@.len() as int)) as u64)
        } else {
            None::<u64>
        },
{
    let n: usize = durations.len();
    if n == 0 {
        return None;
    }
    let mut sum: u64 = 0;
    let mut i: usize = 0;
    while i < n
        invariant
            n == durations.len(),
            0 <= i <= n,
            sum == sum_to(durations@, i as int),
        decreases n - i,
    {
        let d: u64 = durations[i];
        if d > u64::MAX - sum {
            proof {
                lemma_sum_grows(durations@, i + 1, n as int);
            }
            return None;
        }
        sum = sum + d;
        i += 1;
    }
    proof {
        vstd::arithmetic::div_mod::lemma_div_pos_is_pos(sum as int, n as int);
        vstd::arithmetic::div_mod::lemma_div_is_ordered_by_denominator(sum as int, 1, n as int);
    }
    Some(sum / (n as u64))
}

/// Sums grow with the index.
pub proof fn lemma_sum_grows(durations: Seq<u64>, i: int, j: int)
    requires
        0 <= i <= j <= durations.len(),
    ensures
        sum_to(durations, i) <= sum_to(durations, j),
    decreases j,
{
    if i < j {
        lemma_sum_grows(durations, i, j - 1);
    }
}

} // verus!
