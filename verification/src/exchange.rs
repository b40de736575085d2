//! Framing of the variable-length exchange of trees between processes:
//! where each process's bytes lie in the buffer that all are gathered in.

use vstd::prelude::*;
use vstd::slice::slice_subrange;

verus! {

/// Sum of the first `i` counts.
pub open spec fn prefix_sum(counts: Seq<i32>, i: int) -> int
    decreases i,
{
    if i <= 0 {
        0
    } else {
        prefix_sum(counts, i - 1) + counts[i - 1]
    }
}

/// No count is negative.
pub open spec fn none_negative(counts: Seq<i32>) -> bool {
    forall|i: int| 0 <= i < counts.len() ==> #[trigger] counts[i] >= 0
}

/// Prefix sums of counts that are not negative grow with the index.
pub proof fn lemma_prefix_sum_grows(counts: Seq<i32>, i: int, j: int)
    requires
        none_negative(counts),
        0 <= i <= j <= counts.len(),
    ensures
        0 <= prefix_sum(counts, i) <= prefix_sum(counts, j),
    decreases j,
{
    if i < j {
        lemma_prefix_sum_grows(counts, i, j - 1);
        assert(counts[j - 1] >= 0);
    } else if i > 0 {
        lemma_prefix_sum_grows(counts, i - 1, i - 1);
        assert(counts[i - 1] >= 0);
    }
}

/// Why the lengths that were gathered cannot frame an exchange.
#[derive(Clone, Copy, Debug, PartialEq, Eq, Structural)]
pub enum ExchangeError {
    /// A process reported a negative length.
    NegativeLength,
    /// The lengths add up to more than `i32::MAX`, the largest count that
    /// the transport takes.
    TooLong,
}

/// The length of a message as a count for the transport, or `None` where
/// it is more than the transport takes.
pub fn message_len(len: usize) -> (r: Option<i32>)
    ensures
        r == if len <= i32::MAX {
            Some(len as i32)
        } else {
            None::<i32>
        },
{
    if len <= 2147483647 {
        Some(len as i32)
    } else {
        None
    }
}

/// The length that each process wrote and the place of each in the
/// gathered buffer: process `i` wrote `counts[i]` bytes, which lie from
/// `displs[i]` on, one process behind the other in the order of ranks.
pub struct ExchangePlan {
    counts: Vec<i32>,
    displs: Vec<i32>,
    total: usize,
}

impl ExchangePlan {
    /// The length that each process wrote.
    pub closed spec fn counts(&self) -> Seq<i32> {
        self.counts@
    }

    /// Where the bytes of each process start.
    pub closed spec fn displs(&self) -> Seq<i32> {
        self.displs@
    }

    /// Length of the gathered buffer.
    pub closed spec fn total(&self) -> int {
        self.total as int
    }

    /// The places are the prefix sums of the lengths.
    pub open spec fn wf(&self) -> bool {
        &&& none_negative(self.counts())
        &&& self.displs().len() == self.counts().len()
        &&& forall|i: int|
            0 <= i < self.counts().len() ==> #[trigger] self.displs()[i] == prefix_sum(
                self.counts(),
                i,
            )
        &&& self.total() == prefix_sum(self.counts(), self.counts().len() as int)
        &&& self.total() <= i32::MAX
    }

    /// Lays out the gathered buffer for the lengths that the processes
    /// reported.
    pub fn new(counts: Vec<i32>) -> (r: Result<ExchangePlan, ExchangeError>)
        ensures
            match r {
                Ok(plan) => plan.wf() && plan.counts() == counts@,
                Err(ExchangeError::NegativeLength) => !none_negative(counts@),
                Err(ExchangeError::TooLong) => none_negative(counts@) && prefix_sum(
                    counts@,
                    counts@.len() as int,
                ) > i32::MAX,
            },
    {
        let n: usize = counts.len();
        let mut i: usize = 0;
        while i < n
            invariant
                n == counts.len(),
                0 <= i <= n,
                forall|k: int| 0 <= k < i ==> #[trigger] counts@[k] >= 0,
            decreases n - i,
        {
            if counts[i] < 0 {
                return Err(ExchangeError::NegativeLength);
            }
            i += 1;
        }
        let mut displs: Vec<i32> = Vec::new();
        let mut acc: i32 = 0;
        let mut j: usize = 0;
        while j < n
            invariant
                n == counts.len(),
                0 <= j <= n,
                none_negative(counts@),
                displs@.len() == j,
                forall|k: int| 0 <= k < j ==> #[trigger] displs@[k] == prefix_sum(counts@, k),
                acc == prefix_sum(counts@, j as int),
                acc >= 0,
            decreases n - j,
        {
            let c: i32 = counts[j];
            if c > 2147483647 - acc {
                proof {
                    lemma_prefix_sum_grows(counts@, j + 1, n as int);
                }
                return Err(ExchangeError::TooLong);
            }
            displs.push(acc);
            acc = acc + c;
            j += 1;
        }
        Ok(ExchangePlan { counts, displs, total: acc as usize })
    }

    /// Number of processes.
    pub fn len(&self) -> (n: usize)
        ensures
            n == self.counts().len(),
    {
        self.counts.len()
    }

    /// The length that each process wrote: the counts to hand to the
    /// transport.
    pub fn counts_ref(&self) -> (c: &Vec<i32>)
        ensures
            c@ == self.counts(),
    {
        &self.counts
    }

    /// Where the bytes of each process start: the displacements to hand to
    /// the transport.
    pub fn displs_ref(&self) -> (d: &Vec<i32>)
        ensures
            d@ == self.displs(),
    {
        &self.displs
    }

    /// Length of the gathered buffer.
    pub fn total_len(&self) -> (t: usize)
        ensures
            t == self.total(),
    {
        self.total
    }

    /// Where the bytes of process `i` start and end in the gathered
    /// buffer: they end where those of the next process start, and those
    /// of the last process end with the buffer.
    pub fn bounds(&self, i: usize) -> (r: (usize, usize))
        requires
            self.wf(),
            i < self.counts().len(),
        ensures
            r.0 == prefix_sum(self.counts(), i as int),
            r.1 == prefix_sum(self.counts(), i + 1),
            r.0 <= r.1 <= self.total(),
    {
        proof {
            lemma_prefix_sum_grows(self.counts(), i as int, i + 1);
            lemma_prefix_sum_grows(self.counts(), i + 1, self.counts().len() as int);
        }
        let start: usize = self.displs[i] as usize;
        let end: usize = if i == self.displs.len() - 1 {
            self.total
        } else {
            self.displs[i + 1] as usize
        };
        (start, end)
    }

    /// The bytes of process `i` in the gathered buffer.
    pub fn peer_bytes<'a>(&self, buffer: &'a [u8], i: usize) -> (bytes: &'a [u8])
        requires
            self.wf(),
            i < self.counts().len(),
            buffer@.len() == self.total(),
        ensures
            bytes@ == buffer@.subrange(
                prefix_sum(self.counts(), i as int),
                prefix_sum(self.counts(), i + 1),
            ),
    {
        let (start, end) = self.bounds(i);
        slice_subrange(buffer, start, end)
    }
}

} // verus!
