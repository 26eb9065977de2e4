//! The ticker: a stream that yields the tick counts `0, 1, …, limit - 1`,
//! one per interval.
use vstd::prelude::*;
use std::time::Duration;

verus! {

/// Emits a tick count every `interval`, `limit` times.
pub struct Ticker {
    interval: Duration,
    limit: usize,
}

impl Ticker {
    pub closed spec fn spec_interval(&self) -> Duration {
        self.interval
    }

    pub closed spec fn spec_limit(&self) -> usize {
        self.limit
    }

    pub fn new(interval: Duration, limit: usize) -> (ticker: Self)
        ensures
            ticker.spec_interval() == interval,
            ticker.spec_limit() == limit,
    {
        Ticker { interval, limit }
    }

    /// The time between ticks.
    pub fn interval(&self) -> (interval: Duration)
        ensures
            interval == self.spec_interval(),
    {
        self.interval
    }

    /// How many ticks the stream yields.
    pub fn limit(&self) -> (limit: usize)
        ensures
            limit == self.spec_limit(),
    {
        self.limit
    }

    /// The tick after `count` ticks: `count` itself (to be yielded after one
    /// interval, the stream then standing at `count + 1`) while `count` is below
    /// the limit; nothing once the limit is reached, which ends the stream.
    pub fn tick(&self, count: usize) -> (next: Option<usize>)
        ensures
            next == (if count < self.spec_limit() {
                Some(count)
            } else {
                None::<usize>
            }),
    {
        if count >= self.limit {
            None
        } else {
            Some(count)
        }
    }
}

/// The counts a ticker yields when started at 0: `0, 1, …, limit - 1`.
pub open spec fn ticks_from(limit: usize, count: nat) -> Seq<usize>
    decreases limit - count,
{
    if count >= limit {
        seq![]
    } else {
        seq![count as usize] + ticks_from(limit, count + 1)
    }
}

/// Starting at 0 and following `tick`, a ticker yields exactly `limit` counts,
/// the `i`-th of them being `i`.
pub proof fn lemma_ticks_count_up(limit: usize, count: nat)
    requires
        count <= limit,
    ensures
        ticks_from(limit, count).len() == limit - count,
        forall|i: int| 0 <= i < limit - count ==> #[trigger] ticks_from(limit, count)[i] == count + i,
    decreases limit - count,
{
    if count < limit {
        lemma_ticks_count_up(limit, count + 1);
        assert forall|i: int| 0 <= i < limit - count implies #[trigger] ticks_from(limit, count)[i] == count + i by {
            if i > 0 {
                assert(ticks_from(limit, count)[i] == ticks_from(limit, count + 1)[i - 1]);
            }
        }
    }
}

} // verus!
