//! How many matches an antenna may have in a minute.

use std::time::Instant;
use vstd::prelude::*;
use crate::clock::Stopwatch;

verus! {

/// The length of the window in which matches count, in nanoseconds: one minute.
pub const WINDOW_NANOS: i128 = 60_000_000_000;

/// The matches of one antenna, and the limit on them.
///
/// Times are nanoseconds on the stopwatch `clock`.
#[derive(Debug)]
pub struct RateLimitInfo {
    pub clock: Stopwatch,
    pub matches: Vec<i128>,
    pub max_per_minute: usize,
    pub last_warning_time: Option<i128>,
}

/// What a `RateLimitInfo` knows: the stopwatch that its times are counted on, the times
/// of the matches that still count, the limit, and the time of the last warning.
#[verifier::ext_equal]
pub struct Limit {
    pub clock: Stopwatch,
    pub matches: Seq<int>,
    pub max_per_minute: nat,
    pub last_warning_time: Option<int>,
}

/// Times as mathematical integers.
pub open spec fn as_ints(times: Seq<i128>) -> Seq<int> {
    times.map_values(|time: i128| time as int)
}

impl View for RateLimitInfo {
    type V = Limit;

    open spec fn view(&self) -> Limit {
        Limit {
            clock: self.clock,
            matches: as_ints(self.matches@),
            max_per_minute: self.max_per_minute as nat,
            last_warning_time: match self.last_warning_time {
                Some(time) => Some(time as int),
                None => None,
            },
        }
    }
}

/// Whether `time` is not yet a minute before `now`.
pub open spec fn is_recent(time: int, now: int) -> bool {
    time > now - WINDOW_NANOS
}

/// The times that are not yet a minute before `now`, in order.
pub open spec fn recent(times: Seq<int>, now: int) -> Seq<int> {
    times.filter(|time: int| is_recent(time, now))
}

/// A limit with no match yet, with times on `clock`.
pub open spec fn fresh_limit(clock: Stopwatch, max_per_minute: nat) -> Limit {
    Limit { clock, matches: Seq::empty(), max_per_minute, last_warning_time: None }
}

/// A request for a match, the stopwatch showing `cutoff` when old matches are dropped
/// and `stamp` when the match is recorded: the limit afterwards, and whether the
/// match is admitted.
pub open spec fn processed(limit: Limit, cutoff: int, stamp: int) -> (Limit, bool) {
    let kept = recent(limit.matches, cutoff);
    if kept.len() < limit.max_per_minute {
        (Limit { matches: kept.push(stamp), ..limit }, true)
    } else {
        (Limit { matches: kept, ..limit }, false)
    }
}

/// A refused match, the stopwatch showing `now`: the limit afterwards, and whether to
/// warn of it.
pub open spec fn warned(limit: Limit, now: int) -> (Limit, bool) {
    if limit.last_warning_time is Some && is_recent(limit.last_warning_time->0, now) {
        (limit, false)
    } else {
        (Limit { last_warning_time: Some(now), ..limit }, true)
    }
}

/// A request for a match at these readings of the clock.
pub open spec fn processed_at(limit: Limit, cutoff: Instant, stamp: Instant) -> (Limit, bool) {
    processed(limit, limit.clock.nanos_at(cutoff), limit.clock.nanos_at(stamp))
}

/// A refused match at this reading of the clock.
pub open spec fn warned_at(limit: Limit, reading: Instant) -> (Limit, bool) {
    warned(limit, limit.clock.nanos_at(reading))
}

/// Filtering makes no sequence longer.
pub proof fn lemma_recent_length(times: Seq<int>, now: int)
    ensures
        recent(times, now).len() <= times.len(),
    decreases times.len(),
{
    reveal(Seq::filter);
    if times.len() > 0 {
        lemma_recent_length(times.drop_last(), now);
    }
}

/// Whether `time` is not yet a minute before `now`.
fn within_window(time: i128, now: i128) -> (answer: bool)
    requires
        0 <= now,
    ensures
        answer == is_recent(time as int, now as int),
{
    time > now - WINDOW_NANOS
}

impl RateLimitInfo {
    /// A limit of `max_per_minute` matches, none of them used. Its times are counted from
    /// now on, whenever that is.
    pub fn new(max_per_minute: usize) -> (info: Self)
        ensures
            info@ == fresh_limit(info.clock, max_per_minute as nat),
    {
        RateLimitInfo::with_clock(Stopwatch::start(), max_per_minute)
    }

    /// A limit of `max_per_minute` matches, none of them used, with times on `clock`.
    pub fn with_clock(clock: Stopwatch, max_per_minute: usize) -> (info: Self)
        ensures
            info@ == fresh_limit(clock, max_per_minute as nat),
    {
        let info = RateLimitInfo {
            clock,
            matches: Vec::new(),
            max_per_minute,
            last_warning_time: None,
        };
        assert(info@ =~= fresh_limit(clock, max_per_minute as nat));
        info
    }

    /// Drops the matches that are a minute old or older at the time `now`.
    fn expire(&mut self, now: i128)
        requires
            0 <= now,
        ensures
            final(self)@ == (Limit {
                matches: recent(old(self)@.matches, now as int),
                ..old(self)@
            }),
    {
        let ghost times = self@.matches;
        let mut kept: Vec<i128> = Vec::new();
        assert(as_ints(kept@) =~= recent(times.take(0), now as int)) by {
            reveal(Seq::filter);
        }
        for i in 0..self.matches.len()
            invariant
                0 <= now,
                times == as_ints(self.matches@),
                as_ints(kept@) == recent(times.take(i as int), now as int),
        {
            let time: i128 = self.matches[i];
            assert(times.take(i + 1).drop_last() =~= times.take(i as int));
            reveal(Seq::filter);
            if within_window(time, now) {
                assert(as_ints(kept@.push(time)) =~= as_ints(kept@).push(time as int));
                kept.push(time);
            }
        }
        assert(times.take(self.matches.len() as int) =~= times);
        self.matches = kept;
    }

    /// Admits a match if fewer than the limit were admitted in the last minute.
    ///
    /// The clock decides which matches are a minute old. It has no say where the limit
    /// is zero or where even all remembered matches leave room.
    pub fn can_process(&mut self) -> (answer: bool)
        ensures
            exists|cutoff: Instant, stamp: Instant|
                (final(self)@, answer) == #[trigger] processed_at(old(self)@, cutoff, stamp),
            old(self).max_per_minute == 0 ==> !answer,
            old(self).matches@.len() < old(self).max_per_minute ==> answer,
    {
        let cutoff = Instant::now();
        let stamp = Instant::now();
        proof {
            lemma_recent_length(self@.matches, self.clock.nanos_at(cutoff));
        }
        self.can_process_at(cutoff, stamp)
    }

    /// Does what `can_process` does when the clock shows `cutoff` as old matches are
    /// dropped and `stamp` as the match is recorded.
    pub fn can_process_at(&mut self, cutoff: Instant, stamp: Instant) -> (answer: bool)
        ensures
            (final(self)@, answer) == processed_at(old(self)@, cutoff, stamp),
    {
        let now: i128 = self.clock.now_at(cutoff);
        self.expire(now);
        if self.matches.len() < self.max_per_minute {
            let time: i128 = self.clock.now_at(stamp);
            assert(as_ints(self.matches@.push(time)) =~= as_ints(self.matches@).push(time as int));
            self.matches.push(time);
            true
        } else {
            false
        }
    }

    /// Whether to warn of a refused match: at most once a minute.
    ///
    /// The clock has no say before the first warning.
    pub fn should_log_rate_limit(&mut self) -> (answer: bool)
        ensures
            exists|reading: Instant|
                (final(self)@, answer) == #[trigger] warned_at(old(self)@, reading),
            old(self).last_warning_time is None ==> answer,
    {
        let reading = Instant::now();
        self.should_log_rate_limit_at(reading)
    }

    /// Does what `should_log_rate_limit` does when the clock shows `reading`.
    pub fn should_log_rate_limit_at(&mut self, reading: Instant) -> (answer: bool)
        ensures
            (final(self)@, answer) == warned_at(old(self)@, reading),
    {
        let now: i128 = self.clock.now_at(reading);
        match self.last_warning_time {
            Some(last) if within_window(last, now) => false,
            _ => {
                self.last_warning_time = Some(now);
                true
            },
        }
    }
}

} // verus!
