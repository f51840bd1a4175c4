//! What the rate limit promises for every history of requests.

use std::time::Instant;
use vstd::prelude::*;
use crate::clock::{time_between, Stopwatch};
use crate::rate_limit::{
    fresh_limit, is_recent, lemma_recent_length, processed, processed_at, recent, warned,
    warned_at, Limit, RateLimitInfo, WINDOW_NANOS,
};

verus! {

/// What the stopwatch shows in a history of requests: for each, the time at which old
/// matches are dropped and the time at which the match is recorded. The stopwatch
/// never runs backwards.
pub open spec fn runs_forward(readings: Seq<(int, int)>) -> bool {
    &&& forall|i: int| 0 <= i < readings.len() ==> (#[trigger] readings[i]).0 <= readings[i].1
    &&& forall|i: int, j: int|
        0 <= i < j < readings.len() ==> (#[trigger] readings[i]).1 <= (#[trigger] readings[j]).0
}

/// The limit after a history of requests.
pub open spec fn limit_after(limit: Limit, readings: Seq<(int, int)>) -> Limit
    decreases readings.len(),
{
    if readings.len() == 0 {
        limit
    } else {
        processed(
            limit_after(limit, readings.drop_last()),
            readings.last().0,
            readings.last().1,
        ).0
    }
}

/// Whether the last request of a history is admitted.
pub open spec fn last_admitted(limit: Limit, readings: Seq<(int, int)>) -> bool
    recommends
        readings.len() > 0,
{
    processed(
        limit_after(limit, readings.drop_last()),
        readings.last().0,
        readings.last().1,
    ).1
}

/// The times of the admitted requests of a history, in order.
pub open spec fn admitted_times(limit: Limit, readings: Seq<(int, int)>) -> Seq<int>
    decreases readings.len(),
{
    if readings.len() == 0 {
        Seq::empty()
    } else {
        let before = admitted_times(limit, readings.drop_last());
        if last_admitted(limit, readings) {
            before.push(readings.last().1)
        } else {
            before
        }
    }
}

/// The times in the minute that ends at `end`.
pub open spec fn in_minute_to(times: Seq<int>, end: int) -> Seq<int> {
    times.filter(|time: int| is_recent(time, end) && time <= end)
}

/// The stopwatch runs forward in the first part of a history too.
proof fn lemma_front_runs_forward(readings: Seq<(int, int)>)
    requires
        runs_forward(readings),
        readings.len() > 0,
    ensures
        runs_forward(readings.drop_last()),
{
    let front = readings.drop_last();
    assert forall|i: int| 0 <= i < front.len() implies (#[trigger] front[i]).0 <= front[i].1 by {
        assert(readings[i].0 <= readings[i].1);
    }
    assert forall|i: int, j: int| 0 <= i < j < front.len() implies (#[trigger] front[i]).1 <= (
    #[trigger] front[j]).0 by {
        assert(readings[i].1 <= readings[j].0);
    }
}

/// What is recent later was recent before.
proof fn lemma_recent_twice(times: Seq<int>, earlier: int, later: int)
    requires
        earlier <= later,
    ensures
        recent(recent(times, earlier), later) == recent(times, later),
    decreases times.len(),
{
    reveal(Seq::filter);
    if times.len() > 0 {
        lemma_recent_twice(times.drop_last(), earlier, later);
        let before = recent(times.drop_last(), earlier);
        if is_recent(times.last(), earlier) {
            assert(before.push(times.last()).drop_last() =~= before);
        }
    }
}

/// No more times lie in the minute that ends at `end` than are recent at a time
/// `cutoff` that is no later.
proof fn lemma_minute_is_recent(times: Seq<int>, cutoff: int, end: int)
    requires
        cutoff <= end,
    ensures
        in_minute_to(times, end).len() <= recent(times, cutoff).len(),
    decreases times.len(),
{
    reveal(Seq::filter);
    if times.len() > 0 {
        lemma_minute_is_recent(times.drop_last(), cutoff, end);
    }
}

/// After a history of requests on a fresh limit, the remembered matches are the
/// admitted ones of the last minute, and no more than the limit allows.
pub proof fn law_remembers_the_last_minute(
    clock: Stopwatch,
    max_per_minute: nat,
    readings: Seq<(int, int)>,
)
    requires
        runs_forward(readings),
    ensures
        limit_after(fresh_limit(clock, max_per_minute), readings).max_per_minute == max_per_minute,
        limit_after(fresh_limit(clock, max_per_minute), readings).matches.len() <= max_per_minute,
        readings.len() > 0 ==> limit_after(fresh_limit(clock, max_per_minute), readings).matches
            == recent(
            admitted_times(fresh_limit(clock, max_per_minute), readings),
            readings.last().0,
        ),
    decreases readings.len(),
{
    let start = fresh_limit(clock, max_per_minute);
    if readings.len() > 0 {
        let earlier = readings.drop_last();
        lemma_front_runs_forward(readings);
        law_remembers_the_last_minute(clock, max_per_minute, earlier);
        let before = limit_after(start, earlier);
        let times = admitted_times(start, earlier);
        let (cutoff, stamp) = readings.last();
        let kept = recent(before.matches, cutoff);
        assert(readings[readings.len() - 1].0 <= readings[readings.len() - 1].1);
        lemma_recent_length(before.matches, cutoff);
        if earlier.len() > 0 {
            assert(readings[earlier.len() - 1].1 <= readings[readings.len() - 1].0);
            assert(earlier.last() == readings[earlier.len() - 1]);
            assert(readings[earlier.len() - 1].0 <= readings[earlier.len() - 1].1);
            lemma_recent_twice(times, earlier.last().0, cutoff);
        } else {
            reveal(Seq::filter);
            assert(kept =~= recent(times, cutoff));
        }
        assert(kept == recent(times, cutoff));
        if last_admitted(start, readings) {
            reveal(Seq::filter);
            assert(times.push(stamp).drop_last() =~= times);
            assert(recent(times.push(stamp), cutoff) == kept.push(stamp));
        }
    }
}

/// No minute holds more admitted matches than the limit allows, whenever the minute
/// ends and however the requests are spread.
pub proof fn law_no_minute_exceeds_the_limit(
    clock: Stopwatch,
    max_per_minute: nat,
    readings: Seq<(int, int)>,
    end: int,
)
    requires
        runs_forward(readings),
    ensures
        in_minute_to(admitted_times(fresh_limit(clock, max_per_minute), readings), end).len()
            <= max_per_minute,
    decreases readings.len(),
{
    let start = fresh_limit(clock, max_per_minute);
    reveal(Seq::filter);
    if readings.len() > 0 {
        let earlier = readings.drop_last();
        lemma_front_runs_forward(readings);
        law_no_minute_exceeds_the_limit(clock, max_per_minute, earlier, end);
        let times = admitted_times(start, earlier);
        let (cutoff, stamp) = readings.last();
        assert(readings[readings.len() - 1].0 <= readings[readings.len() - 1].1);
        if last_admitted(start, readings) {
            assert(times.push(stamp).drop_last() =~= times);
            if stamp <= end {
                law_remembers_the_last_minute(clock, max_per_minute, readings);
                lemma_minute_is_recent(admitted_times(start, readings), cutoff, end);
            }
        }
    }
}

/// A match is refused exactly while a minute's worth of matches is used up: a limit
/// of zero admits nothing, and any other limit admits again once every remembered
/// match is a minute old.
pub proof fn law_room_returns_after_a_minute(limit: Limit, cutoff: int, stamp: int)
    requires
        forall|i: int|
            0 <= i < limit.matches.len() ==> #[trigger] limit.matches[i] + WINDOW_NANOS <= cutoff,
    ensures
        processed(limit, cutoff, stamp).1 <==> limit.max_per_minute > 0,
        limit.max_per_minute > 0 ==> processed(limit, cutoff, stamp).0.matches == seq![stamp],
{
    lemma_nothing_recent(limit.matches, cutoff);
    assert(Seq::<int>::empty().push(stamp) =~= seq![stamp]);
}

/// Times that are a minute old are not recent.
proof fn lemma_nothing_recent(times: Seq<int>, now: int)
    requires
        forall|i: int| 0 <= i < times.len() ==> #[trigger] times[i] + WINDOW_NANOS <= now,
    ensures
        recent(times, now) == Seq::<int>::empty(),
    decreases times.len(),
{
    reveal(Seq::filter);
    if times.len() > 0 {
        let t = times.drop_last();
        assert forall|i: int| 0 <= i < t.len() implies #[trigger] t[i] + WINDOW_NANOS <= now by {
            assert(t[i] == times[i]);
        }
        lemma_nothing_recent(t, now);
        assert(times[times.len() - 1] + WINDOW_NANOS <= now);
    }
}

/// The limit after a history of refusals at these times.
pub open spec fn limit_after_refusals(limit: Limit, times: Seq<int>) -> Limit
    decreases times.len(),
{
    if times.len() == 0 {
        limit
    } else {
        warned(limit_after_refusals(limit, times.drop_last()), times.last()).0
    }
}

/// Whether the refusal `i` of a history is warned of.
pub open spec fn warns_at(limit: Limit, times: Seq<int>, i: int) -> bool {
    warned(limit_after_refusals(limit, times.take(i)), times[i]).1
}

/// The last warning is no earlier than any refusal that was warned of.
proof fn lemma_last_warning(limit: Limit, times: Seq<int>, i: int)
    requires
        0 <= i < times.len(),
        warns_at(limit, times, i),
    ensures
        limit_after_refusals(limit, times).last_warning_time is Some,
        limit_after_refusals(limit, times).last_warning_time->0 >= times[i],
    decreases times.len(),
{
    let n = times.len() as int;
    let earlier = times.drop_last();
    assert(times.take(n - 1) =~= earlier);
    if i < n - 1 {
        assert(earlier.take(i) =~= times.take(i));
        lemma_last_warning(limit, earlier, i);
    }
}

/// Two warnings are at least a minute apart, whatever the stopwatch shows.
pub proof fn law_warnings_are_a_minute_apart(limit: Limit, times: Seq<int>, i: int, j: int)
    requires
        0 <= i < j < times.len(),
        warns_at(limit, times, i),
        warns_at(limit, times, j),
    ensures
        times[j] - times[i] >= WINDOW_NANOS,
{
    let earlier = times.take(j);
    assert(earlier.take(i) =~= times.take(i));
    lemma_last_warning(limit, earlier, i);
}

/// Refusing a match changes no warning, warning changes no match, and neither changes
/// the stopwatch that the times are counted on.
pub proof fn law_matches_and_warnings_are_independent(
    limit: Limit,
    cutoff: int,
    stamp: int,
    now: int,
)
    ensures
        processed(limit, cutoff, stamp).0.last_warning_time == limit.last_warning_time,
        warned(limit, now).0.matches == limit.matches,
        warned(limit, now).0.max_per_minute == limit.max_per_minute,
        processed(limit, cutoff, stamp).0.clock == limit.clock,
        warned(limit, now).0.clock == limit.clock,
{
}

/// The times that count are those less than sixty seconds old, in order: of one more time,
/// it is added if it is so, and else nothing changes.
pub proof fn law_times_count_for_a_minute(times: Seq<int>, time: int, now: int)
    ensures
        recent(Seq::empty(), now) == Seq::<int>::empty(),
        now - time < 60_000_000_000 ==> recent(times.push(time), now) == recent(times, now).push(
            time,
        ),
        now - time >= 60_000_000_000 ==> recent(times.push(time), now) == recent(times, now),
{
    reveal(Seq::filter);
    assert(times.push(time).drop_last() =~= times);
    assert(recent(Seq::empty(), now) =~= Seq::<int>::empty());
}

/// A match is admitted exactly if fewer remembered matches than the limit allows lie in the
/// last minute, whether or not others are older. These are remembered, and with them the
/// match if it is admitted; nothing else changes.
pub proof fn law_admitted_exactly_with_room(limit: Limit, cutoff: int, stamp: int)
    ensures
        ({
            let (after, admitted) = processed(limit, cutoff, stamp);
            let kept = recent(limit.matches, cutoff);
            &&& admitted <==> kept.len() < limit.max_per_minute
            &&& admitted ==> after.matches == kept.push(stamp)
            &&& !admitted ==> after.matches == kept
            &&& after.clock == limit.clock
            &&& after.max_per_minute == limit.max_per_minute
            &&& after.last_warning_time == limit.last_warning_time
        }),
{
}

/// After any history of requests on a fresh limit, a request is admitted exactly if fewer
/// earlier ones than the limit allows were admitted in the minute before it.
pub proof fn law_admitted_by_what_was_admitted(
    clock: Stopwatch,
    max_per_minute: nat,
    readings: Seq<(int, int)>,
    cutoff: int,
    stamp: int,
)
    requires
        runs_forward(readings.push((cutoff, stamp))),
    ensures
        ({
            let start = fresh_limit(clock, max_per_minute);
            let times = admitted_times(start, readings);
            let whole = readings.push((cutoff, stamp));
            &&& processed(limit_after(start, readings), cutoff, stamp).1 <==> recent(
                times,
                cutoff,
            ).len() < max_per_minute
            &&& recent(times, cutoff).len() < max_per_minute ==> admitted_times(start, whole)
                == times.push(stamp)
            &&& recent(times, cutoff).len() >= max_per_minute ==> admitted_times(start, whole)
                == times
        }),
{
    let start = fresh_limit(clock, max_per_minute);
    let whole = readings.push((cutoff, stamp));
    let n = readings.len() as int;
    assert(whole.drop_last() =~= readings);
    lemma_front_runs_forward(whole);
    law_remembers_the_last_minute(clock, max_per_minute, readings);
    let times = admitted_times(start, readings);
    if n > 0 {
        assert(whole[n - 1].1 <= whole[n].0);
        assert(whole[n - 1].0 <= whole[n - 1].1);
        assert(readings.last() == whole[n - 1]);
        lemma_recent_twice(times, readings.last().0, cutoff);
    }
    law_admitted_exactly_with_room(limit_after(start, readings), cutoff, stamp);
}

/// A refused match is warned of exactly if there was no warning yet or the last is sixty
/// seconds old or older. The warning is remembered; nothing else changes.
pub proof fn law_warned_exactly_after_a_minute(limit: Limit, now: int)
    ensures
        ({
            let (after, warn) = warned(limit, now);
            &&& limit.last_warning_time is None ==> warn
            &&& limit.last_warning_time is Some ==> (warn <==> now - limit.last_warning_time->0
                >= 60_000_000_000)
            &&& warn ==> after.last_warning_time == Some(now)
            &&& !warn ==> after.last_warning_time == limit.last_warning_time
            &&& after.clock == limit.clock
            &&& after.matches == limit.matches
            &&& after.max_per_minute == limit.max_per_minute
        }),
{
}

/// A limit counts the time at each reading of the clock from the start of its own
/// stopwatch.
pub proof fn law_readings_count_from_the_start(limit: Limit, cutoff: Instant, stamp: Instant)
    ensures
        processed_at(limit, cutoff, stamp) == processed(
            limit,
            time_between(limit.clock.origin(), cutoff) as int,
            time_between(limit.clock.origin(), stamp) as int,
        ),
        warned_at(limit, stamp) == warned(limit, time_between(limit.clock.origin(), stamp) as int),
        limit.clock.nanos_at(stamp) == time_between(limit.clock.origin(), stamp),
{
}

/// A limit is seen as what its fields hold, one time for each match, in order.
pub proof fn law_a_limit_is_seen_as_it_is(info: RateLimitInfo)
    ensures
        info@.clock == info.clock,
        info@.max_per_minute == info.max_per_minute,
        info@.matches.len() == info.matches@.len(),
        forall|i: int|
            0 <= i < info.matches@.len() ==> #[trigger] info@.matches[i] == info.matches@[i],
        info.last_warning_time is None <==> info@.last_warning_time is None,
        info.last_warning_time is Some ==> info@.last_warning_time->0
            == info.last_warning_time->0,
{
}

/// A fresh limit remembers no match and no warning, and allows what it was made for.
pub proof fn law_a_fresh_limit_is_unused(clock: Stopwatch, max_per_minute: nat)
    ensures
        fresh_limit(clock, max_per_minute).clock == clock,
        fresh_limit(clock, max_per_minute).max_per_minute == max_per_minute,
        fresh_limit(clock, max_per_minute).matches.len() == 0,
        fresh_limit(clock, max_per_minute).last_warning_time is None,
{
}

} // verus!
