//! What the rate limits of several antennas promise together.

use vstd::prelude::*;
use crate::clock::{time_between, Stopwatch};
use crate::keywords::Antenna;
use crate::limits::{
    decided, decided_all, decisions, ids_of, limit_for, with_fresh, with_missing, LimitTable,
    Readings, Verdict,
};
use crate::rate_limit::{fresh_limit, recent, Limit};
use crate::rate_limit_laws::{
    admitted_times, in_minute_to, law_no_minute_exceeds_the_limit, limit_after, runs_forward,
};

verus! {

/// Every match gets one decision, in order, and an admitted match is not warned of.
pub proof fn law_each_match_gets_one_decision(
    table: LimitTable,
    ids: Seq<Seq<char>>,
    readings: Seq<Readings>,
)
    ensures
        decided_all(table, ids, readings).1.len() == ids.len(),
        forall|i: int|
            0 <= i < ids.len() ==> (#[trigger] decided_all(
                table,
                ids,
                readings,
            ).1[i]).antenna_id == ids[i],
        forall|i: int|
            0 <= i < ids.len() ==> !((#[trigger] decided_all(table, ids, readings).1[i]).admitted
                && decided_all(table, ids, readings).1[i].warn),
    decreases ids.len(),
{
    if ids.len() > 0 {
        law_each_match_gets_one_decision(table, ids.drop_last(), readings.drop_last());
        let all = decided_all(table, ids, readings).1;
        let before = decided_all(table, ids.drop_last(), readings.drop_last()).1;
        assert(all.drop_last() =~= before);
        assert forall|i: int| 0 <= i < ids.len() implies (#[trigger] all[i]).antenna_id == ids[i]
            && !(all[i].admitted && all[i].warn) by {
            if i < before.len() {
                assert(before[i].antenna_id == ids.drop_last()[i]);
                assert(all[i] == before[i]);
            }
        }
    }
}

/// The matches of some antennas leave the limits of all others as they are.
pub proof fn law_antennas_do_not_share_a_limit(
    table: LimitTable,
    ids: Seq<Seq<char>>,
    readings: Seq<Readings>,
    other: Seq<char>,
)
    requires
        !ids.contains(other),
    ensures
        decided_all(table, ids, readings).0.entries.contains_key(other)
            == table.entries.contains_key(other),
        table.entries.contains_key(other) ==> decided_all(table, ids, readings).0.entries[other]
            == table.entries[other],
    decreases ids.len(),
{
    if ids.len() > 0 {
        assert(ids[ids.len() - 1] != other);
        assert(!ids.drop_last().contains(other)) by {
            if ids.drop_last().contains(other) {
                let front = ids.drop_last();
                let k = choose|k: int| 0 <= k < front.len() && front[k] == other;
                assert(ids[k] == other);
            }
        }
        law_antennas_do_not_share_a_limit(table, ids.drop_last(), readings.drop_last(), other);
    }
}

/// Matches leave every limit in place. Its stopwatch stays the same, so that the times it
/// remembers keep their meaning, and so does the number of matches that it allows.
pub proof fn law_limits_keep_their_stopwatches(
    table: LimitTable,
    ids: Seq<Seq<char>>,
    readings: Seq<Readings>,
    id: Seq<char>,
)
    ensures
        decided_all(table, ids, readings).0.clock == table.clock,
        table.entries.contains_key(id) ==> decided_all(
            table,
            ids,
            readings,
        ).0.entries.contains_key(id),
        limit_for(decided_all(table, ids, readings).0, id).clock == limit_for(table, id).clock,
        limit_for(decided_all(table, ids, readings).0, id).max_per_minute == limit_for(
            table,
            id,
        ).max_per_minute,
    decreases ids.len(),
{
    if ids.len() > 0 {
        law_limits_keep_their_stopwatches(table, ids.drop_last(), readings.drop_last(), id);
    }
}

/// Two lists of matches, one after the other, are decided as one list: the limits come
/// out the same, and so do the decisions.
pub proof fn law_two_lists_are_as_one(
    table: LimitTable,
    a: Seq<Seq<char>>,
    b: Seq<Seq<char>>,
    ra: Seq<Readings>,
    rb: Seq<Readings>,
)
    requires
        ra.len() == a.len(),
        rb.len() == b.len(),
    ensures
        ({
            let first = decided_all(table, a, ra);
            let second = decided_all(first.0, b, rb);
            decided_all(table, a + b, ra + rb) == (second.0, first.1 + second.1)
        }),
    decreases b.len(),
{
    let first = decided_all(table, a, ra);
    let second = decided_all(first.0, b, rb);
    if b.len() == 0 {
        assert(a + b =~= a);
        assert(ra + rb =~= ra);
        assert(first.1 + second.1 =~= first.1);
    } else {
        assert((a + b).drop_last() =~= a + b.drop_last());
        assert((ra + rb).drop_last() =~= ra + rb.drop_last());
        law_two_lists_are_as_one(table, a, b.drop_last(), ra, rb.drop_last());
        let before = decided_all(first.0, b.drop_last(), rb.drop_last());
        let last = decided(before.0, b.last(), rb.last());
        assert((first.1 + before.1).push(last.1) =~= first.1 + second.1);
    }
}

/// What `clock` shows at the matches of the antenna `id`.
pub open spec fn own_readings(
    clock: Stopwatch,
    ids: Seq<Seq<char>>,
    readings: Seq<Readings>,
    id: Seq<char>,
) -> Seq<(int, int)>
    decreases ids.len(),
{
    if ids.len() == 0 {
        Seq::empty()
    } else {
        let before = own_readings(clock, ids.drop_last(), readings.drop_last(), id);
        if ids.last() == id {
            before.push(
                (clock.nanos_at(readings.last().cutoff), clock.nanos_at(readings.last().stamp)),
            )
        } else {
            before
        }
    }
}

/// The times at which matches of the antenna `id` are admitted, on the stopwatch of its
/// limit.
pub open spec fn admitted_times_of(
    table: LimitTable,
    ids: Seq<Seq<char>>,
    readings: Seq<Readings>,
    id: Seq<char>,
) -> Seq<int>
    decreases ids.len(),
{
    if ids.len() == 0 {
        Seq::empty()
    } else {
        let before = admitted_times_of(table, ids.drop_last(), readings.drop_last(), id);
        if ids.last() == id && decided_all(table, ids, readings).1.last().admitted {
            before.push(limit_for(table, id).clock.nanos_at(readings.last().stamp))
        } else {
            before
        }
    }
}

/// The limit of one antenna goes through its own matches only, as if it were alone.
proof fn lemma_own_history(
    table: LimitTable,
    ids: Seq<Seq<char>>,
    readings: Seq<Readings>,
    id: Seq<char>,
)
    requires
        readings.len() == ids.len(),
    ensures
        ({
            let own = own_readings(limit_for(table, id).clock, ids, readings, id);
            let after = limit_for(decided_all(table, ids, readings).0, id);
            let alone = limit_after(limit_for(table, id), own);
            &&& after.clock == limit_for(table, id).clock
            &&& after.matches == alone.matches
            &&& after.max_per_minute == alone.max_per_minute
            &&& admitted_times_of(table, ids, readings, id) == admitted_times(
                limit_for(table, id),
                own,
            )
        }),
    decreases ids.len(),
{
    if ids.len() > 0 {
        let earlier = ids.drop_last();
        let earlier_readings = readings.drop_last();
        lemma_own_history(table, earlier, earlier_readings, id);
        let before = decided_all(table, earlier, earlier_readings).0;
        let last = readings.last();
        if ids.last() == id {
            let clock = limit_for(table, id).clock;
            let own = own_readings(clock, ids, readings, id);
            assert(own.drop_last() =~= own_readings(clock, earlier, earlier_readings, id));
            assert(own.last() == (clock.nanos_at(last.cutoff), clock.nanos_at(last.stamp)));
            let all = decided_all(table, ids, readings);
            assert(all.0 == decided(before, id, last).0);
            assert(all.1.last() == decided(before, id, last).1);
        }
    }
}

/// No antenna has more matches admitted in any minute than its limit allows, however
/// its matches mix with those of other antennas.
pub proof fn law_no_antenna_exceeds_its_limit(
    table: LimitTable,
    ids: Seq<Seq<char>>,
    readings: Seq<Readings>,
    id: Seq<char>,
    end: int,
)
    requires
        readings.len() == ids.len(),
        limit_for(table, id) == fresh_limit(
            limit_for(table, id).clock,
            limit_for(table, id).max_per_minute,
        ),
        runs_forward(own_readings(limit_for(table, id).clock, ids, readings, id)),
    ensures
        in_minute_to(admitted_times_of(table, ids, readings, id), end).len() <= limit_for(
            table,
            id,
        ).max_per_minute,
{
    lemma_own_history(table, ids, readings, id);
    law_no_minute_exceeds_the_limit(
        limit_for(table, id).clock,
        limit_for(table, id).max_per_minute,
        own_readings(limit_for(table, id).clock, ids, readings, id),
        end,
    );
}

/// What can happen to the limits while the service runs.
pub enum Step {
    /// A match of the antenna `id`, decided at these clock readings.
    Match { id: Seq<char>, readings: Readings },
    /// The antennas `ids` are fetched, and those without a limit get one.
    Refresh { ids: Seq<Seq<char>>, max_per_minute: nat },
}

/// The limits after one step.
pub open spec fn stepped(table: LimitTable, step: Step) -> LimitTable {
    match step {
        Step::Match { id, readings } => decided(table, id, readings).0,
        Step::Refresh { ids, max_per_minute } => with_missing(table, ids, max_per_minute),
    }
}

/// The limits after a history of steps.
pub open spec fn after_steps(table: LimitTable, steps: Seq<Step>) -> LimitTable
    decreases steps.len(),
{
    if steps.len() == 0 {
        table
    } else {
        stepped(after_steps(table, steps.drop_last()), steps.last())
    }
}

/// The matches of a post, as steps.
pub open spec fn match_steps(ids: Seq<Seq<char>>, readings: Seq<Readings>) -> Seq<Step> {
    Seq::new(ids.len(), |i: int| Step::Match { id: ids[i], readings: readings[i] })
}

/// What `clock` shows at the matches of the antenna `id` in a history of steps.
pub open spec fn own_readings_over(clock: Stopwatch, steps: Seq<Step>, id: Seq<char>) -> Seq<
    (int, int),
>
    decreases steps.len(),
{
    if steps.len() == 0 {
        Seq::empty()
    } else {
        let before = own_readings_over(clock, steps.drop_last(), id);
        match steps.last() {
            Step::Match { id: matched, readings } if matched == id => before.push(
                (clock.nanos_at(readings.cutoff), clock.nanos_at(readings.stamp)),
            ),
            _ => before,
        }
    }
}

/// The times at which matches of the antenna `id` are admitted in a history of steps, on
/// the stopwatch of its limit.
pub open spec fn admitted_times_over(table: LimitTable, steps: Seq<Step>, id: Seq<char>) -> Seq<int>
    decreases steps.len(),
{
    if steps.len() == 0 {
        Seq::empty()
    } else {
        let earlier = steps.drop_last();
        let before = admitted_times_over(table, earlier, id);
        match steps.last() {
            Step::Match { id: matched, readings } if matched == id && decided(
                after_steps(table, earlier),
                id,
                readings,
            ).1.admitted => before.push(limit_for(table, id).clock.nanos_at(readings.stamp)),
            _ => before,
        }
    }
}

/// Steps keep the stopwatch of every limit.
proof fn lemma_steps_keep_stopwatches(table: LimitTable, steps: Seq<Step>, id: Seq<char>)
    ensures
        after_steps(table, steps).clock == table.clock,
        limit_for(after_steps(table, steps), id).clock == limit_for(table, id).clock,
    decreases steps.len(),
{
    if steps.len() > 0 {
        lemma_steps_keep_stopwatches(table, steps.drop_last(), id);
    }
}

/// A post steps through its matches: after any history, they leave the limits that
/// deciding the post leaves, and admit what deciding the post admits.
pub proof fn law_a_post_steps_through_its_matches(
    table: LimitTable,
    steps: Seq<Step>,
    ids: Seq<Seq<char>>,
    readings: Seq<Readings>,
    id: Seq<char>,
)
    requires
        readings.len() == ids.len(),
    ensures
        after_steps(table, steps + match_steps(ids, readings)) == decided_all(
            after_steps(table, steps),
            ids,
            readings,
        ).0,
        admitted_times_over(table, steps + match_steps(ids, readings), id) == admitted_times_over(
            table,
            steps,
            id,
        ) + admitted_times_of(after_steps(table, steps), ids, readings, id),
    decreases ids.len(),
{
    let whole = steps + match_steps(ids, readings);
    let start = after_steps(table, steps);
    let times = admitted_times_over(table, steps, id);
    if ids.len() == 0 {
        assert(whole =~= steps);
        assert(times + admitted_times_of(start, ids, readings, id) =~= times);
    } else {
        law_a_post_steps_through_its_matches(
            table,
            steps,
            ids.drop_last(),
            readings.drop_last(),
            id,
        );
        assert(whole.drop_last() =~= steps + match_steps(ids.drop_last(), readings.drop_last()));
        assert(whole.last() == Step::Match { id: ids.last(), readings: readings.last() });
        lemma_steps_keep_stopwatches(table, steps, id);
        let before = admitted_times_of(start, ids.drop_last(), readings.drop_last(), id);
        let stamp = limit_for(table, id).clock.nanos_at(readings.last().stamp);
        assert((times + before).push(stamp) =~= times + before.push(stamp));
    }
}

/// The limit of one antenna goes through its own matches only, whatever else happens. It
/// may come into being on the way.
proof fn lemma_own_steps(table: LimitTable, steps: Seq<Step>, id: Seq<char>)
    requires
        table.entries.contains_key(id) ==> table.entries[id] == fresh_limit(
            table.entries[id].clock,
            table.entries[id].max_per_minute,
        ),
    ensures
        ({
            let clock = limit_for(table, id).clock;
            let own = own_readings_over(clock, steps, id);
            let after = after_steps(table, steps);
            let limit = limit_for(after, id);
            let start = fresh_limit(clock, limit.max_per_minute);
            &&& table.entries.contains_key(id) ==> after.entries.contains_key(id)
                && limit.max_per_minute == table.entries[id].max_per_minute
            &&& !after.entries.contains_key(id) ==> own.len() == 0
            &&& limit.clock == clock
            &&& limit.matches == limit_after(start, own).matches
            &&& limit.max_per_minute == limit_after(start, own).max_per_minute
            &&& admitted_times_over(table, steps, id) == admitted_times(start, own)
        }),
    decreases steps.len(),
{
    lemma_steps_keep_stopwatches(table, steps, id);
    if steps.len() > 0 {
        let earlier = steps.drop_last();
        lemma_own_steps(table, earlier, id);
        lemma_steps_keep_stopwatches(table, earlier, id);
        let clock = limit_for(table, id).clock;
        let own = own_readings_over(clock, steps, id);
        if let Step::Match { id: matched, readings } = steps.last() {
            if matched == id {
                assert(own.drop_last() =~= own_readings_over(clock, earlier, id));
                assert(own.last() == (
                    clock.nanos_at(readings.cutoff),
                    clock.nanos_at(readings.stamp),
                ));
            }
        }
    }
}

/// As long as the service runs, no antenna has more matches admitted in any minute than
/// its limit allows: not over any number of posts, nor with the antennas fetched again in
/// between. It may have no limit at first, and get one when it is fetched or matched.
pub proof fn law_no_antenna_ever_exceeds_its_limit(
    table: LimitTable,
    steps: Seq<Step>,
    id: Seq<char>,
    end: int,
)
    requires
        table.entries.contains_key(id) ==> table.entries[id] == fresh_limit(
            table.entries[id].clock,
            table.entries[id].max_per_minute,
        ),
        runs_forward(own_readings_over(limit_for(table, id).clock, steps, id)),
    ensures
        in_minute_to(admitted_times_over(table, steps, id), end).len() <= limit_for(
            after_steps(table, steps),
            id,
        ).max_per_minute,
        table.entries.contains_key(id) ==> limit_for(after_steps(table, steps), id).max_per_minute
            == table.entries[id].max_per_minute,
{
    lemma_own_steps(table, steps, id);
    law_no_minute_exceeds_the_limit(
        limit_for(table, id).clock,
        limit_for(after_steps(table, steps), id).max_per_minute,
        own_readings_over(limit_for(table, id).clock, steps, id),
        end,
    );
}

/// Fetching the same antennas again changes no limit, and what an antenna has used of
/// its limit is kept.
pub proof fn law_refreshing_keeps_what_is_used(
    table: LimitTable,
    ids: Seq<Seq<char>>,
    max_per_minute: nat,
)
    ensures
        with_missing(table, ids, max_per_minute).clock == table.clock,
        table.entries.submap_of(with_missing(table, ids, max_per_minute).entries),
        with_missing(with_missing(table, ids, max_per_minute), ids, max_per_minute)
            == with_missing(table, ids, max_per_minute),
        forall|id: Seq<char>|
            ids.contains(id) ==> #[trigger] with_missing(
                table,
                ids,
                max_per_minute,
            ).entries.contains_key(id),
{
    assert(with_missing(with_missing(table, ids, max_per_minute), ids, max_per_minute)
        =~= with_missing(table, ids, max_per_minute));
}

/// On a start without limits, the first list of antennas gives the same limits
/// whether they are reset or added.
pub proof fn law_first_list_sets_all_limits(
    table: LimitTable,
    ids: Seq<Seq<char>>,
    max_per_minute: nat,
)
    requires
        table.entries == Map::<Seq<char>, Limit>::empty(),
    ensures
        with_fresh(table, ids, max_per_minute) == with_missing(table, ids, max_per_minute),
{
    assert(with_fresh(table, ids, max_per_minute) =~= with_missing(table, ids, max_per_minute));
}

/// A match of an antenna is decided by the limit of that antenna alone, and an antenna
/// without one gets a fresh limit of five. It is admitted exactly if fewer remembered
/// matches than the limit allows lie in the last minute, and warned of exactly if it is
/// refused and no warning is less than a minute old. Its limit remembers what came of it,
/// and every other limit stays as it is.
pub proof fn law_a_match_is_decided_by_its_limit(
    table: LimitTable,
    id: Seq<char>,
    readings: Readings,
    limit: Limit,
)
    requires
        table.entries.contains_key(id) ==> limit == table.entries[id],
        !table.entries.contains_key(id) ==> limit == (Limit {
            clock: table.clock,
            matches: Seq::empty(),
            max_per_minute: 5,
            last_warning_time: None,
        }),
    ensures
        ({
            let (after, decision) = decided(table, id, readings);
            let cutoff = time_between(limit.clock.origin(), readings.cutoff) as int;
            let stamp = time_between(limit.clock.origin(), readings.stamp) as int;
            let warning = time_between(limit.clock.origin(), readings.warning) as int;
            let kept = recent(limit.matches, cutoff);
            let admitted = kept.len() < limit.max_per_minute;
            let warn = !admitted && (limit.last_warning_time is None || warning
                - limit.last_warning_time->0 >= 60_000_000_000);
            &&& decision.antenna_id == id
            &&& decision.unannounced == !table.entries.contains_key(id)
            &&& decision.admitted == admitted
            &&& decision.warn == warn
            &&& after.clock == table.clock
            &&& after.entries == table.entries.insert(
                id,
                Limit {
                    clock: limit.clock,
                    matches: if admitted {
                        kept.push(stamp)
                    } else {
                        kept
                    },
                    max_per_minute: limit.max_per_minute,
                    last_warning_time: if warn {
                        Some(warning)
                    } else {
                        limit.last_warning_time
                    },
                },
            )
        }),
{
}

/// Matches are decided one after the other, each on the limits that the one before it
/// left: no match leaves everything as it is, and one more match adds its decision.
pub proof fn law_matches_are_decided_in_turn(
    table: LimitTable,
    ids: Seq<Seq<char>>,
    readings: Seq<Readings>,
    id: Seq<char>,
    reading: Readings,
)
    requires
        readings.len() == ids.len(),
    ensures
        decided_all(table, Seq::empty(), Seq::empty()).0 == table,
        decided_all(table, Seq::empty(), Seq::empty()).1.len() == 0,
        ({
            let before = decided_all(table, ids, readings);
            let last = decided(before.0, id, reading);
            let all = decided_all(table, ids.push(id), readings.push(reading));
            all.0 == last.0 && all.1 == before.1.push(last.1)
        }),
{
    assert(ids.push(id).drop_last() =~= ids);
    assert(readings.push(reading).drop_last() =~= readings);
}

/// Announcing antennas gives a fresh limit of `max_per_minute` to exactly those of them
/// that have none, and keeps every limit that is there. Resetting gives a fresh limit to all
/// of them, and keeps every other.
pub proof fn law_who_gets_a_fresh_limit(
    table: LimitTable,
    ids: Seq<Seq<char>>,
    max_per_minute: nat,
    id: Seq<char>,
)
    ensures
        ({
            let added = with_missing(table, ids, max_per_minute);
            let reset = with_fresh(table, ids, max_per_minute);
            let unused = Limit {
                clock: table.clock,
                matches: Seq::empty(),
                max_per_minute,
                last_warning_time: None,
            };
            let had = table.entries.contains_key(id);
            let listed = exists|i: int| 0 <= i < ids.len() && #[trigger] ids[i] == id;
            &&& added.clock == table.clock && reset.clock == table.clock
            &&& added.entries.contains_key(id) <==> had || listed
            &&& reset.entries.contains_key(id) <==> had || listed
            &&& had ==> added.entries[id] == table.entries[id]
            &&& !had && listed ==> added.entries[id] == unused
            &&& listed ==> reset.entries[id] == unused
            &&& had && !listed ==> reset.entries[id] == table.entries[id]
        }),
{
}

/// A verdict is seen as what its fields hold, verdicts one for one and in order, and
/// antennas by their ids in the same way.
pub proof fn law_verdicts_are_seen_as_they_are(verdicts: Seq<Verdict>, antennas: Seq<Antenna>)
    ensures
        decisions(verdicts).len() == verdicts.len(),
        forall|i: int|
            0 <= i < verdicts.len() ==> (#[trigger] decisions(verdicts)[i]).antenna_id
                == verdicts[i].antenna_id@,
        forall|i: int|
            0 <= i < verdicts.len() ==> (#[trigger] decisions(verdicts)[i]).unannounced
                == verdicts[i].unannounced,
        forall|i: int|
            0 <= i < verdicts.len() ==> (#[trigger] decisions(verdicts)[i]).admitted
                == verdicts[i].admitted,
        forall|i: int|
            0 <= i < verdicts.len() ==> (#[trigger] decisions(verdicts)[i]).warn
                == verdicts[i].warn,
        ids_of(antennas).len() == antennas.len(),
        forall|i: int|
            0 <= i < antennas.len() ==> #[trigger] ids_of(antennas)[i] == antennas[i].id@,
{
}

} // verus!
