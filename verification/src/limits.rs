//! The rate limits of all antennas, by antenna id.

use std::time::Instant;
use vstd::hash_map::StringHashMap;
use vstd::prelude::*;
use crate::clock::Stopwatch;
use crate::keywords::{string_views, Antenna};
use crate::rate_limit::{
    fresh_limit, lemma_recent_length, processed_at, warned_at, Limit, RateLimitInfo,
};

verus! {

/// The limit of an antenna that was never announced.
pub const UNANNOUNCED_LIMIT: usize = 5;

/// The rate limits of all antennas.
pub struct RateLimits {
    /// The stopwatch of new limits.
    clock: Stopwatch,
    limits: StringHashMap<RateLimitInfo>,
}

/// What a `RateLimits` knows: the stopwatch of new limits, and the limits by antenna.
#[verifier::ext_equal]
pub struct LimitTable {
    pub clock: Stopwatch,
    pub entries: Map<Seq<char>, Limit>,
}

impl View for RateLimits {
    type V = LimitTable;

    closed spec fn view(&self) -> LimitTable {
        LimitTable {
            clock: self.clock,
            entries: self.limits@.map_values(|info: RateLimitInfo| info@),
        }
    }
}

/// What the clock shows while one match is decided: when old matches are dropped,
/// when the match is recorded, and when a refusal may be warned of.
#[derive(Clone, Copy, Debug)]
pub struct Readings {
    pub cutoff: Instant,
    pub stamp: Instant,
    pub warning: Instant,
}

/// The decision on one match.
#[derive(Debug)]
pub struct Verdict {
    /// The antenna that matched.
    pub antenna_id: String,
    /// Whether the antenna had no limit until now.
    pub unannounced: bool,
    /// Whether the match is within the limit.
    pub admitted: bool,
    /// Whether to warn that the match is not.
    pub warn: bool,
}

/// What a `Verdict` says.
pub struct Decision {
    pub antenna_id: Seq<char>,
    pub unannounced: bool,
    pub admitted: bool,
    pub warn: bool,
}

impl View for Verdict {
    type V = Decision;

    open spec fn view(&self) -> Decision {
        Decision {
            antenna_id: self.antenna_id@,
            unannounced: self.unannounced,
            admitted: self.admitted,
            warn: self.warn,
        }
    }
}

/// The views of a sequence of verdicts.
pub open spec fn decisions(verdicts: Seq<Verdict>) -> Seq<Decision> {
    verdicts.map_values(|v: Verdict| v@)
}

/// The ids of `antennas`, in order.
pub open spec fn ids_of(antennas: Seq<Antenna>) -> Seq<Seq<char>> {
    antennas.map_values(|a: Antenna| a.id@)
}

/// The limit that counts for the antenna `id`.
pub open spec fn limit_for(table: LimitTable, id: Seq<char>) -> Limit {
    if table.entries.contains_key(id) {
        table.entries[id]
    } else {
        fresh_limit(table.clock, UNANNOUNCED_LIMIT as nat)
    }
}

/// A match of the antenna `id`, at these clock readings: the limits afterwards, and
/// the decision. A refused match is warned of at most once a minute.
pub open spec fn decided(table: LimitTable, id: Seq<char>, readings: Readings) -> (
    LimitTable,
    Decision,
) {
    let (limit, admitted) = processed_at(limit_for(table, id), readings.cutoff, readings.stamp);
    let (after, warn) = if admitted {
        (limit, false)
    } else {
        warned_at(limit, readings.warning)
    };
    (
        LimitTable { entries: table.entries.insert(id, after), ..table },
        Decision { antenna_id: id, unannounced: !table.entries.contains_key(id), admitted, warn },
    )
}

/// The matches of the antennas `ids`, one after the other: the limits afterwards, and
/// the decisions.
pub open spec fn decided_all(table: LimitTable, ids: Seq<Seq<char>>, readings: Seq<Readings>) -> (
    LimitTable,
    Seq<Decision>,
)
    decreases ids.len(),
{
    if ids.len() == 0 {
        (table, Seq::empty())
    } else {
        let before = decided_all(table, ids.drop_last(), readings.drop_last());
        let last = decided(before.0, ids.last(), readings.last());
        (last.0, before.1.push(last.1))
    }
}

/// The limits after the antennas `ids` were announced with the limit
/// `max_per_minute`: those without a limit get a fresh one, the others keep theirs.
pub open spec fn with_missing(
    table: LimitTable,
    ids: Seq<Seq<char>>,
    max_per_minute: nat,
) -> LimitTable {
    LimitTable {
        entries: Map::new(
            |id: Seq<char>| table.entries.contains_key(id) || ids.contains(id),
            |id: Seq<char>|
                if table.entries.contains_key(id) {
                    table.entries[id]
                } else {
                    fresh_limit(table.clock, max_per_minute)
                },
        ),
        ..table
    }
}

/// The limits after each of the antennas `ids` got a fresh limit of `max_per_minute`.
pub open spec fn with_fresh(
    table: LimitTable,
    ids: Seq<Seq<char>>,
    max_per_minute: nat,
) -> LimitTable {
    LimitTable {
        entries: Map::new(
            |id: Seq<char>| table.entries.contains_key(id) || ids.contains(id),
            |id: Seq<char>|
                if ids.contains(id) {
                    fresh_limit(table.clock, max_per_minute)
                } else {
                    table.entries[id]
                },
        ),
        ..table
    }
}

/// Reads the clock for `n` matches.
pub(crate) fn read_clock(n: usize) -> (readings: Vec<Readings>)
    ensures
        readings.len() == n,
{
    let mut readings: Vec<Readings> = Vec::new();
    for i in 0..n
        invariant
            readings.len() == i,
    {
        let cutoff = Instant::now();
        let stamp = Instant::now();
        let warning = Instant::now();
        readings.push(Readings { cutoff, stamp, warning });
    }
    readings
}

/// A copy of `info`.
fn copy_of(info: &RateLimitInfo) -> (copy: RateLimitInfo)
    ensures
        copy@ == info@,
{
    let matches = info.matches.clone();
    assert(matches@ =~= info.matches@);
    RateLimitInfo {
        clock: info.clock,
        matches,
        max_per_minute: info.max_per_minute,
        last_warning_time: info.last_warning_time,
    }
}

impl RateLimits {
    /// No antenna has a limit. The times of later limits are counted from now on,
    /// whenever that is.
    pub fn new() -> (limits: RateLimits)
        ensures
            limits@.entries == Map::<Seq<char>, Limit>::empty(),
    {
        RateLimits::with_clock(Stopwatch::start())
    }

    /// No antenna has a limit. The times of later limits are on `clock`.
    pub fn with_clock(clock: Stopwatch) -> (limits: RateLimits)
        ensures
            limits@ == (LimitTable { clock, entries: Map::empty() }),
    {
        let limits = RateLimits { clock, limits: StringHashMap::new() };
        assert(limits@ =~= LimitTable { clock, entries: Map::empty() });
        limits
    }

    /// Sets the limit of the antenna `id`.
    fn put(&mut self, id: &str, info: RateLimitInfo)
        ensures
            final(self)@ == (LimitTable {
                entries: old(self)@.entries.insert(id@, info@),
                ..old(self)@
            }),
    {
        self.limits.insert(id.to_string(), info);
        assert(self@.entries =~= old(self)@.entries.insert(id@, info@));
    }

    /// The limit that counts for the antenna `id`, and whether it is a new one.
    fn take(&self, id: &str) -> (found: (RateLimitInfo, bool))
        ensures
            found.0@ == limit_for(self@, id@),
            found.1 == !self@.entries.contains_key(id@),
    {
        match self.limits.get(id) {
            Some(info) => (copy_of(info), false),
            None => (RateLimitInfo::with_clock(self.clock, UNANNOUNCED_LIMIT), true),
        }
    }

    /// Gives each antenna that has no limit one of `max_per_minute` matches.
    pub fn add_missing(&mut self, antennas: &Vec<Antenna>, max_per_minute: usize)
        ensures
            final(self)@ == with_missing(old(self)@, ids_of(antennas@), max_per_minute as nat),
    {
        let ghost ids = ids_of(antennas@);
        assert(self@ =~= with_missing(old(self)@, ids.take(0), max_per_minute as nat));
        for i in 0..antennas.len()
            invariant
                ids == ids_of(antennas@),
                self@ == with_missing(old(self)@, ids.take(i as int), max_per_minute as nat),
        {
            let id = antennas[i].id.as_str();
            assert(ids[i as int] == id@);
            assert(ids.take(i + 1) =~= ids.take(i as int).push(id@));
            assert(self.limits@.contains_key(id@) == self@.entries.contains_key(id@));
            proof {
                lemma_push_contains(ids.take(i as int), id@);
            }
            if !self.limits.contains_key(id) {
                self.put(id, RateLimitInfo::with_clock(self.clock, max_per_minute));
            }
            assert(self@ =~= with_missing(
                old(self)@,
                ids.take(i + 1),
                max_per_minute as nat,
            ));
        }
        assert(ids.take(antennas.len() as int) =~= ids);
    }

    /// Gives each antenna a fresh limit of `max_per_minute` matches.
    pub fn reset_all(&mut self, antennas: &Vec<Antenna>, max_per_minute: usize)
        ensures
            final(self)@ == with_fresh(old(self)@, ids_of(antennas@), max_per_minute as nat),
    {
        let ghost ids = ids_of(antennas@);
        assert(self@ =~= with_fresh(old(self)@, ids.take(0), max_per_minute as nat));
        for i in 0..antennas.len()
            invariant
                ids == ids_of(antennas@),
                self@ == with_fresh(old(self)@, ids.take(i as int), max_per_minute as nat),
        {
            let id = antennas[i].id.as_str();
            assert(ids[i as int] == id@);
            assert(ids.take(i + 1) =~= ids.take(i as int).push(id@));
            proof {
                lemma_push_contains(ids.take(i as int), id@);
            }
            self.put(id, RateLimitInfo::with_clock(self.clock, max_per_minute));
            assert(self@ =~= with_fresh(
                old(self)@,
                ids.take(i + 1),
                max_per_minute as nat,
            ));
        }
        assert(ids.take(antennas.len() as int) =~= ids);
    }

    /// Decides on a match of the antenna `id`.
    ///
    /// The clock decides which earlier matches are a minute old. It has no say on a
    /// limit of zero, nor where even all remembered matches leave room.
    pub fn decide(&mut self, id: &str) -> (verdict: Verdict)
        ensures
            exists|readings: Readings|
                (final(self)@, verdict@) == #[trigger] decided(old(self)@, id@, readings),
            limit_for(old(self)@, id@).max_per_minute == 0 ==> !verdict.admitted,
            limit_for(old(self)@, id@).matches.len() < limit_for(old(self)@, id@).max_per_minute
                ==> verdict.admitted,
    {
        let cutoff = Instant::now();
        let stamp = Instant::now();
        let warning = Instant::now();
        proof {
            let limit = limit_for(self@, id@);
            lemma_recent_length(limit.matches, limit.clock.nanos_at(cutoff));
        }
        self.decide_at(id, Readings { cutoff, stamp, warning })
    }

    /// Does what `decide` does when the clock shows `readings`.
    pub fn decide_at(&mut self, id: &str, readings: Readings) -> (verdict: Verdict)
        ensures
            (final(self)@, verdict@) == decided(old(self)@, id@, readings),
    {
        let (mut info, unannounced) = self.take(id);
        let admitted = info.can_process_at(readings.cutoff, readings.stamp);
        let warn = if admitted {
            false
        } else {
            info.should_log_rate_limit_at(readings.warning)
        };
        self.put(id, info);
        Verdict { antenna_id: id.to_string(), unannounced, admitted, warn }
    }

    /// Decides on a match of each of the antennas `ids`, in order.
    pub fn decide_all(&mut self, ids: &Vec<String>) -> (verdicts: Vec<Verdict>)
        ensures
            exists|readings: Seq<Readings>|
                readings.len() == ids.len() && (final(self)@, decisions(verdicts@))
                    == #[trigger] decided_all(old(self)@, string_views(ids@), readings),
    {
        let readings = read_clock(ids.len());
        self.decide_all_at(ids, &readings)
    }

    /// Does what `decide_all` does when the clock shows `readings`, one for each
    /// antenna.
    pub fn decide_all_at(&mut self, ids: &Vec<String>, readings: &Vec<Readings>) -> (verdicts: Vec<
        Verdict,
    >)
        requires
            readings.len() == ids.len(),
        ensures
            (final(self)@, decisions(verdicts@)) == decided_all(
                old(self)@,
                string_views(ids@),
                readings@,
            ),
    {
        let ghost every = string_views(ids@);
        let mut verdicts: Vec<Verdict> = Vec::new();
        assert(decisions(verdicts@) =~= Seq::<Decision>::empty());
        for i in 0..ids.len()
            invariant
                readings.len() == ids.len(),
                every == string_views(ids@),
                (self@, decisions(verdicts@)) == decided_all(
                    old(self)@,
                    every.take(i as int),
                    readings@.take(i as int),
                ),
        {
            assert(every[i as int] == ids@[i as int]@);
            assert(every.take(i + 1).drop_last() =~= every.take(i as int));
            assert(readings@.take(i + 1).drop_last() =~= readings@.take(i as int));
            let verdict = self.decide_at(ids[i].as_str(), readings[i]);
            assert(decisions(verdicts@.push(verdict)) =~= decisions(verdicts@).push(verdict@));
            verdicts.push(verdict);
        }
        assert(every.take(ids.len() as int) =~= every);
        assert(readings@.take(ids.len() as int) =~= readings@);
        verdicts
    }
}

/// What a sequence holds after one more element.
proof fn lemma_push_contains(s: Seq<Seq<char>>, x: Seq<char>)
    ensures
        forall|y: Seq<char>| #[trigger] s.push(x).contains(y) <==> s.contains(y) || y == x,
{
    assert forall|y: Seq<char>| s.contains(y) || y == x implies #[trigger] s.push(x).contains(
        y,
    ) by {
        if y == x {
            assert(s.push(x)[s.len() as int] == y);
        } else {
            let k = choose|k: int| 0 <= k < s.len() && s[k] == y;
            assert(s.push(x)[k] == y);
        }
    }
    assert forall|y: Seq<char>| #[trigger] s.push(x).contains(y) implies s.contains(y) || y
        == x by {
        let k = choose|k: int| 0 <= k < s.push(x).len() && s.push(x)[k] == y;
        if k < s.len() {
            assert(s[k] == y);
        }
    }
}

} // verus!
