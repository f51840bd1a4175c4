//! Which posts are imported.

use vstd::prelude::*;
use crate::keyword_laws::law_strings_are_seen_one_for_one;
use crate::keywords::{matches_antenna, matching_ids, string_views, Antenna};
use crate::limit_laws::{
    law_antennas_do_not_share_a_limit, law_each_match_gets_one_decision,
    law_limits_keep_their_stopwatches,
};
use crate::limits::{decided, decided_all, limit_for, Decision, LimitTable, Readings};
use crate::posts::{admitted_ids, is_classification, is_import_for, Import, Incoming};
use crate::rate_limit::lemma_recent_length;
use crate::sse::{
    event_of, is_parse_of, law_written_message_is_read_back, written_message, ServerSentEvent,
    SseError,
};
use crate::text::{lines_of, trimmed};

verus! {

/// There is an admitted id exactly if a decision admits.
proof fn lemma_admitted_ids(all: Seq<Decision>)
    ensures
        admitted_ids(all).len() > 0 <==> exists|i: int|
            0 <= i < all.len() && (#[trigger] all[i]).admitted,
        forall|id: Seq<char>| #[trigger]
            admitted_ids(all).contains(id) ==> exists|i: int|
                0 <= i < all.len() && (#[trigger] all[i]).admitted && all[i].antenna_id == id,
{
    let hit = |d: Decision| d.admitted;
    let kept = all.filter(hit);
    if kept.len() > 0 {
        all.lemma_filter_pred(hit, 0);
        assert(kept.contains(kept[0]));
        all.lemma_filter_contains_rev(hit, kept[0]);
        let i = choose|i: int| 0 <= i < all.len() && all[i] == kept[0];
        assert(all[i].admitted);
    }
    if exists|i: int| 0 <= i < all.len() && (#[trigger] all[i]).admitted {
        let i = choose|i: int| 0 <= i < all.len() && (#[trigger] all[i]).admitted;
        all.lemma_filter_contains(hit, i);
    }
    assert forall|id: Seq<char>| #[trigger] admitted_ids(all).contains(id) implies exists|i: int|
        0 <= i < all.len() && (#[trigger] all[i]).admitted && all[i].antenna_id == id by {
        let k = choose|k: int| 0 <= k < kept.len() && admitted_ids(all)[k] == id;
        all.lemma_filter_pred(hit, k);
        assert(kept.contains(kept[k]));
        all.lemma_filter_contains_rev(hit, kept[k]);
        let i = choose|i: int| 0 <= i < all.len() && all[i] == kept[k];
        assert(all[i].admitted && all[i].antenna_id == id);
    }
}

/// A post is imported exactly if one of its matches is admitted.
pub proof fn law_imported_exactly_if_admitted(
    all: Seq<Decision>,
    uri: Seq<char>,
    base_url: Seq<char>,
    api_token: Seq<char>,
    import: Option<Import>,
)
    requires
        is_import_for(all, uri, base_url, api_token, import),
    ensures
        import is Some <==> exists|i: int| 0 <= i < all.len() && (#[trigger] all[i]).admitted,
{
    lemma_admitted_ids(all);
}

/// A post that matches no antenna is not imported, and uses up no limit.
pub proof fn law_unmatched_post_changes_nothing(
    content: Seq<char>,
    antennas: Seq<Antenna>,
    table: LimitTable,
    readings: Seq<Readings>,
)
    requires
        forall|i: int|
            0 <= i < antennas.len() ==> !matches_antenna(content, #[trigger] antennas[i]),
    ensures
        decided_all(table, matching_ids(content, antennas), readings).0 == table,
        admitted_ids(decided_all(table, matching_ids(content, antennas), readings).1).len() == 0,
{
    let hit = |a: Antenna| matches_antenna(content, a);
    let kept = antennas.filter(hit);
    if kept.len() > 0 {
        antennas.lemma_filter_pred(hit, 0);
        assert(kept.contains(kept[0]));
        antennas.lemma_filter_contains_rev(hit, kept[0]);
        let i = choose|i: int| 0 <= i < antennas.len() && antennas[i] == kept[0];
        assert(!matches_antenna(content, antennas[i]));
    }
    assert(matching_ids(content, antennas).len() == 0);
    lemma_admitted_ids(Seq::<Decision>::empty());
}

/// A post is imported only for antennas that it matches.
pub proof fn law_imported_only_for_matching_antennas(
    content: Seq<char>,
    antennas: Seq<Antenna>,
    table: LimitTable,
    readings: Seq<Readings>,
    id: Seq<char>,
)
    requires
        admitted_ids(
            decided_all(table, matching_ids(content, antennas), readings).1,
        ).contains(id),
    ensures
        exists|i: int|
            0 <= i < antennas.len() && matches_antenna(content, #[trigger] antennas[i])
                && antennas[i].id@ == id,
{
    let hit = |a: Antenna| matches_antenna(content, a);
    let kept = antennas.filter(hit);
    let ids = matching_ids(content, antennas);
    let all = decided_all(table, ids, readings).1;
    lemma_admitted_ids(all);
    law_each_match_gets_one_decision(table, ids, readings);
    let k = choose|k: int|
        0 <= k < all.len() && (#[trigger] all[k]).admitted && all[k].antenna_id == id;
    assert(ids[k] == id);
    antennas.lemma_filter_pred(hit, k);
    assert(kept.contains(kept[k]));
    antennas.lemma_filter_contains_rev(hit, kept[k]);
    let i = choose|i: int| 0 <= i < antennas.len() && antennas[i] == kept[k];
    assert(matches_antenna(content, antennas[i]) && antennas[i].id@ == id);
}

/// The decisions on the first matches do not depend on later ones.
proof fn lemma_decisions_of_front(
    table: LimitTable,
    ids: Seq<Seq<char>>,
    readings: Seq<Readings>,
    k: int,
)
    requires
        readings.len() == ids.len(),
        0 <= k < ids.len(),
    ensures
        decided_all(table, ids, readings).1.len() == ids.len(),
        decided_all(table, ids, readings).1[k] == decided(
            decided_all(table, ids.take(k), readings.take(k)).0,
            ids[k],
            readings[k],
        ).1,
    decreases ids.len(),
{
    law_each_match_gets_one_decision(table, ids, readings);
    law_each_match_gets_one_decision(table, ids.drop_last(), readings.drop_last());
    if k == ids.len() - 1 {
        assert(ids.take(k) =~= ids.drop_last());
        assert(readings.take(k) =~= readings.drop_last());
    } else {
        lemma_decisions_of_front(table, ids.drop_last(), readings.drop_last(), k);
        assert(ids.drop_last().take(k) =~= ids.take(k));
        assert(readings.drop_last().take(k) =~= readings.take(k));
    }
}

/// A post that matches an antenna with room is imported, whatever the clock shows and
/// whichever other antennas it matches.
pub proof fn law_match_with_room_is_imported(
    table: LimitTable,
    ids: Seq<Seq<char>>,
    readings: Seq<Readings>,
    k: int,
)
    requires
        readings.len() == ids.len(),
        0 <= k < ids.len(),
        !ids.take(k).contains(ids[k]),
        limit_for(table, ids[k]).matches.len() < limit_for(table, ids[k]).max_per_minute,
    ensures
        admitted_ids(decided_all(table, ids, readings).1).len() > 0,
{
    let all = decided_all(table, ids, readings).1;
    let before = decided_all(table, ids.take(k), readings.take(k)).0;
    lemma_decisions_of_front(table, ids, readings, k);
    law_antennas_do_not_share_a_limit(table, ids.take(k), readings.take(k), ids[k]);
    law_limits_keep_their_stopwatches(table, ids.take(k), readings.take(k), ids[k]);
    assert(limit_for(before, ids[k]) == limit_for(table, ids[k]));
    let limit = limit_for(table, ids[k]);
    lemma_recent_length(limit.matches, limit.clock.nanos_at(readings[k].cutoff));
    assert(all[k].admitted);
    lemma_admitted_ids(all);
}

/// The antennas that a post is imported for are those whose match is admitted, in order:
/// one more decision adds its antenna if it admits, and nothing if it does not.
pub proof fn law_each_admitted_antenna_is_named(all: Seq<Decision>, decision: Decision)
    ensures
        admitted_ids(Seq::empty()) == Seq::<Seq<char>>::empty(),
        decision.admitted ==> admitted_ids(all.push(decision)) == admitted_ids(all).push(
            decision.antenna_id,
        ),
        !decision.admitted ==> admitted_ids(all.push(decision)) == admitted_ids(all),
{
    let hit = |d: Decision| d.admitted;
    let name = |d: Decision| d.antenna_id;
    reveal(Seq::filter);
    assert(all.push(decision).drop_last() =~= all);
    let before = all.filter(hit);
    assert(before.push(decision).map_values(name) =~= before.map_values(name).push(
        decision.antenna_id,
    ));
    assert(admitted_ids(Seq::empty()) =~= Seq::<Seq<char>>::empty());
}

/// An import asks the instance at `base_url` to show the post by its own uri, as the one
/// whom `api_token` authorises, for the antennas whose match is admitted; without any such
/// antenna there is none.
pub proof fn law_an_import_asks_for_the_post(
    all: Seq<Decision>,
    uri: Seq<char>,
    base_url: Seq<char>,
    api_token: Seq<char>,
    import: Option<Import>,
)
    requires
        is_import_for(all, uri, base_url, api_token, import),
    ensures
        import is Some <==> admitted_ids(all).len() > 0,
        import is Some ==> {
            &&& import->0.url@ == base_url + "/api/ap/show"@
            &&& import->0.authorization@ == "Bearer "@ + api_token
            &&& import->0.request.uri@ == uri
            &&& import->0.antennas@.len() == admitted_ids(all).len()
            &&& forall|i: int|
                0 <= i < admitted_ids(all).len() ==> (#[trigger] import->0.antennas@[i])@
                    == admitted_ids(all)[i]
        },
{
    if import is Some {
        law_strings_are_seen_one_for_one(import->0.antennas@);
        assert forall|i: int| 0 <= i < admitted_ids(all).len() implies (
        #[trigger] import->0.antennas@[i])@ == admitted_ids(all)[i] by {
            assert(string_views(import->0.antennas@)[i] == import->0.antennas@[i]@);
        }
    }
}

/// A message that is parsed as an event brings a post exactly if the type of the event is
/// `update`, and in either case is handed on as it was parsed. One that is no event is
/// malformed.
pub proof fn law_only_updates_bring_posts(
    lines: Seq<Seq<char>>,
    incoming: Incoming,
    result: Result<ServerSentEvent, SseError>,
)
    requires
        is_classification(lines, incoming),
        is_parse_of(lines, result),
    ensures
        match incoming {
            Incoming::Malformed(error) => result == Err::<ServerSentEvent, SseError>(error),
            Incoming::OtherEvent(sse) => {
                &&& result is Ok
                &&& sse.event@ != "update"@
                &&& sse.event@ == result->Ok_0.event@
                &&& sse.data@ == result->Ok_0.data@
                &&& sse.lacks_data == result->Ok_0.lacks_data
            },
            Incoming::Update(sse) => {
                &&& result is Ok
                &&& sse.event@ == "update"@
                &&& sse.event@ == result->Ok_0.event@
                &&& sse.data@ == result->Ok_0.data@
                &&& sse.lacks_data == result->Ok_0.lacks_data
            },
        },
{
}

/// A post that is written as an update is taken in with its data as it was written, and any
/// other event is passed over.
pub proof fn law_written_updates_are_taken_in(
    event: Seq<char>,
    data: Seq<char>,
    incoming: Incoming,
)
    requires
        event.len() > 0,
        trimmed(event) == event,
        trimmed(data) == data,
        !event.contains('\n'),
        !data.contains('\n'),
        is_classification(lines_of(written_message(event, data)), incoming),
    ensures
        incoming is Update <==> event == "update"@,
        incoming is OtherEvent <==> event != "update"@,
        incoming is Update && data.len() > 0 ==> incoming->Update_0.data@ == data,
        incoming is Update && data.len() == 0 ==> incoming->Update_0.data@ == "{}"@,
{
    law_written_message_is_read_back(event, data);
    if event_of(lines_of(written_message(event, data))) == "update"@ {
        assert(is_parse_of(
            lines_of(written_message(event, data)),
            Ok::<ServerSentEvent, SseError>(incoming->Update_0),
        ));
    }
}

} // verus!
