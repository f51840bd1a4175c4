//! From a message of the stream to the import of a post.

use vstd::prelude::*;
use crate::api::{bearer, import_url};
use crate::keywords::{matching_antennas, matching_ids, string_views, Antenna};
use crate::limits::{
    decided_all, decisions, read_clock, Decision, RateLimits, Readings, Verdict,
};
use crate::sse::{event_of, is_parse_of, parse_server_sent_event, ServerSentEvent, SseError};
use crate::text::lines_of;

verus! {

/// A post of the stream.
#[derive(Debug)]
pub struct Post {
    pub id: String,
    pub content: String,
    /// What the post is imported by.
    pub uri: String,
    pub account: Account,
}

/// The author of a post.
#[derive(Debug)]
pub struct Account {
    pub username: String,
}

/// What the instance is asked to import.
#[derive(Debug)]
pub struct ImportRequest {
    pub uri: String,
}

/// What a message of the stream is.
#[derive(Debug)]
pub enum Incoming {
    /// No event.
    Malformed(SseError),
    /// An event that brings no new post.
    OtherEvent(ServerSentEvent),
    /// A new post, which the data hold as JSON text.
    Update(ServerSentEvent),
}

/// A request to import a post.
#[derive(Debug)]
pub struct Import {
    pub url: String,
    pub authorization: String,
    pub request: ImportRequest,
    /// The antennas that the post is imported for.
    pub antennas: Vec<String>,
}

/// What is done with a post.
#[derive(Debug)]
pub struct Settlement {
    /// The decision for each antenna that matched, in order.
    pub verdicts: Vec<Verdict>,
    /// The import, if there is to be one.
    pub import: Option<Import>,
}

/// The ids of the antennas whose match is admitted, in order.
pub open spec fn admitted_ids(all: Seq<Decision>) -> Seq<Seq<char>> {
    all.filter(|d: Decision| d.admitted).map_values(|d: Decision| d.antenna_id)
}

/// Whether `incoming` is what a message with these lines is.
pub open spec fn is_classification(lines: Seq<Seq<char>>, incoming: Incoming) -> bool {
    if event_of(lines).len() == 0 {
        incoming == Incoming::Malformed(SseError::MissingEvent)
    } else if event_of(lines) != "update"@ {
        incoming is OtherEvent && is_parse_of(lines, Ok(incoming->OtherEvent_0))
    } else {
        incoming is Update && is_parse_of(lines, Ok(incoming->Update_0))
    }
}

/// Whether `import` is the import that these decisions call for.
pub open spec fn is_import_for(
    all: Seq<Decision>,
    uri: Seq<char>,
    base_url: Seq<char>,
    api_token: Seq<char>,
    import: Option<Import>,
) -> bool {
    if admitted_ids(all).len() == 0 {
        import is None
    } else {
        &&& import is Some
        &&& import->0.url@ == base_url + "/api/ap/show"@
        &&& import->0.authorization@ == "Bearer "@ + api_token
        &&& import->0.request.uri@ == uri
        &&& string_views(import->0.antennas@) == admitted_ids(all)
    }
}

/// What `str::to_lowercase` makes of a text.
pub uninterp spec fn unicode_lowercase(s: Seq<char>) -> Seq<char>;

/// `str::to_lowercase` depends on the text alone. Nothing is claimed of the result
/// beyond that.
pub assume_specification[ str::to_lowercase ](s: &str) -> (lower: String)
    ensures
        lower@ == unicode_lowercase(s@),
;

/// Says what a message of the stream is: only an event of the type `update` brings a
/// new post.
pub fn classify(message: &str) -> (incoming: Incoming)
    ensures
        is_classification(lines_of(message@), incoming),
{
    match parse_server_sent_event(message) {
        Err(error) => Incoming::Malformed(error),
        Ok(sse) => {
            if sse.event != "update".to_string() {
                Incoming::OtherEvent(sse)
            } else {
                Incoming::Update(sse)
            }
        },
    }
}

/// The ids of the antennas that a post matches, in the order of `antennas`.
pub fn match_post(post: &Post, antennas: &Vec<Antenna>) -> (ids: Vec<String>)
    ensures
        string_views(ids@) == matching_ids(unicode_lowercase(post.content@), antennas@),
{
    let content = post.content.as_str().to_lowercase();
    matching_antennas(content.as_str(), antennas)
}

/// The import that the verdicts on a post call for: one if any of its matches is
/// admitted.
pub fn plan_import(
    verdicts: &Vec<Verdict>,
    uri: String,
    base_url: &str,
    api_token: &str,
) -> (import: Option<Import>)
    ensures
        is_import_for(decisions(verdicts@), uri@, base_url@, api_token@, import),
{
    let ghost all = decisions(verdicts@);
    let ghost hit = |d: Decision| d.admitted;
    let ghost name = |d: Decision| d.antenna_id;
    let mut antennas: Vec<String> = Vec::new();
    assert(string_views(antennas@) =~= all.take(0).filter(hit).map_values(name)) by {
        reveal(Seq::filter);
    }
    for i in 0..verdicts.len()
        invariant
            all == decisions(verdicts@),
            hit == (|d: Decision| d.admitted),
            name == (|d: Decision| d.antenna_id),
            string_views(antennas@) == all.take(i as int).filter(hit).map_values(name),
    {
        let verdict = &verdicts[i];
        let ghost before = all.take(i as int).filter(hit);
        assert(all[i as int] == verdict@);
        assert(all.take(i + 1).drop_last() =~= all.take(i as int));
        reveal(Seq::filter);
        if verdict.admitted {
            let id = verdict.antenna_id.clone();
            assert(string_views(antennas@.push(id)) =~= string_views(antennas@).push(id@));
            assert(before.push(verdict@).map_values(name) =~= before.map_values(name).push(id@));
            antennas.push(id);
        }
    }
    assert(all.take(verdicts.len() as int) =~= all);
    assert(string_views(antennas@).len() == antennas.len());
    if antennas.len() == 0 {
        return None;
    }
    Some(
        Import {
            url: import_url(base_url),
            authorization: bearer(api_token),
            request: ImportRequest { uri },
            antennas,
        },
    )
}

/// Decides on the matches of a post and on its import.
pub fn settle(
    post: Post,
    matching: &Vec<String>,
    limits: &mut RateLimits,
    base_url: &str,
    api_token: &str,
) -> (settlement: Settlement)
    ensures
        exists|readings: Seq<Readings>|
            readings.len() == matching.len() && (final(limits)@, decisions(
                settlement.verdicts@,
            )) == #[trigger] decided_all(old(limits)@, string_views(matching@), readings),
        is_import_for(
            decisions(settlement.verdicts@),
            post.uri@,
            base_url@,
            api_token@,
            settlement.import,
        ),
{
    let readings = read_clock(matching.len());
    settle_at(post, matching, limits, &readings, base_url, api_token)
}

/// Does what `settle` does when the clock shows `readings`, one for each antenna that
/// matched.
pub fn settle_at(
    post: Post,
    matching: &Vec<String>,
    limits: &mut RateLimits,
    readings: &Vec<Readings>,
    base_url: &str,
    api_token: &str,
) -> (settlement: Settlement)
    requires
        readings.len() == matching.len(),
    ensures
        (final(limits)@, decisions(settlement.verdicts@)) == decided_all(
            old(limits)@,
            string_views(matching@),
            readings@,
        ),
        is_import_for(
            decisions(settlement.verdicts@),
            post.uri@,
            base_url@,
            api_token@,
            settlement.import,
        ),
{
    let verdicts = limits.decide_all_at(matching, readings);
    let import = plan_import(&verdicts, post.uri, base_url, api_token);
    Settlement { verdicts, import }
}

/// Decides on the matches of a post with `antennas` and on its import.
pub fn handle_post(
    post: Post,
    antennas: &Vec<Antenna>,
    limits: &mut RateLimits,
    base_url: &str,
    api_token: &str,
) -> (settlement: Settlement)
    ensures
        exists|readings: Seq<Readings>|
            readings.len() == matching_ids(
                unicode_lowercase(post.content@),
                antennas@,
            ).len() && (final(limits)@, decisions(settlement.verdicts@)) == #[trigger] decided_all(
                old(limits)@,
                matching_ids(unicode_lowercase(post.content@), antennas@),
                readings,
            ),
        is_import_for(
            decisions(settlement.verdicts@),
            post.uri@,
            base_url@,
            api_token@,
            settlement.import,
        ),
{
    let matching = match_post(&post, antennas);
    assert(string_views(matching@).len() == matching.len());
    settle(post, &matching, limits, base_url, api_token)
}

} // verus!
