//! What the service counts and measures.

use vstd::prelude::*;
use crate::keywords::string_views;
use crate::limits::Verdict;

verus! {

/// A metric: its name, what it says, and the names of its labels.
#[derive(Debug)]
pub struct MetricDefinition {
    pub name: String,
    pub help: String,
    pub labels: Vec<String>,
}

/// The counters of decided matches. Each is kept for each antenna.
#[derive(Clone, Copy, Debug, PartialEq, Eq, Structural)]
pub enum MatchCounter {
    /// `posts_matched` counts the match.
    Matched,
    /// `posts_rate_limited` counts the match.
    RateLimited,
}

/// The counter that counts a decided match, for the antenna that the verdict names.
pub fn counter_for(verdict: &Verdict) -> (counter: MatchCounter)
    ensures
        counter == (if verdict.admitted {
            MatchCounter::Matched
        } else {
            MatchCounter::RateLimited
        }),
{
    if verdict.admitted {
        MatchCounter::Matched
    } else {
        MatchCounter::RateLimited
    }
}

/// Whether `definition` has this name and this help, and these labels.
pub open spec fn defines(
    definition: MetricDefinition,
    name: Seq<char>,
    help: Seq<char>,
    labels: Seq<Seq<char>>,
) -> bool {
    &&& definition.name@ == name
    &&& definition.help@ == help
    &&& string_views(definition.labels@) == labels
}

/// A metric without labels.
fn plain(name: &str, help: &str) -> (definition: MetricDefinition)
    ensures
        defines(definition, name@, help@, Seq::empty()),
{
    let labels: Vec<String> = Vec::new();
    assert(string_views(labels@) =~= Seq::empty());
    MetricDefinition { name: name.to_string(), help: help.to_string(), labels }
}

/// A metric that is kept for each antenna.
fn by_antenna(name: &str, help: &str) -> (definition: MetricDefinition)
    ensures
        defines(definition, name@, help@, seq!["antenna_id"@]),
{
    let mut labels: Vec<String> = Vec::new();
    labels.push("antenna_id".to_string());
    assert(string_views(labels@) =~= seq!["antenna_id"@]);
    MetricDefinition { name: name.to_string(), help: help.to_string(), labels }
}

/// Counts the messages of the stream.
pub fn posts_processed() -> (definition: MetricDefinition)
    ensures
        defines(
            definition,
            "super_antenna_posts_processed_total"@,
            "Total number of posts processed"@,
            Seq::empty(),
        ),
{
    plain("super_antenna_posts_processed_total", "Total number of posts processed")
}

/// Counts the admitted matches of each antenna.
pub fn posts_matched() -> (definition: MetricDefinition)
    ensures
        defines(
            definition,
            "super_antenna_posts_matched_total"@,
            "Total number of posts matched by antenna"@,
            seq!["antenna_id"@],
        ),
{
    by_antenna("super_antenna_posts_matched_total", "Total number of posts matched by antenna")
}

/// Counts the refused matches of each antenna.
pub fn posts_rate_limited() -> (definition: MetricDefinition)
    ensures
        defines(
            definition,
            "super_antenna_posts_rate_limited_total"@,
            "Total number of posts rate limited by antenna"@,
            seq!["antenna_id"@],
        ),
{
    by_antenna(
        "super_antenna_posts_rate_limited_total",
        "Total number of posts rate limited by antenna",
    )
}

/// Shows how many antennas there are.
pub fn active_antennas() -> (definition: MetricDefinition)
    ensures
        defines(
            definition,
            "super_antenna_active_antennas"@,
            "Number of active antennas"@,
            Seq::empty(),
        ),
{
    plain("super_antenna_active_antennas", "Number of active antennas")
}

/// Measures how long a message takes.
pub fn post_processing_time() -> (definition: MetricDefinition)
    ensures
        defines(
            definition,
            "super_antenna_post_processing_time_seconds"@,
            "Time taken to process a post"@,
            Seq::empty(),
        ),
{
    plain("super_antenna_post_processing_time_seconds", "Time taken to process a post")
}

/// The upper bounds of the processing times that are told apart, in milliseconds.
pub fn processing_time_bounds() -> (bounds: Vec<u64>)
    ensures
        bounds@ == seq![1u64, 5, 10, 25, 50, 100, 250, 500, 1000, 2500, 5000],
{
    let bounds: Vec<u64> = vec![1, 5, 10, 25, 50, 100, 250, 500, 1000, 2500, 5000];
    bounds
}

/// A definition has exactly the name, the help and the labels that it is said to have.
pub proof fn law_a_definition_is_as_said(
    definition: MetricDefinition,
    name: Seq<char>,
    help: Seq<char>,
    labels: Seq<Seq<char>>,
)
    requires
        defines(definition, name, help, labels),
    ensures
        definition.name@ == name,
        definition.help@ == help,
        definition.labels@.len() == labels.len(),
        forall|i: int| 0 <= i < labels.len() ==> (#[trigger] definition.labels@[i])@ == labels[i],
{
    assert forall|i: int| 0 <= i < labels.len() implies (#[trigger] definition.labels@[i])@
        == labels[i] by {
        assert(string_views(definition.labels@)[i] == definition.labels@[i]@);
    }
}

} // verus!
