//! Keywords, and the antennas that a post's text matches.

use vstd::prelude::*;
use crate::text::{
    chars_of, cut, eq_ignore_ascii_case, pieces, same_ignoring_ascii_case, split, trim, trimmed,
    views, Separator,
};

verus! {

/// A standing search: it matches a text that holds all keywords of one of its groups.
#[derive(Clone, Debug)]
pub struct Antenna {
    pub id: String,
    pub keywords_groups: Vec<Vec<String>>,
}

/// Whether one of the words of `content` is `word`, in either case of ASCII letters.
/// Between two separators in a row, and beside one at an end of the text, the word is
/// empty.
pub open spec fn has_word(content: Seq<char>, word: Seq<char>) -> bool {
    let words = pieces(content, Separator::NonWord);
    exists|i: int|
        0 <= i < words.len() && same_ignoring_ascii_case(trimmed(#[trigger] words[i]), word)
}

/// The parts of `keyword` that whitespace separates, without empty ones.
pub open spec fn keyword_parts(keyword: Seq<char>) -> Seq<Seq<char>> {
    pieces(keyword, Separator::Whitespace).filter(|part: Seq<char>| part.len() > 0)
}

/// Whether `content` matches `keyword`: a keyword of several parts needs each part
/// among the words of `content`, any other keyword stands for one word as it is.
pub open spec fn matches_keyword(content: Seq<char>, keyword: Seq<char>) -> bool {
    let parts = keyword_parts(keyword);
    if parts.len() > 1 {
        forall|i: int| 0 <= i < parts.len() ==> has_word(content, #[trigger] parts[i])
    } else {
        has_word(content, keyword)
    }
}

/// Whether `content` matches every keyword of `group`.
pub open spec fn matches_group(content: Seq<char>, group: Seq<String>) -> bool {
    forall|k: int| 0 <= k < group.len() ==> matches_keyword(content, #[trigger] group[k]@)
}

/// Whether `content` matches one of the groups of `antenna`.
pub open spec fn matches_antenna(content: Seq<char>, antenna: Antenna) -> bool {
    exists|g: int|
        0 <= g < antenna.keywords_groups@.len() && matches_group(
            content,
            #[trigger] antenna.keywords_groups@[g]@,
        )
}

/// The ids of the antennas that `content` matches, in the order of `antennas`.
pub open spec fn matching_ids(content: Seq<char>, antennas: Seq<Antenna>) -> Seq<Seq<char>> {
    antennas.filter(|a: Antenna| matches_antenna(content, a)).map_values(|a: Antenna| a.id@)
}

/// The views of a sequence of strings.
pub open spec fn string_views(v: Seq<String>) -> Seq<Seq<char>> {
    v.map_values(|s: String| s@)
}

/// Whether one of `words`, without the whitespace around it, is `word`.
fn any_word(words: &Vec<Vec<char>>, word: &Vec<char>) -> (answer: bool)
    ensures
        answer == exists|i: int|
            0 <= i < words.len() && same_ignoring_ascii_case(
                trimmed(#[trigger] views(words@)[i]),
                word@,
            ),
{
    for i in 0..words.len()
        invariant
            forall|j: int|
                0 <= j < i ==> !same_ignoring_ascii_case(
                    trimmed(#[trigger] views(words@)[j]),
                    word@,
                ),
    {
        assert(views(words@)[i as int] == words@[i as int]@);
        let candidate = trim(&words[i]);
        if eq_ignore_ascii_case(&candidate, word) {
            return true;
        }
    }
    false
}

/// The parts of `keyword` that whitespace separates.
fn split_keyword(keyword: &Vec<char>) -> (parts: Vec<Vec<char>>)
    ensures
        views(parts@) == keyword_parts(keyword@),
{
    let all = split(keyword, Separator::Whitespace);
    let ghost every = views(all@);
    let ghost filled = |part: Seq<char>| part.len() > 0;
    let mut parts: Vec<Vec<char>> = Vec::new();
    assert(views(parts@) =~= every.take(0).filter(filled)) by {
        reveal(Seq::filter);
    }
    for i in 0..all.len()
        invariant
            every == views(all@),
            filled == (|part: Seq<char>| part.len() > 0),
            views(parts@) == every.take(i as int).filter(filled),
    {
        let part = &all[i];
        assert(every[i as int] == part@);
        assert(every.take(i + 1).drop_last() =~= every.take(i as int));
        reveal(Seq::filter);
        if part.len() > 0 {
            let kept = cut(part, 0, part.len());
            assert(kept@ =~= part@);
            assert(views(parts@.push(kept)) =~= views(parts@).push(kept@));
            parts.push(kept);
        }
    }
    assert(every.take(all.len() as int) =~= every);
    parts
}

/// Whether `content` holds `keyword` as whole words.
///
/// A word of `content` is a run of letters and numbers. A keyword with whitespace
/// between several parts matches if each part is a word of `content`, at any place
/// and in any order; any other keyword matches if it is itself such a word. The case
/// of ASCII letters does not matter.
///
/// The empty keyword stands for an empty word. There is one in an empty text, before a
/// first and behind a last character that is neither letter nor number, and between two
/// such characters in a row.
pub fn matches_word_boundary(content: &str, keyword: &str) -> (answer: bool)
    ensures
        answer == matches_keyword(content@, keyword@),
{
    let words = split(&chars_of(content), Separator::NonWord);
    assert(views(words@).len() == words.len());
    let wanted = chars_of(keyword);
    let parts = split_keyword(&wanted);
    assert(views(parts@).len() == parts.len());
    if parts.len() > 1 {
        for i in 0..parts.len()
            invariant
                views(words@) == pieces(content@, Separator::NonWord),
                views(words@).len() == words.len(),
                views(parts@) == keyword_parts(keyword@),
                views(parts@).len() == parts.len(),
                parts.len() > 1,
                forall|j: int| 0 <= j < i ==> has_word(content@, #[trigger] views(parts@)[j]),
        {
            assert(views(parts@)[i as int] == parts@[i as int]@);
            if !any_word(&words, &parts[i]) {
                return false;
            }
        }
        return true;
    }
    any_word(&words, &wanted)
}

/// Whether `content` matches every keyword of `group`.
pub fn group_matches(content: &str, group: &Vec<String>) -> (answer: bool)
    ensures
        answer == matches_group(content@, group@),
{
    for k in 0..group.len()
        invariant
            forall|j: int| 0 <= j < k ==> matches_keyword(content@, #[trigger] group@[j]@),
    {
        if !matches_word_boundary(content, group[k].as_str()) {
            return false;
        }
    }
    true
}

/// Whether `content` matches one of the groups of `antenna`.
pub fn antenna_matches(content: &str, antenna: &Antenna) -> (answer: bool)
    ensures
        answer == matches_antenna(content@, *antenna),
{
    for g in 0..antenna.keywords_groups.len()
        invariant
            forall|j: int|
                0 <= j < g ==> !matches_group(
                    content@,
                    #[trigger] antenna.keywords_groups@[j]@,
                ),
    {
        if group_matches(content, &antenna.keywords_groups[g]) {
            return true;
        }
    }
    false
}

/// The ids of the antennas that `content` matches, in the order of `antennas`.
pub fn matching_antennas(content: &str, antennas: &Vec<Antenna>) -> (ids: Vec<String>)
    ensures
        string_views(ids@) == matching_ids(content@, antennas@),
{
    let ghost hit = |a: Antenna| matches_antenna(content@, a);
    let ghost name = |a: Antenna| a.id@;
    let mut ids: Vec<String> = Vec::new();
    assert(string_views(ids@) =~= antennas@.take(0).filter(hit).map_values(name)) by {
        reveal(Seq::filter);
    }
    for i in 0..antennas.len()
        invariant
            hit == (|a: Antenna| matches_antenna(content@, a)),
            name == (|a: Antenna| a.id@),
            string_views(ids@) == antennas@.take(i as int).filter(hit).map_values(name),
    {
        let antenna = &antennas[i];
        let ghost before = antennas@.take(i as int).filter(hit);
        assert(antennas@.take(i + 1).drop_last() =~= antennas@.take(i as int));
        reveal(Seq::filter);
        if antenna_matches(content, antenna) {
            let id = antenna.id.clone();
            assert(string_views(ids@.push(id)) =~= string_views(ids@).push(id@));
            assert(before.push(*antenna).map_values(name) =~= before.map_values(name).push(id@));
            ids.push(id);
        }
    }
    assert(antennas@.take(antennas.len() as int) =~= antennas@);
    ids
}

} // verus!
