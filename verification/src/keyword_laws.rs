//! What keyword matching promises for every text and every keyword.

use vstd::prelude::*;
use crate::keywords::{
    has_word, keyword_parts, matches_antenna, matches_group, matches_keyword, matching_ids,
    string_views, Antenna,
};
use crate::text::{
    ascii_lower, ascii_lower_all, is_space, is_word_char, lemma_pieces_nonempty, pieces,
    same_ignoring_ascii_case, trimmed, Separator,
};
use crate::text_laws::{
    is_same_letter, law_letters_and_numbers_make_words, law_only_ascii_case_is_ignored,
};

verus! {

/// Whether `content[i..j]` is a whole word: a run of word characters that no word
/// character touches on either side.
pub open spec fn is_whole_word(content: Seq<char>, i: int, j: int) -> bool {
    &&& 0 <= i < j <= content.len()
    &&& forall|k: int| i <= k < j ==> is_word_char(#[trigger] content[k])
    &&& i == 0 || !is_word_char(content[i - 1])
    &&& j == content.len() || !is_word_char(content[j])
}

/// The place of the piece `k` of `s`: a stretch without separators, bounded by
/// separators or by the ends of `s`.
proof fn lemma_place_of_piece(s: Seq<char>, sep: Separator, k: int) -> (place: (int, int))
    requires
        0 <= k < pieces(s, sep).len(),
    ensures
        0 <= place.0 <= place.1 <= s.len(),
        pieces(s, sep)[k] == s.subrange(place.0, place.1),
        forall|m: int| place.0 <= m < place.1 ==> !sep.spec_cuts(#[trigger] s[m]),
        place.0 == 0 || sep.spec_cuts(s[place.0 - 1]),
        place.1 == s.len() || sep.spec_cuts(s[place.1]),
        k == pieces(s, sep).len() - 1 <==> place.1 == s.len(),
        pieces(s.take(place.0), sep).len() == k + 1,
    decreases s.len(),
{
    let n = s.len() as int;
    if n == 0 {
        assert(s.subrange(0, 0) =~= Seq::empty());
        assert(s.take(0) =~= s);
        (0, 0)
    } else {
        let t = s.drop_last();
        let before = pieces(t, sep);
        lemma_pieces_nonempty(t, sep);
        if sep.spec_cuts(s.last()) {
            if k == before.len() {
                assert(s.subrange(n, n) =~= Seq::empty());
                assert(s.take(n) =~= s);
                (n, n)
            } else {
                let (i, j) = lemma_place_of_piece(t, sep, k);
                assert(s.take(i) =~= t.take(i));
                assert(s.subrange(i, j) =~= t.subrange(i, j));
                assert forall|m: int| i <= m < j implies !sep.spec_cuts(#[trigger] s[m]) by {
                    assert(s[m] == t[m]);
                }
                (i, j)
            }
        } else {
            let (i, j) = lemma_place_of_piece(t, sep, k);
            assert(s.take(i) =~= t.take(i));
            assert forall|m: int| i <= m < j implies !sep.spec_cuts(#[trigger] s[m]) by {
                assert(s[m] == t[m]);
            }
            if k == before.len() - 1 {
                assert(s.subrange(i, n) =~= t.subrange(i, j).push(s.last()));
                (i, n)
            } else {
                assert(s.subrange(i, j) =~= t.subrange(i, j));
                (i, j)
            }
        }
    }
}

/// Every stretch without separators that is bounded by separators or by the ends of the
/// text is a piece, be it empty or not: the one behind as many pieces as the text before
/// it has separators.
proof fn lemma_stretch_is_piece(s: Seq<char>, sep: Separator, i: int, j: int) -> (k: int)
    requires
        0 <= i <= j <= s.len(),
        forall|m: int| i <= m < j ==> !sep.spec_cuts(#[trigger] s[m]),
        i == 0 || sep.spec_cuts(s[i - 1]),
        j == s.len() || sep.spec_cuts(s[j]),
    ensures
        0 <= k < pieces(s, sep).len(),
        pieces(s, sep)[k] == s.subrange(i, j),
        k == pieces(s, sep).len() - 1 <==> j == s.len(),
        pieces(s.take(i), sep).len() == k + 1,
    decreases s.len(),
{
    if j == s.len() {
        lemma_pieces_nonempty(s, sep);
        let last = pieces(s, sep).len() - 1;
        let (from, to) = lemma_place_of_piece(s, sep, last);
        if from < i {
            assert(!sep.spec_cuts(s[i - 1]));
        }
        if i < from {
            assert(!sep.spec_cuts(s[from - 1]));
        }
        last
    } else {
        let t = s.drop_last();
        assert(t.len() >= j);
        assert(j < t.len() ==> t[j] == s[j]);
        assert forall|m: int| i <= m < j implies !sep.spec_cuts(#[trigger] t[m]) by {
            assert(t[m] == s[m]);
        }
        let k = lemma_stretch_is_piece(t, sep, i, j);
        assert(s.subrange(i, j) =~= t.subrange(i, j));
        assert(s.take(i) =~= t.take(i));
        k
    }
}

/// Trimming leaves a text without whitespace as it is.
proof fn lemma_trimmed_word(s: Seq<char>)
    requires
        forall|m: int| 0 <= m < s.len() ==> !is_space(#[trigger] s[m]),
    ensures
        trimmed(s) == s,
{
    if s.len() > 0 {
        assert(!is_space(s[0]));
        assert(!is_space(s[s.len() - 1]));
    }
}

/// Trimming changes none of the words of a text.
proof fn lemma_words_are_trimmed(s: Seq<char>, k: int)
    requires
        0 <= k < pieces(s, Separator::NonWord).len(),
    ensures
        trimmed(pieces(s, Separator::NonWord)[k]) == pieces(s, Separator::NonWord)[k],
{
    let (i, j) = lemma_place_of_piece(s, Separator::NonWord, k);
    let word = s.subrange(i, j);
    assert forall|m: int| 0 <= m < word.len() implies !is_space(#[trigger] word[m]) by {
        assert(!Separator::NonWord.spec_cuts(s[i + m]));
    }
    lemma_trimmed_word(word);
}

/// A word is found exactly where it stands as a whole word: never inside a longer
/// run of letters and numbers. So a word that holds any other character is never
/// found. Where the empty word is found, `law_empty_keyword_matches_an_empty_word` says.
pub proof fn law_only_whole_words_match(content: Seq<char>, word: Seq<char>)
    requires
        word.len() > 0,
    ensures
        has_word(content, word) <==> exists|i: int, j: int|
            #![trigger content.subrange(i, j)]
            is_whole_word(content, i, j) && same_ignoring_ascii_case(
                content.subrange(i, j),
                word,
            ),
        has_word(content, word) ==> forall|m: int|
            0 <= m < word.len() ==> is_word_char(#[trigger] word[m]),
{
    let words = pieces(content, Separator::NonWord);
    if has_word(content, word) {
        let k = choose|k: int|
            0 <= k < words.len() && same_ignoring_ascii_case(trimmed(#[trigger] words[k]), word);
        lemma_words_are_trimmed(content, k);
        let (i, j) = lemma_place_of_piece(content, Separator::NonWord, k);
        let found = content.subrange(i, j);
        assert(ascii_lower_all(found).len() == ascii_lower_all(word).len());
        assert forall|m: int| i <= m < j implies is_word_char(#[trigger] content[m]) by {
            assert(!Separator::NonWord.spec_cuts(content[m]));
        }
        assert(is_whole_word(content, i, j));
        assert forall|m: int| 0 <= m < word.len() implies is_word_char(#[trigger] word[m]) by {
            assert(ascii_lower_all(found)[m] == ascii_lower_all(word)[m]);
            assert(is_word_char(content[i + m]));
            lemma_lower_keeps_class(word[m], Separator::NonWord);
            lemma_lower_keeps_class(found[m], Separator::NonWord);
        }
    }
    if exists|i: int, j: int|
        #![trigger content.subrange(i, j)]
        is_whole_word(content, i, j) && same_ignoring_ascii_case(content.subrange(i, j), word) {
        let (i, j) = choose|i: int, j: int|
            #![trigger content.subrange(i, j)]
            is_whole_word(content, i, j) && same_ignoring_ascii_case(
                content.subrange(i, j),
                word,
            );
        assert forall|m: int| i <= m < j implies !Separator::NonWord.spec_cuts(
            #[trigger] content[m],
        ) by {
            assert(is_word_char(content[m]));
        }
        let k = lemma_stretch_is_piece(content, Separator::NonWord, i, j);
        lemma_words_are_trimmed(content, k);
        assert(same_ignoring_ascii_case(trimmed(words[k]), word));
    }
}

/// Whether an empty word stands before the index `i` of `content`: no word character
/// touches that place.
pub open spec fn is_empty_word(content: Seq<char>, i: int) -> bool {
    &&& 0 <= i <= content.len()
    &&& i == 0 || !is_word_char(content[i - 1])
    &&& i == content.len() || !is_word_char(content[i])
}

/// The empty keyword matches exactly the texts with a place that no word character
/// touches: the empty text, those that begin or end with another character, and those with
/// two other characters in a row. It does not match words that single separators join.
pub proof fn law_empty_keyword_matches_an_empty_word(content: Seq<char>)
    ensures
        matches_keyword(content, Seq::empty()) <==> exists|i: int| #[trigger]
            is_empty_word(content, i),
        matches_keyword(content, Seq::empty()) <==> {
            ||| content.len() == 0
            ||| !is_word_char(content.first())
            ||| !is_word_char(content.last())
            ||| exists|i: int|
                0 < i < content.len() && !is_word_char(content[i - 1]) && !is_word_char(
                    #[trigger] content[i],
                )
        },
{
    let none: Seq<char> = Seq::empty();
    let words = pieces(content, Separator::NonWord);
    assert(keyword_parts(none).len() <= 1) by {
        let filled = |part: Seq<char>| part.len() > 0;
        pieces(none, Separator::Whitespace).lemma_filter_len(filled);
    }
    if has_word(content, none) {
        let k = choose|k: int|
            0 <= k < words.len() && same_ignoring_ascii_case(trimmed(#[trigger] words[k]), none);
        lemma_words_are_trimmed(content, k);
        let (i, j) = lemma_place_of_piece(content, Separator::NonWord, k);
        assert(ascii_lower_all(content.subrange(i, j)).len() == ascii_lower_all(none).len());
        assert(is_empty_word(content, i));
    }
    if exists|i: int| #[trigger] is_empty_word(content, i) {
        let i = choose|i: int| #[trigger] is_empty_word(content, i);
        let k = lemma_stretch_is_piece(content, Separator::NonWord, i, i);
        lemma_words_are_trimmed(content, k);
        assert(content.subrange(i, i) =~= none);
        assert(same_ignoring_ascii_case(trimmed(words[k]), none));
        if 0 < i < content.len() {
            assert(!is_word_char(content[i]));
        }
    }
    if content.len() == 0 || !is_word_char(content.first()) {
        assert(is_empty_word(content, 0));
    }
    if content.len() > 0 && !is_word_char(content.last()) {
        assert(is_empty_word(content, content.len() as int));
    }
    if exists|i: int|
        0 < i < content.len() && !is_word_char(content[i - 1]) && !is_word_char(
            #[trigger] content[i],
        ) {
        let i = choose|i: int|
            0 < i < content.len() && !is_word_char(content[i - 1]) && !is_word_char(
                #[trigger] content[i],
            );
        assert(is_empty_word(content, i));
    }
}

/// Whether `content[i..j]` is a whole word, and that word is `word` in either case of
/// ASCII letters.
pub open spec fn stands_as_word(content: Seq<char>, i: int, j: int, word: Seq<char>) -> bool {
    &&& is_whole_word(content, i, j)
    &&& j - i == word.len()
    &&& forall|m: int| 0 <= m < word.len() ==> is_same_letter(content[i + m], #[trigger] word[m])
}

/// Whether `keyword[i..j]` is a part of `keyword`: a run without whitespace that only
/// whitespace or an end of the keyword touches on either side.
pub open spec fn is_part(keyword: Seq<char>, i: int, j: int) -> bool {
    &&& 0 <= i < j <= keyword.len()
    &&& forall|m: int| i <= m < j ==> !is_space(#[trigger] keyword[m])
    &&& i == 0 || is_space(keyword[i - 1])
    &&& j == keyword.len() || is_space(keyword[j])
}

/// A word is found exactly if a whole word of the text is that word.
proof fn lemma_has_word_stands(content: Seq<char>, word: Seq<char>)
    requires
        word.len() > 0,
    ensures
        has_word(content, word) <==> exists|i: int, j: int| #[trigger]
            stands_as_word(content, i, j, word),
{
    law_only_whole_words_match(content, word);
    if has_word(content, word) {
        let (i, j) = choose|i: int, j: int|
            #![trigger content.subrange(i, j)]
            is_whole_word(content, i, j) && same_ignoring_ascii_case(
                content.subrange(i, j),
                word,
            );
        let found = content.subrange(i, j);
        law_only_ascii_case_is_ignored(found, word);
        assert forall|m: int| 0 <= m < word.len() implies is_same_letter(
            content[i + m],
            #[trigger] word[m],
        ) by {
            assert(is_same_letter(found[m], word[m]));
        }
        assert(stands_as_word(content, i, j, word));
    }
    if exists|i: int, j: int| #[trigger] stands_as_word(content, i, j, word) {
        let (i, j) = choose|i: int, j: int| #[trigger] stands_as_word(content, i, j, word);
        let found = content.subrange(i, j);
        assert forall|m: int| 0 <= m < found.len() implies is_same_letter(
            #[trigger] found[m],
            word[m],
        ) by {
            assert(is_same_letter(content[i + m], word[m]));
        }
        law_only_ascii_case_is_ignored(found, word);
    }
}

/// A sequence with two elements that are kept keeps at least two.
proof fn lemma_two_kept(parts: Seq<Seq<char>>, a: int, b: int)
    requires
        0 <= a < b < parts.len(),
        parts[a].len() > 0,
        parts[b].len() > 0,
    ensures
        parts.filter(|part: Seq<char>| part.len() > 0).len() > 1,
{
    let filled = |part: Seq<char>| part.len() > 0;
    let front = parts.take(b);
    let back = parts.skip(b);
    assert(parts =~= front + back);
    Seq::filter_distributes_over_add(front, back, filled);
    front.lemma_filter_contains(filled, a);
    back.lemma_filter_contains(filled, 0);
}

/// A sequence that keeps at least two elements has two that are kept.
proof fn lemma_two_were_kept(parts: Seq<Seq<char>>) -> (pair: (int, int))
    requires
        parts.filter(|part: Seq<char>| part.len() > 0).len() > 1,
    ensures
        0 <= pair.0 < pair.1 < parts.len(),
        parts[pair.0].len() > 0,
        parts[pair.1].len() > 0,
    decreases parts.len(),
{
    let filled = |part: Seq<char>| part.len() > 0;
    reveal(Seq::filter);
    let front = parts.drop_last();
    if front.filter(filled).len() > 1 {
        lemma_two_were_kept(front)
    } else {
        let kept = front.filter(filled);
        front.lemma_filter_pred(filled, 0);
        assert(kept.contains(kept[0]));
        front.lemma_filter_contains_rev(filled, kept[0]);
        let a = choose|a: int| 0 <= a < front.len() && front[a] == kept[0];
        (a, parts.len() - 1)
    }
}

/// A longer front of a text has no fewer pieces, and more if a separator came in between.
proof fn lemma_pieces_grow(s: Seq<char>, sep: Separator, a: int, b: int)
    requires
        0 <= a <= b <= s.len(),
    ensures
        pieces(s.take(a), sep).len() <= pieces(s.take(b), sep).len(),
        a < b && sep.spec_cuts(s[b - 1]) ==> pieces(s.take(a), sep).len() < pieces(
            s.take(b),
            sep,
        ).len(),
    decreases b,
{
    if a < b {
        lemma_pieces_grow(s, sep, a, b - 1);
        assert(s.take(b).drop_last() =~= s.take(b - 1));
        lemma_pieces_nonempty(s.take(b - 1), sep);
    }
}

/// Each part of a keyword is among its parts.
proof fn lemma_part_is_kept(keyword: Seq<char>, i: int, j: int) -> (k: int)
    requires
        is_part(keyword, i, j),
    ensures
        0 <= k < pieces(keyword, Separator::Whitespace).len(),
        pieces(keyword, Separator::Whitespace)[k] == keyword.subrange(i, j),
        pieces(keyword.take(i), Separator::Whitespace).len() == k + 1,
        keyword_parts(keyword).contains(keyword.subrange(i, j)),
{
    let sep = Separator::Whitespace;
    assert forall|m: int| i <= m < j implies !sep.spec_cuts(#[trigger] keyword[m]) by {
        assert(!is_space(keyword[m]));
    }
    let k = lemma_stretch_is_piece(keyword, sep, i, j);
    let filled = |part: Seq<char>| part.len() > 0;
    pieces(keyword, sep).lemma_filter_contains(filled, k);
    k
}

/// A filled piece of a keyword is a part of it.
proof fn lemma_piece_is_part(keyword: Seq<char>, k: int) -> (place: (int, int))
    requires
        0 <= k < pieces(keyword, Separator::Whitespace).len(),
        pieces(keyword, Separator::Whitespace)[k].len() > 0,
    ensures
        is_part(keyword, place.0, place.1),
        pieces(keyword, Separator::Whitespace)[k] == keyword.subrange(place.0, place.1),
        pieces(keyword.take(place.0), Separator::Whitespace).len() == k + 1,
{
    let sep = Separator::Whitespace;
    let (i, j) = lemma_place_of_piece(keyword, sep, k);
    assert forall|m: int| i <= m < j implies !is_space(#[trigger] keyword[m]) by {
        assert(!sep.spec_cuts(keyword[m]));
    }
    (i, j)
}

/// A keyword without whitespace matches a text exactly if a whole word of the text is that
/// keyword, up to the case of ASCII letters. A word that only begins with the keyword,
/// ends in it or holds it is another word.
pub proof fn law_keyword_without_whitespace_is_one_word(content: Seq<char>, keyword: Seq<char>)
    requires
        keyword.len() > 0,
        forall|m: int| 0 <= m < keyword.len() ==> !is_space(#[trigger] keyword[m]),
    ensures
        matches_keyword(content, keyword) <==> exists|i: int, j: int| #[trigger]
            stands_as_word(content, i, j, keyword),
{
    if keyword_parts(keyword).len() > 1 {
        let (a, b) = lemma_two_were_kept(pieces(keyword, Separator::Whitespace));
        let (i, j) = lemma_piece_is_part(keyword, a);
        let (x, y) = lemma_piece_is_part(keyword, b);
        if i > 0 {
            assert(!is_space(keyword[i - 1]));
        }
        if x > 0 {
            assert(!is_space(keyword[x - 1]));
        }
        assert(false);
    }
    lemma_has_word_stands(content, keyword);
}

/// A keyword of several parts matches a text exactly if each of its parts is a whole word
/// of the text, up to the case of ASCII letters.
pub proof fn law_keyword_of_several_parts_needs_each(
    content: Seq<char>,
    keyword: Seq<char>,
    one: (int, int),
    another: (int, int),
)
    requires
        is_part(keyword, one.0, one.1),
        is_part(keyword, another.0, another.1),
        one.0 < another.0,
    ensures
        matches_keyword(content, keyword) <==> forall|a: int, b: int| #[trigger]
            is_part(keyword, a, b) ==> exists|i: int, j: int| #[trigger]
                stands_as_word(content, i, j, keyword.subrange(a, b)),
{
    let sep = Separator::Whitespace;
    let filled = |part: Seq<char>| part.len() > 0;
    let all = pieces(keyword, sep);
    let parts = keyword_parts(keyword);
    let first = lemma_part_is_kept(keyword, one.0, one.1);
    let second = lemma_part_is_kept(keyword, another.0, another.1);
    lemma_pieces_grow(keyword, sep, one.0, another.0);
    lemma_two_kept(all, first, second);
    if matches_keyword(content, keyword) {
        assert forall|a: int, b: int| #[trigger] is_part(keyword, a, b) implies exists|
            i: int,
            j: int,
        | #[trigger] stands_as_word(content, i, j, keyword.subrange(a, b)) by {
            let part = keyword.subrange(a, b);
            let k = lemma_part_is_kept(keyword, a, b);
            let n = choose|n: int| 0 <= n < parts.len() && parts[n] == part;
            assert(has_word(content, parts[n]));
            lemma_has_word_stands(content, part);
        }
    }
    if forall|a: int, b: int| #[trigger]
        is_part(keyword, a, b) ==> exists|i: int, j: int| #[trigger]
            stands_as_word(content, i, j, keyword.subrange(a, b)) {
        assert forall|n: int| 0 <= n < parts.len() implies has_word(
            content,
            #[trigger] parts[n],
        ) by {
            all.lemma_filter_pred(filled, n);
            assert(parts.contains(parts[n]));
            all.lemma_filter_contains_rev(filled, parts[n]);
            let k = choose|k: int| 0 <= k < all.len() && all[k] == parts[n];
            let (a, b) = lemma_piece_is_part(keyword, k);
            assert(is_part(keyword, a, b));
            lemma_has_word_stands(content, parts[n]);
        }
    }
}

/// A keyword with whitespace around at most one part matches nothing: the whitespace
/// belongs to it, and no word holds whitespace.
pub proof fn law_whitespace_around_one_part_matches_nothing(
    content: Seq<char>,
    keyword: Seq<char>,
    space: int,
)
    requires
        0 <= space < keyword.len(),
        is_space(keyword[space]),
        forall|a: int, b: int, c: int, d: int| #[trigger]
            is_part(keyword, a, b) && #[trigger] is_part(keyword, c, d) ==> a == c,
    ensures
        !matches_keyword(content, keyword),
{
    if keyword_parts(keyword).len() > 1 {
        let (a, b) = lemma_two_were_kept(pieces(keyword, Separator::Whitespace));
        let (i, j) = lemma_piece_is_part(keyword, a);
        let (x, y) = lemma_piece_is_part(keyword, b);
        assert(is_part(keyword, i, j) && is_part(keyword, x, y));
        assert(false);
    }
    law_only_whole_words_match(content, keyword);
    law_letters_and_numbers_make_words(keyword[space]);
}

/// The case of an ASCII letter decides no separator.
proof fn lemma_lower_keeps_class(c: char, sep: Separator)
    ensures
        sep.spec_cuts(ascii_lower(c)) == sep.spec_cuts(c),
        ascii_lower(ascii_lower(c)) == ascii_lower(c),
{
}

/// Lowering twice is lowering once.
proof fn lemma_lower_twice(s: Seq<char>)
    ensures
        ascii_lower_all(ascii_lower_all(s)) == ascii_lower_all(s),
{
    assert forall|i: int| 0 <= i < s.len() implies #[trigger] ascii_lower_all(
        ascii_lower_all(s),
    )[i] == ascii_lower_all(s)[i] by {
        lemma_lower_keeps_class(s[i], Separator::NonWord);
    }
    assert(ascii_lower_all(ascii_lower_all(s)) =~= ascii_lower_all(s));
}

/// Cutting a lowered text gives the lowered pieces.
proof fn lemma_pieces_of_lower(s: Seq<char>, sep: Separator)
    ensures
        pieces(ascii_lower_all(s), sep) == pieces(s, sep).map_values(
            |p: Seq<char>| ascii_lower_all(p),
        ),
    decreases s.len(),
{
    let lower = |p: Seq<char>| ascii_lower_all(p);
    let low = ascii_lower_all(s);
    assert(ascii_lower_all(Seq::empty()) =~= Seq::empty());
    if s.len() == 0 {
        assert(pieces(low, sep) =~= pieces(s, sep).map_values(lower));
    } else {
        let t = s.drop_last();
        lemma_pieces_of_lower(t, sep);
        lemma_pieces_nonempty(t, sep);
        lemma_lower_keeps_class(s.last(), sep);
        assert(low.drop_last() =~= ascii_lower_all(t));
        let before = pieces(t, sep);
        assert(ascii_lower_all(before.last().push(s.last())) =~= ascii_lower_all(
            before.last(),
        ).push(low.last()));
        assert(pieces(low, sep) =~= pieces(s, sep).map_values(lower));
    }
}

/// Dropping empty parts before or after lowering gives the same parts.
proof fn lemma_filled_parts_of_lower(parts: Seq<Seq<char>>)
    ensures
        parts.map_values(|p: Seq<char>| ascii_lower_all(p)).filter(
            |p: Seq<char>| p.len() > 0,
        ) == parts.filter(|p: Seq<char>| p.len() > 0).map_values(
            |p: Seq<char>| ascii_lower_all(p),
        ),
    decreases parts.len(),
{
    let lower = |p: Seq<char>| ascii_lower_all(p);
    let filled = |p: Seq<char>| p.len() > 0;
    reveal(Seq::filter);
    if parts.len() == 0 {
        assert(parts.map_values(lower).filter(filled) =~= parts.filter(filled).map_values(lower));
    } else {
        lemma_filled_parts_of_lower(parts.drop_last());
        assert(parts.map_values(lower).drop_last() =~= parts.drop_last().map_values(lower));
        assert(parts.map_values(lower).filter(filled) =~= parts.filter(filled).map_values(lower));
    }
}

/// A word is found in a text exactly if it is found in the lowered text, and
/// exactly if the lowered word is found.
proof fn lemma_has_word_ignores_case(content: Seq<char>, word: Seq<char>)
    ensures
        has_word(ascii_lower_all(content), word) == has_word(content, word),
        has_word(content, ascii_lower_all(word)) == has_word(content, word),
{
    let low = ascii_lower_all(content);
    let words = pieces(content, Separator::NonWord);
    let low_words = pieces(low, Separator::NonWord);
    lemma_pieces_of_lower(content, Separator::NonWord);
    lemma_lower_twice(word);
    assert forall|k: int| 0 <= k < words.len() implies same_ignoring_ascii_case(
        trimmed(#[trigger] low_words[k]),
        word,
    ) == same_ignoring_ascii_case(trimmed(words[k]), word) by {
        lemma_words_are_trimmed(content, k);
        lemma_words_are_trimmed(low, k);
        lemma_lower_twice(words[k]);
    }
    if has_word(content, word) {
        let k = choose|k: int|
            0 <= k < words.len() && same_ignoring_ascii_case(trimmed(#[trigger] words[k]), word);
        assert(same_ignoring_ascii_case(trimmed(low_words[k]), word));
        assert(same_ignoring_ascii_case(trimmed(words[k]), ascii_lower_all(word)));
    }
    if has_word(content, ascii_lower_all(word)) {
        let k = choose|k: int|
            0 <= k < words.len() && same_ignoring_ascii_case(
                trimmed(#[trigger] words[k]),
                ascii_lower_all(word),
            );
        assert(same_ignoring_ascii_case(trimmed(words[k]), word));
    }
}

/// The case of ASCII letters matters neither in the text nor in the keyword.
pub proof fn law_case_does_not_matter(content: Seq<char>, keyword: Seq<char>)
    ensures
        matches_keyword(ascii_lower_all(content), keyword) == matches_keyword(content, keyword),
        matches_keyword(content, ascii_lower_all(keyword)) == matches_keyword(content, keyword),
{
    let parts = keyword_parts(keyword);
    let low_parts = keyword_parts(ascii_lower_all(keyword));
    lemma_pieces_of_lower(keyword, Separator::Whitespace);
    lemma_filled_parts_of_lower(pieces(keyword, Separator::Whitespace));
    assert(low_parts == parts.map_values(|p: Seq<char>| ascii_lower_all(p)));
    lemma_has_word_ignores_case(content, keyword);
    assert forall|i: int| 0 <= i < parts.len() implies has_word(
        ascii_lower_all(content),
        #[trigger] parts[i],
    ) == has_word(content, parts[i]) && has_word(content, low_parts[i]) == has_word(
        content,
        parts[i],
    ) by {
        lemma_has_word_ignores_case(content, parts[i]);
    }
    if parts.len() > 1 {
        if matches_keyword(content, ascii_lower_all(keyword)) {
            assert forall|i: int| 0 <= i < parts.len() implies has_word(
                content,
                #[trigger] parts[i],
            ) by {
                assert(has_word(content, low_parts[i]));
            }
        }
    }
}

/// Of a keyword of several parts only the parts matter: not how much whitespace
/// stands between them, nor their order, nor how often one is repeated.
pub proof fn law_spacing_and_order_do_not_matter(content: Seq<char>, a: Seq<char>, b: Seq<char>)
    requires
        keyword_parts(a).len() > 1,
        keyword_parts(b).len() > 1,
        forall|part: Seq<char>|
            #[trigger] keyword_parts(a).contains(part) <==> keyword_parts(b).contains(part),
    ensures
        matches_keyword(content, a) == matches_keyword(content, b),
{
    lemma_parts_decide(content, a, b);
    lemma_parts_decide(content, b, a);
}

/// A text that matches `a` matches a keyword whose parts are all parts of `a`.
proof fn lemma_parts_decide(content: Seq<char>, a: Seq<char>, b: Seq<char>)
    requires
        keyword_parts(a).len() > 1,
        keyword_parts(b).len() > 1,
        forall|part: Seq<char>|
            #[trigger] keyword_parts(b).contains(part) ==> keyword_parts(a).contains(part),
    ensures
        matches_keyword(content, a) ==> matches_keyword(content, b),
{
    let pa = keyword_parts(a);
    let pb = keyword_parts(b);
    if matches_keyword(content, a) {
        assert forall|i: int| 0 <= i < pb.len() implies has_word(content, #[trigger] pb[i]) by {
            assert(pb.contains(pb[i]));
            let k = choose|k: int| 0 <= k < pa.len() && pa[k] == pb[i];
            assert(has_word(content, pa[k]));
        }
    }
}

/// Another group of keywords can only make an antenna match more texts, and another
/// keyword in a group can only make the group match fewer.
pub proof fn law_groups_widen_and_keywords_narrow(
    content: Seq<char>,
    smaller: Antenna,
    larger: Antenna,
    group: Seq<String>,
    keyword: String,
)
    requires
        smaller.keywords_groups@.is_prefix_of(larger.keywords_groups@),
    ensures
        matches_antenna(content, smaller) ==> matches_antenna(content, larger),
        matches_group(content, group.push(keyword)) <==> matches_group(content, group)
            && matches_keyword(content, keyword@),
{
    if matches_antenna(content, smaller) {
        let g = choose|g: int|
            0 <= g < smaller.keywords_groups@.len() && matches_group(
                content,
                #[trigger] smaller.keywords_groups@[g]@,
            );
        assert(larger.keywords_groups@[g] == smaller.keywords_groups@[g]);
    }
    let wider = group.push(keyword);
    if matches_group(content, wider) {
        assert(matches_keyword(content, wider[group.len() as int]@));
        assert forall|k: int| 0 <= k < group.len() implies matches_keyword(
            content,
            #[trigger] group[k]@,
        ) by {
            assert(wider[k] == group[k]);
        }
    }
}

/// Whether `antenna` has a group `g`, and `content` matches each keyword of it.
pub open spec fn holds_group(content: Seq<char>, antenna: Antenna, g: int) -> bool {
    &&& 0 <= g < antenna.keywords_groups@.len()
    &&& forall|k: int|
        0 <= k < antenna.keywords_groups@[g]@.len() ==> matches_keyword(
            content,
            #[trigger] antenna.keywords_groups@[g]@[k]@,
        )
}

/// An antenna matches a text exactly if the text matches every keyword of one of its
/// groups, whichever group that is.
pub proof fn law_any_group_is_enough(content: Seq<char>, antenna: Antenna)
    ensures
        matches_antenna(content, antenna) <==> exists|g: int| #[trigger]
            holds_group(content, antenna, g),
{
    let groups = antenna.keywords_groups@;
    if matches_antenna(content, antenna) {
        let g = choose|g: int|
            0 <= g < groups.len() && matches_group(content, #[trigger] groups[g]@);
        assert(holds_group(content, antenna, g));
    }
    if exists|g: int| #[trigger] holds_group(content, antenna, g) {
        let g = choose|g: int| #[trigger] holds_group(content, antenna, g);
        assert(matches_group(content, groups[g]@));
    }
}

/// An antenna without groups matches nothing, and with one more group an antenna matches
/// what it matched before and what holds all keywords of the new group.
pub proof fn law_one_more_group_adds_its_matches(
    content: Seq<char>,
    smaller: Antenna,
    larger: Antenna,
    group: Vec<String>,
)
    requires
        larger.keywords_groups@ == smaller.keywords_groups@.push(group),
    ensures
        smaller.keywords_groups@.len() == 0 ==> !matches_antenna(content, smaller),
        matches_antenna(content, larger) <==> matches_antenna(content, smaller) || forall|k: int|
            0 <= k < group@.len() ==> matches_keyword(content, #[trigger] group@[k]@),
{
    let n = smaller.keywords_groups@.len() as int;
    assert(larger.keywords_groups@[n] == group);
    if matches_antenna(content, larger) {
        let g = choose|g: int|
            0 <= g < larger.keywords_groups@.len() && matches_group(
                content,
                #[trigger] larger.keywords_groups@[g]@,
            );
        if g < n {
            assert(smaller.keywords_groups@[g] == larger.keywords_groups@[g]);
        }
    }
    if matches_antenna(content, smaller) {
        let g = choose|g: int|
            0 <= g < n && matches_group(content, #[trigger] smaller.keywords_groups@[g]@);
        assert(larger.keywords_groups@[g] == smaller.keywords_groups@[g]);
    }
    if forall|k: int| 0 <= k < group@.len() ==> matches_keyword(content, #[trigger] group@[k]@) {
        assert(matches_group(content, larger.keywords_groups@[n]@));
    }
}

/// Each antenna that matches is named once, in order, and no other: one more antenna adds
/// its id at the end if it matches, and nothing if it does not.
pub proof fn law_each_matching_antenna_is_named(
    content: Seq<char>,
    antennas: Seq<Antenna>,
    antenna: Antenna,
)
    ensures
        matching_ids(content, Seq::empty()) == Seq::<Seq<char>>::empty(),
        matches_antenna(content, antenna) ==> matching_ids(content, antennas.push(antenna))
            == matching_ids(content, antennas).push(antenna.id@),
        !matches_antenna(content, antenna) ==> matching_ids(content, antennas.push(antenna))
            == matching_ids(content, antennas),
{
    let hit = |a: Antenna| matches_antenna(content, a);
    let name = |a: Antenna| a.id@;
    reveal(Seq::filter);
    assert(antennas.push(antenna).drop_last() =~= antennas);
    let before = antennas.filter(hit);
    assert(before.push(antenna).map_values(name) =~= before.map_values(name).push(antenna.id@));
    assert(matching_ids(content, Seq::empty()) =~= Seq::<Seq<char>>::empty());
}

/// A sequence of strings is seen as the texts of its strings, one for each, in order.
pub proof fn law_strings_are_seen_one_for_one(strings: Seq<String>)
    ensures
        string_views(strings).len() == strings.len(),
        forall|i: int|
            0 <= i < strings.len() ==> #[trigger] string_views(strings)[i] == strings[i]@,
{
}

} // verus!
