//! What the work on characters promises, in terms of code points and positions.

use vstd::prelude::*;
use crate::sse::{lemma_lines_behind, lemma_one_piece};
use crate::text::{
    ascii_lower, ascii_lower_all, is_space, is_word_char, lines_of, pieces,
    same_ignoring_ascii_case, stripped, trimmed, trimmed_end, trimmed_start, unicode_alphanumeric,
    Separator,
};

verus! {

/// Of the ASCII characters, exactly the digits and the letters of either case stand in
/// words; of the others, those that Unicode counts as letters or numbers and not as
/// whitespace.
pub proof fn law_letters_and_numbers_make_words(c: char)
    ensures
        c as u32 <= 127 ==> (is_word_char(c) <==> 48 <= c as u32 <= 57 || 65 <= c as u32 <= 90 || 97
            <= c as u32 <= 122),
        c as u32 > 127 ==> (is_word_char(c) <==> unicode_alphanumeric(c) && !is_space(c)),
        is_space(c) ==> !is_word_char(c),
{
}

/// The whitespace characters are those of Unicode, and no others.
pub proof fn law_whitespace_is_that_of_unicode(c: char)
    ensures
        is_space(c) <==> seq![
            9u32,
            10,
            11,
            12,
            13,
            32,
            133,
            160,
            5760,
            8192,
            8193,
            8194,
            8195,
            8196,
            8197,
            8198,
            8199,
            8200,
            8201,
            8202,
            8232,
            8233,
            8239,
            8287,
            12288,
        ].contains(c as u32),
{
    let all = seq![
        9u32,
        10,
        11,
        12,
        13,
        32,
        133,
        160,
        5760,
        8192,
        8193,
        8194,
        8195,
        8196,
        8197,
        8198,
        8199,
        8200,
        8201,
        8202,
        8232,
        8233,
        8239,
        8287,
        12288,
    ];
    let n = c as u32;
    if all.contains(n) {
        let i = choose|i: int| 0 <= i < all.len() && all[i] == n;
        assert(is_space(c));
    }
    if is_space(c) {
        let i = if n <= 13 {
            n - 9
        } else if n == 32 {
            5
        } else if n == 133 {
            6
        } else if n == 160 {
            7
        } else if n == 5760 {
            8
        } else if n <= 8202 {
            n - 8192 + 9
        } else if n == 8232 {
            20
        } else if n == 8233 {
            21
        } else if n == 8239 {
            22
        } else if n == 8287 {
            23
        } else {
            24
        };
        assert(all[i] == n);
    }
}

/// Whether two characters are the same, or the same ASCII letter in either case: their
/// code points are 32 apart, and the smaller one is a capital.
pub open spec fn is_same_letter(a: char, b: char) -> bool {
    ||| a == b
    ||| 65 <= a as u32 <= 90 && b as u32 == a as u32 + 32
    ||| 65 <= b as u32 <= 90 && a as u32 == b as u32 + 32
}

/// A small letter in place of a capital, and every other character as it is.
proof fn lemma_lower(c: char)
    ensures
        65 <= c as u32 <= 90 ==> ascii_lower(c) as u32 == c as u32 + 32,
        !(65 <= c as u32 <= 90) ==> ascii_lower(c) == c,
{
}

/// Two characters have the same small letter exactly if they are the same letter.
proof fn lemma_same_letter(a: char, b: char)
    ensures
        ascii_lower(a) == ascii_lower(b) <==> is_same_letter(a, b),
{
    lemma_lower(a);
    lemma_lower(b);
}

/// Two texts are the same but for the case of ASCII letters exactly if they have the same
/// length and the same letter at each place.
pub proof fn law_only_ascii_case_is_ignored(a: Seq<char>, b: Seq<char>)
    ensures
        same_ignoring_ascii_case(a, b) <==> a.len() == b.len() && forall|i: int|
            0 <= i < a.len() ==> is_same_letter(#[trigger] a[i], b[i]),
{
    let la = ascii_lower_all(a);
    let lb = ascii_lower_all(b);
    assert forall|i: int| 0 <= i < a.len() && i < b.len() implies (la[i] == lb[i]
        <==> is_same_letter(#[trigger] a[i], b[i])) by {
        lemma_same_letter(a[i], b[i]);
    }
    if same_ignoring_ascii_case(a, b) {
        assert(la.len() == lb.len());
        assert forall|i: int| 0 <= i < a.len() implies is_same_letter(#[trigger] a[i], b[i]) by {
            assert(la[i] == lb[i]);
        }
    }
    if a.len() == b.len() && forall|i: int|
        0 <= i < a.len() ==> is_same_letter(#[trigger] a[i], b[i]) {
        assert forall|i: int| 0 <= i < la.len() implies la[i] == lb[i] by {
            assert(is_same_letter(a[i], b[i]));
        }
        assert(la =~= lb);
    }
}

/// Whitespace at the start goes, up to the first other character.
proof fn lemma_trimmed_start(s: Seq<char>, i: int)
    requires
        0 <= i <= s.len(),
        forall|m: int| 0 <= m < i ==> is_space(#[trigger] s[m]),
        i == s.len() || !is_space(s[i]),
    ensures
        trimmed_start(s) == s.skip(i),
    decreases i,
{
    if i == 0 {
        assert(s.skip(0) =~= s);
    } else {
        let t = s.drop_first();
        assert(is_space(s[0]));
        assert forall|m: int| 0 <= m < i - 1 implies is_space(#[trigger] t[m]) by {
            assert(is_space(s[m + 1]));
        }
        lemma_trimmed_start(t, i - 1);
        assert(t.skip(i - 1) =~= s.skip(i));
    }
}

/// Whitespace at the end goes, down to the last other character.
proof fn lemma_trimmed_end(s: Seq<char>, j: int)
    requires
        0 <= j <= s.len(),
        forall|m: int| j <= m < s.len() ==> is_space(#[trigger] s[m]),
        j == 0 || !is_space(s[j - 1]),
    ensures
        trimmed_end(s) == s.take(j),
    decreases s.len(),
{
    if j == s.len() {
        assert(s.take(j) =~= s);
    } else {
        let t = s.drop_last();
        assert(is_space(s[s.len() - 1]));
        assert forall|m: int| j <= m < t.len() implies is_space(#[trigger] t[m]) by {
            assert(is_space(s[m]));
        }
        lemma_trimmed_end(t, j);
        assert(t.take(j) =~= s.take(j));
    }
}

/// Trimming keeps what stands from the first to the last character that is no whitespace,
/// as it is, and nothing of a text of whitespace alone.
pub proof fn law_trimming_keeps_all_between(s: Seq<char>, i: int, j: int)
    requires
        0 <= i <= j <= s.len(),
        forall|m: int| 0 <= m < i ==> is_space(#[trigger] s[m]),
        forall|m: int| j <= m < s.len() ==> is_space(#[trigger] s[m]),
        i < j ==> !is_space(s[i]) && !is_space(s[j - 1]),
    ensures
        trimmed(s) == s.subrange(i, j),
{
    if i < j {
        lemma_trimmed_start(s, i);
        let t = s.skip(i);
        assert forall|m: int| j - i <= m < t.len() implies is_space(#[trigger] t[m]) by {
            assert(is_space(s[i + m]));
        }
        lemma_trimmed_end(t, j - i);
        assert(t.take(j - i) =~= s.subrange(i, j));
    } else {
        assert forall|m: int| 0 <= m < s.len() implies is_space(#[trigger] s[m]) by {}
        lemma_trimmed_start(s, s.len() as int);
        assert(s.skip(s.len() as int) =~= Seq::<char>::empty());
        assert(s.subrange(i, j) =~= Seq::<char>::empty());
    }
}

/// A prefix is stripped as often as it stands at the start, and where it does not stand
/// there the text stays as it is.
pub proof fn law_every_copy_of_a_prefix_is_stripped(s: Seq<char>, prefix: Seq<char>)
    requires
        prefix.len() > 0,
    ensures
        stripped(prefix + s, prefix) == stripped(s, prefix),
        !prefix.is_prefix_of(s) ==> stripped(s, prefix) == s,
        s.len() < prefix.len() ==> stripped(s, prefix) == s,
{
    let whole = prefix + s;
    assert(prefix =~= whole.subrange(0, prefix.len() as int));
    assert(whole.skip(prefix.len() as int) =~= s);
}

/// The lines of a text are what its line feeds end, each without one carriage return at
/// its end, and what is left behind the last line feed, as it is.
pub proof fn law_line_feeds_end_lines(line: Seq<char>, rest: Seq<char>)
    requires
        forall|i: int| 0 <= i < line.len() ==> #[trigger] line[i] != '\n',
    ensures
        lines_of(Seq::empty()) == Seq::<Seq<char>>::empty(),
        line.len() > 0 ==> lines_of(line) == seq![line],
        lines_of(line.push('\n') + rest) == seq![
            if line.len() > 0 && line.last() == '\r' {
                line.drop_last()
            } else {
                line
            },
        ] + lines_of(rest),
{
    assert(!line.contains('\n'));
    lemma_lines_behind(line, rest);
    assert forall|i: int| 0 <= i < line.len() implies !Separator::LineFeed.spec_cuts(
        #[trigger] line[i],
    ) by {}
    lemma_one_piece(line, Separator::LineFeed);
    assert(pieces(line, Separator::LineFeed).drop_last() =~= Seq::<Seq<char>>::empty());
    if line.len() > 0 {
        assert(lines_of(line) =~= seq![line]);
    }
    let none: Seq<char> = Seq::empty();
    assert(pieces(none, Separator::LineFeed) =~= seq![none]);
    assert(lines_of(none) =~= Seq::<Seq<char>>::empty());
}

} // verus!
