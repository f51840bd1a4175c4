//! Characters and character sequences: the classes, cuts and comparisons that
//! event parsing and keyword matching are built from.

use vstd::prelude::*;

verus! {

/// Whether `c` has the Unicode property `White_Space`.
pub open spec fn is_space(c: char) -> bool {
    let n = c as u32;
    ||| 0x09 <= n <= 0x0d
    ||| n == 0x20
    ||| n == 0x85
    ||| n == 0xa0
    ||| n == 0x1680
    ||| 0x2000 <= n <= 0x200a
    ||| n == 0x2028
    ||| n == 0x2029
    ||| n == 0x202f
    ||| n == 0x205f
    ||| n == 0x3000
}

/// Whether `c` is an ASCII letter or digit.
pub open spec fn is_ascii_word_char(c: char) -> bool {
    ||| 'a' <= c <= 'z'
    ||| 'A' <= c <= 'Z'
    ||| '0' <= c <= '9'
}

/// What `char::is_alphanumeric` answers for `c`: whether Unicode counts it as a
/// letter or a number.
pub uninterp spec fn unicode_alphanumeric(c: char) -> bool;

/// `char::is_alphanumeric` depends on the character alone. Nothing is claimed of
/// the answer beyond that.
pub assume_specification[ char::is_alphanumeric ](c: char) -> (answer: bool)
    ensures
        answer == unicode_alphanumeric(c),
;

/// Whether `c` may stand inside a word. Unicode counts no whitespace as a letter
/// or a number.
pub open spec fn is_word_char(c: char) -> bool {
    if c <= '\u{7f}' {
        is_ascii_word_char(c)
    } else {
        unicode_alphanumeric(c) && !is_space(c)
    }
}

/// `c` with an ASCII capital turned into its small letter.
pub open spec fn ascii_lower(c: char) -> char {
    if 'A' <= c <= 'Z' {
        (c as u8 + 32) as char
    } else {
        c
    }
}

/// `s` with each ASCII capital turned into its small letter.
pub open spec fn ascii_lower_all(s: Seq<char>) -> Seq<char> {
    s.map_values(|c: char| ascii_lower(c))
}

/// Whether `a` and `b` differ at most in the case of ASCII letters.
pub open spec fn same_ignoring_ascii_case(a: Seq<char>, b: Seq<char>) -> bool {
    ascii_lower_all(a) == ascii_lower_all(b)
}

/// `String::push` appends one character.
pub assume_specification[ String::push ](s: &mut String, c: char)
    ensures
        final(s)@ == old(s)@.push(c),
;

/// Whether `c` is whitespace.
pub fn is_whitespace(c: char) -> (answer: bool)
    ensures
        answer == is_space(c),
{
    let n: u32 = c as u32;
    (0x09 <= n && n <= 0x0d) || n == 0x20 || n == 0x85 || n == 0xa0 || n == 0x1680 || (0x2000 <= n
        && n <= 0x200a) || n == 0x2028 || n == 0x2029 || n == 0x202f || n == 0x205f || n == 0x3000
}

/// Whether `c` may stand inside a word: a letter or a number of any script.
pub fn is_word(c: char) -> (answer: bool)
    ensures
        answer == is_word_char(c),
{
    if c <= '\u{7f}' {
        ('a' <= c && c <= 'z') || ('A' <= c && c <= 'Z') || ('0' <= c && c <= '9')
    } else {
        c.is_alphanumeric() && !is_whitespace(c)
    }
}

/// Turns an ASCII capital into its small letter and keeps every other character.
pub fn to_ascii_lower(c: char) -> (lower: char)
    ensures
        lower == ascii_lower(c),
{
    if 'A' <= c && c <= 'Z' {
        (c as u8 + 32) as char
    } else {
        c
    }
}

/// Compares two character sequences, taking ASCII letters of either case as equal.
pub fn eq_ignore_ascii_case(a: &Vec<char>, b: &Vec<char>) -> (answer: bool)
    ensures
        answer == same_ignoring_ascii_case(a@, b@),
{
    let ghost la = ascii_lower_all(a@);
    let ghost lb = ascii_lower_all(b@);
    if a.len() != b.len() {
        assert(la.len() != lb.len());
        return false;
    }
    for i in 0..a.len()
        invariant
            a.len() == b.len(),
            la == ascii_lower_all(a@),
            lb == ascii_lower_all(b@),
            forall|j: int| 0 <= j < i ==> la[j] == lb[j],
    {
        if to_ascii_lower(a[i]) != to_ascii_lower(b[i]) {
            assert(la[i as int] != lb[i as int]);
            return false;
        }
    }
    assert(la =~= lb);
    true
}

/// The characters of `s`.
pub fn chars_of(s: &str) -> (chars: Vec<char>)
    ensures
        chars@ == s@,
{
    let mut chars: Vec<char> = Vec::new();
    for c in iter: s.chars()
        invariant
            iter.seq() == s@,
            chars@ == s@.take(iter.index() as int),
    {
        chars.push(c);
    }
    assert(s@.take(s@.len() as int) =~= s@);
    chars
}

/// The string made of `chars`.
pub fn string_of(chars: &Vec<char>) -> (s: String)
    ensures
        s@ == chars@,
{
    let mut s = String::new();
    for i in 0..chars.len()
        invariant
            s@ == chars@.take(i as int),
    {
        s.push(chars[i]);
        assert(chars@.take(i as int).push(chars@[i as int]) =~= chars@.take(i + 1));
    }
    assert(chars@.take(chars@.len() as int) =~= chars@);
    s
}

/// The characters at which a text is cut into pieces.
#[derive(Clone, Copy, Debug, PartialEq, Eq, Structural)]
pub enum Separator {
    /// Every character that cannot stand inside a word.
    NonWord,
    /// Every whitespace character.
    Whitespace,
    /// The line feed.
    LineFeed,
}

impl Separator {
    /// Whether a text is cut at `c`.
    pub open spec fn spec_cuts(self, c: char) -> bool {
        match self {
            Separator::NonWord => !is_word_char(c),
            Separator::Whitespace => is_space(c),
            Separator::LineFeed => c == '\n',
        }
    }

    /// Whether a text is cut at `c`.
    pub fn cuts(self, c: char) -> (answer: bool)
        ensures
            answer == self.spec_cuts(c),
    {
        match self {
            Separator::NonWord => !is_word(c),
            Separator::Whitespace => is_whitespace(c),
            Separator::LineFeed => c == '\n',
        }
    }
}

/// The pieces of `s` between the separators: one more piece than there are
/// separators, in order, empty pieces included.
pub open spec fn pieces(s: Seq<char>, sep: Separator) -> Seq<Seq<char>>
    decreases s.len(),
{
    if s.len() == 0 {
        seq![Seq::empty()]
    } else {
        let before = pieces(s.drop_last(), sep);
        if sep.spec_cuts(s.last()) {
            before.push(Seq::empty())
        } else {
            before.drop_last().push(before.last().push(s.last()))
        }
    }
}

/// The views of a vector of character vectors.
pub open spec fn views(v: Seq<Vec<char>>) -> Seq<Seq<char>> {
    v.map_values(|p: Vec<char>| p@)
}

/// A text has at least one piece.
pub proof fn lemma_pieces_nonempty(s: Seq<char>, sep: Separator)
    ensures
        pieces(s, sep).len() > 0,
    decreases s.len(),
{
    if s.len() > 0 {
        lemma_pieces_nonempty(s.drop_last(), sep);
    }
}

/// Cuts `chars` at every separator.
pub fn split(chars: &Vec<char>, sep: Separator) -> (parts: Vec<Vec<char>>)
    ensures
        views(parts@) == pieces(chars@, sep),
{
    let mut parts: Vec<Vec<char>> = Vec::new();
    let mut current: Vec<char> = Vec::new();
    assert(views(parts@).push(current@) =~= pieces(chars@.take(0), sep));
    for i in 0..chars.len()
        invariant
            views(parts@).push(current@) == pieces(chars@.take(i as int), sep),
    {
        let ghost seen = chars@.take(i + 1);
        let ghost before = pieces(chars@.take(i as int), sep);
        assert(seen.drop_last() =~= chars@.take(i as int));
        assert(before.drop_last() =~= views(parts@));
        let c = chars[i];
        if sep.cuts(c) {
            assert(views(parts@.push(current)) =~= views(parts@).push(current@));
            parts.push(current);
            current = Vec::new();
            assert(views(parts@).push(current@) =~= pieces(seen, sep));
        } else {
            current.push(c);
            assert(views(parts@).push(current@) =~= pieces(seen, sep));
        }
    }
    assert(chars@.take(chars@.len() as int) =~= chars@);
    assert(views(parts@.push(current)) =~= views(parts@).push(current@));
    parts.push(current);
    parts
}

/// `s` without the whitespace at its start.
pub open spec fn trimmed_start(s: Seq<char>) -> Seq<char>
    decreases s.len(),
{
    if s.len() > 0 && is_space(s.first()) {
        trimmed_start(s.drop_first())
    } else {
        s
    }
}

/// `s` without the whitespace at its end.
pub open spec fn trimmed_end(s: Seq<char>) -> Seq<char>
    decreases s.len(),
{
    if s.len() > 0 && is_space(s.last()) {
        trimmed_end(s.drop_last())
    } else {
        s
    }
}

/// `s` without the whitespace at its start and at its end.
pub open spec fn trimmed(s: Seq<char>) -> Seq<char> {
    trimmed_end(trimmed_start(s))
}

/// The part of `chars` from `from` up to but not at `to`.
pub fn cut(chars: &Vec<char>, from: usize, to: usize) -> (part: Vec<char>)
    requires
        from <= to <= chars.len(),
    ensures
        part@ == chars@.subrange(from as int, to as int),
{
    let mut part: Vec<char> = Vec::new();
    for i in from..to
        invariant
            from <= to <= chars.len(),
            part@ == chars@.subrange(from as int, i as int),
    {
        part.push(chars[i]);
        assert(chars@.subrange(from as int, i as int).push(chars@[i as int]) =~= chars@.subrange(
            from as int,
            i + 1,
        ));
    }
    part
}

/// Removes the whitespace at both ends of `chars`.
pub fn trim(chars: &Vec<char>) -> (part: Vec<char>)
    ensures
        part@ == trimmed(chars@),
{
    let n = chars.len();
    let mut from: usize = 0;
    assert(chars@.subrange(0, n as int) =~= chars@);
    while from < n && is_whitespace(chars[from])
        invariant
            from <= n == chars.len(),
            trimmed_start(chars@) == trimmed_start(chars@.subrange(from as int, n as int)),
        decreases n - from,
    {
        assert(chars@.subrange(from as int, n as int).drop_first() =~= chars@.subrange(
            from + 1,
            n as int,
        ));
        from = from + 1;
    }
    assert(trimmed_start(chars@) == chars@.subrange(from as int, n as int));
    let mut to: usize = n;
    while from < to && is_whitespace(chars[to - 1])
        invariant
            from <= to <= n == chars.len(),
            trimmed(chars@) == trimmed_end(chars@.subrange(from as int, to as int)),
        decreases to - from,
    {
        assert(chars@.subrange(from as int, to as int).drop_last() =~= chars@.subrange(
            from as int,
            to - 1,
        ));
        to = to - 1;
    }
    cut(chars, from, to)
}

/// `s` without the copies of `prefix` at its start, however many there are.
pub open spec fn stripped(s: Seq<char>, prefix: Seq<char>) -> Seq<char>
    decreases s.len(),
{
    if prefix.len() > 0 && prefix.is_prefix_of(s) {
        stripped(s.skip(prefix.len() as int), prefix)
    } else {
        s
    }
}

/// Whether `prefix` stands in `chars` at the index `at`.
pub fn stands_at(chars: &Vec<char>, at: usize, prefix: &Vec<char>) -> (answer: bool)
    requires
        at <= chars.len(),
    ensures
        answer == prefix@.is_prefix_of(chars@.skip(at as int)),
{
    if chars.len() - at < prefix.len() {
        return false;
    }
    for i in 0..prefix.len()
        invariant
            at <= chars.len(),
            chars.len() - at >= prefix.len(),
            forall|j: int| 0 <= j < i ==> prefix@[j] == chars@[at + j],
    {
        if chars[at + i] != prefix[i] {
            assert(chars@.skip(at as int)[i as int] != prefix@[i as int]);
            assert(prefix@[i as int] != chars@.skip(at as int).subrange(
                0,
                prefix@.len() as int,
            )[i as int]);
            return false;
        }
    }
    assert(prefix@ =~= chars@.skip(at as int).subrange(0, prefix@.len() as int));
    true
}

/// Removes every copy of `prefix` at the start of `chars`.
pub fn strip(chars: &Vec<char>, prefix: &Vec<char>) -> (rest: Vec<char>)
    ensures
        rest@ == stripped(chars@, prefix@),
{
    let n = chars.len();
    let mut from: usize = 0;
    assert(chars@.skip(0) =~= chars@);
    if prefix.len() > 0 {
        while stands_at(chars, from, prefix)
            invariant
                from <= n == chars.len(),
                prefix.len() > 0,
                stripped(chars@, prefix@) == stripped(chars@.skip(from as int), prefix@),
            decreases n - from,
        {
            assert(chars@.skip(from as int).skip(prefix@.len() as int) =~= chars@.skip(
                from + prefix@.len(),
            ));
            from = from + prefix.len();
        }
    }
    assert(chars@.subrange(from as int, n as int) =~= chars@.skip(from as int));
    cut(chars, from, n)
}

/// `line` without a carriage return at its end.
pub open spec fn without_carriage_return(line: Seq<char>) -> Seq<char> {
    if line.len() > 0 && line.last() == '\r' {
        line.drop_last()
    } else {
        line
    }
}

/// The lines of `s`: cut at each line feed, a carriage return before the line
/// feed left out. What follows the last line feed is a line if it is not empty.
pub open spec fn lines_of(s: Seq<char>) -> Seq<Seq<char>> {
    let parts = pieces(s, Separator::LineFeed);
    let ended = parts.drop_last().map_values(|line: Seq<char>| without_carriage_return(line));
    if parts.last().len() == 0 {
        ended
    } else {
        ended.push(parts.last())
    }
}

/// Cuts `chars` into its lines.
pub fn lines(chars: &Vec<char>) -> (result: Vec<Vec<char>>)
    ensures
        views(result@) == lines_of(chars@),
{
    let parts = split(chars, Separator::LineFeed);
    let ghost all = views(parts@);
    proof {
        lemma_pieces_nonempty(chars@, Separator::LineFeed);
        assert(all.len() == parts@.len());
    }
    let n = parts.len() - 1;
    let mut result: Vec<Vec<char>> = Vec::new();
    let ghost ended = all.drop_last().map_values(|line: Seq<char>| without_carriage_return(line));
    for i in 0..n
        invariant
            n == parts.len() - 1,
            all == views(parts@),
            ended == all.drop_last().map_values(|line: Seq<char>| without_carriage_return(line)),
            views(result@) == ended.take(i as int),
    {
        let line = &parts[i];
        assert(all[i as int] == line@);
        let len = line.len();
        let kept = if len > 0 && line[len - 1] == '\r' {
            cut(line, 0, len - 1)
        } else {
            cut(line, 0, len)
        };
        assert(kept@ =~= without_carriage_return(line@));
        assert(views(result@.push(kept)) =~= views(result@).push(kept@));
        result.push(kept);
        assert(views(result@) =~= ended.take(i + 1));
    }
    assert(ended.take(n as int) =~= ended);
    let last = &parts[n];
    assert(all.last() == last@);
    if last.len() > 0 {
        let kept = cut(last, 0, last.len());
        assert(kept@ =~= last@);
        assert(views(result@.push(kept)) =~= views(result@).push(kept@));
        result.push(kept);
    }
    result
}

} // verus!
