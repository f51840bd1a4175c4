use super_antenna::text::{
    chars_of, cut, eq_ignore_ascii_case, is_whitespace, is_word, lines, split, stands_at,
    string_of, strip, to_ascii_lower, trim, Separator,
};

const SAMPLES: [&str; 16] = [
    "",
    "\n",
    "\r\n",
    "\r",
    "a",
    "a\n",
    "a\r\nb",
    "a\r\r\nb\r",
    "\n\n",
    "a\n\nb\n",
    "  a b  ",
    "\u{3000}\u{85}x y\u{a0}",
    "event:event: e",
    "event:",
    "eventevent:",
    "ä\u{1f600}\n\u{2028}b",
];

fn strings(parts: Vec<Vec<char>>) -> Vec<String> {
    parts.iter().map(string_of).collect()
}

#[test]
fn whitespace_is_what_the_standard_library_takes_for_it() {
    for c in '\0'..=char::MAX {
        assert_eq!(is_whitespace(c), c.is_whitespace(), "{c:?}");
    }
}

#[test]
fn word_characters_are_what_the_standard_library_takes_for_alphanumeric() {
    for c in '\0'..=char::MAX {
        assert_eq!(is_word(c), c.is_alphanumeric(), "{c:?}");
    }
}

#[test]
fn lowering_touches_ascii_capitals_only() {
    for c in '\0'..=char::MAX {
        assert_eq!(to_ascii_lower(c), c.to_ascii_lowercase());
    }
}

#[test]
fn characters_and_strings_are_two_forms_of_a_text() {
    for s in SAMPLES {
        assert_eq!(chars_of(s), s.chars().collect::<Vec<char>>());
        assert_eq!(string_of(&chars_of(s)), s);
    }
}

#[test]
fn lines_are_cut_as_the_standard_library_cuts_them() {
    for s in SAMPLES {
        assert_eq!(strings(lines(&chars_of(s))), s.lines().collect::<Vec<&str>>(), "{s:?}");
    }
}

#[test]
fn pieces_are_cut_as_the_standard_library_cuts_them() {
    for s in SAMPLES {
        let chars = chars_of(s);
        assert_eq!(
            strings(split(&chars, Separator::NonWord)),
            s.split(|c: char| !c.is_alphanumeric()).collect::<Vec<&str>>()
        );
        assert_eq!(
            strings(split(&chars, Separator::Whitespace)),
            s.split(char::is_whitespace).collect::<Vec<&str>>()
        );
        assert_eq!(
            strings(split(&chars, Separator::LineFeed)),
            s.split('\n').collect::<Vec<&str>>()
        );
    }
}

#[test]
fn whitespace_is_trimmed_at_both_ends() {
    for s in SAMPLES {
        assert_eq!(string_of(&trim(&chars_of(s))), s.trim(), "{s:?}");
    }
}

#[test]
fn every_copy_of_a_prefix_is_stripped() {
    for s in SAMPLES {
        let rest = strip(&chars_of(s), &chars_of("event:"));
        assert_eq!(string_of(&rest), s.trim_start_matches("event:"), "{s:?}");
    }
    assert_eq!(string_of(&strip(&chars_of("abc"), &chars_of(""))), "abc");
}

#[test]
fn a_prefix_is_found_where_it_stands() {
    let chars = chars_of("xevent:");
    let prefix = chars_of("event:");
    assert!(!stands_at(&chars, 0, &prefix));
    assert!(stands_at(&chars, 1, &prefix));
    assert!(!stands_at(&chars, 2, &prefix));
    assert!(stands_at(&chars, 7, &chars_of("")));
    assert_eq!(cut(&chars, 1, 3), vec!['e', 'v']);
}

#[test]
fn comparison_ignores_ascii_case() {
    for (a, b) in [("Ab1", "aB1"), ("a", "ab"), ("ä", "Ä"), ("", ""), ("K", "\u{212a}")] {
        assert_eq!(
            eq_ignore_ascii_case(&chars_of(a), &chars_of(b)),
            a.eq_ignore_ascii_case(b),
            "{a} {b}"
        );
    }
}
