use std::sync::{Arc, Mutex};

use super_antenna::keywords::{
    antenna_matches, group_matches, matches_word_boundary, matching_antennas, Antenna,
};

#[test]
fn test_matches_word_boundary() {
    // Test single word matches
    assert!(matches_word_boundary("hello world", "hello"));
    assert!(matches_word_boundary("hello world", "world"));

    // Test case insensitivity
    assert!(matches_word_boundary("Hello World", "hello"));
    assert!(matches_word_boundary("HELLO WORLD", "world"));

    // Test word boundaries
    assert!(!matches_word_boundary("helloworld", "hello"));
    assert!(!matches_word_boundary("worldly", "world"));

    // Test multi-word matches
    assert!(matches_word_boundary("hello beautiful world", "hello world"));
    assert!(!matches_word_boundary("helloworld", "hello world"));

    // Test with punctuation
    assert!(matches_word_boundary("hello, world!", "hello"));
    assert!(matches_word_boundary("hello, world!", "world"));

    // Test with special characters
    assert!(matches_word_boundary("hello-world", "hello"));
    assert!(matches_word_boundary("hello_world", "world"));

    // Test empty strings
    assert!(!matches_word_boundary("", "hello"));
    assert!(!matches_word_boundary("hello world", ""));

    // Test with numbers
    assert!(matches_word_boundary("test123 hello", "test123"));
    assert!(matches_word_boundary("hello 42 world", "42"));

    // Test with multiple spaces
    assert!(matches_word_boundary("hello    world", "hello world"));
}

#[test]
fn test_antenna_keyword_matching() {
    // Create test antennas with different keyword groups
    let antenna1 = Antenna {
        id: "1".to_string(),
        keywords_groups: vec![
            vec!["rust".to_string(), "programming".to_string()],
            vec!["tokio".to_string()],
        ],
    };

    let antenna2 = Antenna {
        id: "2".to_string(),
        keywords_groups: vec![vec!["hello".to_string(), "world".to_string()]],
    };

    let antennas = Arc::new(Mutex::new(vec![antenna1, antenna2]));

    // Test post that should match antenna1's first group (both keywords)
    let post_content1 = "I love rust programming!".to_lowercase();
    let antennas_guard = antennas.lock().unwrap();
    let matching1: Vec<String> = antennas_guard
        .iter()
        .filter(|antenna| {
            antenna.keywords_groups.iter().any(|group| {
                group.iter().all(|keyword| matches_word_boundary(&post_content1, keyword))
            })
        })
        .map(|antenna| antenna.id.clone())
        .collect();
    assert_eq!(matching1, vec!["1"]);
    assert_eq!(matching_antennas(&post_content1, &antennas_guard), vec!["1"]);

    // Test post that should match antenna1's second group
    let post_content2 = "Learning about tokio async runtime".to_lowercase();
    let matching2: Vec<String> = antennas_guard
        .iter()
        .filter(|antenna| {
            antenna.keywords_groups.iter().any(|group| {
                group.iter().all(|keyword| matches_word_boundary(&post_content2, keyword))
            })
        })
        .map(|antenna| antenna.id.clone())
        .collect();
    assert_eq!(matching2, vec!["1"]);
    assert_eq!(matching_antennas(&post_content2, &antennas_guard), vec!["1"]);

    // Test post that should match antenna2
    let post_content3 = "Hello world example".to_lowercase();
    let matching3: Vec<String> = antennas_guard
        .iter()
        .filter(|antenna| {
            antenna.keywords_groups.iter().any(|group| {
                group.iter().all(|keyword| matches_word_boundary(&post_content3, keyword))
            })
        })
        .map(|antenna| antenna.id.clone())
        .collect();
    assert_eq!(matching3, vec!["2"]);
    assert_eq!(matching_antennas(&post_content3, &antennas_guard), vec!["2"]);

    // Test post that should match no antennas
    let post_content4 = "Nothing interesting here".to_lowercase();
    let matching4: Vec<String> = antennas_guard
        .iter()
        .filter(|antenna| {
            antenna.keywords_groups.iter().any(|group| {
                group.iter().all(|keyword| matches_word_boundary(&post_content4, keyword))
            })
        })
        .map(|antenna| antenna.id.clone())
        .collect();
    assert_eq!(matching4, vec![] as Vec<String>);
    assert_eq!(matching_antennas(&post_content4, &antennas_guard), vec![] as Vec<String>);
}

fn antenna(id: &str, groups: &[&[&str]]) -> Antenna {
    Antenna {
        id: id.to_string(),
        keywords_groups: groups
            .iter()
            .map(|group| group.iter().map(|keyword| keyword.to_string()).collect())
            .collect(),
    }
}

#[test]
fn several_antennas_match_in_order() {
    let antennas = vec![
        antenna("b", &[&["rust"]]),
        antenna("none", &[]),
        antenna("a", &[&["missing"], &["rust", "fast"]]),
        antenna("half", &[&["rust", "slow"]]),
    ];
    assert_eq!(matching_antennas("rust is fast", &antennas), vec!["b", "a"]);
}

#[test]
fn an_empty_group_matches_every_text() {
    let everything = antenna("all", &[&[]]);
    assert!(antenna_matches("", &everything));
    assert!(antenna_matches("anything", &everything));
    assert!(group_matches("anything", &vec![]));
    assert!(!antenna_matches("anything", &antenna("none", &[])));
}

#[test]
fn more_groups_widen_and_more_keywords_narrow() {
    let text = "red green";
    assert!(antenna_matches(text, &antenna("1", &[&["red"]])));
    assert!(antenna_matches(text, &antenna("1", &[&["red"], &["blue"]])));
    assert!(!antenna_matches(text, &antenna("1", &[&["red", "blue"]])));
}

#[test]
fn the_case_of_ascii_letters_does_not_matter() {
    assert!(matches_word_boundary("RuSt", "rUsT"));
    assert!(matches_word_boundary("i LOVE Rust", "RUST love"));
    // Other letters are compared as they are.
    assert!(!matches_word_boundary("ÄPFEL", "äpfel"));
    assert!(matches_word_boundary("äPFEL", "äpfel"));
}

#[test]
fn spacing_order_and_repetition_of_parts_do_not_matter() {
    for keyword in ["hello world", "world hello", "  hello\t\u{3000}world ", "hello world hello"] {
        assert!(matches_word_boundary("well, hello big world", keyword), "{keyword:?}");
        assert!(!matches_word_boundary("hello wor ld", keyword), "{keyword:?}");
    }
}

#[test]
fn a_keyword_with_other_characters_never_matches() {
    assert!(!matches_word_boundary("c++ and don't", "c++"));
    assert!(!matches_word_boundary("c++ and don't", "don't"));
    // Whitespace around a single part belongs to the keyword.
    assert!(!matches_word_boundary("hello", " hello"));
    assert!(!matches_word_boundary("hello", "hello "));
}

#[test]
fn an_empty_keyword_matches_only_between_two_separators() {
    assert!(!matches_word_boundary("hello world", ""));
    assert!(matches_word_boundary("hello, world", ""));
    assert!(matches_word_boundary("", ""));
    assert!(!matches_word_boundary("hello, world", " "));
    for content in ["", ",", "!hello", "hello!", " a", "a ", "a--b", "ä, ö"] {
        assert!(matches_word_boundary(content, ""), "{content:?}");
    }
    for content in ["a", "a b", "a-b-c", "ä ö"] {
        assert!(!matches_word_boundary(content, ""), "{content:?}");
    }
}

#[test]
fn words_of_other_scripts_are_found() {
    assert!(matches_word_boundary("привет, мир!", "мир"));
    assert!(matches_word_boundary("東京 タワー", "東京"));
    assert!(!matches_word_boundary("東京タワー", "東京"));
    assert!(matches_word_boundary("½ ②", "②"));
}

/// The same question, asked of the standard library.
fn expected(content: &str, keyword: &str) -> bool {
    let found = |wanted: &str| {
        content
            .split(|c: char| !c.is_alphanumeric())
            .any(|word| word.trim().eq_ignore_ascii_case(wanted))
    };
    let parts: Vec<&str> = keyword.split_whitespace().collect();
    if parts.len() > 1 {
        parts.iter().all(|part| found(part))
    } else {
        found(keyword)
    }
}

#[test]
fn answers_agree_with_the_standard_library() {
    let samples = [
        "",
        " ",
        "a",
        "A b",
        "b  A",
        "a-b",
        "a_b c",
        "-a-",
        "é e",
        "É",
        "a\u{a0}b",
        "a\u{2003}b\r\nA",
        "\u{85}a",
        "42 ٤٢",
        "ß SS",
    ];
    for content in samples {
        for keyword in samples {
            assert_eq!(
                matches_word_boundary(content, keyword),
                expected(content, keyword),
                "{content:?} {keyword:?}"
            );
        }
    }
}
