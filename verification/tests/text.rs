use std::path::Path;

use shellsuggest::distinct::without_repeats;
use shellsuggest::number::{float_literal, parse_i32, parse_u64};
use shellsuggest::order::{sorted_by_weight, Weigh};
use shellsuggest::paths::join;
use shellsuggest::plugin::{Score, SuggestionCandidate, SuggestionKind};
use shellsuggest::text::{
    chars_of, is_whitespace, joined, lines_of, split, string_of, trimmed, words_of,
};

fn strings(parts: Vec<Vec<char>>) -> Vec<String> {
    parts.iter().map(string_of).collect()
}

const SAMPLES: [&str; 12] = [
    "",
    " ",
    "a",
    " a b ",
    "\t\u{2003}x\u{a0}y\u{85}",
    "a\nb",
    "a\r\nb\r\n",
    "\n",
    "\r\n\r\n",
    "a\r\r\n",
    "ä ö\u{200b}ü",
    "one\u{1f}two\u{feff}",
];

#[test]
fn text_is_taken_apart_as_the_standard_library_does() {
    for s in SAMPLES {
        let v = chars_of(s);
        assert_eq!(string_of(&v), s);
        assert_eq!(string_of(&trimmed(&v)), s.trim());
        let words: Vec<&str> = s.split_whitespace().collect();
        assert_eq!(strings(words_of(&v)), words);
        let lines: Vec<&str> = s.lines().collect();
        assert_eq!(strings(lines_of(&v)), lines);
        let parts: Vec<&str> = s.split('b').collect();
        assert_eq!(strings(split(&v, 'b')), parts);
        assert_eq!(string_of(&joined(&split(&v, 'b'), "b")), s);
    }
}

#[test]
fn white_space_is_what_unicode_says() {
    for n in 0..=0x3100u32 {
        if let Some(c) = char::from_u32(n) {
            assert_eq!(is_whitespace(c), c.is_whitespace(), "{n:x}");
        }
    }
}

#[test]
fn paths_are_joined_as_the_standard_library_does() {
    for base in ["", "/", "/a", "/a/", "a", "a//", "./", ".."] {
        for relative in ["", "b", "b/", "./b", "../b", "/b", "/", "//x", "~"] {
            let expected = Path::new(base).join(relative);
            assert_eq!(join(base, relative), expected.to_str().unwrap(), "{base} {relative}");
        }
    }
}

#[test]
fn numbers_are_read_as_the_standard_library_does() {
    for s in [
        "", "0", "00", "7", "+7", "-7", "--7", "+", "-", "7a", " 7", "18446744073709551615",
        "18446744073709551616", "99999999999999999999", "2147483647", "2147483648", "-2147483648",
        "-2147483649", "-0",
    ] {
        let v = chars_of(s);
        assert_eq!(parse_u64(&v), s.parse::<u64>().ok(), "{s}");
        assert_eq!(parse_i32(&v), s.parse::<i32>().ok(), "{s}");
    }
}

#[test]
fn floating_point_literals_are_those_of_the_standard_library() {
    for s in [
        "", ".", "0", "0.", ".0", "0.91", "-1.5", "+1.5", "1e5", "1E-5", "1e+", "1e", "e5", ".e1",
        "1.2.3", "inf", "-INF", "Infinity", "nan", "+NaN", "infinit", "0x1", "1_000", " 1", "1f",
        "--1", "1e5.0",
    ] {
        let v = chars_of(s);
        assert_eq!(float_literal(&v), s.parse::<f32>().is_ok(), "{s}");
    }
}

fn candidate(text: &str, bits: u32) -> SuggestionCandidate {
    SuggestionCandidate {
        text: text.into(),
        source: String::new(),
        score: Score {
            bits,
            text: String::new(),
        },
        kind: SuggestionKind::Argument,
    }
}

#[test]
fn sorting_is_stable_and_heaviest_first() {
    let mut seed: u64 = 7;
    for len in 0..60 {
        let mut items = Vec::new();
        for i in 0..len {
            seed = seed.wrapping_mul(6364136223846793005).wrapping_add(1442695040888963407);
            items.push(candidate(&format!("{i}"), (seed >> 60) as u32));
        }
        let mut expected = items.clone();
        expected.sort_by(|a, b| b.weigh().cmp(&a.weigh()));
        assert_eq!(sorted_by_weight(items), expected);
    }
}

#[test]
fn the_first_of_each_is_kept() {
    let items: Vec<String> = ["a", "b", "a", "c", "b"].iter().map(|s| s.to_string()).collect();
    assert_eq!(without_repeats(items), vec!["a", "b", "c"]);
}
