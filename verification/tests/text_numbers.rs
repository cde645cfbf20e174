use gloom::numbers::{is_float_text, parse_u32_chars, u32_or_zero_chars};
use gloom::text::{is_space_char, split_at_char, split_lines, split_words};

fn chars(s: &str) -> Vec<char> {
    s.chars().collect()
}

fn strings(v: &Vec<Vec<char>>) -> Vec<String> {
    v.iter().map(|w| w.iter().collect()).collect()
}

#[test]
fn whitespace_matches_char_is_whitespace() {
    for u in 0u32..=0x10FFFF {
        if let Some(c) = char::from_u32(u) {
            assert_eq!(is_space_char(c), c.is_whitespace(), "code point {:#x}", u);
        }
    }
}

const SAMPLES: &[&str] = &[
    "", " ", "a", "  a  b\tc\n", "v 1 2 3", "\u{3000}x\u{85}y\u{a0}", "a\r\nb", "\n\n",
    "one\ntwo\n", "one\ntwo", "x\r", "x\r\n", "\r\n", "a\rb\n", "#c\n\nv\n",
];

#[test]
fn words_match_split_whitespace() {
    for s in SAMPLES {
        let expected: Vec<String> = s.split_whitespace().map(|w| w.to_string()).collect();
        assert_eq!(strings(&split_words(&chars(s))), expected, "{:?}", s);
    }
}

#[test]
fn lines_match_str_lines() {
    for s in SAMPLES {
        let expected: Vec<String> = s.lines().map(|w| w.to_string()).collect();
        assert_eq!(strings(&split_lines(&chars(s))), expected, "{:?}", s);
    }
}

#[test]
fn pieces_match_str_split() {
    for s in ["", "/", "1/2/3", "1//3", "//", "a/b/c/d", "x"] {
        let expected: Vec<String> = s.split('/').map(|w| w.to_string()).collect();
        assert_eq!(strings(&split_at_char(&chars(s), '/')), expected, "{:?}", s);
    }
}

const NUMBERS: &[&str] = &[
    "", "+", "-", ".", "0", "1", "-1", "+1", "1.", ".5", "-.5", "1.5", "1e5", "1E5", "1e+5",
    "1e-5", "1e", "1e+", "e5", ".e5", "1.e5", ".5e-3", "inf", "INF", "-inf", "+Inf", "infinity",
    "Infinity", "-INFINITY", "infin", "nan", "NaN", "-nan", "nana", "1_0", "0x10", " 1", "1 ",
    "1..2", "1.2.3", "--1", "+-1", "1e5.0", "١", "00012.000", "1f", "3e2", "1e99999",
    "12345678901234567890", "-0", "+.", "-.e1",
];

#[test]
fn float_texts_match_f32_from_str() {
    for s in NUMBERS {
        assert_eq!(is_float_text(&chars(s)), s.parse::<f32>().is_ok(), "{:?}", s);
    }
}

#[test]
fn u32_texts_match_u32_from_str() {
    let samples = [
        "", "+", "-", "0", "7", "+7", "-7", "007", "4294967295", "4294967296", "+4294967295",
        "99999999999999999999", "1a", "a1", "++1", " 1", "١",
    ];
    for s in samples {
        assert_eq!(parse_u32_chars(&chars(s)), s.parse::<u32>().ok(), "{:?}", s);
        assert_eq!(u32_or_zero_chars(&chars(s)), s.parse::<u32>().unwrap_or(0), "{:?}", s);
    }
}
