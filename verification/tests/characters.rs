use notfail::text::{
    contains_text, drop_white, find_text, is_whitespace, parse_u32, push_numeral, push_repeated,
    rfind_char, skip_white, starts_with, string_of, strip_white, word_first, word_last,
};

const SAMPLES: [&str; 14] = [
    "", " ", "a", " a ", "\u{3000}a b\u{85}", "one two  three", "\t x\n", "aab aab", "+", "+7",
    "0042", "4294967295", "4294967296", "99999999999999999999x",
];

fn chars(s: &str) -> Vec<char> {
    s.chars().collect()
}

fn spelled(s: &[char]) -> String {
    s.iter().collect()
}

#[test]
fn white_space_is_that_of_unicode() {
    for c in '\0'..=char::MAX {
        assert_eq!(is_whitespace(c), c.is_whitespace());
    }
}

#[test]
fn text_is_trimmed() {
    for s in SAMPLES {
        let c = chars(s);
        assert_eq!(spelled(skip_white(&c)), s.trim_start());
        assert_eq!(spelled(drop_white(&c)), s.trim_end());
        assert_eq!(spelled(strip_white(&c)), s.trim());
        assert_eq!(string_of(&c), s);
    }
}

#[test]
fn words_are_found() {
    for s in SAMPLES {
        let c = chars(s);
        assert_eq!(word_first(&c).map(spelled), s.split_whitespace().next().map(String::from));
        assert_eq!(word_last(&c).map(spelled), s.split_whitespace().last().map(String::from));
    }
}

#[test]
fn text_is_searched() {
    for s in SAMPLES {
        let c = chars(s);
        for p in ["", "a", "ab", "aab", "o t", "x", "7", "é"] {
            assert_eq!(starts_with(&c, p), s.starts_with(p));
            assert_eq!(contains_text(&c, p), s.contains(p));
            let at = s.find(p).map(|i| s[..i].chars().count());
            assert_eq!(find_text(&c, p), at);
        }
        for p in ['a', ' ', 'b', '9'] {
            let at = s.rfind(p).map(|i| s[..i].chars().count());
            assert_eq!(rfind_char(&c, p), at);
        }
    }
}

#[test]
fn numbers_are_read() {
    for s in SAMPLES {
        assert_eq!(parse_u32(&chars(s)), s.parse::<u32>().ok());
    }
    for s in ["-1", "++1", "1+", "٣", "1_0", "00000000000000000000007"] {
        assert_eq!(parse_u32(&chars(s)), s.parse::<u32>().ok());
    }
}

#[test]
fn numbers_are_written_and_read_back() {
    for n in [0u64, 9, 10, 15, 16, 255, 1987, u32::MAX as u64, u64::MAX] {
        let mut out = String::from("<");
        push_numeral(&mut out, n, 10);
        assert_eq!(out, format!("<{}", n));
        assert_eq!(parse_u32(&chars(&out[1..])).map(u64::from), u32::try_from(n).ok().map(u64::from));
        let mut hex = String::new();
        push_numeral(&mut hex, n, 16);
        assert_eq!(hex, format!("{:x}", n));
        let mut bits = String::new();
        push_numeral(&mut bits, n, 2);
        assert_eq!(bits, format!("{:b}", n));
    }
    let mut out = String::from("a");
    push_repeated(&mut out, '█', 3);
    push_repeated(&mut out, 'x', 0);
    assert_eq!(out, "a███");
}
