use lothelper::clip::{bytes_of, keep_tail, truncate_str};
use lothelper::number::{decimal_text, parse_i32, signed_decimal_text};
use lothelper::order::{sort_distinct, sort_texts, text_at_most};
use lothelper::text::{
    contains, joined, lines_of, replaced, same_text, split_once, strip_prefix, trimmed,
    trimmed_start, white_space,
};

const SAMPLES: [&str; 16] = [
    "",
    " ",
    "a",
    "\n",
    "\r\n",
    "a\nb",
    "a\r\nb\r\n",
    "a\rb\n\n",
    "\r",
    "a\r\r\n",
    " \t가 나\u{3000}",
    "\u{85}x\u{a0}",
    "k=v=w",
    "=",
    "aaab",
    "é́😀z",
];

fn owned(parts: &[&str]) -> Vec<String> {
    parts.iter().map(|s| s.to_string()).collect()
}

#[test]
fn white_space_is_that_of_unicode() {
    for u in 0..=0x10ffffu32 {
        if let Some(c) = char::from_u32(u) {
            assert_eq!(white_space(c), c.is_whitespace(), "{u:x}");
        }
    }
}

#[test]
fn texts_are_trimmed() {
    for s in SAMPLES {
        assert_eq!(trimmed(s), s.trim(), "{s:?}");
        assert_eq!(trimmed_start(s), s.trim_start(), "{s:?}");
        assert_eq!(trimmed(&trimmed(s)), trimmed(s));
    }
}

#[test]
fn texts_are_split_into_lines() {
    for s in SAMPLES {
        let expected: Vec<String> = s.lines().map(str::to_string).collect();
        assert_eq!(lines_of(s), expected, "{s:?}");
    }
    assert_eq!(lines_of("one\r\ntwo\n\nthree"), owned(&["one", "two", "", "three"]));
    let whole = owned(&["x", "", "y "]);
    assert_eq!(lines_of(&format!("{}\n", joined(&whole, 0, 3, "\n"))), whole);
}

#[test]
fn texts_are_searched_and_taken_apart() {
    for s in SAMPLES {
        for part in SAMPLES {
            assert_eq!(contains(s, part), s.contains(part), "{s:?} {part:?}");
            assert_eq!(strip_prefix(s, part).as_deref(), s.strip_prefix(part), "{s:?} {part:?}");
            assert_eq!(same_text(s, part), s == part);
        }
        let expected = s.split_once('=').map(|(k, v)| (k.to_string(), v.to_string()));
        assert_eq!(split_once(s, '='), expected, "{s:?}");
        assert_eq!(replaced(s, 'a', '/'), s.replace('a', "/"), "{s:?}");
    }
    assert!(contains("aaab", "aab") && !contains("aab", "aaab"));
}

#[test]
fn texts_are_joined() {
    let parts = owned(&["a", "", "b", "c"]);
    assert_eq!(joined(&parts, 0, 4, ", "), "a, , b, c");
    assert_eq!(joined(&parts, 1, 3, "-"), "-b");
    assert_eq!(joined(&parts, 2, 2, "-"), "");
}

#[test]
fn numbers_are_written_and_read() {
    for n in [0u64, 7, 10, 8080, 999, u64::MAX] {
        assert_eq!(decimal_text(n), n.to_string());
    }
    for n in [0i32, 5, -1, 99, -100, i32::MAX, i32::MIN] {
        assert_eq!(signed_decimal_text(n), n.to_string());
        assert_eq!(parse_i32(&signed_decimal_text(n)), Some(n));
    }
    for s in [
        "", "+", "-", "+7", "-0", "007", "12a", " 1", "1 ", "2147483647", "2147483648",
        "-2147483648", "-2147483649", "99999999999999999999", "--1", "+-1", "1_000", "٣",
    ] {
        assert_eq!(parse_i32(s), s.parse::<i32>().ok(), "{s:?}");
    }
}

#[test]
fn texts_are_clipped_at_characters() {
    let s = "a가😀b";
    assert_eq!(bytes_of(s), 9);
    assert_eq!(truncate_str(s, 0), "");
    assert_eq!(truncate_str(s, 3), "a");
    assert_eq!(truncate_str(s, 4), "a가");
    assert_eq!(truncate_str(s, 7), "a가");
    assert_eq!(truncate_str(s, 8), "a가😀");
    assert_eq!(truncate_str(s, 9), s);
    assert_eq!(truncate_str(s, 100), s);
    for a in 0..10 {
        for b in 0..10 {
            assert_eq!(truncate_str(truncate_str(s, a), b), truncate_str(s, a.min(b)));
        }
    }
    assert_eq!(keep_tail(s, 0), "");
    assert_eq!(keep_tail(s, 4), "b");
    assert_eq!(keep_tail(s, 5), "😀b");
    assert_eq!(keep_tail(s, 8), "가😀b");
    assert_eq!(keep_tail(s, 9), s);
}

#[test]
fn texts_are_sorted_by_their_bytes() {
    let given = owned(&["b", "a/b", "B", "", "가", "a", "a.b", "b", "é", "z", "😀", "\u{ffff}"]);
    let mut expected = given.clone();
    expected.sort();
    assert_eq!(sort_texts(given.clone()), expected);
    expected.dedup();
    assert_eq!(sort_distinct(given), expected);
    assert_eq!(sort_distinct(owned(&["b", "a", "b", "a", "b"])), owned(&["a", "b"]));
    assert!(text_at_most("a", "a") && text_at_most("", "a") && !text_at_most("b", "a"));
    assert!(text_at_most("\u{ffff}", "😀") && text_at_most("a", "aa") && !text_at_most("aa", "a"));
}
