use lazy_iter_core::string_iters::{Bytes, Graphemes, Lines, Split};
use lazy_iter_core::output::Out;
use lazy_iter_core::value::{KString, Value};

fn kstr(s: &str) -> KString {
    KString::from_chars(s.chars().collect())
}

fn pull_strings(mut next: impl FnMut() -> Option<Out>) -> Vec<String> {
    let mut out = Vec::new();
    while let Some(o) = next() {
        match o {
            Out::Value(Value::Str(s)) => out.push(s.chars.iter().collect::<String>()),
            other => panic!("expected a string output, got {:?}", other),
        }
    }
    out
}

#[test]
fn lines_split_on_both_terminators() {
    let mut l = Lines::new(kstr("a\r\nb\n\nc"));
    let got = pull_strings(|| l.next());
    assert_eq!(got, vec!["a", "b", "", "c"]);
}

#[test]
fn lines_drop_a_trailing_terminator() {
    let mut l = Lines::new(kstr("a\nb\n"));
    let got = pull_strings(|| l.next());
    assert_eq!(got, vec!["a", "b"]);
}

#[test]
fn lines_of_empty_yield_nothing() {
    let mut l = Lines::new(kstr(""));
    assert!(l.next().is_none());
}

#[test]
fn split_keeps_empty_parts() {
    let mut s = Split::new(kstr("a,,b"), kstr(","));
    let got = pull_strings(|| s.next());
    assert_eq!(got, vec!["a", "", "b"]);
}

#[test]
fn split_with_trailing_separator_yields_trailing_empty() {
    let mut s = Split::new(kstr("a,"), kstr(","));
    let got = pull_strings(|| s.next());
    assert_eq!(got, vec!["a", ""]);
}

#[test]
fn split_without_match_yields_whole() {
    let mut s = Split::new(kstr("abc"), kstr("x"));
    let got = pull_strings(|| s.next());
    assert_eq!(got, vec!["abc"]);
}

#[test]
fn bytes_yield_utf8() {
    let mut b = Bytes::new(kstr("ab"));
    let mut got = Vec::new();
    while let Some(o) = b.next() {
        match o {
            Out::Value(Value::Number(n)) => got.push(n),
            other => panic!("expected a byte, got {:?}", other),
        }
    }
    assert_eq!(got, vec![97, 98]);
}

#[test]
fn bytes_of_multibyte_follow_the_encoding() {
    let mut b = Bytes::new(kstr("é"));
    let mut got = Vec::new();
    while let Some(o) = b.next() {
        match o {
            Out::Value(Value::Number(n)) => got.push(n as u8),
            other => panic!("expected a byte, got {:?}", other),
        }
    }
    assert_eq!(got, "é".bytes().collect::<Vec<_>>());
}

#[test]
fn graphemes_keep_clusters_together() {
    let mut g = Graphemes::new(kstr("e\u{301}x"));
    let got = pull_strings(|| g.next());
    assert_eq!(got, vec!["e\u{301}".to_string(), "x".to_string()]);
}

#[test]
fn size_hints_never_overstate() {
    let l = Lines::new(kstr("a\nb"));
    let (low, _) = l.size_hint();
    assert!(low <= 2);
    let s = Split::new(kstr("a,b"), kstr(","));
    let (low2, _) = s.size_hint();
    assert!(low2 <= 2);
}

#[test]
fn lines_keep_a_carriage_return_pair_together() {
    let mut l = Lines::new(kstr("a\r\n"));
    let got = pull_strings(|| l.next());
    assert_eq!(got, vec!["a"]);
}

#[test]
fn lines_treat_a_bare_return_as_text() {
    let mut l = Lines::new(kstr("a\rb"));
    let got = pull_strings(|| l.next());
    assert_eq!(got, vec!["a\rb"]);
}

#[test]
fn split_on_a_longer_pattern() {
    let mut s = Split::new(kstr("x--y--z"), kstr("--"));
    let got = pull_strings(|| s.next());
    assert_eq!(got, vec!["x", "y", "z"]);
}
