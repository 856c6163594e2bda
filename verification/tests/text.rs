use std::cmp::Ordering;
use tracing_span_tree::text::{push_blanks, push_decimal, push_left_aligned};
use tracing_span_tree::compare_text;

#[test]
fn texts_compare_character_by_character() {
    assert_eq!(compare_text("", ""), Ordering::Equal);
    assert_eq!(compare_text("", "a"), Ordering::Less);
    assert_eq!(compare_text("a", ""), Ordering::Greater);
    assert_eq!(compare_text("abc", "abc"), Ordering::Equal);
    assert_eq!(compare_text("abc", "abd"), Ordering::Less);
    assert_eq!(compare_text("abd", "abc"), Ordering::Greater);
    assert_eq!(compare_text("ab", "abc"), Ordering::Less);
    assert_eq!(compare_text("abc", "ab"), Ordering::Greater);
    assert_eq!(compare_text("Z", "a"), Ordering::Less);
    assert_eq!(compare_text("z", "é"), Ordering::Less);
    assert_eq!(compare_text("\u{ffff}", "\u{10000}"), Ordering::Less);
}

#[test]
fn texts_compare_as_strings_do() {
    let samples = ["", "a", "A", "ab", "b", "middle", "leaf", "é", "e\u{301}", "\u{10000}", "~"];
    for a in samples {
        for b in samples {
            assert_eq!(compare_text(a, b), a.cmp(b));
        }
    }
}

#[test]
fn numbers_are_written_in_base_ten() {
    let mut out = String::from("n=");
    push_decimal(&mut out, 0);
    assert_eq!(out, "n=0");
    let mut out = String::new();
    push_decimal(&mut out, 7);
    push_decimal(&mut out, 10);
    push_decimal(&mut out, 4_294_967_295);
    assert_eq!(out, "7104294967295");
    let mut out = String::new();
    push_decimal(&mut out, 1_000_000);
    assert_eq!(out, "1000000");
}

#[test]
fn blanks_are_appended() {
    let mut out = String::from("x");
    push_blanks(&mut out, 0);
    assert_eq!(out, "x");
    push_blanks(&mut out, 3);
    assert_eq!(out, "x   ");
}

#[test]
fn a_text_is_filled_up_to_its_width_in_characters() {
    let mut out = String::from("[");
    push_left_aligned(&mut out, "ab", 4);
    out.push(']');
    assert_eq!(out, "[ab  ]");
    let mut out = String::new();
    push_left_aligned(&mut out, "abcd", 4);
    assert_eq!(out, "abcd");
    let mut out = String::new();
    push_left_aligned(&mut out, "abcde", 4);
    assert_eq!(out, "abcde");
    let mut out = String::new();
    push_left_aligned(&mut out, "µs", 4);
    assert_eq!(out, "µs  ");
}
