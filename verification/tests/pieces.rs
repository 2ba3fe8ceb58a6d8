use hanumail::engine::{feed, finish, reformat_chars, Paragraph};
use hanumail::quote::{parse_chars, prefix_chars};
use hanumail::range::{count_leading_blanks, count_trailing_blanks};
use hanumail::segment::{boundaries, opens_signature, step, Section};
use hanumail::text::split_lines_chars;
use hanumail::wrap::{chars_width, wrap_chars};

fn chars(s: &str) -> Vec<char> {
    s.chars().collect()
}

fn rows(lines: &[&str]) -> Vec<Vec<char>> {
    lines.iter().map(|l| chars(l)).collect()
}

#[test]
fn markers_are_a_quote_sign_and_a_space_each() {
    assert_eq!(prefix_chars(0), chars(""));
    assert_eq!(prefix_chars(1), chars("> "));
    assert_eq!(prefix_chars(3), chars("> > > "));
}

#[test]
fn parse_chars_gives_depth_and_content() {
    assert_eq!(parse_chars(&chars(" >> > said  so ")), (3, chars("said  so")));
    assert_eq!(parse_chars(&chars("")), (0, chars("")));
}

#[test]
fn width_counts_bytes() {
    assert_eq!(chars_width(&chars("")), 0);
    assert_eq!(chars_width(&chars("abc")), 3);
    assert_eq!(chars_width(&chars("a\u{e9}\u{20ac}\u{1f600}")), 10);
}

#[test]
fn wrap_chars_wraps_characters() {
    assert_eq!(wrap_chars(&chars("ab cd ef"), 1, 7), rows(&["> ab cd", "> ef"]));
    assert_eq!(wrap_chars(&chars("ab cd ef"), 1, 6), rows(&["> ab", "> cd", "> ef"]));
}

#[test]
fn reformat_chars_reformats_characters() {
    let out = reformat_chars(&rows(&["> a", ">b", "", "c"]));
    assert_eq!(out, chars("> a b\n\nc\n"));
}

#[test]
fn split_lines_chars_splits_characters() {
    assert_eq!(split_lines_chars(&chars("a\r\n\nb")), rows(&["a", "", "b"]));
}

#[test]
fn signature_mark_is_two_dashes_with_or_without_a_space() {
    assert!(opens_signature(&chars("--")));
    assert!(opens_signature(&chars("-- ")));
    for other in ["", "-", "---", "--  ", " --", "--\t", "-- x", "\u{2014}"] {
        assert!(!opens_signature(&chars(other)));
    }
}

#[test]
fn scan_leaves_the_header_at_the_first_empty_line() {
    assert_eq!(step(Section::Header, &chars("To: x")), (Section::Header, Section::Header));
    assert_eq!(step(Section::Header, &chars("--")), (Section::Header, Section::Header));
    assert_eq!(step(Section::Header, &chars("")), (Section::Header, Section::Body));
}

#[test]
fn scan_leaves_the_body_at_the_signature_mark() {
    assert_eq!(step(Section::Body, &chars("text")), (Section::Body, Section::Body));
    assert_eq!(step(Section::Body, &chars("")), (Section::Body, Section::Body));
    assert_eq!(step(Section::Body, &chars("--")), (Section::Signature, Section::Signature));
    assert_eq!(step(Section::Body, &chars("-- ")), (Section::Signature, Section::Signature));
}

#[test]
fn scan_never_leaves_the_signature() {
    for line in ["", "--", "text"] {
        let next = step(Section::Signature, &chars(line));
        assert_eq!(next, (Section::Signature, Section::Signature));
    }
}

#[test]
fn boundaries_mark_where_header_and_body_end() {
    assert_eq!(boundaries(&rows(&["h", "", "b", "b", "--", "s"])), (2, 4));
    assert_eq!(boundaries(&rows(&["h", "h"])), (2, 2));
    assert_eq!(boundaries(&rows(&["", "--"])), (1, 1));
    assert_eq!(boundaries(&rows(&["", "b", "", "b"])), (1, 4));
    assert_eq!(boundaries(&rows(&[])), (0, 0));
}

#[test]
fn blank_counts_at_both_ends() {
    let sel = rows(&["", "", "a", "", "b", ""]);
    assert_eq!(count_leading_blanks(&sel), 2);
    assert_eq!(count_trailing_blanks(&sel), 1);
    let empty = rows(&["", ""]);
    assert_eq!(count_leading_blanks(&empty), 2);
    assert_eq!(count_trailing_blanks(&empty), 2);
    assert_eq!(count_leading_blanks(&rows(&[" "])), 0);
}

fn open(depth: usize, text: &str) -> Option<Paragraph> {
    Some(Paragraph { depth, text: chars(text) })
}

fn shown(state: &Option<Paragraph>) -> Option<(usize, String)> {
    state.as_ref().map(|p| (p.depth, p.text.iter().collect()))
}

#[test]
fn engine_opens_a_paragraph_at_the_first_line_with_content() {
    let mut out = Vec::new();
    let next = feed(None, &chars(">  hello "), &mut out);
    assert_eq!(shown(&next), Some((1, "hello".to_string())));
    assert!(out.is_empty());
}

#[test]
fn engine_extends_an_open_paragraph_of_the_same_depth() {
    let mut out = Vec::new();
    let next = feed(open(2, "one two"), &chars(">> three"), &mut out);
    assert_eq!(shown(&next), Some((2, "one two three".to_string())));
    assert!(out.is_empty());
}

#[test]
fn engine_closes_an_open_paragraph_at_a_change_of_depth() {
    let mut out = chars("kept\n");
    let next = feed(open(2, "one two"), &chars("> three"), &mut out);
    assert_eq!(shown(&next), Some((1, "three".to_string())));
    assert_eq!(out, chars("kept\n> > one two\n"));
}

#[test]
fn engine_closes_an_open_paragraph_at_a_blank_line() {
    let mut out = Vec::new();
    let next = feed(open(1, "one"), &chars(">> "), &mut out);
    assert_eq!(shown(&next), None);
    assert_eq!(out, chars("> one\n> >\n"));
}

#[test]
fn engine_emits_a_blank_line_when_nothing_is_open() {
    let mut out = Vec::new();
    let next = feed(None, &chars(""), &mut out);
    assert_eq!(shown(&next), None);
    assert_eq!(out, chars("\n"));
}

#[test]
fn engine_finish_emits_what_is_open() {
    let mut out = chars("x");
    finish(None, &mut out);
    assert_eq!(out, chars("x"));
    finish(open(0, "a  b"), &mut out);
    assert_eq!(out, chars("xa b\n"));
}
