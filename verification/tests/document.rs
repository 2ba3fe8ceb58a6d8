use hanumail::range::{
    document_range, extract_range, format_range, splice, InvalidRangeError, Position, Range,
    Selection,
};
use hanumail::segment::{reformat_entire_doc, segment, split};
use hanumail::text::lines;

fn span(l0: u32, c0: u32, l1: u32, c1: u32) -> Range {
    Range { start: Position { line: l0, character: c0 }, end: Position { line: l1, character: c1 } }
}

#[test]
fn lines_are_split_as_std_does() {
    let texts =
        ["", "\n", "a", "a\n", "a\nb", "a\r\nb\r\n", "a\r", "a\r\r\n", "\r\n", "a\n\nb\n\n", "\rb\n"];
    for text in texts {
        let expected: Vec<String> = text.lines().map(|l| l.to_string()).collect();
        assert_eq!(lines(text), expected);
    }
}

#[test]
fn segment_finds_header_body_and_signature() {
    let s = segment("Subject: x\n\nHi there\n--\nBob\n");
    assert_eq!(s.header, vec!["Subject: x".to_string(), String::new()]);
    assert_eq!(s.body, vec!["Hi there".to_string()]);
    assert_eq!(s.signature, vec!["--".to_string(), "Bob".to_string()]);
}

#[test]
fn segment_covers_the_document() {
    let text = "To: a\nFrom: b\n\nbody one\n\nbody two\n-- \nsig\n--\nmore\n";
    let s = segment(text);
    let mut all = s.header.clone();
    all.extend(s.body.clone());
    all.extend(s.signature.clone());
    let expected: Vec<String> = text.lines().map(|l| l.to_string()).collect();
    assert_eq!(all, expected);
    assert_eq!(s.header.len(), 3);
    assert_eq!(s.body.len(), 3);
    assert_eq!(s.signature.len(), 4);
}

#[test]
fn segment_without_blank_line_is_all_header() {
    let s = segment("a\n--\nb");
    assert_eq!(s.header, vec!["a".to_string(), "--".to_string(), "b".to_string()]);
    assert!(s.body.is_empty());
    assert!(s.signature.is_empty());
}

#[test]
fn segment_without_signature_mark_never_leaves_the_body() {
    let s = segment("h\n\nb1\n---\n --\nb2");
    assert_eq!(s.header.len(), 2);
    assert_eq!(
        s.body,
        vec!["b1".to_string(), "---".to_string(), " --".to_string(), "b2".to_string()]
    );
    assert!(s.signature.is_empty());
}

#[test]
fn segment_accepts_the_mark_with_a_trailing_space() {
    let s = segment("\nbody\n-- \nsig");
    assert_eq!(s.header, vec![String::new()]);
    assert_eq!(s.body, vec!["body".to_string()]);
    assert_eq!(s.signature, vec!["-- ".to_string(), "sig".to_string()]);
}

#[test]
fn split_reformats_only_the_body() {
    let (header, body, signature) = split("Subject: x\n\nHi there\n--\nBob\n");
    assert_eq!(header, "Subject: x\n");
    assert_eq!(body, "Hi there\n");
    assert_eq!(signature, "--\nBob");
}

#[test]
fn whole_document_keeps_header_and_signature() {
    let out = reformat_entire_doc("Subject: x\n\nHi there\n--\nBob\n");
    assert_eq!(out, "Subject: x\n\nHi there\n--\nBob\n");
}

#[test]
fn whole_document_reflows_the_body() {
    let doc = "A:  b\nC:   d\n\n> one\n> two\n\nthree\nfour\n-- \nBob   Smith\n";
    let out = reformat_entire_doc(doc);
    assert_eq!(out, "A:  b\nC:   d\n\n> one two\n\nthree four\n-- \nBob   Smith\n");
}

#[test]
fn whole_document_without_signature_ends_in_an_empty_line() {
    assert_eq!(reformat_entire_doc("h\n\nb\n"), "h\n\nb\n\n");
    assert_eq!(reformat_entire_doc("only header"), "only header\n\n");
    assert_eq!(reformat_entire_doc(""), "\n\n");
}

#[test]
fn document_range_ends_after_the_last_line() {
    assert_eq!(document_range("a\nb\nc\n"), span(0, 0, 3, 0));
    assert_eq!(document_range("a\nb\nc"), span(0, 0, 3, 0));
    assert_eq!(document_range(""), span(0, 0, 0, 0));
}

fn ten_lines() -> String {
    "zero\none\n\n> three and\n\nfive\nsix\nseven\neight\nnine\n".to_string()
}

#[test]
fn range_with_blank_first_and_last_line() {
    let doc = "zero\none\n\nthree  and   more\n\nfive\nsix\nseven\neight\nnine\n";
    let sel = extract_range(doc, span(2, 0, 4, 0)).unwrap().unwrap();
    assert_eq!(sel.leading_blanks, 1);
    assert_eq!(sel.trailing_blanks, 1);
    assert_eq!(sel.lines, vec![String::new(), "three  and   more".to_string(), String::new()]);
    assert_eq!(splice(&sel), "\nthree and more\n");
    assert_eq!(format_range(doc, span(2, 0, 4, 0)), Ok(Some("\nthree and more\n".to_string())));
}

#[test]
fn range_cuts_first_and_last_line() {
    let doc = ten_lines();
    let sel = extract_range(&doc, span(0, 2, 1, 2)).unwrap().unwrap();
    assert_eq!(sel.lines, vec!["ro".to_string(), "on".to_string()]);
    assert_eq!(sel.leading_blanks, 0);
    assert_eq!(sel.trailing_blanks, 0);
    assert_eq!(format_range(&doc, span(0, 2, 1, 2)), Ok(Some("ro on".to_string())));
}

#[test]
fn range_within_one_line() {
    let doc = ten_lines();
    assert_eq!(format_range(&doc, span(3, 2, 3, 7)), Ok(Some("three".to_string())));
    assert_eq!(format_range(&doc, span(3, 0, 3, 11)), Ok(Some("> three and".to_string())));
}

#[test]
fn range_counts_characters_not_bytes() {
    let doc = "h\u{e9}llo w\u{f6}rld\n";
    assert_eq!(format_range(doc, span(0, 1, 0, 9)), Ok(Some("\u{e9}llo w\u{f6}r".to_string())));
    assert_eq!(format_range(doc, span(0, 0, 0, 11)), Ok(Some("h\u{e9}llo w\u{f6}rld".to_string())));
}

#[test]
fn range_keeps_several_blank_lines_at_both_ends() {
    let doc = "\n\n> a\n> b\n\n\n\nz\n";
    assert_eq!(format_range(doc, span(0, 0, 6, 0)), Ok(Some("\n\n> a b\n\n\n".to_string())));
}

#[test]
fn range_keeps_inner_blank_lines() {
    let doc = "a\n\n\nb\n";
    assert_eq!(format_range(doc, span(0, 0, 3, 1)), Ok(Some("a\n\n\nb".to_string())));
}

#[test]
fn range_past_the_last_line_stops_at_the_last_line() {
    let doc = "a\nbcd\n";
    let sel = extract_range(doc, span(0, 0, 7, 2)).unwrap().unwrap();
    assert_eq!(sel.lines, vec!["a".to_string(), "bc".to_string()]);
}

#[test]
fn range_that_selects_no_line_gives_nothing() {
    let doc = ten_lines();
    assert_eq!(format_range(&doc, span(10, 0, 12, 0)), Ok(None));
    assert_eq!(format_range(&doc, span(4, 0, 3, 0)), Ok(None));
    assert_eq!(format_range("", span(0, 0, 0, 0)), Ok(None));
    assert!(extract_range(&doc, span(10, 0, 12, 0)).unwrap().is_none());
}

#[test]
fn range_without_content_gives_nothing() {
    let doc = ten_lines();
    assert_eq!(format_range(&doc, span(2, 0, 2, 0)), Ok(None));
    assert_eq!(format_range(&doc, span(1, 3, 2, 0)), Ok(None));
    assert_eq!(format_range(&doc, span(0, 4, 1, 0)), Ok(None));
    assert_eq!(format_range(&doc, span(0, 1, 0, 1)), Ok(None));
}

#[test]
fn range_with_a_start_past_its_line_is_invalid() {
    let doc = ten_lines();
    let r = format_range(&doc, span(0, 5, 1, 0));
    assert_eq!(r, Err(InvalidRangeError { position: Position { line: 0, character: 5 } }));
}

#[test]
fn range_with_an_end_past_its_line_is_invalid() {
    let doc = ten_lines();
    let r = format_range(&doc, span(0, 0, 1, 4));
    assert_eq!(r, Err(InvalidRangeError { position: Position { line: 1, character: 4 } }));
    let r = extract_range(&doc, span(0, 0, 20, 5));
    assert_eq!(r.err(), Some(InvalidRangeError { position: Position { line: 20, character: 5 } }));
}

#[test]
fn range_that_ends_before_it_starts_is_invalid() {
    let doc = ten_lines();
    let r = format_range(&doc, span(0, 3, 0, 1));
    assert_eq!(r, Err(InvalidRangeError { position: Position { line: 0, character: 1 } }));
}

#[test]
fn splice_restores_the_counted_blank_lines() {
    let sel = Selection {
        leading_blanks: 2,
        trailing_blanks: 1,
        lines: vec![
            String::new(),
            String::new(),
            "> a".to_string(),
            "> b".to_string(),
            String::new(),
        ],
    };
    assert_eq!(splice(&sel), "\n\n> a b\n");
}

#[test]
fn range_over_the_body_agrees_with_the_whole_document() {
    let doc = "S: x\n\n\n> one\n> two\n\nthree\n\n--\nBob\n";
    let (_, body, _) = split(doc);
    let s = segment(doc);
    let first = s.header.len() as u32;
    let last = first + s.body.len() as u32 - 1;
    let width = s.body.last().unwrap().chars().count() as u32;
    let ranged = format_range(doc, span(first, 0, last, width)).unwrap().unwrap();
    assert_eq!(ranged.trim(), body.trim());
    assert_eq!(ranged, "\n> one two\n\nthree\n");
}
