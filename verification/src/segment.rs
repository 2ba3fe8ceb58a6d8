//! The document segmenter: header, body and signature of a message.

use crate::engine::{reformat_chars, reformat_text};
use crate::text::{
    chars_of, join_lines, lemma_chars_deep_view, lemma_rows_push, lemma_run_len, lemma_run_len_is,
    run_len, slice_chars, split_lines, split_lines_chars, string_of, strings_of,
};
use crate::wrap::extend_chars;
use vstd::prelude::*;

verus! {

/// The sections of a message, and the states of the scan that finds them.
#[derive(Clone, Copy, PartialEq, Eq, Structural, Debug)]
pub enum Section {
    Header,
    Body,
    Signature,
}

/// A line that opens the signature: `--` or `-- `.
pub open spec fn is_signature_mark(line: Seq<char>) -> bool {
    line == seq!['-', '-'] || line == seq!['-', '-', ' ']
}

/// The test "is not empty" as a predicate value.
pub open spec fn has_text() -> spec_fn(Seq<char>) -> bool {
    |line: Seq<char>| line.len() > 0
}

/// The test "does not open the signature" as a predicate value.
pub open spec fn not_signature_mark() -> spec_fn(Seq<char>) -> bool {
    |line: Seq<char>| !is_signature_mark(line)
}

/// The section that takes `line` when the scan is in `state`.
pub open spec fn place(state: Section, line: Seq<char>) -> Section {
    match state {
        Section::Header => Section::Header,
        Section::Body => if is_signature_mark(line) {
            Section::Signature
        } else {
            Section::Body
        },
        Section::Signature => Section::Signature,
    }
}

/// The state of the scan after `line` was read in `state`.
pub open spec fn advance(state: Section, line: Seq<char>) -> Section {
    match state {
        Section::Header => if line.len() == 0 {
            Section::Body
        } else {
            Section::Header
        },
        _ => place(state, line),
    }
}

/// Number of header lines: everything up to and including the first empty
/// line, or every line when none is empty.
pub open spec fn header_len(lines: Seq<Seq<char>>) -> nat {
    let n = run_len(lines, has_text());
    if n < lines.len() {
        n + 1
    } else {
        n
    }
}

/// Number of body lines: those after the header and before the first line
/// that opens the signature.
pub open spec fn body_len(lines: Seq<Seq<char>>) -> nat {
    run_len(lines.skip(header_len(lines) as int), not_signature_mark())
}

/// The header lines of a document.
pub open spec fn header_of(lines: Seq<Seq<char>>) -> Seq<Seq<char>> {
    lines.take(header_len(lines) as int)
}

/// The body lines of a document.
pub open spec fn body_of(lines: Seq<Seq<char>>) -> Seq<Seq<char>> {
    lines.subrange(header_len(lines) as int, (header_len(lines) + body_len(lines)) as int)
}

/// The signature lines of a document, the opening line included.
pub open spec fn signature_of(lines: Seq<Seq<char>>) -> Seq<Seq<char>> {
    lines.skip((header_len(lines) + body_len(lines)) as int)
}

/// The whole document reformatted: the header as it is, a line feed, the
/// body reformatted, the signature as it is, and a line feed.
pub open spec fn reformat_document(document: Seq<char>) -> Seq<char> {
    let lines = split_lines(document);
    join_lines(header_of(lines)) + seq!['\n'] + reformat_text(body_of(lines)) + join_lines(
        signature_of(lines),
    ) + seq!['\n']
}

/// Tells whether `line` opens the signature.
pub fn opens_signature(line: &[char]) -> (b: bool)
    ensures
        b == is_signature_mark(line@),
{
    let two = line.len() == 2 && line[0] == '-' && line[1] == '-';
    let three = line.len() == 3 && line[0] == '-' && line[1] == '-' && line[2] == ' ';
    proof {
        if two {
            assert(line@ =~= seq!['-', '-']);
        }
        if three {
            assert(line@ =~= seq!['-', '-', ' ']);
        }
    }
    two || three
}

/// One step of the scan: the section that takes `line`, and the next state.
pub fn step(state: Section, line: &[char]) -> (r: (Section, Section))
    ensures
        r.0 == place(state, line@),
        r.1 == advance(state, line@),
{
    match state {
        Section::Header => {
            if line.len() == 0 {
                (Section::Header, Section::Body)
            } else {
                (Section::Header, Section::Header)
            }
        },
        Section::Body => {
            if opens_signature(line) {
                (Section::Signature, Section::Signature)
            } else {
                (Section::Body, Section::Body)
            }
        },
        Section::Signature => (Section::Signature, Section::Signature),
    }
}

/// Scans `lines` and returns where the header ends and where the body ends.
pub fn boundaries(lines: &Vec<Vec<char>>) -> (r: (usize, usize))
    ensures
        r.0 == header_len(lines.deep_view()),
        r.1 == header_len(lines.deep_view()) + body_len(lines.deep_view()),
        r.0 <= r.1 <= lines.len(),
{
    let ghost all = lines.deep_view();
    let mut state = Section::Header;
    let mut header_end: usize = 0;
    let mut body_end: usize = 0;
    let mut i: usize = 0;
    while i < lines.len()
        invariant
            i <= lines.len(),
            all == lines.deep_view(),
            header_end <= body_end <= i,
            forall|k: int| 0 <= k < header_end - 1 ==> (#[trigger] all[k]).len() > 0,
            forall|k: int| header_end <= k < body_end ==> !is_signature_mark(#[trigger] all[k]),
            state == Section::Header ==> header_end == i && (i > 0 ==> all[i - 1].len() > 0),
            state != Section::Header ==> header_end > 0 && all[header_end - 1].len() == 0,
            state == Section::Body ==> body_end == i,
            state == Section::Signature ==> body_end < i && is_signature_mark(
                all[body_end as int],
            ),
        decreases lines.len() - i,
    {
        proof {
            lemma_chars_deep_view(lines@[i as int]);
        }
        let (target, next) = step(state, lines[i].as_slice());
        match target {
            Section::Header => {
                header_end += 1;
                body_end += 1;
            },
            Section::Body => {
                body_end += 1;
            },
            Section::Signature => {},
        }
        state = next;
        i += 1;
    }
    proof {
        if state == Section::Header {
            lemma_run_len_is(all, has_text(), all.len());
        } else {
            lemma_run_len_is(all, has_text(), (header_end - 1) as nat);
        }
        let rest = all.skip(header_end as int);
        assert forall|k: int| 0 <= k < body_end - header_end implies (not_signature_mark())(
            #[trigger] rest[k],
        ) by {
            assert(rest[k] == all[header_end + k]);
        }
        if body_end < lines.len() {
            assert(rest[body_end - header_end] == all[body_end as int]);
        }
        lemma_run_len_is(rest, not_signature_mark(), (body_end - header_end) as nat);
    }
    (header_end, body_end)
}

/// Copies the rows `rows[from..to]`.
pub(crate) fn sub_rows(rows: &Vec<Vec<char>>, from: usize, to: usize) -> (r: Vec<Vec<char>>)
    requires
        from <= to <= rows.len(),
    ensures
        r.deep_view() == rows.deep_view().subrange(from as int, to as int),
{
    let mut r: Vec<Vec<char>> = Vec::new();
    let mut i: usize = from;
    assert(r.deep_view() =~= rows.deep_view().subrange(from as int, from as int));
    while i < to
        invariant
            from <= i <= to <= rows.len(),
            r.deep_view() == rows.deep_view().subrange(from as int, i as int),
        decreases to - i,
    {
        let row = slice_chars(rows[i].as_slice(), 0, rows[i].len());
        let ghost before = r;
        r.push(row);
        proof {
            lemma_rows_push(before, r, row);
            lemma_chars_deep_view(rows@[i as int]);
            assert(rows@[i as int]@.subrange(0, rows@[i as int]@.len() as int)
                == rows@[i as int]@);
            assert(rows.deep_view().subrange(from as int, i as int).push(row@)
                =~= rows.deep_view().subrange(from as int, i + 1));
        }
        i += 1;
    }
    r
}

/// Joins `rows` with a line feed between each two.
pub(crate) fn join_rows(rows: &Vec<Vec<char>>) -> (r: Vec<char>)
    ensures
        r@ == join_lines(rows.deep_view()),
{
    let ghost all = rows.deep_view();
    let mut r: Vec<char> = Vec::new();
    let mut i: usize = 0;
    assert(all.take(0) =~= Seq::<Seq<char>>::empty());
    while i < rows.len()
        invariant
            i <= rows.len(),
            all == rows.deep_view(),
            r@ == join_lines(all.take(i as int)),
        decreases rows.len() - i,
    {
        proof {
            lemma_chars_deep_view(rows@[i as int]);
            assert(all.take(i + 1).drop_last() == all.take(i as int));
            assert(all.take(i + 1).last() == rows@[i as int]@);
            if i == 0 {
                assert(all.take(1)[0] == rows@[0]@);
            }
        }
        if i > 0 {
            r.push('\n');
        }
        extend_chars(&mut r, rows[i].as_slice());
        i += 1;
    }
    assert(all.take(rows.len() as int) == all);
    r
}

/// The raw lines of a document, section by section.
pub struct Sections {
    pub header: Vec<String>,
    pub body: Vec<String>,
    pub signature: Vec<String>,
}

/// Splits `document` into the raw lines of its header, body and signature.
/// The three together are the lines of the document, in order.
pub fn segment(document: &str) -> (r: Sections)
    ensures
        r.header.deep_view() == header_of(split_lines(document@)),
        r.body.deep_view() == body_of(split_lines(document@)),
        r.signature.deep_view() == signature_of(split_lines(document@)),
        r.header.deep_view() + r.body.deep_view() + r.signature.deep_view() == split_lines(
            document@,
        ),
{
    let text = chars_of(document);
    let lines = split_lines_chars(text.as_slice());
    let (header_end, body_end) = boundaries(&lines);
    let header = sub_rows(&lines, 0, header_end);
    let body = sub_rows(&lines, header_end, body_end);
    let signature = sub_rows(&lines, body_end, lines.len());
    proof {
        lemma_sections_cover(split_lines(document@));
    }
    Sections {
        header: strings_of(&header),
        body: strings_of(&body),
        signature: strings_of(&signature),
    }
}

/// Header, body and signature are contiguous and cover the document.
pub proof fn lemma_sections_cover(lines: Seq<Seq<char>>)
    ensures
        header_len(lines) + body_len(lines) <= lines.len(),
        header_of(lines) + body_of(lines) + signature_of(lines) == lines,
{
    lemma_run_len(lines, has_text());
    lemma_run_len(lines.skip(header_len(lines) as int), not_signature_mark());
    assert(header_of(lines) + body_of(lines) + signature_of(lines) =~= lines);
}

/// Splits `document` into the text of its header, its reformatted body and
/// the text of its signature. Header and signature are their raw lines
/// with a line feed between each two.
pub fn split(document: &str) -> (r: (String, String, String))
    ensures
        r.0@ == join_lines(header_of(split_lines(document@))),
        r.1@ == reformat_text(body_of(split_lines(document@))),
        r.2@ == join_lines(signature_of(split_lines(document@))),
{
    let text = chars_of(document);
    let lines = split_lines_chars(text.as_slice());
    let (header_end, body_end) = boundaries(&lines);
    let header = join_rows(&sub_rows(&lines, 0, header_end));
    let body = reformat_chars(&sub_rows(&lines, header_end, body_end));
    let signature = join_rows(&sub_rows(&lines, body_end, lines.len()));
    (string_of(header.as_slice()), string_of(body.as_slice()), string_of(signature.as_slice()))
}

/// Reformats a whole message: only the body is re-flowed; header and
/// signature pass through as they are.
pub fn reformat_entire_doc(body_s: &str) -> (r: String)
    ensures
        r@ == reformat_document(body_s@),
{
    let (header, body, signature) = split(body_s);
    let mut out: Vec<char> = chars_of(header.as_str());
    out.push('\n');
    extend_chars(&mut out, chars_of(body.as_str()).as_slice());
    extend_chars(&mut out, chars_of(signature.as_str()).as_slice());
    out.push('\n');
    string_of(out.as_slice())
}

} // verus!
