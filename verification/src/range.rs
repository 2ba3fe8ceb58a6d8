//! The range extractor and splicer: formatting a selection of a document.

use crate::engine::{reformat_chars, reformat_text};
use crate::segment::sub_rows;
use crate::text::{
    chars_of, lemma_chars_deep_view, lemma_run_len_is, lemma_tail_run_len_is, lemma_tidy_trim,
    run_len, slice_chars, space_pred, split_lines, split_lines_chars, string_of, strings_of,
    tail_run_len, tidy, trim, trim_chars,
};
use crate::wrap::extend_chars;
use vstd::prelude::*;

verus! {

/// A place in a document: a line, counted from zero, and a character offset
/// into that line.
#[derive(Clone, Copy, PartialEq, Eq, Structural, Debug)]
pub struct Position {
    pub line: u32,
    pub character: u32,
}

/// A span of a document, from `start` up to but not including `end`.
#[derive(Clone, Copy, PartialEq, Eq, Structural, Debug)]
pub struct Range {
    pub start: Position,
    pub end: Position,
}

/// A range whose character offsets do not fit the lines they point into.
/// `position` is the end of the range that does not fit.
#[derive(Clone, Copy, PartialEq, Eq, Structural, Debug)]
pub struct InvalidRangeError {
    pub position: Position,
}

/// What a range selects: the selected lines, cut at the range's ends, and
/// how many empty lines the selection starts and ends with.
pub struct Selection {
    pub leading_blanks: usize,
    pub trailing_blanks: usize,
    pub lines: Vec<String>,
}

/// The test "is empty" as a predicate value.
pub open spec fn no_text() -> spec_fn(Seq<char>) -> bool {
    |line: Seq<char>| line.len() == 0
}

/// Number of empty lines that `lines` starts with.
pub open spec fn leading_blanks(lines: Seq<Seq<char>>) -> nat {
    run_len(lines, no_text())
}

/// Number of empty lines that `lines` ends with.
pub open spec fn trailing_blanks(lines: Seq<Seq<char>>) -> nat {
    tail_run_len(lines, no_text())
}

/// `n` line feeds.
pub open spec fn newlines(n: nat) -> Seq<char> {
    Seq::new(n, |i: int| '\n')
}

/// A range selects lines when it starts inside the document and does not
/// end before the line it starts on.
pub open spec fn selects_lines(lines: Seq<Seq<char>>, range: Range) -> bool {
    range.start.line <= range.end.line && range.start.line < lines.len()
}

/// The lines from the range's first line through its last, as far as the
/// document has them.
pub open spec fn selected(lines: Seq<Seq<char>>, range: Range) -> Seq<Seq<char>> {
    let end = if range.end.line < lines.len() {
        range.end.line + 1
    } else {
        lines.len() as int
    };
    lines.subrange(range.start.line as int, end)
}

/// The end of the range whose character offset does not fit, if there is
/// one: the start when it lies past the end of the first selected line,
/// else the end when it lies past the end of the last selected line, or
/// before the start on the same line.
pub open spec fn misfit(lines: Seq<Seq<char>>, range: Range) -> Option<Position> {
    let sel = selected(lines, range);
    if range.start.character > sel.first().len() {
        Some(range.start)
    } else if range.end.character > sel.last().len() {
        Some(range.end)
    } else if sel.len() == 1 && range.end.character < range.start.character {
        Some(range.end)
    } else {
        None
    }
}

/// The selected lines, the last one cut to end at the range's end and the
/// first one cut to begin at the range's start.
pub open spec fn cut(lines: Seq<Seq<char>>, range: Range) -> Seq<Seq<char>> {
    let sel = selected(lines, range);
    let ended = sel.update(sel.len() - 1, sel.last().take(range.end.character as int));
    ended.update(0, ended[0].skip(range.start.character as int))
}

/// A selection has content when one of its lines is not empty.
pub open spec fn has_content(sel: Seq<Seq<char>>) -> bool {
    leading_blanks(sel) < sel.len()
}

/// The replacement text for a selection: as many line feeds as it starts
/// with empty lines, its lines reformatted and trimmed, and as many line
/// feeds as it ends with empty lines.
pub open spec fn spliced(lead: nat, sel: Seq<Seq<char>>, trail: nat) -> Seq<char> {
    newlines(lead) + trim(reformat_text(sel)) + newlines(trail)
}

/// The replacement text for `range` of `document`: an error when the range
/// does not fit its lines, nothing when it selects no line or no content.
pub open spec fn range_replacement(document: Seq<char>, range: Range) -> Result<
    Option<Seq<char>>,
    InvalidRangeError,
> {
    let lines = split_lines(document);
    if !selects_lines(lines, range) {
        Ok(None)
    } else if misfit(lines, range) is Some {
        Err(InvalidRangeError { position: misfit(lines, range).unwrap() })
    } else if !has_content(cut(lines, range)) {
        Ok(None)
    } else {
        let sel = cut(lines, range);
        Ok(Some(spliced(leading_blanks(sel), sel, trailing_blanks(sel))))
    }
}

/// Trimming a tidy text that stands between line feeds gives the text
/// back.
pub proof fn lemma_trim_padded(lead: nat, text: Seq<char>, trail: nat)
    requires
        tidy(text),
    ensures
        trim(newlines(lead) + text + newlines(trail)) == text,
{
    let s = newlines(lead) + text + newlines(trail);
    if text.len() == 0 {
        assert forall|i: int| 0 <= i < s.len() implies (space_pred())(#[trigger] s[i]) by {
            assert(s[i] == '\n');
        }
        lemma_run_len_is(s, space_pred(), s.len());
        assert(s.skip(s.len() as int) =~= Seq::<char>::empty());
        lemma_tidy_trim(Seq::<char>::empty());
        assert(trim(s) =~= text);
    } else {
        assert forall|i: int| 0 <= i < lead implies (space_pred())(#[trigger] s[i]) by {
            assert(s[i] == '\n');
        }
        assert(s[lead as int] == text[0]);
        lemma_run_len_is(s, space_pred(), lead);
        let mid = s.skip(lead as int);
        assert(mid =~= text + newlines(trail));
        assert forall|i: int| mid.len() - trail <= i < mid.len() implies (space_pred())(
            #[trigger] mid[i],
        ) by {
            assert(mid[i] == '\n');
        }
        assert(mid[mid.len() - trail - 1] == text.last());
        lemma_tail_run_len_is(mid, space_pred(), trail);
        assert(mid.take(mid.len() - trail) =~= text);
    }
}

/// Replacing a row of a vector of rows replaces its view in the deep view.
pub proof fn lemma_rows_set(before: Vec<Vec<char>>, after: Vec<Vec<char>>, i: int, row: Vec<char>)
    requires
        0 <= i < before@.len(),
        after@ == before@.update(i, row),
    ensures
        after.deep_view() == before.deep_view().update(i, row@),
{
    lemma_chars_deep_view(row);
    assert(after.deep_view() =~= before.deep_view().update(i, row@));
}

/// Counts the empty rows that `rows` starts with.
pub fn count_leading_blanks(rows: &Vec<Vec<char>>) -> (n: usize)
    ensures
        n == leading_blanks(rows.deep_view()),
        n <= rows.len(),
{
    let ghost all = rows.deep_view();
    let mut n: usize = 0;
    while n < rows.len() && rows[n].len() == 0
        invariant
            n <= rows.len(),
            all == rows.deep_view(),
            forall|k: int| 0 <= k < n ==> (#[trigger] all[k]).len() == 0,
        decreases rows.len() - n,
    {
        proof {
            lemma_chars_deep_view(rows@[n as int]);
        }
        n += 1;
    }
    proof {
        if n < rows.len() {
            lemma_chars_deep_view(rows@[n as int]);
        }
        lemma_run_len_is(all, no_text(), n as nat);
    }
    n
}

/// Counts the empty rows that `rows` ends with.
pub fn count_trailing_blanks(rows: &Vec<Vec<char>>) -> (n: usize)
    ensures
        n == trailing_blanks(rows.deep_view()),
        n <= rows.len(),
{
    let ghost all = rows.deep_view();
    let mut n: usize = 0;
    while n < rows.len() && rows[rows.len() - n - 1].len() == 0
        invariant
            n <= rows.len(),
            all == rows.deep_view(),
            forall|k: int| rows.len() - n <= k < rows.len() ==> (#[trigger] all[k]).len() == 0,
        decreases rows.len() - n,
    {
        proof {
            lemma_chars_deep_view(rows@[rows.len() - n - 1]);
        }
        n += 1;
    }
    proof {
        if n < rows.len() {
            lemma_chars_deep_view(rows@[rows.len() - n - 1]);
        }
        lemma_tail_run_len_is(all, no_text(), n as nat);
    }
    n
}

/// Selects the lines of `range` from `document` and cuts them at its ends.
/// Lines past the end of the document are not selected. Returns nothing
/// when the range selects no line, or when every selected line is empty
/// after the cut.
pub fn extract_range(document: &str, range: Range) -> (r: Result<
    Option<Selection>,
    InvalidRangeError,
>)
    ensures
        match r {
            Ok(None) => {
                let lines = split_lines(document@);
                !selects_lines(lines, range) || (misfit(lines, range) is None && !has_content(
                    cut(lines, range),
                ))
            },
            Ok(Some(sel)) => {
                let lines = split_lines(document@);
                &&& selects_lines(lines, range)
                &&& misfit(lines, range) is None
                &&& has_content(cut(lines, range))
                &&& sel.lines.deep_view() == cut(lines, range)
                &&& sel.leading_blanks == leading_blanks(cut(lines, range))
                &&& sel.trailing_blanks == trailing_blanks(cut(lines, range))
            },
            Err(e) => {
                let lines = split_lines(document@);
                &&& selects_lines(lines, range)
                &&& misfit(lines, range) == Some(e.position)
            },
        },
{
    let text = chars_of(document);
    let lines = split_lines_chars(text.as_slice());
    let first: usize = range.start.line as usize;
    if range.start.line > range.end.line || first >= lines.len() {
        return Ok(None);
    }
    let end: usize = if (range.end.line as usize) < lines.len() {
        range.end.line as usize + 1
    } else {
        lines.len()
    };
    let mut sel = sub_rows(&lines, first, end);
    let ghost picked = selected(split_lines(document@), range);
    let last: usize = sel.len() - 1;
    let from: usize = range.start.character as usize;
    let to: usize = range.end.character as usize;
    proof {
        lemma_chars_deep_view(sel@[0]);
        lemma_chars_deep_view(sel@[last as int]);
    }
    if from > sel[0].len() {
        return Err(InvalidRangeError { position: range.start });
    }
    if to > sel[last].len() {
        return Err(InvalidRangeError { position: range.end });
    }
    if last == 0 && to < from {
        return Err(InvalidRangeError { position: range.end });
    }
    let ended = slice_chars(sel[last].as_slice(), 0, to);
    let ghost rows = sel;
    sel.set(last, ended);
    proof {
        lemma_rows_set(rows, sel, last as int, ended);
        lemma_chars_deep_view(sel@[0]);
    }
    let started = slice_chars(sel[0].as_slice(), from, sel[0].len());
    let ghost rows = sel;
    sel.set(0, started);
    proof {
        lemma_rows_set(rows, sel, 0, started);
        assert(sel.deep_view() == cut(split_lines(document@), range));
    }
    let lead = count_leading_blanks(&sel);
    if lead == sel.len() {
        return Ok(None);
    }
    let trail = count_trailing_blanks(&sel);
    Ok(Some(Selection { leading_blanks: lead, trailing_blanks: trail, lines: strings_of(&sel) }))
}

/// Collects the characters of each line.
pub(crate) fn rows_of_strings(lines: &Vec<String>) -> (r: Vec<Vec<char>>)
    ensures
        r.deep_view() == lines.deep_view(),
{
    let mut r: Vec<Vec<char>> = Vec::new();
    let mut i: usize = 0;
    while i < lines.len()
        invariant
            i <= lines.len(),
            r.len() == i,
            forall|k: int| 0 <= k < i ==> (#[trigger] r@[k])@ == lines@[k]@,
        decreases lines.len() - i,
    {
        r.push(chars_of(lines[i].as_str()));
        i += 1;
    }
    proof {
        assert forall|k: int| 0 <= k < lines.len() implies r.deep_view()[k]
            == lines.deep_view()[k] by {
            lemma_chars_deep_view(r@[k]);
        }
        assert(r.deep_view() =~= lines.deep_view());
    }
    r
}

/// Appends `n` line feeds to `out`.
fn push_newlines(out: &mut Vec<char>, n: usize)
    ensures
        final(out)@ == old(out)@ + newlines(n as nat),
{
    let mut i: usize = 0;
    assert(out@ =~= old(out)@ + newlines(0));
    while i < n
        invariant
            i <= n,
            out@ == old(out)@ + newlines(i as nat),
        decreases n - i,
    {
        out.push('\n');
        i += 1;
        assert(out@ =~= old(out)@ + newlines(i as nat));
    }
}

/// The replacement text for a selection: its leading line feeds, its
/// lines reformatted and trimmed, and its trailing line feeds.
pub fn splice(sel: &Selection) -> (r: String)
    ensures
        r@ == spliced(
            sel.leading_blanks as nat,
            sel.lines.deep_view(),
            sel.trailing_blanks as nat,
        ),
{
    let rows = rows_of_strings(&sel.lines);
    let text = reformat_chars(&rows);
    let inner = trim_chars(text.as_slice());
    let mut out: Vec<char> = Vec::new();
    push_newlines(&mut out, sel.leading_blanks);
    extend_chars(&mut out, inner.as_slice());
    push_newlines(&mut out, sel.trailing_blanks);
    proof {
        assert(out@ =~= spliced(
            sel.leading_blanks as nat,
            sel.lines.deep_view(),
            sel.trailing_blanks as nat,
        ));
    }
    string_of(out.as_slice())
}

/// The text of a replacement, where there is one.
pub open spec fn replacement_view(r: Result<Option<String>, InvalidRangeError>) -> Result<
    Option<Seq<char>>,
    InvalidRangeError,
> {
    match r {
        Ok(Some(s)) => Ok(Some(s@)),
        Ok(None) => Ok(None),
        Err(e) => Err(e),
    }
}

/// Formats the part of `document` that `range` covers and returns the text
/// to put in its place. Returns nothing when there is nothing to format,
/// and an error when a character offset of the range lies outside its line.
pub fn format_range(document: &str, range: Range) -> (r: Result<
    Option<String>,
    InvalidRangeError,
>)
    ensures
        replacement_view(r) == range_replacement(document@, range),
{
    match extract_range(document, range) {
        Ok(Some(sel)) => Ok(Some(splice(&sel))),
        Ok(None) => Ok(None),
        Err(e) => Err(e),
    }
}

/// The range that covers a whole document: from its first character to the
/// start of the line after its last. The line count wraps at 2^32.
pub fn document_range(document: &str) -> (r: Range)
    ensures
        r.start == (Position { line: 0, character: 0 }),
        r.end.character == 0,
        r.end.line == split_lines(document@).len() % 0x1_0000_0000,
{
    let text = chars_of(document);
    let lines = split_lines_chars(text.as_slice());
    let count: u64 = lines.len() as u64;
    let line: u32 = (count % 0x1_0000_0000) as u32;
    Range { start: Position { line: 0, character: 0 }, end: Position { line, character: 0 } }
}

} // verus!
