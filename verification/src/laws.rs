//! What holds of reformatting as a whole.

use crate::engine::{
    block_lines, blocks, closed, emit, lemma_blocks_after_closed, lemma_blocks_tidy, lemma_emit_add,
    reformat_lines, reformat_text, Block,
};
use crate::quote::{is_blank, line_content, quote_depth};
use crate::range::{
    cut, has_content, leading_blanks, lemma_trim_padded, misfit, newlines, range_replacement,
    selected, spliced, trailing_blanks, InvalidRangeError, Range,
};
use crate::segment::{
    body_len, body_of, header_len, header_of, lemma_sections_cover, reformat_document, signature_of,
};
use crate::text::{
    is_word, join_lines, lemma_tidy_trim, lemma_trim_tidy, lemma_words_are_words,
    lemma_words_joined, split_lines, tidy, trim, width, words,
};
use crate::wrap::{
    fits, flatten, lemma_pack_all_words, lemma_pack_fits, lemma_pack_flatten, render, render_all,
    wrap_groups, LINE_LENGTH,
};
use vstd::prelude::*;

verus! {

/// A line that holds the markers of some depth and one word.
pub open spec fn lone_word_line(line: Seq<char>) -> bool {
    exists|w: Seq<char>, d: nat| is_word(w) && line == #[trigger] render(seq![w], d)
}

/// A line that holds the markers of some depth and nothing else.
pub open spec fn marker_line(line: Seq<char>) -> bool {
    exists|d: nat| line == #[trigger] render(Seq::empty(), d)
}

/// A line that respects the column budget: at most `LINE_LENGTH` bytes
/// wide, or made of markers and at most one word.
pub open spec fn within_budget(line: Seq<char>) -> bool {
    width(line) <= LINE_LENGTH || lone_word_line(line) || marker_line(line)
}

/// Every line of a block respects the column budget.
pub proof fn lemma_block_width_bound(b: Block)
    ensures
        forall|i: int|
            0 <= i < block_lines(b).len() ==> within_budget(#[trigger] block_lines(b)[i]),
{
    let budget = LINE_LENGTH as nat;
    let ws = words(trim(b.text));
    let groups = wrap_groups(b.text, b.depth, budget);
    lemma_words_are_words(trim(b.text));
    lemma_pack_fits(Seq::empty(), ws, b.depth, budget);
    lemma_pack_all_words(Seq::empty(), ws, b.depth, budget);
    assert forall|i: int| 0 <= i < block_lines(b).len() implies within_budget(
        #[trigger] block_lines(b)[i],
    ) by {
        let g = groups[i];
        let line = block_lines(b)[i];
        assert(line == render(g, b.depth));
        assert(fits(g, b.depth, budget));
        if g.len() == 1 {
            assert(g =~= seq![g[0]]);
            assert(is_word(g[0]));
            assert(lone_word_line(line));
        } else if g.len() == 0 {
            assert(g =~= Seq::<Seq<char>>::empty());
            assert(marker_line(line));
        }
    }
}

/// Every line that a run of blocks emits respects the column budget.
pub proof fn lemma_emit_width_bound(bs: Seq<Block>)
    ensures
        forall|i: int| 0 <= i < emit(bs).len() ==> within_budget(#[trigger] emit(bs)[i]),
    decreases bs.len(),
{
    if bs.len() > 0 {
        lemma_emit_width_bound(bs.drop_last());
        lemma_block_width_bound(bs.last());
        let head = emit(bs.drop_last());
        assert forall|i: int| 0 <= i < emit(bs).len() implies within_budget(
            #[trigger] emit(bs)[i],
        ) by {
            if i < head.len() {
                assert(emit(bs)[i] == head[i]);
            } else {
                assert(emit(bs)[i] == block_lines(bs.last())[i - head.len()]);
            }
        }
    }
}

/// Width bound: every line of reformatted text is at most `LINE_LENGTH`
/// bytes wide, markers included. The exceptions are a line whose single
/// word is too long to fit, and a line of markers alone that is already too
/// deep to fit.
pub proof fn lemma_reformat_width_bound(lines: Seq<Seq<char>>)
    ensures
        forall|i: int|
            0 <= i < reformat_lines(lines).len() ==> within_budget(
                #[trigger] reformat_lines(lines)[i],
            ),
{
    lemma_emit_width_bound(blocks(lines));
}

/// The lines that a run of blank lines is emitted as: for each, the
/// markers of its depth alone.
pub open spec fn blank_lines(blanks: Seq<Seq<char>>) -> Seq<Seq<char>> {
    blanks.map_values(|line: Seq<char>| render(Seq::empty(), quote_depth(line)))
}

/// Every line of `lines` is blank.
pub open spec fn all_blank(lines: Seq<Seq<char>>) -> bool {
    forall|i: int| 0 <= i < lines.len() ==> is_blank(#[trigger] lines[i])
}

/// A blank marker is emitted as one line: the markers of its depth.
pub proof fn lemma_blank_block_lines(depth: nat)
    ensures
        block_lines(Block { depth, text: Seq::empty() }) == seq![render(Seq::empty(), depth)],
{
    let text = Seq::<char>::empty();
    assert(trim(text) =~= text);
    assert(words(text) =~= Seq::<Seq<char>>::empty());
    let groups = wrap_groups(text, depth, LINE_LENGTH as nat);
    assert(groups =~= seq![Seq::<Seq<char>>::empty()]);
    assert(render_all(groups, depth) =~= seq![render(Seq::empty(), depth)]);
}

/// Blank lines after `before` add one blank marker each, and leave no
/// paragraph open.
pub proof fn lemma_blocks_of_blanks(before: Seq<Seq<char>>, blanks: Seq<Seq<char>>)
    requires
        all_blank(blanks),
    ensures
        emit(blocks(before + blanks)) == emit(blocks(before)) + blank_lines(blanks),
        blanks.len() > 0 ==> closed(blocks(before + blanks)),
    decreases blanks.len(),
{
    if blanks.len() == 0 {
        assert(before + blanks == before);
        assert(emit(blocks(before)) + blank_lines(blanks) =~= emit(blocks(before)));
    } else {
        let head = blanks.drop_last();
        let line = blanks.last();
        assert(is_blank(line));
        assert forall|i: int| 0 <= i < head.len() implies is_blank(#[trigger] head[i]) by {
            assert(head[i] == blanks[i]);
        }
        lemma_blocks_of_blanks(before, head);
        assert((before + blanks).drop_last() == before + head);
        assert((before + blanks).last() == line);
        let prev = blocks(before + head);
        let marker = Block { depth: quote_depth(line), text: line_content(line) };
        assert(line_content(line) =~= Seq::<char>::empty());
        assert(blocks(before + blanks) == prev.push(marker));
        assert(prev.push(marker).drop_last() == prev);
        lemma_blank_block_lines(quote_depth(line));
        assert(emit(blocks(before + blanks)) =~= emit(blocks(before)) + blank_lines(blanks));
    }
}

/// Blank preservation: a run of blank lines between two stretches of text
/// is emitted as exactly as many lines, each the markers of its blank line's
/// depth, and what stands before and after the run is reformatted as if it
/// stood alone. Blank lines are neither dropped nor collapsed, and no
/// paragraph reaches across them.
pub proof fn lemma_blank_lines_preserved(
    before: Seq<Seq<char>>,
    blanks: Seq<Seq<char>>,
    after: Seq<Seq<char>>,
)
    requires
        blanks.len() > 0,
        all_blank(blanks),
    ensures
        blank_lines(blanks).len() == blanks.len(),
        reformat_lines(before + blanks + after) == reformat_lines(before) + blank_lines(blanks)
            + reformat_lines(after),
{
    lemma_blocks_of_blanks(before, blanks);
    lemma_blocks_after_closed(before + blanks, after);
    lemma_emit_add(blocks(before + blanks), blocks(after));
}

/// The words `ws`, each with the quote depth `depth`.
pub open spec fn tagged(depth: nat, ws: Seq<Seq<char>>) -> Seq<(nat, Seq<char>)> {
    ws.map_values(|w: Seq<char>| (depth, w))
}

/// The words that `lines` say, in order, each with the quote depth of the
/// line it stands on.
pub open spec fn source_words(lines: Seq<Seq<char>>) -> Seq<(nat, Seq<char>)>
    decreases lines.len(),
{
    if lines.len() == 0 {
        Seq::empty()
    } else {
        source_words(lines.drop_last()) + tagged(
            quote_depth(lines.last()),
            words(line_content(lines.last())),
        )
    }
}

/// The words that the output lines of `bs` hold, in order, each with the
/// quote depth whose markers its output line is written with.
pub open spec fn placed_words(bs: Seq<Block>) -> Seq<(nat, Seq<char>)>
    decreases bs.len(),
{
    if bs.len() == 0 {
        Seq::empty()
    } else {
        placed_words(bs.drop_last()) + tagged(
            bs.last().depth,
            flatten(wrap_groups(bs.last().text, bs.last().depth, LINE_LENGTH as nat)),
        )
    }
}

/// The words that the lines of a tidy block hold are the words of its text.
pub proof fn lemma_block_words(b: Block)
    requires
        tidy(b.text),
    ensures
        flatten(wrap_groups(b.text, b.depth, LINE_LENGTH as nat)) == words(b.text),
{
    lemma_tidy_trim(b.text);
    lemma_pack_flatten(Seq::empty(), words(b.text), b.depth, LINE_LENGTH as nat);
    assert(Seq::<Seq<char>>::empty() + words(b.text) =~= words(b.text));
}

/// Depth preservation: the output holds the words of the input, in the
/// same order, and every word stands on an output line written with the
/// markers of the depth of the input line it came from. As every output
/// line is written at one depth, words of different depths never share one.
pub proof fn lemma_depth_preserved(lines: Seq<Seq<char>>)
    ensures
        placed_words(blocks(lines)) == source_words(lines),
    decreases lines.len(),
{
    if lines.len() > 0 {
        let head = lines.drop_last();
        let prev = blocks(head);
        let bs = blocks(lines);
        let depth = quote_depth(lines.last());
        let content = line_content(lines.last());
        lemma_depth_preserved(head);
        lemma_blocks_tidy(head);
        lemma_blocks_tidy(lines);
        lemma_block_words(bs.last());
        let said = tagged(depth, words(content));
        if content.len() > 0 && prev.len() > 0 && prev.last().text.len() > 0 && prev.last().depth
            == depth {
            let text = prev.last().text;
            lemma_block_words(prev.last());
            lemma_words_joined(text, content);
            assert(bs.drop_last() == prev.drop_last());
            assert(tagged(depth, words(text) + words(content)) =~= tagged(depth, words(text))
                + said);
            assert(placed_words(bs) =~= placed_words(prev) + said);
        } else {
            assert(bs.drop_last() == prev);
        }
    }
}

/// The range that covers exactly the body of `lines`: from the start of
/// its first line to the end of its last.
pub open spec fn covers_body(lines: Seq<Seq<char>>, range: Range) -> bool {
    &&& body_len(lines) > 0
    &&& range.start.line == header_len(lines)
    &&& range.start.character == 0
    &&& range.end.line == header_len(lines) + body_len(lines) - 1
    &&& range.end.character == body_of(lines).last().len()
}

/// Range round-trip: formatting a range that covers exactly the body
/// selects the body, uncut, and reformats the very lines that formatting
/// the whole document reformats. The two results hold the same reformatted
/// body: the whole document between header and signature, the range
/// trimmed and between the line feeds that stand for the body's own empty
/// lines at its start and end. Trimmed, the replacement for the range is
/// the trimmed reformatted body.
pub proof fn lemma_range_over_body(document: Seq<char>, range: Range)
    requires
        covers_body(split_lines(document), range),
        has_content(body_of(split_lines(document))),
    ensures
        cut(split_lines(document), range) == body_of(split_lines(document)),
        range_replacement(document, range) == Ok::<Option<Seq<char>>, InvalidRangeError>(
            Some(
                newlines(leading_blanks(body_of(split_lines(document)))) + trim(
                    reformat_text(body_of(split_lines(document))),
                ) + newlines(trailing_blanks(body_of(split_lines(document)))),
            ),
        ),
        trim(
            spliced(
                leading_blanks(body_of(split_lines(document))),
                body_of(split_lines(document)),
                trailing_blanks(body_of(split_lines(document))),
            ),
        ) == trim(reformat_text(body_of(split_lines(document)))),
        reformat_document(document) == join_lines(header_of(split_lines(document))) + seq!['\n']
            + reformat_text(body_of(split_lines(document))) + join_lines(
            signature_of(split_lines(document)),
        ) + seq!['\n'],
{
    let lines = split_lines(document);
    let body = body_of(lines);
    lemma_sections_cover(lines);
    let sel = selected(lines, range);
    assert(sel =~= body);
    assert(sel.last().take(sel.last().len() as int) == sel.last());
    let ended = sel.update(sel.len() - 1, sel.last().take(range.end.character as int));
    assert(ended =~= sel);
    assert(ended[0].skip(0) == ended[0]);
    assert(cut(lines, range) =~= body);
    assert(misfit(lines, range) is None);
    let inner = trim(reformat_text(body));
    lemma_trim_tidy(reformat_text(body));
    lemma_trim_padded(leading_blanks(body), inner, trailing_blanks(body));
    lemma_tidy_trim(inner);
}

} // verus!
