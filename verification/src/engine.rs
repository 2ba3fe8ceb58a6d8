//! The reformat engine: groups lines into paragraphs and blank markers and
//! wraps each in turn.

use crate::quote::{line_content, marker_len, parse_chars, quote_depth};
use crate::text::{
    append_lines, chars_of, lemma_chars_deep_view, lemma_trim_tidy, lemma_unlines_add, string_of,
    tidy, unlines,
};
use crate::wrap::{extend_chars, wrap_chars, wrap_lines, LINE_LENGTH};
use vstd::prelude::*;

verus! {

/// A paragraph, or a blank marker when `text` is empty, at one quote depth.
/// The text of a paragraph is the content of its lines, joined by single
/// spaces.
pub struct Block {
    pub depth: nat,
    pub text: Seq<char>,
}

/// The blocks of `lines`, in order. A blank line is a block of its own. A
/// line with content joins the block before it when that block is a
/// paragraph of the same depth, and opens a new paragraph otherwise.
pub open spec fn blocks(lines: Seq<Seq<char>>) -> Seq<Block>
    decreases lines.len(),
{
    if lines.len() == 0 {
        Seq::empty()
    } else {
        let prev = blocks(lines.drop_last());
        let depth = quote_depth(lines.last());
        let content = line_content(lines.last());
        if content.len() > 0 && prev.len() > 0 && prev.last().text.len() > 0 && prev.last().depth
            == depth {
            prev.drop_last().push(Block { depth, text: prev.last().text + seq![' '] + content })
        } else {
            prev.push(Block { depth, text: content })
        }
    }
}

/// The lines that a block is emitted as.
pub open spec fn block_lines(b: Block) -> Seq<Seq<char>> {
    wrap_lines(b.text, b.depth, LINE_LENGTH as nat)
}

/// The lines that `bs` are emitted as, block after block.
pub open spec fn emit(bs: Seq<Block>) -> Seq<Seq<char>>
    decreases bs.len(),
{
    if bs.len() == 0 {
        Seq::empty()
    } else {
        emit(bs.drop_last()) + block_lines(bs.last())
    }
}

/// The lines that reformatting `lines` yields.
pub open spec fn reformat_lines(lines: Seq<Seq<char>>) -> Seq<Seq<char>> {
    emit(blocks(lines))
}

/// The text that reformatting `lines` yields: each output line followed by
/// a line feed.
pub open spec fn reformat_text(lines: Seq<Seq<char>>) -> Seq<char> {
    unlines(reformat_lines(lines))
}

/// Emitting one more block appends its lines.
pub proof fn lemma_emit_push(bs: Seq<Block>, b: Block)
    ensures
        emit(bs.push(b)) == emit(bs) + block_lines(b),
        unlines(emit(bs.push(b))) == unlines(emit(bs)) + unlines(block_lines(b)),
{
    assert(bs.push(b).drop_last() == bs);
    lemma_unlines_add(emit(bs), block_lines(b));
}

/// `emit` distributes over concatenation.
pub proof fn lemma_emit_add(a: Seq<Block>, b: Seq<Block>)
    ensures
        emit(a + b) == emit(a) + emit(b),
    decreases b.len(),
{
    if b.len() == 0 {
        assert(a + b == a);
        assert(emit(a) + emit(b) =~= emit(a));
    } else {
        assert((a + b).drop_last() == a + b.drop_last());
        lemma_emit_add(a, b.drop_last());
        assert(emit(a + b) =~= emit(a) + emit(b));
    }
}

/// No paragraph is open at the end of `bs`.
pub open spec fn closed(bs: Seq<Block>) -> bool {
    bs.len() == 0 || bs.last().text.len() == 0
}

/// Lines have at least one block.
pub proof fn lemma_blocks_nonempty(lines: Seq<Seq<char>>)
    ensures
        lines.len() > 0 ==> blocks(lines).len() > 0,
{
}

/// Where no paragraph is open after `a`, the blocks of `a + b` are those of
/// `a` followed by those of `b`.
pub proof fn lemma_blocks_after_closed(a: Seq<Seq<char>>, b: Seq<Seq<char>>)
    requires
        closed(blocks(a)),
    ensures
        blocks(a + b) == blocks(a) + blocks(b),
    decreases b.len(),
{
    if b.len() == 0 {
        assert(a + b == a);
        assert(blocks(a) + blocks(b) =~= blocks(a));
    } else {
        let head = b.drop_last();
        assert((a + b).drop_last() == a + head);
        assert((a + b).last() == b.last());
        lemma_blocks_after_closed(a, head);
        lemma_blocks_nonempty(head);
        let pa = blocks(a);
        let ph = blocks(head);
        let depth = quote_depth(b.last());
        let content = line_content(b.last());
        if head.len() == 0 {
            assert(pa + ph =~= pa);
            assert(blocks(b) =~= seq![Block { depth, text: content }]);
            assert(blocks(a + b) =~= pa + blocks(b));
        } else {
            assert((pa + ph).last() == ph.last());
            if content.len() > 0 && ph.last().text.len() > 0 && ph.last().depth == depth {
                let merged = Block { depth, text: ph.last().text + seq![' '] + content };
                assert((pa + ph).drop_last() =~= pa + ph.drop_last());
                assert(blocks(a + b) =~= pa + ph.drop_last().push(merged));
            } else {
                assert(blocks(a + b) =~= pa + ph.push(Block { depth, text: content }));
            }
        }
    }
}

/// No two paragraphs of one depth stand next to each other.
pub open spec fn separated(bs: Seq<Block>) -> bool {
    forall|i: int|
        0 < i < bs.len() ==> !((#[trigger] bs[i]).text.len() > 0 && bs[i - 1].text.len() > 0
            && bs[i - 1].depth == bs[i].depth)
}

/// Lines of one depth that follow each other share a paragraph, so the
/// paragraphs of `lines` are separated.
pub proof fn lemma_blocks_separated(lines: Seq<Seq<char>>)
    ensures
        separated(blocks(lines)),
    decreases lines.len(),
{
    if lines.len() > 0 {
        let prev = blocks(lines.drop_last());
        lemma_blocks_separated(lines.drop_last());
        let bs = blocks(lines);
        assert forall|i: int| 0 < i < bs.len() implies !((#[trigger] bs[i]).text.len() > 0
            && bs[i - 1].text.len() > 0 && bs[i - 1].depth == bs[i].depth) by {
            if i < bs.len() - 1 {
                assert(bs[i] == prev[i]);
                assert(bs[i - 1] == prev[i - 1]);
            } else if bs.len() == prev.len() {
                assert(bs[i - 1] == prev[i - 1]);
                assert(prev[i].depth == bs[i].depth);
            } else {
                assert(bs[i - 1] == prev[i - 1]);
            }
        }
    }
}

/// The text of every block is tidy.
pub open spec fn tidy_blocks(bs: Seq<Block>) -> bool {
    forall|i: int| 0 <= i < bs.len() ==> tidy(#[trigger] bs[i].text)
}

/// Block texts are made of trimmed contents and single spaces between
/// them, so they are tidy.
pub proof fn lemma_blocks_tidy(lines: Seq<Seq<char>>)
    ensures
        tidy_blocks(blocks(lines)),
    decreases lines.len(),
{
    if lines.len() > 0 {
        let prev = blocks(lines.drop_last());
        lemma_blocks_tidy(lines.drop_last());
        let depth = quote_depth(lines.last());
        let content = line_content(lines.last());
        lemma_trim_tidy(lines.last().skip(marker_len(lines.last()) as int));
        let bs = blocks(lines);
        if content.len() > 0 && prev.len() > 0 && prev.last().text.len() > 0 && prev.last().depth
            == depth {
            let text = prev.last().text + seq![' '] + content;
            assert(tidy(prev.last().text));
            assert(text.first() == prev.last().text.first());
            assert(text.last() == content.last());
            assert forall|i: int| 0 <= i < bs.len() implies tidy(#[trigger] bs[i].text) by {
                if i < bs.len() - 1 {
                    assert(bs[i] == prev[i]);
                }
            }
        } else {
            assert forall|i: int| 0 <= i < bs.len() implies tidy(#[trigger] bs[i].text) by {
                if i < bs.len() - 1 {
                    assert(bs[i] == prev[i]);
                }
            }
        }
    }
}

/// What the engine emits when it closes `open`: the lines of the open
/// paragraph, if there is one.
pub open spec fn flushed(open: Option<Block>) -> Seq<Seq<char>> {
    match open {
        Some(b) => block_lines(b),
        None => Seq::empty(),
    }
}

/// The paragraph that is open after `line` was read with `open` open. A
/// blank line leaves none open. A line with content extends an open
/// paragraph of its depth, and opens a new one otherwise.
pub open spec fn next_open(open: Option<Block>, line: Seq<char>) -> Option<Block> {
    let depth = quote_depth(line);
    let content = line_content(line);
    if content.len() == 0 {
        None
    } else {
        match open {
            Some(b) if b.depth == depth => Some(
                Block { depth, text: b.text + seq![' '] + content },
            ),
            _ => Some(Block { depth, text: content }),
        }
    }
}

/// The lines that the engine emits when it reads `line` with `open` open.
/// A blank line closes the open paragraph and is emitted itself. A line
/// with content closes an open paragraph of another depth and emits
/// nothing else.
pub open spec fn step_lines(open: Option<Block>, line: Seq<char>) -> Seq<Seq<char>> {
    let depth = quote_depth(line);
    let content = line_content(line);
    if content.len() == 0 {
        flushed(open) + block_lines(Block { depth, text: content })
    } else {
        match open {
            Some(b) if b.depth == depth => Seq::empty(),
            _ => flushed(open),
        }
    }
}

/// The paragraph that is open after the engine has read `lines`.
pub open spec fn run_open(lines: Seq<Seq<char>>) -> Option<Block>
    decreases lines.len(),
{
    if lines.len() == 0 {
        None
    } else {
        next_open(run_open(lines.drop_last()), lines.last())
    }
}

/// The lines that the engine has emitted after it has read `lines`.
pub open spec fn run_lines(lines: Seq<Seq<char>>) -> Seq<Seq<char>>
    decreases lines.len(),
{
    if lines.len() == 0 {
        Seq::empty()
    } else {
        run_lines(lines.drop_last()) + step_lines(run_open(lines.drop_last()), lines.last())
    }
}

/// The engine and the blocks agree: after `lines` the open paragraph is
/// the last block, where that is a paragraph, and what was emitted are the
/// lines of the blocks before it.
pub proof fn lemma_run_blocks(lines: Seq<Seq<char>>)
    ensures
        match run_open(lines) {
            Some(b) => {
                &&& blocks(lines).len() > 0
                &&& blocks(lines).last() == b
                &&& b.text.len() > 0
                &&& run_lines(lines) == emit(blocks(lines).drop_last())
            },
            None => closed(blocks(lines)) && run_lines(lines) == emit(blocks(lines)),
        },
    decreases lines.len(),
{
    if lines.len() > 0 {
        let head = lines.drop_last();
        let bs = blocks(head);
        let depth = quote_depth(lines.last());
        let content = line_content(lines.last());
        let here = Block { depth, text: content };
        lemma_run_blocks(head);
        match run_open(head) {
            Some(b) => {
                assert(bs.drop_last().push(b) == bs);
                lemma_emit_push(bs.drop_last(), b);
                if content.len() == 0 {
                    lemma_emit_push(bs, here);
                    assert(bs.push(here).last() == here);
                } else if b.depth == depth {
                    let merged = Block { depth, text: b.text + seq![' '] + content };
                    assert(bs.drop_last().push(merged).drop_last() == bs.drop_last());
                } else {
                    assert(bs.push(here).drop_last() == bs);
                }
            },
            None => {
                if content.len() == 0 {
                    lemma_emit_push(bs, here);
                    assert(bs.push(here).last() == here);
                    assert(run_lines(lines) =~= emit(bs) + block_lines(here));
                } else {
                    assert(bs.push(here).drop_last() == bs);
                    assert(run_lines(lines) =~= emit(bs));
                }
            },
        }
    }
}

/// Reading all lines and closing what is open emits the reformatted lines.
pub proof fn lemma_run_reformat(lines: Seq<Seq<char>>)
    ensures
        run_lines(lines) + flushed(run_open(lines)) == reformat_lines(lines),
{
    lemma_run_blocks(lines);
    let bs = blocks(lines);
    match run_open(lines) {
        Some(b) => {
            assert(bs.drop_last().push(b) == bs);
            lemma_emit_push(bs.drop_last(), b);
        },
        None => {
            assert(run_lines(lines) + flushed(run_open(lines)) =~= run_lines(lines));
        },
    }
}

/// The paragraph that the engine holds open while it reads lines.
pub struct Paragraph {
    pub depth: usize,
    pub text: Vec<char>,
}

impl Paragraph {
    /// The block that the paragraph stands for.
    pub open spec fn block(&self) -> Block {
        Block { depth: self.depth as nat, text: self.text@ }
    }
}

/// The block that the state of the engine stands for, if a paragraph is
/// open.
pub open spec fn open_block(state: Option<Paragraph>) -> Option<Block> {
    match state {
        Some(p) => Some(p.block()),
        None => None,
    }
}

/// Wraps `text` at `depth` and appends the lines to `out`.
fn flush(out: &mut Vec<char>, text: &Vec<char>, depth: usize)
    ensures
        final(out)@ == old(out)@ + unlines(
            block_lines(Block { depth: depth as nat, text: text@ }),
        ),
{
    let rows = wrap_chars(text.as_slice(), depth, LINE_LENGTH);
    append_lines(out, &rows);
}

/// Closes the open paragraph, if there is one: appends its lines to `out`.
pub fn finish(state: Option<Paragraph>, out: &mut Vec<char>)
    ensures
        final(out)@ == old(out)@ + unlines(flushed(open_block(state))),
{
    match state {
        Some(p) => {
            flush(out, &p.text, p.depth);
        },
        None => {
            assert(out@ =~= old(out)@ + unlines(flushed(open_block(state))));
        },
    }
}

/// One step of the engine: reads `line` in `state`, appends what it emits
/// to `out`, and returns the next state.
pub fn feed(state: Option<Paragraph>, line: &[char], out: &mut Vec<char>) -> (next: Option<
    Paragraph,
>)
    ensures
        open_block(next) == next_open(open_block(state), line@),
        final(out)@ == old(out)@ + unlines(step_lines(open_block(state), line@)),
{
    let (depth, content) = parse_chars(line);
    if content.len() == 0 {
        let ghost closing = flushed(open_block(state));
        let ghost marker = block_lines(Block { depth: depth as nat, text: content@ });
        finish(state, out);
        flush(out, &content, depth);
        proof {
            lemma_unlines_add(closing, marker);
            assert(out@ =~= old(out)@ + unlines(closing + marker));
        }
        None
    } else {
        match state {
            Some(p) => {
                if p.depth == depth {
                    let mut text = p.text;
                    text.push(' ');
                    extend_chars(&mut text, content.as_slice());
                    proof {
                        assert(text@ =~= p.text@ + seq![' '] + content@);
                        assert(out@ =~= old(out)@ + unlines(Seq::<Seq<char>>::empty()));
                    }
                    Some(Paragraph { depth, text })
                } else {
                    flush(out, &p.text, p.depth);
                    Some(Paragraph { depth, text: content })
                }
            },
            None => {
                assert(out@ =~= old(out)@ + unlines(Seq::<Seq<char>>::empty()));
                Some(Paragraph { depth, text: content })
            },
        }
    }
}

/// Reformats lines given as characters.
pub fn reformat_chars(lines: &Vec<Vec<char>>) -> (r: Vec<char>)
    ensures
        r@ == reformat_text(lines.deep_view()),
{
    let ghost all = lines.deep_view();
    let mut out: Vec<char> = Vec::new();
    let mut state: Option<Paragraph> = None;
    let mut i: usize = 0;
    proof {
        assert(all.take(0) =~= Seq::<Seq<char>>::empty());
        assert(out@ =~= unlines(run_lines(all.take(0))));
    }
    while i < lines.len()
        invariant
            i <= lines.len(),
            all == lines.deep_view(),
            open_block(state) == run_open(all.take(i as int)),
            out@ == unlines(run_lines(all.take(i as int))),
        decreases lines.len() - i,
    {
        proof {
            lemma_chars_deep_view(lines@[i as int]);
            assert(all.take(i + 1).drop_last() == all.take(i as int));
            assert(all.take(i + 1).last() == lines@[i as int]@);
            lemma_unlines_add(
                run_lines(all.take(i as int)),
                step_lines(run_open(all.take(i as int)), lines@[i as int]@),
            );
        }
        state = feed(state, lines[i].as_slice(), &mut out);
        i += 1;
    }
    proof {
        assert(all.take(lines.len() as int) == all);
        lemma_unlines_add(run_lines(all), flushed(run_open(all)));
        lemma_run_reformat(all);
    }
    finish(state, &mut out);
    out
}

/// Collects the characters of each line.
pub(crate) fn rows_of(input: &[&str]) -> (r: Vec<Vec<char>>)
    ensures
        r.deep_view() == input.deep_view(),
{
    let mut r: Vec<Vec<char>> = Vec::new();
    let mut i: usize = 0;
    while i < input.len()
        invariant
            i <= input.len(),
            r.len() == i,
            forall|k: int| 0 <= k < i ==> (#[trigger] r@[k])@ == input@[k]@,
        decreases input.len() - i,
    {
        r.push(chars_of(input[i]));
        i += 1;
    }
    proof {
        assert forall|k: int| 0 <= k < input.len() implies r.deep_view()[k]
            == input.deep_view()[k] by {
            lemma_chars_deep_view(r@[k]);
        }
        assert(r.deep_view() =~= input.deep_view());
    }
    r
}

/// Reformats `input`, one raw line per element: consecutive lines of one
/// quote depth are re-flowed as one paragraph, and each blank line is kept
/// as a line of its own at its depth. Every output line ends in a line feed.
pub fn reformat(input: &[&str]) -> (r: String)
    ensures
        r@ == reformat_text(input.deep_view()),
{
    let rows = rows_of(input);
    let out = reformat_chars(&rows);
    string_of(out.as_slice())
}

} // verus!
