//! Reformatting its own output changes nothing.

use crate::engine::{
    block_lines, blocks, emit, lemma_blocks_separated, lemma_blocks_tidy, reformat_lines,
    reformat_text, separated, tidy_blocks, Block,
};
use crate::laws::lemma_blank_block_lines;
use crate::quote::{
    is_blank, lemma_parse_bare_prefix, lemma_parse_prefixed, line_content, quote_depth,
};
use crate::text::{
    all_lines, all_words, is_line, is_space, is_word, lemma_split_unlines, lemma_tidy_trim,
    lemma_words_are_words, lemma_words_joined, split_lines, tidy, trim, words,
};
use crate::wrap::{
    each, flatten, lemma_pack_all_words, lemma_pack_flatten, lemma_pack_groups, lemma_pack_keeps,
    lemma_render_clean, lemma_render_empty, lemma_render_is_line, lemma_words_spaced, render,
    render_all, spaced, wrap_groups, LINE_LENGTH,
};
use vstd::prelude::*;

verus! {

/// The line emitted for `group` at `depth` reads back: parsed again, it has
/// that depth and says those words.
pub open spec fn reads_back(group: Seq<Seq<char>>, depth: nat) -> bool {
    &&& quote_depth(render(group, depth)) == depth
    &&& words(line_content(render(group, depth))) == group
}

/// Every line emitted for `b` reads back.
pub open spec fn faithful_block(b: Block) -> bool {
    forall|i: int|
        0 <= i < wrap_groups(b.text, b.depth, LINE_LENGTH as nat).len() ==> reads_back(
            #[trigger] wrap_groups(b.text, b.depth, LINE_LENGTH as nat)[i],
            b.depth,
        )
}

/// Every line emitted for `bs` reads back.
pub open spec fn faithful(bs: Seq<Block>) -> bool {
    forall|i: int| 0 <= i < bs.len() ==> faithful_block(#[trigger] bs[i])
}

/// A line of markers alone reads back.
pub proof fn lemma_reads_back_empty(depth: nat)
    ensures
        reads_back(Seq::empty(), depth),
        is_blank(render(Seq::empty(), depth)),
{
    lemma_render_empty(depth);
    let line = render(Seq::empty(), depth);
    if depth == 0 {
        assert(line.take(0) =~= Seq::<char>::empty());
        assert(line.skip(0) =~= Seq::<char>::empty());
        lemma_tidy_trim(Seq::<char>::empty());
    } else {
        lemma_parse_bare_prefix(depth);
    }
    assert(line_content(line) =~= Seq::<char>::empty());
    assert(words(line_content(line)) =~= Seq::<Seq<char>>::empty());
}

/// A line of words reads back when its first word does not start with `>`
/// and it neither starts nor ends with whitespace.
pub proof fn lemma_reads_back_clean(group: Seq<Seq<char>>, depth: nat)
    requires
        all_words(group),
        group.len() > 0,
        group[0][0] != '>',
        !is_space(group[0][0]),
        !is_space(group.last().last()),
    ensures
        reads_back(group, depth),
{
    lemma_render_clean(group, depth);
    lemma_words_spaced(group);
    let body = spaced(group).drop_last();
    assert(is_word(group[0]));
    assert(body[0] == spaced(group)[0]);
    assert(body.last() == spaced(group)[spaced(group).len() - 2]);
    lemma_parse_prefixed(depth, body);
    lemma_tidy_trim(body);
}

/// The words that `lines` say, in order.
pub open spec fn said(lines: Seq<Seq<char>>) -> Seq<Seq<char>>
    decreases lines.len(),
{
    if lines.len() == 0 {
        Seq::empty()
    } else {
        said(lines.drop_last()) + words(line_content(lines.last()))
    }
}

/// Lines of one depth that all say something, after lines that leave no
/// paragraph of that depth open, form one new paragraph that says what
/// they say.
pub proof fn lemma_blocks_of_paragraph(before: Seq<Seq<char>>, lines: Seq<Seq<char>>, depth: nat)
    requires
        lines.len() >= 1,
        forall|j: int|
            0 <= j < lines.len() ==> quote_depth(#[trigger] lines[j]) == depth && !is_blank(
                lines[j],
            ),
        !(blocks(before).len() > 0 && blocks(before).last().text.len() > 0 && blocks(
            before,
        ).last().depth == depth),
    ensures
        blocks(before + lines).len() == blocks(before).len() + 1,
        blocks(before + lines).drop_last() == blocks(before),
        blocks(before + lines).last().depth == depth,
        blocks(before + lines).last().text.len() > 0,
        words(blocks(before + lines).last().text) == said(lines),
    decreases lines.len(),
{
    let head = lines.drop_last();
    let line = lines.last();
    let content = line_content(line);
    assert((before + lines).drop_last() == before + head);
    assert((before + lines).last() == line);
    assert(quote_depth(line) == depth && !is_blank(line));
    if head.len() == 0 {
        assert(before + head == before);
        let prev = blocks(before);
        assert(blocks(before + lines) == prev.push(Block { depth, text: content }));
        assert(prev.push(Block { depth, text: content }).drop_last() == prev);
        assert(said(head) =~= Seq::<Seq<char>>::empty());
        assert(said(lines) =~= words(content));
    } else {
        assert forall|j: int| 0 <= j < head.len() implies quote_depth(#[trigger] head[j]) == depth
            && !is_blank(head[j]) by {
            assert(head[j] == lines[j]);
        }
        lemma_blocks_of_paragraph(before, head, depth);
        let prev = blocks(before + head);
        let text = prev.last().text + seq![' '] + content;
        assert(blocks(before + lines) == prev.drop_last().push(Block { depth, text }));
        assert(prev.drop_last().push(Block { depth, text }).drop_last() == prev.drop_last());
        lemma_words_joined(prev.last().text, content);
    }
}

/// Lines that read back say the words they were written from.
pub proof fn lemma_said_of_rendered(groups: Seq<Seq<Seq<char>>>, depth: nat)
    requires
        forall|i: int| 0 <= i < groups.len() ==> reads_back(#[trigger] groups[i], depth),
    ensures
        said(render_all(groups, depth)) == flatten(groups),
    decreases groups.len(),
{
    if groups.len() == 0 {
        assert(render_all(groups, depth) =~= Seq::<Seq<char>>::empty());
    } else {
        let head = groups.drop_last();
        assert forall|i: int| 0 <= i < head.len() implies reads_back(#[trigger] head[i], depth) by {
            assert(head[i] == groups[i]);
        }
        lemma_said_of_rendered(head, depth);
        assert(reads_back(groups.last(), depth));
        assert(render_all(groups, depth).drop_last() =~= render_all(head, depth));
        assert(render_all(groups, depth).last() == render(groups.last(), depth));
    }
}

/// Two runs of blocks are alike when they agree block by block on the
/// depth, on the words, and on which blocks are blank markers.
pub open spec fn alike(a: Seq<Block>, b: Seq<Block>) -> bool {
    &&& a.len() == b.len()
    &&& forall|i: int|
        0 <= i < a.len() ==> (#[trigger] a[i]).depth == b[i].depth && words(trim(a[i].text))
            == words(trim(b[i].text)) && (a[i].text.len() > 0 <==> b[i].text.len() > 0)
}

/// Blocks that are alike are emitted as the same lines.
pub proof fn lemma_emit_alike(a: Seq<Block>, b: Seq<Block>)
    requires
        alike(a, b),
    ensures
        emit(a) == emit(b),
    decreases a.len(),
{
    if a.len() > 0 {
        let x = a.drop_last();
        let y = b.drop_last();
        assert forall|i: int| 0 <= i < x.len() implies (#[trigger] x[i]).depth == y[i].depth
            && words(trim(x[i].text)) == words(trim(y[i].text)) && (x[i].text.len() > 0
            <==> y[i].text.len() > 0) by {
            assert(x[i] == a[i]);
            assert(y[i] == b[i]);
        }
        lemma_emit_alike(x, y);
        assert(a.last() == a[a.len() - 1]);
        assert(b.last() == b[a.len() - 1]);
    }
}

/// The blocks of the lines emitted for faithful blocks are like those
/// blocks.
pub proof fn lemma_reblock(bs: Seq<Block>)
    requires
        separated(bs),
        tidy_blocks(bs),
        faithful(bs),
    ensures
        alike(blocks(emit(bs)), bs),
    decreases bs.len(),
{
    if bs.len() > 0 {
        let head = bs.drop_last();
        let b = bs.last();
        let budget = LINE_LENGTH as nat;
        assert forall|i: int| 0 < i < head.len() implies !((#[trigger] head[i]).text.len() > 0
            && head[i - 1].text.len() > 0 && head[i - 1].depth == head[i].depth) by {
            assert(head[i] == bs[i]);
            assert(head[i - 1] == bs[i - 1]);
        }
        assert forall|i: int| 0 <= i < head.len() implies tidy(#[trigger] head[i].text)
            && faithful_block(head[i]) by {
            assert(head[i] == bs[i]);
        }
        lemma_reblock(head);
        let before = emit(head);
        let prev = blocks(before);
        let groups = wrap_groups(b.text, b.depth, budget);
        let lines = block_lines(b);
        let after = blocks(before + lines);
        assert(emit(bs) == before + lines);
        assert(faithful_block(b));
        assert(tidy(b.text));
        lemma_tidy_trim(b.text);
        lemma_blocks_tidy(before + lines);
        if b.text.len() == 0 {
            lemma_blank_block_lines(b.depth);
            lemma_reads_back_empty(b.depth);
            let line = render(Seq::empty(), b.depth);
            assert(b.text =~= Seq::<char>::empty());
            assert((before + lines).drop_last() =~= before);
            assert((before + lines).last() == line);
            assert(line_content(line) =~= Seq::<char>::empty());
            assert(after == prev.push(Block { depth: b.depth, text: line_content(line) }));
            assert forall|i: int| 0 <= i < after.len() implies (#[trigger] after[i]).depth
                == bs[i].depth && words(trim(after[i].text)) == words(trim(bs[i].text)) && (
            after[i].text.len() > 0 <==> bs[i].text.len() > 0) by {
                if i < prev.len() {
                    assert(after[i] == prev[i]);
                    assert(bs[i] == head[i]);
                }
            }
        } else {
            let ws = words(b.text);
            lemma_words_are_words(b.text);
            lemma_pack_groups(Seq::empty(), ws, b.depth, budget);
            lemma_pack_flatten(Seq::empty(), ws, b.depth, budget);
            assert(Seq::<Seq<char>>::empty() + ws =~= ws);
            assert forall|j: int| 0 <= j < lines.len() implies quote_depth(#[trigger] lines[j])
                == b.depth && !is_blank(lines[j]) by {
                assert(lines[j] == render(groups[j], b.depth));
                assert(reads_back(groups[j], b.depth));
                assert(groups[j].len() > 0);
                if is_blank(lines[j]) {
                    assert(line_content(lines[j]) =~= Seq::<char>::empty());
                    assert(words(line_content(lines[j])) =~= Seq::<Seq<char>>::empty());
                }
            }
            if head.len() > 0 {
                assert(prev.last() == prev[prev.len() - 1]);
                assert(head.last() == bs[bs.len() - 2]);
                assert(bs[bs.len() - 1] == b);
            }
            lemma_blocks_of_paragraph(before, lines, b.depth);
            lemma_said_of_rendered(groups, b.depth);
            let last = after.last();
            assert(tidy(last.text));
            lemma_tidy_trim(last.text);
            assert forall|i: int| 0 <= i < after.len() implies (#[trigger] after[i]).depth
                == bs[i].depth && words(trim(after[i].text)) == words(trim(bs[i].text)) && (
            after[i].text.len() > 0 <==> bs[i].text.len() > 0) by {
                if i < prev.len() {
                    assert(after[i] == after.drop_last()[i]);
                    assert(bs[i] == head[i]);
                }
            }
        }
    } else {
        assert(emit(bs) =~= Seq::<Seq<char>>::empty());
    }
}

/// Idempotence: where every line of the output reads back as the depth
/// and the words it was written from, reformatting the output yields the
/// output again.
pub proof fn lemma_idempotent(lines: Seq<Seq<char>>)
    requires
        faithful(blocks(lines)),
    ensures
        reformat_lines(reformat_lines(lines)) == reformat_lines(lines),
{
    let bs = blocks(lines);
    lemma_blocks_separated(lines);
    lemma_blocks_tidy(lines);
    lemma_reblock(bs);
    lemma_emit_alike(blocks(emit(bs)), bs);
}

/// Every line that a run of blocks emits can stand as one line of a
/// document.
pub proof fn lemma_emit_lines(bs: Seq<Block>)
    ensures
        all_lines(emit(bs)),
    decreases bs.len(),
{
    if bs.len() > 0 {
        let b = bs.last();
        let budget = LINE_LENGTH as nat;
        lemma_emit_lines(bs.drop_last());
        lemma_words_are_words(trim(b.text));
        lemma_pack_all_words(Seq::empty(), words(trim(b.text)), b.depth, budget);
        let groups = wrap_groups(b.text, b.depth, budget);
        let head = emit(bs.drop_last());
        assert forall|i: int| 0 <= i < emit(bs).len() implies is_line(#[trigger] emit(bs)[i]) by {
            if i < head.len() {
                assert(emit(bs)[i] == head[i]);
            } else {
                let k = i - head.len();
                assert(emit(bs)[i] == render(groups[k], b.depth));
                lemma_render_is_line(groups[k], b.depth);
            }
        }
    }
}

/// Idempotence of the text: where every line of the output reads back as
/// the depth and the words it was written from, splitting reformatted
/// text into its lines and reformatting them yields the same text.
pub proof fn lemma_idempotent_text(lines: Seq<Seq<char>>)
    requires
        faithful(blocks(lines)),
    ensures
        split_lines(reformat_text(lines)) == reformat_lines(lines),
        reformat_text(split_lines(reformat_text(lines))) == reformat_text(lines),
{
    lemma_emit_lines(blocks(lines));
    lemma_split_unlines(reformat_lines(lines));
    lemma_idempotent(lines);
}

/// A word is plain when it does not start with `>` and neither starts nor
/// ends with whitespace.
pub open spec fn plain_word(w: Seq<char>) -> bool {
    w.len() > 0 ==> w[0] != '>' && !is_space(w[0]) && !is_space(w.last())
}

/// `plain_word` as a predicate value.
pub open spec fn plain_pred() -> spec_fn(Seq<char>) -> bool {
    |w: Seq<char>| plain_word(w)
}

/// Every word that `lines` say is plain.
pub open spec fn plain_lines(lines: Seq<Seq<char>>) -> bool {
    forall|i: int|
        0 <= i < lines.len() ==> each(words(line_content(#[trigger] lines[i])), plain_pred())
}

/// What holds of each element of two sequences holds of each element of
/// the two together.
pub proof fn lemma_each_add(a: Seq<Seq<char>>, b: Seq<Seq<char>>, p: spec_fn(Seq<char>) -> bool)
    requires
        each(a, p),
        each(b, p),
    ensures
        each(a + b, p),
{
    assert forall|i: int| 0 <= i < (a + b).len() implies p(#[trigger] (a + b)[i]) by {
        if i < a.len() {
            assert((a + b)[i] == a[i]);
        } else {
            assert((a + b)[i] == b[i - a.len()]);
        }
    }
}

/// The paragraphs of plain lines are made of plain words.
pub proof fn lemma_blocks_plain(lines: Seq<Seq<char>>)
    requires
        plain_lines(lines),
    ensures
        forall|i: int|
            0 <= i < blocks(lines).len() ==> each(
                words((#[trigger] blocks(lines)[i]).text),
                plain_pred(),
            ),
    decreases lines.len(),
{
    if lines.len() > 0 {
        let head = lines.drop_last();
        assert forall|i: int| 0 <= i < head.len() implies each(
            words(line_content(#[trigger] head[i])),
            plain_pred(),
        ) by {
            assert(head[i] == lines[i]);
        }
        lemma_blocks_plain(head);
        let prev = blocks(head);
        let bs = blocks(lines);
        let depth = quote_depth(lines.last());
        let content = line_content(lines.last());
        assert(each(words(line_content(lines[lines.len() - 1])), plain_pred()));
        if content.len() > 0 && prev.len() > 0 && prev.last().text.len() > 0 && prev.last().depth
            == depth {
            lemma_words_joined(prev.last().text, content);
            assert(prev.last() == prev[prev.len() - 1]);
            lemma_each_add(words(prev.last().text), words(content), plain_pred());
        }
        assert forall|i: int| 0 <= i < bs.len() implies each(
            words((#[trigger] bs[i]).text),
            plain_pred(),
        ) by {
            if i < bs.len() - 1 {
                assert(bs[i] == prev[i]);
            }
        }
    }
}

/// Every line emitted for a tidy block of plain words reads back.
pub proof fn lemma_plain_block_faithful(b: Block)
    requires
        tidy(b.text),
        each(words(b.text), plain_pred()),
    ensures
        faithful_block(b),
{
    let budget = LINE_LENGTH as nat;
    let ws = words(b.text);
    let groups = wrap_groups(b.text, b.depth, budget);
    lemma_tidy_trim(b.text);
    lemma_words_are_words(b.text);
    lemma_pack_groups(Seq::empty(), ws, b.depth, budget);
    lemma_pack_all_words(Seq::empty(), ws, b.depth, budget);
    lemma_pack_keeps(Seq::empty(), ws, b.depth, budget, plain_pred());
    assert forall|i: int| 0 <= i < groups.len() implies reads_back(
        #[trigger] groups[i],
        b.depth,
    ) by {
        let g = groups[i];
        if ws.len() == 0 {
            assert(g =~= Seq::<Seq<char>>::empty());
            lemma_reads_back_empty(b.depth);
        } else {
            assert(all_words(g));
            assert(each(g, plain_pred()));
            assert(is_word(g[0]) && is_word(g.last()));
            assert((plain_pred())(g[0]) && (plain_pred())(g[g.len() - 1]));
            lemma_reads_back_clean(g, b.depth);
        }
    }
}

/// Every line of the output of plain lines reads back.
pub proof fn lemma_plain_faithful(lines: Seq<Seq<char>>)
    requires
        plain_lines(lines),
    ensures
        faithful(blocks(lines)),
{
    lemma_blocks_plain(lines);
    lemma_blocks_tidy(lines);
    let bs = blocks(lines);
    assert forall|i: int| 0 <= i < bs.len() implies faithful_block(#[trigger] bs[i]) by {
        lemma_plain_block_faithful(bs[i]);
    }
}

/// Idempotence on plain lines: where no word starts with `>` and no word
/// starts or ends with whitespace other than the ASCII kind that separates
/// words, reformatting the output yields the output again.
pub proof fn lemma_idempotent_plain(lines: Seq<Seq<char>>)
    requires
        plain_lines(lines),
    ensures
        reformat_lines(reformat_lines(lines)) == reformat_lines(lines),
{
    lemma_plain_faithful(lines);
    lemma_idempotent(lines);
}

} // verus!
