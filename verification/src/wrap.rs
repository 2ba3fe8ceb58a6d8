//! Greedy, width-aware wrapping of one paragraph.

use crate::quote::{is_marker, lemma_prefix_shape, prefix_chars, quote_prefix};
use crate::text::{
    all_words, append_lines, char_byte_width, chars_of, is_ascii_space, is_line, is_space, is_word,
    leading_spaces, lemma_chars_deep_view, lemma_rows_push, lemma_run_len, lemma_run_len_is,
    lemma_tail_run_len, lemma_tail_run_len_is, lemma_tidy_trim, lemma_trim_tidy, lemma_width_add,
    lemma_width_bounds, lemma_width_one, lemma_width_part, lemma_words_add, lemma_words_of_word,
    push_chars, slice_chars, space_pred, split_words, strings_of, trailing_spaces, trim, trim_chars,
    unlines, width, words,
};
use vstd::prelude::*;

verus! {

/// The column budget of a wrapped line, markers included, in bytes.
pub const LINE_LENGTH: usize = 78;

/// Each word of `group` followed by one space.
pub open spec fn spaced(group: Seq<Seq<char>>) -> Seq<char>
    decreases group.len(),
{
    if group.len() == 0 {
        Seq::empty()
    } else {
        spaced(group.drop_last()) + group.last() + seq![' ']
    }
}

/// The line under construction that holds the words of `group` at depth
/// `depth`: the markers, then each word followed by one space.
pub open spec fn open_line(group: Seq<Seq<char>>, depth: nat) -> Seq<char> {
    quote_prefix(depth) + spaced(group)
}

/// The emitted form of a line that holds the words of `group`.
pub open spec fn render(group: Seq<Seq<char>>, depth: nat) -> Seq<char> {
    trim(open_line(group, depth))
}

/// Greedy packing. `cur` holds the words already on the current line and
/// `rest` those still to place. The next word opens a new line when the
/// current one holds a word and would grow past `budget` bytes with it;
/// otherwise it joins the current line.
pub open spec fn pack(
    cur: Seq<Seq<char>>,
    rest: Seq<Seq<char>>,
    depth: nat,
    budget: nat,
) -> Seq<Seq<Seq<char>>>
    decreases rest.len(),
{
    if rest.len() == 0 {
        seq![cur]
    } else if cur.len() > 0 && width(open_line(cur, depth)) + width(rest[0]) > budget {
        seq![cur] + pack(seq![rest[0]], rest.drop_first(), depth, budget)
    } else {
        pack(cur.push(rest[0]), rest.drop_first(), depth, budget)
    }
}

/// The emitted forms of `groups`, in order.
pub open spec fn render_all(groups: Seq<Seq<Seq<char>>>, depth: nat) -> Seq<Seq<char>> {
    groups.map_values(|g: Seq<Seq<char>>| render(g, depth))
}

/// The words of `content`, line by line, as wrapping places them.
pub open spec fn wrap_groups(content: Seq<char>, depth: nat, budget: nat) -> Seq<
    Seq<Seq<char>>,
> {
    pack(Seq::empty(), words(trim(content)), depth, budget)
}

/// The lines that wrapping `content` at depth `depth` emits.
pub open spec fn wrap_lines(content: Seq<char>, depth: nat, budget: nat) -> Seq<Seq<char>> {
    render_all(wrap_groups(content, depth, budget), depth)
}

/// The line under construction grows by a word and a space.
pub proof fn lemma_open_line_push(group: Seq<Seq<char>>, word: Seq<char>, depth: nat)
    ensures
        open_line(group.push(word), depth) == open_line(group, depth) + word + seq![' '],
        width(open_line(group.push(word), depth)) == width(open_line(group, depth)) + width(word)
            + 1,
{
    assert(group.push(word).drop_last() == group);
    assert(open_line(group.push(word), depth) =~= open_line(group, depth) + word + seq![' ']);
    lemma_width_add(open_line(group, depth), word);
    lemma_width_add(open_line(group, depth) + word, seq![' ']);
    lemma_width_one(' ');
}

/// An emitted line is no wider than the line under construction, and
/// narrower by the closing space when it holds a word.
pub proof fn lemma_render_width(group: Seq<Seq<char>>, depth: nat)
    ensures
        width(render(group, depth)) <= width(open_line(group, depth)),
        group.len() > 0 ==> width(render(group, depth)) + 1 <= width(open_line(group, depth)),
{
    let line = open_line(group, depth);
    lemma_run_len(line, space_pred());
    let a = leading_spaces(line) as int;
    let mid = line.skip(a);
    lemma_tail_run_len(mid, space_pred());
    let z = trailing_spaces(mid) as int;
    assert(render(group, depth) == line.subrange(a, line.len() - z));
    lemma_width_part(line, a, line.len() - z);
    if group.len() > 0 {
        assert(line.last() == ' ');
        if a == line.len() {
            lemma_width_bounds(line.take(a));
            assert(line.take(a) == line);
            lemma_width_bounds(line.subrange(a, line.len() - z));
        } else {
            assert(mid.last() == ' ');
            assert(z >= 1);
            lemma_width_bounds(line.skip(line.len() - z));
        }
    }
}

/// A group fits when it holds at most one word or its emitted line is
/// within `budget`.
pub open spec fn fits(group: Seq<Seq<char>>, depth: nat, budget: nat) -> bool {
    group.len() <= 1 || width(render(group, depth)) <= budget
}

/// Packing keeps every line within the budget, but for lines of one word.
pub proof fn lemma_pack_fits(
    cur: Seq<Seq<char>>,
    rest: Seq<Seq<char>>,
    depth: nat,
    budget: nat,
)
    requires
        cur.len() <= 1 || width(open_line(cur, depth)) <= budget + 1,
    ensures
        forall|i: int|
            0 <= i < pack(cur, rest, depth, budget).len() ==> fits(
                #[trigger] pack(cur, rest, depth, budget)[i],
                depth,
                budget,
            ),
    decreases rest.len(),
{
    lemma_render_width(cur, depth);
    assert(fits(cur, depth, budget));
    if rest.len() == 0 {
        assert(pack(cur, rest, depth, budget) =~= seq![cur]);
    } else if cur.len() > 0 && width(open_line(cur, depth)) + width(rest[0]) > budget {
        lemma_pack_fits(seq![rest[0]], rest.drop_first(), depth, budget);
        let tail = pack(seq![rest[0]], rest.drop_first(), depth, budget);
        assert forall|i: int| 0 <= i < pack(cur, rest, depth, budget).len() implies fits(
            #[trigger] pack(cur, rest, depth, budget)[i],
            depth,
            budget,
        ) by {
            if i > 0 {
                assert(pack(cur, rest, depth, budget)[i] == tail[i - 1]);
            } else {
                assert(pack(cur, rest, depth, budget)[0] == cur);
            }
        }
    } else {
        lemma_open_line_push(cur, rest[0], depth);
        lemma_pack_fits(cur.push(rest[0]), rest.drop_first(), depth, budget);
        assert(pack(cur, rest, depth, budget) == pack(
            cur.push(rest[0]),
            rest.drop_first(),
            depth,
            budget,
        ));
    }
}

/// Width bound of one paragraph: every line that wrapping emits is at most
/// `budget` bytes wide, markers included, unless it holds a single word. A
/// word too long for the budget stands alone on its line and exceeds it.
pub proof fn lemma_wrap_width_bound(content: Seq<char>, depth: nat, budget: nat)
    ensures
        wrap_lines(content, depth, budget).len() == wrap_groups(content, depth, budget).len(),
        forall|i: int|
            0 <= i < wrap_lines(content, depth, budget).len() ==> width(
                #[trigger] wrap_lines(content, depth, budget)[i],
            ) <= budget || wrap_groups(content, depth, budget)[i].len() <= 1,
{
    let ws = words(trim(content));
    lemma_pack_fits(Seq::empty(), ws, depth, budget);
    let groups = wrap_groups(content, depth, budget);
    assert forall|i: int| 0 <= i < wrap_lines(content, depth, budget).len() implies width(
        #[trigger] wrap_lines(content, depth, budget)[i],
    ) <= budget || groups[i].len() <= 1 by {
        assert(fits(groups[i], depth, budget));
        assert(wrap_lines(content, depth, budget)[i] == render(groups[i], depth));
    }
}

/// The words of `groups`, in order.
pub open spec fn flatten(groups: Seq<Seq<Seq<char>>>) -> Seq<Seq<char>>
    decreases groups.len(),
{
    if groups.len() == 0 {
        Seq::empty()
    } else {
        flatten(groups.drop_last()) + groups.last()
    }
}

/// `flatten` distributes over concatenation.
pub proof fn lemma_flatten_add(a: Seq<Seq<Seq<char>>>, b: Seq<Seq<Seq<char>>>)
    ensures
        flatten(a + b) == flatten(a) + flatten(b),
    decreases b.len(),
{
    if b.len() == 0 {
        assert(a + b == a);
        assert(flatten(a) + flatten(b) =~= flatten(a));
    } else {
        assert((a + b).drop_last() == a + b.drop_last());
        lemma_flatten_add(a, b.drop_last());
        assert(flatten(a + b) =~= flatten(a) + flatten(b));
    }
}

/// Packing places every word, in order, and nothing else.
pub proof fn lemma_pack_flatten(
    cur: Seq<Seq<char>>,
    rest: Seq<Seq<char>>,
    depth: nat,
    budget: nat,
)
    ensures
        flatten(pack(cur, rest, depth, budget)) == cur + rest,
    decreases rest.len(),
{
    reveal_with_fuel(flatten, 2);
    assert(seq![cur].drop_last() =~= Seq::<Seq<Seq<char>>>::empty());
    assert(flatten(seq![cur]) =~= cur);
    if rest.len() == 0 {
        assert(cur + rest =~= cur);
    } else if cur.len() > 0 && width(open_line(cur, depth)) + width(rest[0]) > budget {
        let tail = pack(seq![rest[0]], rest.drop_first(), depth, budget);
        lemma_pack_flatten(seq![rest[0]], rest.drop_first(), depth, budget);
        lemma_flatten_add(seq![cur], tail);
        assert(cur + (seq![rest[0]] + rest.drop_first()) =~= cur + rest);
    } else {
        lemma_pack_flatten(cur.push(rest[0]), rest.drop_first(), depth, budget);
        assert(cur.push(rest[0]) + rest.drop_first() =~= cur + rest);
    }
}

/// Packing emits at least one line, and a line without a word only when
/// there is no word at all.
pub proof fn lemma_pack_groups(
    cur: Seq<Seq<char>>,
    rest: Seq<Seq<char>>,
    depth: nat,
    budget: nat,
)
    ensures
        pack(cur, rest, depth, budget).len() >= 1,
        cur.len() + rest.len() == 0 ==> pack(cur, rest, depth, budget) == seq![cur],
        cur.len() + rest.len() > 0 ==> forall|i: int|
            0 <= i < pack(cur, rest, depth, budget).len() ==> (#[trigger] pack(
                cur,
                rest,
                depth,
                budget,
            )[i]).len() > 0,
    decreases rest.len(),
{
    if rest.len() == 0 {
        assert(pack(cur, rest, depth, budget) =~= seq![cur]);
    } else if cur.len() > 0 && width(open_line(cur, depth)) + width(rest[0]) > budget {
        let tail = pack(seq![rest[0]], rest.drop_first(), depth, budget);
        lemma_pack_groups(seq![rest[0]], rest.drop_first(), depth, budget);
        assert forall|i: int| 0 <= i < pack(cur, rest, depth, budget).len() implies (
        #[trigger] pack(cur, rest, depth, budget)[i]).len() > 0 by {
            if i > 0 {
                assert(pack(cur, rest, depth, budget)[i] == tail[i - 1]);
            } else {
                assert(pack(cur, rest, depth, budget)[0] == cur);
            }
        }
    } else {
        lemma_pack_groups(cur.push(rest[0]), rest.drop_first(), depth, budget);
        assert(pack(cur, rest, depth, budget) == pack(
            cur.push(rest[0]),
            rest.drop_first(),
            depth,
            budget,
        ));
    }
}

/// `a` is the start of `b`.
pub open spec fn starts(a: Seq<Seq<char>>, b: Seq<Seq<char>>) -> bool {
    a.len() <= b.len() && b.take(a.len() as int) == a
}

/// Packing breaks only where it must: the first line starts with the words
/// already placed, and every further line starts with a word that did not
/// fit on the line before it.
pub proof fn lemma_pack_greedy(
    cur: Seq<Seq<char>>,
    rest: Seq<Seq<char>>,
    depth: nat,
    budget: nat,
)
    ensures
        pack(cur, rest, depth, budget).len() >= 1,
        starts(cur, pack(cur, rest, depth, budget)[0]),
        forall|i: int|
            0 < i < pack(cur, rest, depth, budget).len() ==> (#[trigger] pack(
                cur,
                rest,
                depth,
                budget,
            )[i]).len() > 0 && width(open_line(pack(cur, rest, depth, budget)[i - 1], depth))
                + width(pack(cur, rest, depth, budget)[i][0]) > budget,
    decreases rest.len(),
{
    let groups = pack(cur, rest, depth, budget);
    if rest.len() == 0 {
        assert(groups =~= seq![cur]);
        assert(cur.take(cur.len() as int) == cur);
    } else if cur.len() > 0 && width(open_line(cur, depth)) + width(rest[0]) > budget {
        let tail = pack(seq![rest[0]], rest.drop_first(), depth, budget);
        lemma_pack_greedy(seq![rest[0]], rest.drop_first(), depth, budget);
        assert(groups[0] == cur);
        assert(cur.take(cur.len() as int) == cur);
        assert forall|i: int| 0 < i < groups.len() implies (#[trigger] groups[i]).len() > 0
            && width(open_line(groups[i - 1], depth)) + width(groups[i][0]) > budget by {
            assert(groups[i] == tail[i - 1]);
            if i == 1 {
                assert(tail[0].take(1)[0] == rest[0]);
            } else {
                assert(groups[i - 1] == tail[i - 2]);
            }
        }
    } else {
        let next = cur.push(rest[0]);
        lemma_pack_greedy(next, rest.drop_first(), depth, budget);
        assert(groups == pack(next, rest.drop_first(), depth, budget));
        assert(groups[0].take(cur.len() as int) =~= groups[0].take(next.len() as int).take(
            cur.len() as int,
        ));
        assert(next.take(cur.len() as int) =~= cur);
    }
}

/// Wrapping breaks only where it must: every line but the first starts
/// with a word that would have made the line before it wider than the
/// budget.
pub proof fn lemma_wrap_greedy(content: Seq<char>, depth: nat, budget: nat)
    ensures
        forall|i: int|
            0 < i < wrap_groups(content, depth, budget).len() ==> (#[trigger] wrap_groups(
                content,
                depth,
                budget,
            )[i]).len() > 0 && width(open_line(wrap_groups(content, depth, budget)[i - 1], depth))
                + width(wrap_groups(content, depth, budget)[i][0]) > budget,
{
    lemma_pack_greedy(Seq::empty(), words(trim(content)), depth, budget);
}

/// Every element of `ws` satisfies `p`.
pub open spec fn each(ws: Seq<Seq<char>>, p: spec_fn(Seq<char>) -> bool) -> bool {
    forall|i: int| 0 <= i < ws.len() ==> p(#[trigger] ws[i])
}

/// Packing only moves words: what holds of every word to place holds of
/// every word of every line.
pub proof fn lemma_pack_keeps(
    cur: Seq<Seq<char>>,
    rest: Seq<Seq<char>>,
    depth: nat,
    budget: nat,
    p: spec_fn(Seq<char>) -> bool,
)
    requires
        each(cur, p),
        each(rest, p),
    ensures
        forall|i: int|
            0 <= i < pack(cur, rest, depth, budget).len() ==> each(
                #[trigger] pack(cur, rest, depth, budget)[i],
                p,
            ),
    decreases rest.len(),
{
    if rest.len() == 0 {
        assert(pack(cur, rest, depth, budget) =~= seq![cur]);
    } else {
        assert(p(rest[0]));
        assert forall|k: int| 0 <= k < rest.drop_first().len() implies p(
            #[trigger] rest.drop_first()[k],
        ) by {
            assert(rest.drop_first()[k] == rest[k + 1]);
        }
        if cur.len() > 0 && width(open_line(cur, depth)) + width(rest[0]) > budget {
            let tail = pack(seq![rest[0]], rest.drop_first(), depth, budget);
            lemma_pack_keeps(seq![rest[0]], rest.drop_first(), depth, budget, p);
            assert forall|i: int| 0 <= i < pack(cur, rest, depth, budget).len() implies each(
                #[trigger] pack(cur, rest, depth, budget)[i],
                p,
            ) by {
                if i > 0 {
                    assert(pack(cur, rest, depth, budget)[i] == tail[i - 1]);
                } else {
                    assert(pack(cur, rest, depth, budget)[0] == cur);
                }
            }
        } else {
            assert forall|k: int| 0 <= k < cur.push(rest[0]).len() implies p(
                #[trigger] cur.push(rest[0])[k],
            ) by {
                if k < cur.len() {
                    assert(cur.push(rest[0])[k] == cur[k]);
                }
            }
            lemma_pack_keeps(cur.push(rest[0]), rest.drop_first(), depth, budget, p);
            assert(pack(cur, rest, depth, budget) == pack(
                cur.push(rest[0]),
                rest.drop_first(),
                depth,
                budget,
            ));
        }
    }
}

/// `is_word` as a predicate value.
pub open spec fn word_pred() -> spec_fn(Seq<char>) -> bool {
    |w: Seq<char>| is_word(w)
}

/// Packing words yields groups of words.
pub proof fn lemma_pack_all_words(
    cur: Seq<Seq<char>>,
    rest: Seq<Seq<char>>,
    depth: nat,
    budget: nat,
)
    requires
        all_words(cur),
        all_words(rest),
    ensures
        forall|i: int|
            0 <= i < pack(cur, rest, depth, budget).len() ==> all_words(
                #[trigger] pack(cur, rest, depth, budget)[i],
            ),
{
    assert(each(cur, word_pred())) by {
        assert forall|i: int| 0 <= i < cur.len() implies (word_pred())(#[trigger] cur[i]) by {
            assert(is_word(cur[i]));
        }
    }
    assert(each(rest, word_pred())) by {
        assert forall|i: int| 0 <= i < rest.len() implies (word_pred())(#[trigger] rest[i]) by {
            assert(is_word(rest[i]));
        }
    }
    lemma_pack_keeps(cur, rest, depth, budget, word_pred());
    assert forall|i: int| 0 <= i < pack(cur, rest, depth, budget).len() implies all_words(
        #[trigger] pack(cur, rest, depth, budget)[i],
    ) by {
        let g = pack(cur, rest, depth, budget)[i];
        assert(each(g, word_pred()));
        assert forall|k: int| 0 <= k < g.len() implies is_word(#[trigger] g[k]) by {
            assert((word_pred())(g[k]));
        }
    }
}

/// The words of a spaced group are the group.
pub proof fn lemma_words_spaced(group: Seq<Seq<char>>)
    requires
        all_words(group),
    ensures
        words(spaced(group)) == group,
        group.len() > 0 ==> spaced(group).len() > 0 && spaced(group).last() == ' ' && spaced(
            group,
        ).first() == group[0][0] && words(spaced(group).drop_last()) == group,
        group.len() > 0 ==> spaced(group).len() >= 2 && spaced(group)[spaced(group).len() - 2]
            == group.last().last(),
    decreases group.len(),
{
    if group.len() == 0 {
        assert(words(spaced(group)) =~= group);
    } else {
        let head = group.drop_last();
        let w = group.last();
        assert(is_word(w));
        assert forall|i: int| 0 <= i < head.len() implies is_word(#[trigger] head[i]) by {
            assert(head[i] == group[i]);
        }
        lemma_words_spaced(head);
        lemma_words_add(spaced(head), w);
        lemma_words_of_word(w);
        let s = spaced(group);
        assert(s.drop_last() =~= spaced(head) + w);
        assert(words(s) == words(s.drop_last()));
        assert(head.push(w) =~= group);
        assert(words(s) =~= group);
        if head.len() > 0 {
            assert(s.first() == spaced(head).first());
            assert(head[0] == group[0]);
        } else {
            assert(spaced(head) =~= Seq::<char>::empty());
            assert(s.first() == w[0]);
        }
        assert(s[s.len() - 2] == w.last());
    }
}

/// A line without words is emitted as its markers without the closing
/// space.
pub proof fn lemma_render_empty(depth: nat)
    ensures
        depth == 0 ==> render(Seq::empty(), depth) == Seq::<char>::empty(),
        depth > 0 ==> render(Seq::empty(), depth) == quote_prefix(depth).drop_last(),
{
    let p = quote_prefix(depth);
    lemma_prefix_shape(depth);
    assert(open_line(Seq::empty(), depth) =~= p);
    if depth == 0 {
        lemma_tidy_trim(p);
    } else {
        lemma_run_len_is(p, space_pred(), 0);
        assert(p.skip(0) == p);
        lemma_tail_run_len_is(p, space_pred(), 1);
    }
}

/// A line of words that neither starts nor ends with whitespace is emitted
/// as its markers and its words with single spaces between them.
pub proof fn lemma_render_clean(group: Seq<Seq<char>>, depth: nat)
    requires
        all_words(group),
        group.len() > 0,
        !is_space(group[0][0]),
        !is_space(group.last().last()),
    ensures
        render(group, depth) == quote_prefix(depth) + spaced(group).drop_last(),
{
    let p = quote_prefix(depth);
    let body = spaced(group);
    let line = open_line(group, depth);
    lemma_prefix_shape(depth);
    lemma_words_spaced(group);
    if depth > 0 {
        assert(line[0] == p[0]);
    } else {
        assert(line =~= body);
    }
    lemma_run_len_is(line, space_pred(), 0);
    assert(line.skip(0) == line);
    assert(line.last() == ' ');
    assert(line[line.len() - 2] == body[body.len() - 2]);
    lemma_tail_run_len_is(line, space_pred(), 1);
    assert(line.take(line.len() - 1) =~= p + body.drop_last());
}

/// A line emitted for words holds no line feed and no carriage return, so
/// it can stand as one line of a document.
pub proof fn lemma_render_is_line(group: Seq<Seq<char>>, depth: nat)
    requires
        all_words(group),
    ensures
        is_line(render(group, depth)),
{
    let p = quote_prefix(depth);
    let line = open_line(group, depth);
    lemma_prefix_shape(depth);
    lemma_spaced_chars(group);
    assert forall|k: int| 0 <= k < line.len() implies #[trigger] line[k] != '\n' && line[k]
        != '\r' by {
        if k < p.len() {
            assert(line[k] == p[k]);
            assert(is_marker(p[k]));
        } else {
            assert(line[k] == spaced(group)[k - p.len()]);
        }
    }
    lemma_trim_tidy(line);
    let r = render(group, depth);
    let a = leading_spaces(line) as int;
    assert forall|k: int| 0 <= k < r.len() implies #[trigger] r[k] != '\n' && r[k] != '\r' by {
        assert(r[k] == line[a + k]);
    }
}

/// A spaced group holds no line feed and no carriage return.
pub proof fn lemma_spaced_chars(group: Seq<Seq<char>>)
    requires
        all_words(group),
    ensures
        forall|k: int|
            0 <= k < spaced(group).len() ==> #[trigger] spaced(group)[k] != '\n' && spaced(
                group,
            )[k] != '\r',
    decreases group.len(),
{
    if group.len() > 0 {
        let head = group.drop_last();
        let w = group.last();
        assert(is_word(w));
        assert forall|i: int| 0 <= i < head.len() implies is_word(#[trigger] head[i]) by {
            assert(head[i] == group[i]);
        }
        lemma_spaced_chars(head);
        let s = spaced(group);
        assert forall|k: int| 0 <= k < s.len() implies #[trigger] s[k] != '\n' && s[k]
            != '\r' by {
            if k < spaced(head).len() {
                assert(s[k] == spaced(head)[k]);
            } else if k < spaced(head).len() + w.len() {
                assert(s[k] == w[k - spaced(head).len()]);
                assert(!is_ascii_space(w[k - spaced(head).len()]));
            } else {
                assert(s[k] == ' ');
            }
        }
    }
}

/// Number of bytes that `v` takes in UTF-8.
pub fn chars_width(v: &[char]) -> (w: u128)
    ensures
        w == width(v@),
{
    let mut w: u128 = 0;
    let mut i: usize = 0;
    while i < v.len()
        invariant
            i <= v.len(),
            w == width(v@.take(i as int)),
            w <= 4 * i,
        decreases v.len() - i,
    {
        proof {
            assert(v@.take(i + 1).drop_last() == v@.take(i as int));
        }
        let n: usize = char_byte_width(v[i]);
        w = w + n as u128;
        i += 1;
    }
    proof {
        assert(v@.take(v.len() as int) == v@);
    }
    w
}

/// Appends the characters of `tail` to `line`.
pub(crate) fn extend_chars(line: &mut Vec<char>, tail: &[char])
    ensures
        final(line)@ == old(line)@ + tail@,
{
    let mut i: usize = 0;
    while i < tail.len()
        invariant
            i <= tail.len(),
            line@ == old(line)@ + tail@.take(i as int),
        decreases tail.len() - i,
    {
        line.push(tail[i]);
        i += 1;
        assert(line@ =~= old(line)@ + tail@.take(i as int));
    }
    assert(tail@.take(tail.len() as int) == tail@);
}

/// Wraps `content` at depth `depth` into lines of at most `budget` bytes.
pub fn wrap_chars(content: &[char], depth: usize, budget: usize) -> (r: Vec<Vec<char>>)
    ensures
        r.deep_view() == wrap_lines(content@, depth as nat, budget as nat),
{
    let trimmed = trim_chars(content);
    let ws = split_words(trimmed.as_slice());
    let prefix = prefix_chars(depth);
    let ghost all = ws.deep_view();
    let ghost d = depth as nat;
    let ghost b = budget as nat;
    let mut out: Vec<Vec<char>> = Vec::new();
    let mut line: Vec<char> = slice_chars(prefix.as_slice(), 0, prefix.len());
    let mut line_w: u128 = chars_width(line.as_slice());
    let mut held: bool = false;
    let ghost mut cur: Seq<Seq<char>> = Seq::empty();
    let mut i: usize = 0;
    proof {
        assert(prefix@.subrange(0, prefix@.len() as int) == prefix@);
        assert(line@ =~= open_line(cur, d));
        assert(all.skip(0) == all);
        assert(out.deep_view() =~= Seq::<Seq<char>>::empty());
        assert(out.deep_view() + render_all(pack(cur, all, d, b), d) =~= render_all(
            pack(cur, all, d, b),
            d,
        ));
    }
    while i < ws.len()
        invariant
            i <= ws.len(),
            all == ws.deep_view(),
            d == depth,
            b == budget,
            prefix@ == quote_prefix(d),
            line@ == open_line(cur, d),
            line_w == width(line@),
            held == (cur.len() > 0),
            render_all(pack(Seq::empty(), all, d, b), d) == out.deep_view() + render_all(
                pack(cur, all.skip(i as int), d, b),
                d,
            ),
        decreases ws.len() - i,
    {
        let word = &ws[i];
        let word_w: u128 = chars_width(word.as_slice());
        let ghost rest = all.skip(i as int);
        let ghost before = out.deep_view();
        proof {
            lemma_chars_deep_view(ws@[i as int]);
            assert(rest[0] == word@);
            assert(rest.drop_first() == all.skip(i + 1));
            lemma_width_bounds(line@);
            lemma_width_bounds(word@);
            assert(line@.len() == line.len() && word@.len() == word.len());
            assert(usize::MAX <= 0xffff_ffff_ffff_ffff);
        }
        if held && line_w + word_w > budget as u128 {
            let full = trim_chars(line.as_slice());
            let ghost rows = out;
            out.push(full);
            line = slice_chars(prefix.as_slice(), 0, prefix.len());
            line_w = chars_width(line.as_slice());
            proof {
                lemma_rows_push(rows, out, full);
                let tail = pack(seq![rest[0]], rest.drop_first(), d, b);
                assert(render_all(seq![cur] + tail, d) =~= seq![render(cur, d)] + render_all(
                    tail,
                    d,
                ));
                assert(before + (seq![render(cur, d)] + render_all(tail, d)) =~= before.push(
                    render(cur, d),
                ) + render_all(tail, d));
                assert(prefix@.subrange(0, prefix@.len() as int) == prefix@);
                cur = Seq::empty();
                assert(line@ =~= open_line(cur, d));
                assert(cur.push(word@) =~= seq![rest[0]]);
            }
        }
        let ghost line_before = line@;
        proof {
            lemma_width_bounds(line@);
            assert(line@.len() == line.len());
        }
        extend_chars(&mut line, word.as_slice());
        line.push(' ');
        proof {
            assert(cur.push(word@).drop_last() == cur);
            assert(line@ =~= open_line(cur.push(word@), d));
            lemma_width_add(line_before, word@);
            lemma_width_add(line_before + word@, seq![' ']);
            lemma_width_one(' ');
            assert(line@ =~= (line_before + word@) + seq![' ']);
            cur = cur.push(word@);
        }
        line_w = line_w + word_w + 1;
        held = true;
        i += 1;
    }
    let full = trim_chars(line.as_slice());
    let ghost rows = out;
    let ghost before = out.deep_view();
    out.push(full);
    proof {
        lemma_rows_push(rows, out, full);
        assert(render_all(seq![cur], d) =~= seq![render(cur, d)]);
        assert(before + seq![render(cur, d)] =~= before.push(render(cur, d)));
    }
    out
}

/// Wraps `content` at depth `depth` into lines of at most `column_budget`
/// bytes, markers included. A word longer than the budget stands alone on
/// its line.
pub fn wrap(content: &str, depth: usize, column_budget: usize) -> (r: Vec<String>)
    ensures
        r.deep_view() == wrap_lines(content@, depth as nat, column_budget as nat),
        r.len() == wrap_groups(content@, depth as nat, column_budget as nat).len(),
        forall|i: int|
            0 <= i < r.len() ==> width((#[trigger] r[i])@) <= column_budget || wrap_groups(
                content@,
                depth as nat,
                column_budget as nat,
            )[i].len() <= 1,
{
    let text = chars_of(content);
    let rows = wrap_chars(text.as_slice(), depth, column_budget);
    let r = strings_of(&rows);
    proof {
        lemma_wrap_width_bound(content@, depth as nat, column_budget as nat);
        assert forall|i: int| 0 <= i < r.len() implies width((#[trigger] r[i])@) <= column_budget
            || wrap_groups(content@, depth as nat, column_budget as nat)[i].len() <= 1 by {
            assert(r.deep_view()[i] == r[i]@);
        }
    }
    r
}

/// Wraps `acc` at depth `curlevel` to `LINE_LENGTH` bytes and appends each
/// line, followed by a line feed, to `ret`.
pub fn do_wrap(ret: &mut String, acc: &str, curlevel: usize)
    ensures
        final(ret)@ == old(ret)@ + unlines(
            wrap_lines(acc@, curlevel as nat, LINE_LENGTH as nat),
        ),
{
    let text = chars_of(acc);
    let rows = wrap_chars(text.as_slice(), curlevel, LINE_LENGTH);
    let mut flat: Vec<char> = Vec::new();
    append_lines(&mut flat, &rows);
    assert(flat@ =~= unlines(rows.deep_view()));
    push_chars(ret, flat.as_slice());
}

} // verus!
