//! Quote markers: how deep a line is quoted and what it says.

use crate::text::{
    chars_of, lemma_run_len_is, lemma_trim_tidy, run_len, slice_chars, string_of, trim, trim_chars,
};
use vstd::prelude::*;

verus! {

/// The characters that a line's quote markers are made of.
pub open spec fn is_marker(c: char) -> bool {
    c == ' ' || c == '>'
}

/// `is_marker` as a predicate value.
pub open spec fn marker_pred() -> spec_fn(char) -> bool {
    |c: char| is_marker(c)
}

/// Length of the leading run of spaces and `>` of `line`.
pub open spec fn marker_len(line: Seq<char>) -> nat {
    run_len(line, marker_pred())
}

/// Number of `>` in `s`.
pub open spec fn count_quotes(s: Seq<char>) -> nat
    decreases s.len(),
{
    if s.len() == 0 {
        0
    } else if s.last() == '>' {
        count_quotes(s.drop_last()) + 1
    } else {
        count_quotes(s.drop_last())
    }
}

/// Quote depth of `line`: the number of `>` among its leading markers.
pub open spec fn quote_depth(line: Seq<char>) -> nat {
    count_quotes(line.take(marker_len(line) as int))
}

/// What `line` says: the text after its markers, trimmed.
pub open spec fn line_content(line: Seq<char>) -> Seq<char> {
    trim(line.skip(marker_len(line) as int))
}

/// A line is blank when it says nothing.
pub open spec fn is_blank(line: Seq<char>) -> bool {
    line_content(line).len() == 0
}

/// The markers written in front of a line of depth `depth`: `"> "`, `depth`
/// times.
pub open spec fn quote_prefix(depth: nat) -> Seq<char>
    decreases depth,
{
    if depth == 0 {
        Seq::empty()
    } else {
        quote_prefix((depth - 1) as nat) + seq!['>', ' ']
    }
}

/// The markers of depth `depth` are `2 * depth` marker characters, `depth`
/// of them `>`, also without the closing space.
pub proof fn lemma_prefix_shape(depth: nat)
    ensures
        quote_prefix(depth).len() == 2 * depth,
        forall|i: int| 0 <= i < 2 * depth ==> is_marker(#[trigger] quote_prefix(depth)[i]),
        count_quotes(quote_prefix(depth)) == depth,
        depth > 0 ==> quote_prefix(depth).last() == ' ' && quote_prefix(depth)[2 * depth - 2]
            == '>' && quote_prefix(depth)[0] == '>' && count_quotes(
            quote_prefix(depth).drop_last(),
        ) == depth,
    decreases depth,
{
    if depth > 0 {
        let head = quote_prefix((depth - 1) as nat);
        lemma_prefix_shape((depth - 1) as nat);
        let p = quote_prefix(depth);
        assert(p == head + seq!['>', ' ']);
        assert(p.drop_last() =~= head.push('>'));
        assert(p.drop_last().drop_last() =~= head);
        assert(p.drop_last().last() == '>');
        assert(count_quotes(p.drop_last()) == count_quotes(head) + 1);
        assert(p.last() == ' ');
        assert(count_quotes(p) == count_quotes(p.drop_last()));
        assert forall|i: int| 0 <= i < 2 * depth implies is_marker(#[trigger] p[i]) by {
            if i < head.len() {
                assert(p[i] == head[i]);
            }
        }
        if depth > 1 {
            assert(p[0] == head[0]);
        }
    }
}

/// A line made of the markers of depth `depth` and a body that does not
/// start with a marker character has that depth, and says the body.
pub proof fn lemma_parse_prefixed(depth: nat, body: Seq<char>)
    requires
        body.len() > 0 ==> !is_marker(body[0]),
    ensures
        marker_len(quote_prefix(depth) + body) == 2 * depth,
        quote_depth(quote_prefix(depth) + body) == depth,
        line_content(quote_prefix(depth) + body) == trim(body),
{
    let p = quote_prefix(depth);
    let line = p + body;
    lemma_prefix_shape(depth);
    assert forall|i: int| 0 <= i < 2 * depth implies (marker_pred())(#[trigger] line[i]) by {
        assert(line[i] == p[i]);
    }
    if 2 * depth < line.len() {
        assert(line[2 * depth as int] == body[0]);
    }
    lemma_run_len_is(line, marker_pred(), 2 * depth);
    assert(line.take(2 * depth as int) =~= p);
    assert(line.skip(2 * depth as int) =~= body);
}

/// The markers of a depth above zero, without their closing space, are a
/// blank line of that depth.
pub proof fn lemma_parse_bare_prefix(depth: nat)
    requires
        depth > 0,
    ensures
        quote_depth(quote_prefix(depth).drop_last()) == depth,
        line_content(quote_prefix(depth).drop_last()).len() == 0,
{
    let p = quote_prefix(depth);
    let line = p.drop_last();
    lemma_prefix_shape(depth);
    assert forall|i: int| 0 <= i < line.len() implies (marker_pred())(#[trigger] line[i]) by {
        assert(line[i] == p[i]);
    }
    lemma_run_len_is(line, marker_pred(), line.len());
    assert(line.take(line.len() as int) == line);
    assert(line.skip(line.len() as int) =~= Seq::<char>::empty());
    lemma_trim_tidy(line.skip(line.len() as int));
}

/// Depth and content of a line given as characters.
pub fn parse_chars(line: &[char]) -> (r: (usize, Vec<char>))
    ensures
        r.0 == quote_depth(line@),
        r.1@ == line_content(line@),
{
    let mut depth: usize = 0;
    let mut i: usize = 0;
    while i < line.len() && (line[i] == ' ' || line[i] == '>')
        invariant
            i <= line.len(),
            forall|k: int| 0 <= k < i ==> is_marker(#[trigger] line@[k]),
            depth == count_quotes(line@.take(i as int)),
            depth <= i,
        decreases line.len() - i,
    {
        proof {
            assert(line@.take(i + 1).drop_last() == line@.take(i as int));
        }
        if line[i] == '>' {
            depth += 1;
        }
        i += 1;
    }
    proof {
        lemma_run_len_is(line@, marker_pred(), i as nat);
    }
    let rest = slice_chars(line, i, line.len());
    assert(rest@ == line@.skip(i as int));
    (depth, trim_chars(rest.as_slice()))
}

/// Depth and content of `raw`.
pub fn parse_line(raw: &str) -> (r: (usize, String))
    ensures
        r.0 == quote_depth(raw@),
        r.1@ == line_content(raw@),
{
    let line = chars_of(raw);
    let (depth, content) = parse_chars(line.as_slice());
    (depth, string_of(content.as_slice()))
}

/// The markers in front of a line of depth `depth`.
pub fn prefix_chars(depth: usize) -> (r: Vec<char>)
    ensures
        r@ == quote_prefix(depth as nat),
{
    let mut r: Vec<char> = Vec::new();
    let mut i: usize = 0;
    while i < depth
        invariant
            i <= depth,
            r@ == quote_prefix(i as nat),
        decreases depth - i,
    {
        r.push('>');
        r.push(' ');
        i += 1;
        assert(r@ =~= quote_prefix((i - 1) as nat) + seq!['>', ' ']);
    }
    r
}

} // verus!
