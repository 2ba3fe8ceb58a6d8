//! Characters, widths, trimming, words and lines.

use vstd::prelude::*;
use vstd::utf8::{char_is_scalar, encode_scalar, encode_utf8};

verus! {

/// The characters that carry the Unicode `White_Space` property.
pub open spec fn is_space(c: char) -> bool {
    let u = c as u32;
    ||| 0x09 <= u <= 0x0D
    ||| u == 0x20
    ||| u == 0x85
    ||| u == 0xA0
    ||| u == 0x1680
    ||| 0x2000 <= u <= 0x200A
    ||| u == 0x2028
    ||| u == 0x2029
    ||| u == 0x202F
    ||| u == 0x205F
    ||| u == 0x3000
}

/// The five ASCII characters that separate words: space, tab, line feed,
/// form feed and carriage return.
pub open spec fn is_ascii_space(c: char) -> bool {
    let u = c as u32;
    u == 0x20 || u == 0x09 || u == 0x0A || u == 0x0C || u == 0x0D
}

/// Number of bytes that `c` takes in UTF-8.
pub open spec fn char_width(c: char) -> nat {
    let u = c as u32;
    if u < 0x80 {
        1
    } else if u < 0x800 {
        2
    } else if u < 0x10000 {
        3
    } else {
        4
    }
}

/// Number of bytes that `s` takes in UTF-8.
pub open spec fn width(s: Seq<char>) -> nat
    decreases s.len(),
{
    if s.len() == 0 {
        0
    } else {
        width(s.drop_last()) + char_width(s.last())
    }
}

/// Tells whether `c` is whitespace.
pub fn char_is_space(c: char) -> (b: bool)
    ensures
        b == is_space(c),
{
    let u: u32 = c as u32;
    (0x09 <= u && u <= 0x0D) || u == 0x20 || u == 0x85 || u == 0xA0 || u == 0x1680 || (0x2000 <= u
        && u <= 0x200A) || u == 0x2028 || u == 0x2029 || u == 0x202F || u == 0x205F || u == 0x3000
}

/// Tells whether `c` is one of the ASCII characters that separate words.
pub fn char_is_ascii_space(c: char) -> (b: bool)
    ensures
        b == is_ascii_space(c),
{
    c == ' ' || c == '\t' || c == '\n' || c == '\x0C' || c == '\r'
}

/// Number of bytes that `c` takes in UTF-8.
pub fn char_byte_width(c: char) -> (n: usize)
    ensures
        n == char_width(c),
        1 <= n <= 4,
{
    let u: u32 = c as u32;
    if u < 0x80 {
        1
    } else if u < 0x800 {
        2
    } else if u < 0x10000 {
        3
    } else {
        4
    }
}

/// Width adds up over concatenation.
pub proof fn lemma_width_add(a: Seq<char>, b: Seq<char>)
    ensures
        width(a + b) == width(a) + width(b),
    decreases b.len(),
{
    if b.len() == 0 {
        assert(a + b == a);
    } else {
        assert((a + b).drop_last() == a + b.drop_last());
        lemma_width_add(a, b.drop_last());
    }
}

/// A character takes one to four bytes.
pub proof fn lemma_width_bounds(s: Seq<char>)
    ensures
        s.len() <= width(s) <= 4 * s.len(),
    decreases s.len(),
{
    if s.len() > 0 {
        lemma_width_bounds(s.drop_last());
    }
}

/// The width of a single character.
pub proof fn lemma_width_one(c: char)
    ensures
        width(seq![c]) == char_width(c),
{
    reveal_with_fuel(width, 2);
    assert(seq![c].drop_last() =~= Seq::<char>::empty());
}

/// The width of a text is the length of its UTF-8 encoding, which is what
/// `str::len` returns.
pub proof fn lemma_width_is_utf8_len(s: Seq<char>)
    ensures
        width(s) == encode_utf8(s).len(),
    decreases s.len(),
{
    if s.len() > 0 {
        let c = s[0];
        char_is_scalar(c);
        lemma_width_is_utf8_len(s.drop_first());
        lemma_width_one(c);
        lemma_width_add(seq![c], s.drop_first());
        assert(seq![c] + s.drop_first() =~= s);
        assert(encode_scalar(c as u32).len() == char_width(c));
    }
}

/// A part of a text is no wider than the text.
pub proof fn lemma_width_part(s: Seq<char>, from: int, to: int)
    requires
        0 <= from <= to <= s.len(),
    ensures
        width(s.subrange(from, to)) + width(s.take(from)) + width(s.skip(to)) == width(s),
{
    lemma_width_add(s.take(from), s.subrange(from, to));
    lemma_width_add(s.take(from) + s.subrange(from, to), s.skip(to));
    assert(s.take(from) + s.subrange(from, to) + s.skip(to) =~= s);
}

/// Length of the longest prefix of `s` whose elements all satisfy `p`.
pub open spec fn run_len<T>(s: Seq<T>, p: spec_fn(T) -> bool) -> nat
    decreases s.len(),
{
    if s.len() > 0 && p(s[0]) {
        1 + run_len(s.drop_first(), p)
    } else {
        0
    }
}

/// Length of the longest suffix of `s` whose elements all satisfy `p`.
pub open spec fn tail_run_len<T>(s: Seq<T>, p: spec_fn(T) -> bool) -> nat
    decreases s.len(),
{
    if s.len() > 0 && p(s.last()) {
        1 + tail_run_len(s.drop_last(), p)
    } else {
        0
    }
}

/// `run_len` stops at the first element that fails `p`.
pub proof fn lemma_run_len<T>(s: Seq<T>, p: spec_fn(T) -> bool)
    ensures
        run_len(s, p) <= s.len(),
        forall|i: int| 0 <= i < run_len(s, p) ==> p(#[trigger] s[i]),
        run_len(s, p) < s.len() ==> !p(s[run_len(s, p) as int]),
    decreases s.len(),
{
    if s.len() > 0 && p(s[0]) {
        let t = s.drop_first();
        lemma_run_len(t, p);
        assert forall|i: int| 0 <= i < run_len(s, p) implies p(#[trigger] s[i]) by {
            if i > 0 {
                assert(s[i] == t[i - 1]);
            }
        }
        if run_len(s, p) < s.len() {
            assert(s[run_len(s, p) as int] == t[run_len(t, p) as int]);
        }
    }
}

/// A prefix of elements satisfying `p` that ends the sequence or meets an
/// element failing `p` is the run.
pub proof fn lemma_run_len_is<T>(s: Seq<T>, p: spec_fn(T) -> bool, n: nat)
    requires
        n <= s.len(),
        forall|i: int| 0 <= i < n ==> p(#[trigger] s[i]),
        n < s.len() ==> !p(s[n as int]),
    ensures
        run_len(s, p) == n,
    decreases s.len(),
{
    if n > 0 {
        let t = s.drop_first();
        assert forall|i: int| 0 <= i < n - 1 implies p(#[trigger] t[i]) by {
            assert(t[i] == s[i + 1]);
        }
        if n - 1 < t.len() {
            assert(t[n - 1] == s[n as int]);
        }
        lemma_run_len_is(t, p, (n - 1) as nat);
    }
}

/// `tail_run_len` stops at the last element that fails `p`.
pub proof fn lemma_tail_run_len<T>(s: Seq<T>, p: spec_fn(T) -> bool)
    ensures
        tail_run_len(s, p) <= s.len(),
        forall|i: int| s.len() - tail_run_len(s, p) <= i < s.len() ==> p(#[trigger] s[i]),
        tail_run_len(s, p) < s.len() ==> !p(s[s.len() - tail_run_len(s, p) - 1]),
    decreases s.len(),
{
    if s.len() > 0 && p(s.last()) {
        let t = s.drop_last();
        lemma_tail_run_len(t, p);
        assert forall|i: int| s.len() - tail_run_len(s, p) <= i < s.len() implies p(
            #[trigger] s[i],
        ) by {
            if i < s.len() - 1 {
                assert(s[i] == t[i]);
            }
        }
        if tail_run_len(s, p) < s.len() {
            assert(s[s.len() - tail_run_len(s, p) - 1] == t[t.len() - tail_run_len(t, p) - 1]);
        }
    }
}

/// A suffix of elements satisfying `p` that starts the sequence or follows
/// an element failing `p` is the tail run.
pub proof fn lemma_tail_run_len_is<T>(s: Seq<T>, p: spec_fn(T) -> bool, n: nat)
    requires
        n <= s.len(),
        forall|i: int| s.len() - n <= i < s.len() ==> p(#[trigger] s[i]),
        n < s.len() ==> !p(s[s.len() - n - 1]),
    ensures
        tail_run_len(s, p) == n,
    decreases s.len(),
{
    if n > 0 {
        let t = s.drop_last();
        assert forall|i: int| t.len() - (n - 1) <= i < t.len() implies p(#[trigger] t[i]) by {
            assert(t[i] == s[i]);
        }
        if n - 1 < t.len() {
            assert(t[t.len() - (n - 1) - 1] == s[s.len() - n - 1]);
        }
        lemma_tail_run_len_is(t, p, (n - 1) as nat);
    }
}

/// `is_space` as a predicate value.
pub open spec fn space_pred() -> spec_fn(char) -> bool {
    |c: char| is_space(c)
}

/// Number of whitespace characters at the start of `s`.
pub open spec fn leading_spaces(s: Seq<char>) -> nat {
    run_len(s, space_pred())
}

/// Number of whitespace characters at the end of `s`.
pub open spec fn trailing_spaces(s: Seq<char>) -> nat {
    tail_run_len(s, space_pred())
}

/// `s` without its leading whitespace.
pub open spec fn trim_start(s: Seq<char>) -> Seq<char> {
    s.skip(leading_spaces(s) as int)
}

/// `s` without its trailing whitespace.
pub open spec fn trim_end(s: Seq<char>) -> Seq<char> {
    s.take(s.len() - trailing_spaces(s))
}

/// `s` without the whitespace at either end.
pub open spec fn trim(s: Seq<char>) -> Seq<char> {
    trim_end(trim_start(s))
}

/// The words of `s`: its maximal runs of characters other than ASCII
/// whitespace, in order.
pub open spec fn words(s: Seq<char>) -> Seq<Seq<char>>
    decreases s.len(),
{
    if s.len() == 0 {
        Seq::empty()
    } else {
        let head = s.drop_last();
        let c = s.last();
        if is_ascii_space(c) {
            words(head)
        } else if head.len() > 0 && !is_ascii_space(head.last()) {
            words(head).drop_last().push(words(head).last().push(c))
        } else {
            words(head).push(seq![c])
        }
    }
}

/// A word is not empty and holds no ASCII whitespace.
pub open spec fn is_word(w: Seq<char>) -> bool {
    &&& w.len() > 0
    &&& forall|i: int| 0 <= i < w.len() ==> !is_ascii_space(#[trigger] w[i])
}

/// Every element of `ws` is a word.
pub open spec fn all_words(ws: Seq<Seq<char>>) -> bool {
    forall|i: int| 0 <= i < ws.len() ==> is_word(#[trigger] ws[i])
}

/// `words` yields words, and at least one when the text does not end in
/// ASCII whitespace.
pub proof fn lemma_words_are_words(s: Seq<char>)
    ensures
        all_words(words(s)),
        s.len() > 0 && !is_ascii_space(s.last()) ==> words(s).len() > 0,
    decreases s.len(),
{
    if s.len() > 0 {
        let head = s.drop_last();
        let c = s.last();
        lemma_words_are_words(head);
        if is_ascii_space(c) {
        } else if head.len() > 0 && !is_ascii_space(head.last()) {
            let w = words(head);
            let last = w.last().push(c);
            assert(is_word(w.last()));
            assert forall|i: int| 0 <= i < last.len() implies !is_ascii_space(
                #[trigger] last[i],
            ) by {
                if i < w.last().len() {
                    assert(last[i] == w.last()[i]);
                }
            }
            assert forall|i: int| 0 <= i < words(s).len() implies is_word(
                #[trigger] words(s)[i],
            ) by {
                if i < w.len() - 1 {
                    assert(words(s)[i] == w[i]);
                }
            }
        } else {
            let w = words(head);
            assert forall|i: int| 0 <= i < words(s).len() implies is_word(
                #[trigger] words(s)[i],
            ) by {
                if i < w.len() {
                    assert(words(s)[i] == w[i]);
                }
            }
        }
    }
}

/// A text is tidy when it neither starts nor ends with whitespace.
pub open spec fn tidy(s: Seq<char>) -> bool {
    s.len() > 0 ==> !is_space(s.first()) && !is_space(s.last())
}

/// Trimming yields a tidy part of the text.
pub proof fn lemma_trim_tidy(s: Seq<char>)
    ensures
        tidy(trim(s)),
        trim(s) == s.subrange(
            leading_spaces(s) as int,
            s.len() - trailing_spaces(trim_start(s)),
        ),
        leading_spaces(s) + trailing_spaces(trim_start(s)) <= s.len(),
{
    lemma_run_len(s, space_pred());
    let mid = trim_start(s);
    lemma_tail_run_len(mid, space_pred());
    let r = trim(s);
    if r.len() > 0 {
        assert(r.first() == s[leading_spaces(s) as int]);
        assert(r.last() == mid[mid.len() - trailing_spaces(mid) - 1]);
    }
}

/// Trimming leaves a tidy text as it is.
pub proof fn lemma_tidy_trim(s: Seq<char>)
    requires
        tidy(s),
    ensures
        trim(s) == s,
{
    lemma_run_len_is(s, space_pred(), 0);
    assert(s.skip(0) == s);
    lemma_tail_run_len_is(s, space_pred(), 0);
    assert(s.take(s.len() as int) == s);
}

/// Words do not reach across a boundary that follows ASCII whitespace.
pub proof fn lemma_words_add(a: Seq<char>, b: Seq<char>)
    requires
        a.len() == 0 || is_ascii_space(a.last()),
    ensures
        words(a + b) == words(a) + words(b),
    decreases b.len(),
{
    if b.len() == 0 {
        assert(a + b == a);
        assert(words(a) + words(b) =~= words(a));
    } else {
        let head = b.drop_last();
        let x = b.last();
        assert((a + b).drop_last() == a + head);
        assert((a + b).last() == x);
        lemma_words_add(a, head);
        lemma_words_are_words(head);
        if is_ascii_space(x) {
        } else if head.len() > 0 && !is_ascii_space(head.last()) {
            assert((a + head).last() == head.last());
            let w = words(head);
            assert((words(a) + w).drop_last() =~= words(a) + w.drop_last());
            assert((words(a) + w).last() == w.last());
            assert(words(a + b) =~= words(a) + words(b));
        } else {
            if head.len() > 0 {
                assert((a + head).last() == head.last());
            } else {
                assert(a + head == a);
            }
            assert(words(a + b) =~= words(a) + words(b));
        }
    }
}

/// The words of two texts joined by a space are the words of the one
/// followed by the words of the other.
pub proof fn lemma_words_joined(a: Seq<char>, b: Seq<char>)
    ensures
        words(a + seq![' '] + b) == words(a) + words(b),
{
    assert((a + seq![' ']).drop_last() == a);
    assert(words(a + seq![' ']) == words(a));
    lemma_words_add(a + seq![' '], b);
}

/// A word is its own single word.
pub proof fn lemma_words_of_word(w: Seq<char>)
    requires
        is_word(w),
    ensures
        words(w) == seq![w],
    decreases w.len(),
{
    let head = w.drop_last();
    let x = w.last();
    assert(!is_ascii_space(x));
    if head.len() == 0 {
        assert(words(head) =~= Seq::<Seq<char>>::empty());
        assert(w =~= seq![x]);
        assert(words(w) =~= seq![w]);
    } else {
        assert forall|i: int| 0 <= i < head.len() implies !is_ascii_space(#[trigger] head[i]) by {
            assert(head[i] == w[i]);
        }
        lemma_words_of_word(head);
        assert(!is_ascii_space(head.last()));
        assert(head.push(x) =~= w);
        assert(words(w) =~= seq![w]);
    }
}

/// The test "is not a line feed" as a predicate value.
pub open spec fn not_newline() -> spec_fn(char) -> bool {
    |c: char| c != '\n'
}

/// Number of characters before the first line feed of `s`.
pub open spec fn line_len(s: Seq<char>) -> nat {
    run_len(s, not_newline())
}

/// `s` without one trailing carriage return.
pub open spec fn strip_cr(s: Seq<char>) -> Seq<char> {
    if s.len() > 0 && s.last() == '\r' {
        s.drop_last()
    } else {
        s
    }
}

/// The lines of `s`. A line ends at a line feed, or at a carriage return
/// directly followed by one; the ending is not part of the line. Text after
/// the last line feed is a line of its own, kept as it is, unless it is
/// empty.
pub open spec fn split_lines(s: Seq<char>) -> Seq<Seq<char>>
    decreases s.len(),
{
    if s.len() == 0 {
        Seq::empty()
    } else {
        let n = line_len(s);
        if n >= s.len() {
            seq![s]
        } else {
            seq![strip_cr(s.take(n as int))] + split_lines(s.skip(n as int + 1))
        }
    }
}

/// Each line followed by a line feed.
pub open spec fn unlines(lines: Seq<Seq<char>>) -> Seq<char>
    decreases lines.len(),
{
    if lines.len() == 0 {
        Seq::empty()
    } else {
        unlines(lines.drop_last()) + lines.last() + seq!['\n']
    }
}

/// The lines with a line feed between each two.
pub open spec fn join_lines(lines: Seq<Seq<char>>) -> Seq<char>
    decreases lines.len(),
{
    if lines.len() == 0 {
        Seq::empty()
    } else if lines.len() == 1 {
        lines[0]
    } else {
        join_lines(lines.drop_last()) + seq!['\n'] + lines.last()
    }
}

/// `unlines` distributes over concatenation.
pub proof fn lemma_unlines_add(a: Seq<Seq<char>>, b: Seq<Seq<char>>)
    ensures
        unlines(a + b) == unlines(a) + unlines(b),
    decreases b.len(),
{
    if b.len() == 0 {
        assert(a + b == a);
    } else {
        assert((a + b).drop_last() == a + b.drop_last());
        lemma_unlines_add(a, b.drop_last());
    }
}

/// A text that can stand as one line of a document: free of line feeds,
/// and not ending in a carriage return.
pub open spec fn is_line(s: Seq<char>) -> bool {
    &&& forall|k: int| 0 <= k < s.len() ==> #[trigger] s[k] != '\n'
    &&& s.len() > 0 ==> s.last() != '\r'
}

/// Every element of `lines` can stand as one line.
pub open spec fn all_lines(lines: Seq<Seq<char>>) -> bool {
    forall|i: int| 0 <= i < lines.len() ==> is_line(#[trigger] lines[i])
}

/// Splitting text that was put together line by line gives the lines back.
pub proof fn lemma_split_unlines(lines: Seq<Seq<char>>)
    requires
        all_lines(lines),
    ensures
        split_lines(unlines(lines)) == lines,
    decreases lines.len(),
{
    if lines.len() == 0 {
    } else {
        let first = lines[0];
        let tail = lines.drop_first();
        let rest = unlines(tail);
        assert(seq![first] + tail =~= lines);
        lemma_unlines_add(seq![first], tail);
        assert(seq![first].drop_last() =~= Seq::<Seq<char>>::empty());
        assert(unlines(seq![first].drop_last()) =~= Seq::<char>::empty());
        assert(seq![first].last() == first);
        assert(unlines(seq![first]) =~= first + seq!['\n']);
        let s = unlines(lines);
        assert(s =~= first + seq!['\n'] + rest);
        let n = first.len();
        assert(is_line(first));
        assert forall|i: int| 0 <= i < n implies (not_newline())(#[trigger] s[i]) by {
            assert(s[i] == first[i]);
        }
        assert(s[n as int] == '\n');
        lemma_run_len_is(s, not_newline(), n);
        assert(s.take(n as int) =~= first);
        assert(s.skip(n as int + 1) =~= rest);
        assert forall|i: int| 0 <= i < tail.len() implies is_line(#[trigger] tail[i]) by {
            assert(tail[i] == lines[i + 1]);
        }
        lemma_split_unlines(tail);
        assert(split_lines(s) =~= lines);
    }
}

/// Copies the characters `v[from..to]`.
pub(crate) fn slice_chars(v: &[char], from: usize, to: usize) -> (r: Vec<char>)
    requires
        from <= to <= v.len(),
    ensures
        r@ == v@.subrange(from as int, to as int),
{
    let mut r: Vec<char> = Vec::new();
    let mut i: usize = from;
    while i < to
        invariant
            from <= i <= to <= v.len(),
            r@ == v@.subrange(from as int, i as int),
        decreases to - i,
    {
        r.push(v[i]);
        i += 1;
    }
    r
}

/// Copies `v` without the whitespace at either end.
pub fn trim_chars(v: &[char]) -> (r: Vec<char>)
    ensures
        r@ == trim(v@),
{
    let mut a: usize = 0;
    while a < v.len() && char_is_space(v[a])
        invariant
            a <= v.len(),
            forall|i: int| 0 <= i < a ==> is_space(#[trigger] v@[i]),
        decreases v.len() - a,
    {
        a += 1;
    }
    let mut b: usize = v.len();
    while b > a && char_is_space(v[b - 1])
        invariant
            a <= b <= v.len(),
            forall|i: int| b <= i < v.len() ==> is_space(#[trigger] v@[i]),
        decreases b,
    {
        b -= 1;
    }
    proof {
        lemma_run_len_is(v@, space_pred(), a as nat);
        let t = v@.skip(a as int);
        assert(t == trim_start(v@));
        lemma_tail_run_len_is(t, space_pred(), (v.len() - b) as nat);
        assert(t.take(t.len() - (v.len() - b)) == v@.subrange(a as int, b as int));
    }
    slice_chars(v, a, b)
}

/// The deep view of a vector of characters is its view.
pub proof fn lemma_chars_deep_view(v: Vec<char>)
    ensures
        v.deep_view() == v@,
{
    assert(v.deep_view() =~= v@);
}

/// Pushing a row onto a vector of rows pushes its view onto the deep view.
pub proof fn lemma_rows_push(before: Vec<Vec<char>>, after: Vec<Vec<char>>, row: Vec<char>)
    requires
        after@ == before@.push(row),
    ensures
        after.deep_view() == before.deep_view().push(row@),
{
    lemma_chars_deep_view(row);
    assert(after.deep_view() =~= before.deep_view().push(row@));
}

/// Splits `v` into its words.
pub fn split_words(v: &[char]) -> (r: Vec<Vec<char>>)
    ensures
        r.deep_view() == words(v@),
{
    let mut out: Vec<Vec<char>> = Vec::new();
    let mut cur: Vec<char> = Vec::new();
    let mut i: usize = 0;
    assert(out.deep_view() =~= Seq::<Seq<char>>::empty());
    while i < v.len()
        invariant
            i <= v.len(),
            cur@.len() > 0 ==> i > 0 && !is_ascii_space(v@[i - 1]) && words(v@.take(i as int))
                == out.deep_view().push(cur@),
            cur@.len() == 0 ==> (i == 0 || is_ascii_space(v@[i - 1])) && words(v@.take(i as int))
                == out.deep_view(),
        decreases v.len() - i,
    {
        let c = v[i];
        let ghost before = out.deep_view();
        let ghost word = cur@;
        proof {
            assert(v@.take(i + 1).drop_last() == v@.take(i as int));
            assert(v@.take(i + 1).last() == c);
            if i > 0 {
                assert(v@.take(i as int).last() == v@[i - 1]);
            }
        }
        if char_is_ascii_space(c) {
            if cur.len() > 0 {
                let ghost rows = out;
                let ghost row = cur;
                out.push(cur);
                cur = Vec::new();
                proof {
                    lemma_rows_push(rows, out, row);
                }
            }
        } else {
            cur.push(c);
            proof {
                let head = v@.take(i as int);
                if word.len() > 0 {
                    assert(before.push(word).drop_last() =~= before);
                    assert(before.push(word).last() == word);
                    assert(words(v@.take(i + 1)) == before.push(word.push(c)));
                } else {
                    assert(cur@ =~= seq![c]);
                    assert(words(v@.take(i + 1)) == before.push(seq![c]));
                }
            }
        }
        i += 1;
    }
    proof {
        assert(v@.take(v.len() as int) == v@);
    }
    if cur.len() > 0 {
        let ghost rows = out;
        let ghost row = cur;
        out.push(cur);
        proof {
            lemma_rows_push(rows, out, row);
        }
    }
    out
}

/// Splits `v` into its lines.
pub fn split_lines_chars(v: &[char]) -> (r: Vec<Vec<char>>)
    ensures
        r.deep_view() == split_lines(v@),
{
    let mut out: Vec<Vec<char>> = Vec::new();
    let mut start: usize = 0;
    assert(out.deep_view() =~= Seq::<Seq<char>>::empty());
    assert(v@.skip(0) == v@);
    while start < v.len()
        invariant
            start <= v.len(),
            split_lines(v@) == out.deep_view() + split_lines(v@.skip(start as int)),
        decreases v.len() - start,
    {
        let mut end: usize = start;
        while end < v.len() && v[end] != '\n'
            invariant
                start <= end <= v.len(),
                forall|i: int| start <= i < end ==> v@[i] != '\n',
            decreases v.len() - end,
        {
            end += 1;
        }
        let ghost rest = v@.skip(start as int);
        let ghost before = out.deep_view();
        proof {
            assert forall|i: int| 0 <= i < end - start implies (not_newline())(
                #[trigger] rest[i],
            ) by {
                assert(rest[i] == v@[start + i]);
            }
            lemma_run_len_is(rest, not_newline(), (end - start) as nat);
        }
        let mut stop: usize = end;
        if end < v.len() && stop > start && v[stop - 1] == '\r' {
            stop -= 1;
        }
        let line = slice_chars(v, start, stop);
        let ghost rows = out;
        out.push(line);
        proof {
            lemma_rows_push(rows, out, line);
            if end < v.len() {
                assert(rest.take(end - start) == v@.subrange(start as int, end as int));
                assert(line@ == strip_cr(rest.take(end - start)));
                assert(rest.skip(end - start + 1) == v@.skip(end + 1));
                assert(before + (seq![line@] + split_lines(v@.skip(end + 1))) =~= before.push(
                    line@,
                ) + split_lines(v@.skip(end + 1)));
            } else {
                assert(line@ == rest);
                assert(split_lines(v@.skip(v.len() as int)) =~= Seq::<Seq<char>>::empty());
                assert(before + seq![rest] =~= before.push(line@) + Seq::<Seq<char>>::empty());
            }
        }
        start = if end < v.len() {
            end + 1
        } else {
            end
        };
    }
    proof {
        assert(out.deep_view() + Seq::<Seq<char>>::empty() =~= out.deep_view());
    }
    out
}

/// Collects the characters of `s` into a vector.
pub fn chars_of(s: &str) -> (v: Vec<char>)
    ensures
        v@ == s@,
{
    let mut v: Vec<char> = Vec::new();
    for c in it: s.chars()
        invariant
            it.seq() == s@,
            v@ == it.seq().take(it.index() as int),
    {
        v.push(c);
    }
    v
}

/// Assumed of `String::push` of the standard library: after the call the
/// string holds the characters it held before, followed by `ch`.
pub assume_specification[ String::push ](s: &mut String, ch: char)
    ensures
        final(s)@ == old(s)@.push(ch),
;

/// Builds the string that holds the characters of `v`.
pub fn string_of(v: &[char]) -> (s: String)
    ensures
        s@ == v@,
{
    let mut s = String::new();
    let mut i: usize = 0;
    while i < v.len()
        invariant
            i <= v.len(),
            s@ == v@.take(i as int),
        decreases v.len() - i,
    {
        s.push(v[i]);
        i += 1;
    }
    s
}

/// Appends the characters of `v` to `s`.
pub(crate) fn push_chars(s: &mut String, v: &[char])
    ensures
        final(s)@ == old(s)@ + v@,
{
    let mut i: usize = 0;
    while i < v.len()
        invariant
            i <= v.len(),
            s@ == old(s)@ + v@.take(i as int),
        decreases v.len() - i,
    {
        s.push(v[i]);
        i += 1;
        assert(s@ =~= old(s)@ + v@.take(i as int));
    }
    assert(v@.take(v.len() as int) == v@);
}

/// Builds one string from each row.
pub(crate) fn strings_of(rows: &Vec<Vec<char>>) -> (r: Vec<String>)
    ensures
        r.deep_view() == rows.deep_view(),
{
    let mut r: Vec<String> = Vec::new();
    let mut i: usize = 0;
    while i < rows.len()
        invariant
            i <= rows.len(),
            r.len() == i,
            forall|k: int| 0 <= k < i ==> (#[trigger] r@[k])@ == rows@[k]@,
        decreases rows.len() - i,
    {
        r.push(string_of(rows[i].as_slice()));
        i += 1;
    }
    proof {
        assert forall|k: int| 0 <= k < rows.len() implies r.deep_view()[k]
            == rows.deep_view()[k] by {
            lemma_chars_deep_view(rows@[k]);
            assert(r@[k]@ == rows@[k]@);
        }
        assert(r.deep_view() =~= rows.deep_view());
    }
    r
}

/// The lines of `text`, without their line endings.
pub fn lines(text: &str) -> (r: Vec<String>)
    ensures
        r.deep_view() == split_lines(text@),
{
    let chars = chars_of(text);
    let rows = split_lines_chars(chars.as_slice());
    strings_of(&rows)
}

/// Appends each row, followed by a line feed, to `out`.
pub(crate) fn append_lines(out: &mut Vec<char>, rows: &Vec<Vec<char>>)
    ensures
        final(out)@ == old(out)@ + unlines(rows.deep_view()),
{
    let mut i: usize = 0;
    let ghost all = rows.deep_view();
    assert(all.take(0) =~= Seq::<Seq<char>>::empty());
    while i < rows.len()
        invariant
            i <= rows.len(),
            all == rows.deep_view(),
            out@ == old(out)@ + unlines(all.take(i as int)),
        decreases rows.len() - i,
    {
        let ghost before = out@;
        let row = &rows[i];
        let mut k: usize = 0;
        while k < row.len()
            invariant
                k <= row.len(),
                out@ == before + row@.take(k as int),
            decreases row.len() - k,
        {
            out.push(row[k]);
            k += 1;
            assert(out@ =~= before + row@.take(k as int));
        }
        out.push('\n');
        proof {
            lemma_chars_deep_view(rows@[i as int]);
            assert(row@.take(row.len() as int) == row@);
            assert(all.take(i + 1).drop_last() == all.take(i as int));
            assert(all.take(i + 1).last() == row@);
            assert(out@ =~= old(out)@ + unlines(all.take(i + 1)));
        }
        i += 1;
    }
    assert(all.take(rows.len() as int) == all);
}

} // verus!
