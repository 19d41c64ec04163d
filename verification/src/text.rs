//! The mathematical model of a fully qualified type name: where the head of
//! the name ends, where the short name starts, and how the generic-argument
//! span splits into top-level arguments.

use vstd::prelude::*;

verus! {

/// Index just past the head of the name: the position of the first `<`, or
/// the length of the text when no `<` occurs.
pub open spec fn head_end(s: Seq<char>) -> int
    decreases s.len(),
{
    if s.len() == 0 {
        0
    } else if s[0] == '<' {
        0
    } else {
        1 + head_end(s.drop_first())
    }
}

/// Position of the last `>` in the text, or `None` when none occurs.
pub open spec fn last_close(s: Seq<char>) -> Option<int>
    decreases s.len(),
{
    if s.len() == 0 {
        None
    } else if s.last() == '>' {
        Some(s.len() - 1)
    } else {
        last_close(s.drop_last())
    }
}

/// Start of the short name within the prefix `s[..end]`: two places past the
/// last `::` that still lies wholly before `end`, or `0` when no `::` occurs
/// there.
pub open spec fn name_start(s: Seq<char>, end: int) -> int
    decreases end,
{
    if end < 2 {
        0
    } else if s[end - 2] == ':' && s[end - 1] == ':' {
        end
    } else {
        name_start(s, end - 1)
    }
}

/// The short, unqualified name: the tail of the head after its last `::`.
pub open spec fn short_name(s: Seq<char>) -> Seq<char> {
    s.subrange(name_start(s, head_end(s)), head_end(s))
}

/// `head_end` points at the first `<`, or past the end when there is none.
pub proof fn lemma_head_end(s: Seq<char>)
    ensures
        0 <= head_end(s) <= s.len(),
        forall|j: int| 0 <= j < head_end(s) ==> s[j] != '<',
        head_end(s) < s.len() ==> s[head_end(s)] == '<',
    decreases s.len(),
{
    if s.len() == 0 {
    } else if s[0] == '<' {
    } else {
        lemma_head_end(s.drop_first());
        assert forall|j: int| 0 <= j < head_end(s) implies s[j] != '<' by {
            if j > 0 {
                assert(s.drop_first()[j - 1] == s[j]);
            }
        }
        if head_end(s) < s.len() {
            assert(s.drop_first()[head_end(s) - 1] == s[head_end(s)]);
        }
    }
}

/// `last_close` points at the last `>`, or is `None` when there is none.
pub proof fn lemma_last_close(s: Seq<char>)
    ensures
        match last_close(s) {
            Some(b) => {
                &&& 0 <= b < s.len()
                &&& s[b] == '>'
                &&& forall|j: int| b < j < s.len() ==> s[j] != '>'
            },
            None => forall|j: int| 0 <= j < s.len() ==> s[j] != '>',
        },
    decreases s.len(),
{
    if s.len() == 0 {
    } else if s.last() == '>' {
    } else {
        lemma_last_close(s.drop_last());
        assert forall|j: int| 0 <= j < s.len() - 1 implies s.drop_last()[j] == s[j] by {}
    }
}

/// `name_start` points two past the last `::` before `end`, or at `0`.
pub proof fn lemma_name_start(s: Seq<char>, end: int)
    requires
        0 <= end <= s.len(),
    ensures
        0 <= name_start(s, end) <= end,
        name_start(s, end) == 0 || (2 <= name_start(s, end) && s[name_start(s, end) - 2] == ':'
            && s[name_start(s, end) - 1] == ':'),
        forall|k: int|
            0 <= k && name_start(s, end) - 1 <= k && k + 2 <= end ==> !(#[trigger] s[k] == ':'
                && s[k + 1] == ':'),
    decreases end,
{
    if end < 2 {
    } else if s[end - 2] == ':' && s[end - 1] == ':' {
    } else {
        lemma_name_start(s, end - 1);
    }
}

/// ASCII whitespace, as it occurs around comma-separated arguments.
pub open spec fn is_space(c: char) -> bool {
    c == ' ' || c == '\t' || c == '\n' || c == '\r'
}

/// The text without its leading whitespace.
pub open spec fn trim_front(s: Seq<char>) -> Seq<char>
    decreases s.len(),
{
    if s.len() > 0 && is_space(s[0]) {
        trim_front(s.drop_first())
    } else {
        s
    }
}

/// The text without its trailing whitespace.
pub open spec fn trim_back(s: Seq<char>) -> Seq<char>
    decreases s.len(),
{
    if s.len() > 0 && is_space(s.last()) {
        trim_back(s.drop_last())
    } else {
        s
    }
}

/// The text with surrounding whitespace removed.
pub open spec fn trimmed(s: Seq<char>) -> Seq<char> {
    trim_back(trim_front(s))
}

/// How one character changes the angle-bracket nesting depth.
pub open spec fn depth_step(c: char) -> int {
    if c == '<' {
        1
    } else if c == '>' {
        -1
    } else {
        0
    }
}

/// Occurrences of `c` in `s`.
pub open spec fn count_char(s: Seq<char>, c: char) -> int
    decreases s.len(),
{
    if s.len() == 0 {
        0
    } else {
        (if s[0] == c {
            1int
        } else {
            0int
        }) + count_char(s.drop_first(), c)
    }
}

/// Angle-bracket nesting depth just before position `i` of the span.
pub open spec fn depth_at(span: Seq<char>, i: int) -> int {
    count_char(span.take(i), '<') - count_char(span.take(i), '>')
}

/// A comma of the span that separates two top-level arguments.
pub open spec fn top_comma(span: Seq<char>, i: int) -> bool {
    0 <= i < span.len() && span[i] == ',' && depth_at(span, i) == 0
}

/// Joins `p` onto the front of the first piece.
pub open spec fn prepend_first(p: Seq<char>, pieces: Seq<Seq<char>>) -> Seq<Seq<char>>
    recommends
        pieces.len() >= 1,
{
    seq![p + pieces[0]] + pieces.drop_first()
}

/// Splits the span into its pieces between the commas that sit at relative
/// nesting depth zero, keeping every piece, empty ones included. `depth` is
/// the nesting depth the span starts at; the whole span is split with depth
/// zero. The result always holds at least one piece.
pub open spec fn split_top(span: Seq<char>, depth: int) -> Seq<Seq<char>>
    decreases span.len(),
{
    if span.len() == 0 {
        seq![Seq::<char>::empty()]
    } else if span[0] == ',' && depth == 0 {
        seq![Seq::<char>::empty()] + split_top(span.drop_first(), 0)
    } else {
        prepend_first(seq![span[0]], split_top(span.drop_first(), depth + depth_step(span[0])))
    }
}

/// The trimmed top-level arguments of a generic-argument span; none at all
/// when the span is empty.
pub open spec fn segments(span: Seq<char>) -> Seq<Seq<char>> {
    if span.len() == 0 {
        Seq::empty()
    } else {
        split_top(span, 0).map_values(|piece: Seq<char>| trimmed(piece))
    }
}

/// The generic arguments of the whole name: `None` when `<` or `>` is
/// missing, else the trimmed top-level pieces of the text between the first
/// `<` and the last `>`. In a malformed name whose last `>` precedes its
/// first `<` the span between them is taken to be empty.
pub open spec fn generic_args(s: Seq<char>) -> Option<Seq<Seq<char>>> {
    let a = head_end(s);
    if a == s.len() {
        None
    } else {
        match last_close(s) {
            None => None,
            Some(b) => {
                let span = if a + 1 <= b {
                    s.subrange(a + 1, b)
                } else {
                    Seq::<char>::empty()
                };
                Some(segments(span))
            },
        }
    }
}

/// `split_top` never yields an empty list of pieces.
pub proof fn lemma_split_top_len(span: Seq<char>, depth: int)
    ensures
        split_top(span, depth).len() >= 1,
    decreases span.len(),
{
    if span.len() == 0 {
    } else if span[0] == ',' && depth == 0 {
        lemma_split_top_len(span.drop_first(), 0)
    } else {
        lemma_split_top_len(span.drop_first(), depth + depth_step(span[0]))
    }
}

/// Unfolding `split_top` at a separating comma: the piece so far closes, and
/// the rest of the span is split afresh.
pub proof fn lemma_split_cut_step(span: Seq<char>, i: int, cur: Seq<char>)
    requires
        0 <= i < span.len(),
        span[i] == ',',
    ensures
        prepend_first(cur, split_top(span.skip(i), 0)) == seq![cur] + prepend_first(
            Seq::<char>::empty(),
            split_top(span.skip(i + 1), 0),
        ),
{
    let suffix = span.skip(i);
    let rest = split_top(span.skip(i + 1), 0);
    assert(suffix[0] == ',');
    assert(suffix.drop_first() =~= span.skip(i + 1));
    lemma_split_top_len(span.skip(i + 1), 0);
    assert(split_top(suffix, 0) == seq![Seq::<char>::empty()] + rest);
    assert(prepend_first(cur, seq![Seq::<char>::empty()] + rest) =~~= seq![cur] + prepend_first(
        Seq::<char>::empty(),
        rest,
    ));
}

/// Unfolding `split_top` at an ordinary character: it joins the piece so far.
pub proof fn lemma_split_move_step(span: Seq<char>, i: int, depth: int, cur: Seq<char>)
    requires
        0 <= i < span.len(),
        !(span[i] == ',' && depth == 0),
    ensures
        prepend_first(cur, split_top(span.skip(i), depth)) == prepend_first(
            cur.push(span[i]),
            split_top(span.skip(i + 1), depth + depth_step(span[i])),
        ),
{
    let suffix = span.skip(i);
    let rest = split_top(span.skip(i + 1), depth + depth_step(span[i]));
    assert(suffix[0] == span[i]);
    assert(suffix.drop_first() =~= span.skip(i + 1));
    lemma_split_top_len(span.skip(i + 1), depth + depth_step(span[i]));
    assert(split_top(suffix, depth) == prepend_first(seq![span[i]], rest));
    assert(prepend_first(cur, prepend_first(seq![span[i]], rest)) =~~= prepend_first(
        cur.push(span[i]),
        rest,
    ));
}

/// The depth before position `i`, read off the first character and the
/// depth within the remainder.
pub proof fn lemma_depth_unfold(span: Seq<char>, i: int)
    requires
        1 <= i <= span.len(),
    ensures
        depth_at(span, i) == depth_step(span[0]) + depth_at(span.drop_first(), i - 1),
{
    assert(span.take(i)[0] == span[0]);
    assert(span.take(i).drop_first() =~= span.drop_first().take(i - 1));
    assert(count_char(span.take(i), '<') == (if span[0] == '<' {
        1int
    } else {
        0int
    }) + count_char(span.drop_first().take(i - 1), '<'));
    assert(count_char(span.take(i), '>') == (if span[0] == '>' {
        1int
    } else {
        0int
    }) + count_char(span.drop_first().take(i - 1), '>'));
}

/// A span without a separating comma is one single piece.
pub proof fn lemma_split_no_cut(span: Seq<char>, depth: int)
    requires
        forall|i: int|
            0 <= i < span.len() ==> !(#[trigger] span[i] == ',' && depth + depth_at(span, i)
                == 0),
    ensures
        split_top(span, depth) == seq![span],
    decreases span.len(),
{
    if span.len() == 0 {
        assert(seq![Seq::<char>::empty()] =~~= seq![span]);
    } else {
        let c = span[0];
        let rest = span.drop_first();
        let d2 = depth + depth_step(c);
        assert(span.take(0) =~= Seq::<char>::empty());
        assert(depth_at(span, 0) == 0);
        assert forall|i: int|
            0 <= i < rest.len() implies !(#[trigger] rest[i] == ',' && d2 + depth_at(rest, i)
            == 0) by {
            lemma_depth_unfold(span, i + 1);
            assert(span[i + 1] == rest[i]);
        }
        lemma_split_no_cut(rest, d2);
        assert(split_top(span, depth) == prepend_first(seq![c], seq![rest]));
        assert(prepend_first(seq![c], seq![rest]) =~~= seq![span]);
    }
}

/// A span with exactly one separating comma is exactly two pieces: what
/// stands before the comma and what stands after it.
pub proof fn lemma_split_one_cut(span: Seq<char>, depth: int, c0: int)
    requires
        0 <= c0 < span.len(),
        span[c0] == ',',
        depth + depth_at(span, c0) == 0,
        forall|i: int|
            0 <= i < span.len() && i != c0 ==> !(#[trigger] span[i] == ',' && depth + depth_at(
                span,
                i,
            ) == 0),
    ensures
        split_top(span, depth) == seq![span.take(c0), span.skip(c0 + 1)],
    decreases span.len(),
{
    let c = span[0];
    let rest = span.drop_first();
    assert(span.take(0) =~= Seq::<char>::empty());
    assert(depth_at(span, 0) == 0);
    if c0 == 0 {
        assert(depth == 0);
        let d2 = 0int;
        assert forall|i: int|
            0 <= i < rest.len() implies !(#[trigger] rest[i] == ',' && d2 + depth_at(rest, i)
            == 0) by {
            lemma_depth_unfold(span, i + 1);
            assert(span[i + 1] == rest[i]);
        }
        lemma_split_no_cut(rest, d2);
        assert(split_top(span, depth) == seq![Seq::<char>::empty()] + seq![rest]);
        assert(seq![Seq::<char>::empty()] + seq![rest] =~~= seq![span.take(0), span.skip(1)]);
    } else {
        let d2 = depth + depth_step(c);
        lemma_depth_unfold(span, c0);
        assert(rest[c0 - 1] == span[c0]);
        assert forall|i: int|
            0 <= i < rest.len() && i != c0 - 1 implies !(#[trigger] rest[i] == ',' && d2
            + depth_at(rest, i) == 0) by {
            lemma_depth_unfold(span, i + 1);
            assert(span[i + 1] == rest[i]);
        }
        lemma_split_one_cut(rest, d2, c0 - 1);
        assert(split_top(span, depth) == prepend_first(
            seq![c],
            seq![rest.take(c0 - 1), rest.skip(c0)],
        ));
        assert(seq![c] + rest.take(c0 - 1) =~= span.take(c0));
        assert(rest.skip(c0) =~= span.skip(c0 + 1));
        assert(prepend_first(seq![c], seq![rest.take(c0 - 1), rest.skip(c0)]) =~~= seq![
            span.take(c0),
            span.skip(c0 + 1),
        ]);
    }
}

/// Unfolding `split_top` of the spent span: one piece is left, the piece so
/// far.
pub proof fn lemma_split_end(cur: Seq<char>, depth: int)
    ensures
        prepend_first(cur, split_top(Seq::<char>::empty(), depth)) == seq![cur],
{
    assert(prepend_first(cur, seq![Seq::<char>::empty()]) =~~= seq![cur]);
}

} // verus!
