//! The laws of the descriptor: what the derived views yield on each shape
//! of fully qualified name, stated over the model and proved once for all
//! texts of that shape.

use vstd::prelude::*;
use vstd::std_specs::cmp::PartialEqSpec;

use crate::descriptor::Type;
use crate::text::depth_at;
use crate::text::generic_args;
use crate::text::head_end;
use crate::text::last_close;
use crate::text::lemma_head_end;
use crate::text::lemma_last_close;
use crate::text::lemma_name_start;
use crate::text::lemma_split_no_cut;
use crate::text::lemma_split_one_cut;
use crate::text::name_start;
use crate::text::segments;
use crate::text::short_name;
use crate::text::top_comma;
use crate::text::trimmed;

verus! {

/// An unqualified, non-generic name — no `::`, no `<`, no `>`, as with a
/// primitive — is its own short name and has no generic arguments.
pub proof fn lemma_unqualified_non_generic(s: Seq<char>)
    requires
        forall|j: int| 0 <= j < s.len() ==> s[j] != '<',
        forall|j: int| 0 <= j < s.len() ==> s[j] != '>',
        forall|j: int|
            0 <= j && j + 2 <= s.len() ==> !(#[trigger] s[j] == ':' && s[j + 1] == ':'),
    ensures
        short_name(s) == s,
        generic_args(s) is None,
{
    lemma_head_end(s);
    assert(head_end(s) == s.len());
    lemma_name_start(s, s.len() as int);
    assert(name_start(s, s.len() as int) == 0);
    assert(s.subrange(0, s.len() as int) =~= s);
}

/// A qualified, non-generic name is cut at its last `::`: the short name is
/// exactly what follows it, and there are no generic arguments.
pub proof fn lemma_qualified_non_generic(s: Seq<char>, j: int)
    requires
        forall|k: int| 0 <= k < s.len() ==> s[k] != '<',
        forall|k: int| 0 <= k < s.len() ==> s[k] != '>',
        0 <= j,
        j + 2 <= s.len(),
        s[j] == ':' && s[j + 1] == ':',
        forall|k: int|
            j < k && k + 2 <= s.len() ==> !(#[trigger] s[k] == ':' && s[k + 1] == ':'),
    ensures
        short_name(s) == s.subrange(j + 2, s.len() as int),
        generic_args(s) is None,
{
    lemma_head_end(s);
    assert(head_end(s) == s.len());
    lemma_name_start(s, s.len() as int);
    let r = name_start(s, s.len() as int);
    if r == 0 {
        assert(!(s[j] == ':' && s[j + 1] == ':'));
        assert(false);
    }
    if r - 2 < j {
        assert(!(s[j] == ':' && s[j + 1] == ':'));
        assert(false);
    }
    if r - 2 > j {
        assert(!(s[r - 2] == ':' && s[r - 1] == ':'));
        assert(false);
    }
    assert(r == j + 2);
}

/// A generic name with a single top-level argument: the argument list holds
/// exactly one entry, the trimmed span between the first `<` and the last
/// `>`.
pub proof fn lemma_single_argument(s: Seq<char>, a: int, b: int)
    requires
        0 <= a < s.len(),
        s[a] == '<',
        forall|j: int| 0 <= j < a ==> s[j] != '<',
        0 <= b < s.len(),
        s[b] == '>',
        forall|j: int| b < j < s.len() ==> s[j] != '>',
        a + 1 < b,
        forall|i: int| !(#[trigger] top_comma(s.subrange(a + 1, b), i)),
    ensures
        generic_args(s) == Some(seq![trimmed(s.subrange(a + 1, b))]),
{
    lemma_head_end(s);
    assert(head_end(s) == a);
    lemma_last_close(s);
    assert(last_close(s) == Some(b));
    let span = s.subrange(a + 1, b);
    assert forall|i: int|
        0 <= i < span.len() implies !(#[trigger] span[i] == ',' && 0 + depth_at(span, i)
        == 0) by {
        assert(!top_comma(span, i));
    }
    lemma_split_no_cut(span, 0);
    assert(segments(span) =~= seq![trimmed(span)]);
}

/// A generic name with exactly one top-level comma in its argument span has
/// exactly two arguments: the trimmed text before that comma and the
/// trimmed text after it, in source order.
pub proof fn lemma_two_arguments(s: Seq<char>, a: int, b: int, c0: int)
    requires
        0 <= a < s.len(),
        s[a] == '<',
        forall|j: int| 0 <= j < a ==> s[j] != '<',
        0 <= b < s.len(),
        s[b] == '>',
        forall|j: int| b < j < s.len() ==> s[j] != '>',
        a + 1 < b,
        top_comma(s.subrange(a + 1, b), c0),
        forall|i: int| i != c0 ==> !(#[trigger] top_comma(s.subrange(a + 1, b), i)),
    ensures
        generic_args(s) == Some(
            seq![
                trimmed(s.subrange(a + 1, b).take(c0)),
                trimmed(s.subrange(a + 1, b).skip(c0 + 1)),
            ],
        ),
{
    lemma_head_end(s);
    assert(head_end(s) == a);
    lemma_last_close(s);
    assert(last_close(s) == Some(b));
    let span = s.subrange(a + 1, b);
    assert forall|i: int|
        0 <= i < span.len() && i != c0 implies !(#[trigger] span[i] == ',' && 0 + depth_at(
        span,
        i,
    ) == 0) by {
        assert(!top_comma(span, i));
    }
    lemma_split_one_cut(span, 0, c0);
    assert(segments(span) =~= seq![trimmed(span.take(c0)), trimmed(span.skip(c0 + 1))]);
}

/// A generic-looking name whose argument span is empty yields an argument
/// list that is present but empty — distinct from the absence of a list.
pub proof fn lemma_empty_argument_span(s: Seq<char>, a: int, b: int)
    requires
        0 <= a < s.len(),
        s[a] == '<',
        forall|j: int| 0 <= j < a ==> s[j] != '<',
        0 <= b < s.len(),
        s[b] == '>',
        forall|j: int| b < j < s.len() ==> s[j] != '>',
        b <= a + 1,
    ensures
        generic_args(s) == Some(Seq::<Seq<char>>::empty()),
{
    lemma_head_end(s);
    assert(head_end(s) == a);
    lemma_last_close(s);
    assert(last_close(s) == Some(b));
    if a + 1 <= b {
        assert(s.subrange(a + 1, b) =~= Seq::<char>::empty());
    }
}

/// Rebuilding a descriptor from its rendered text yields one equal to the
/// original: equality, the short name and the generic arguments are all
/// functions of the stored text alone.
pub proof fn lemma_text_round_trip(t: Type, u: Type)
    requires
        u@ == t@,
    ensures
        u.eq_spec(&t),
        short_name(u@) == short_name(t@),
        generic_args(u@) == generic_args(t@),
{
}

} // verus!
