//! The descriptor itself: an immutable wrapper around a fully qualified
//! type-name text, with the short name and the generic arguments computed
//! from that text on each call.

use vstd::prelude::*;
use vstd::string::StrSliceExecFns;

use crate::text::generic_args;
use crate::text::head_end;
use crate::text::last_close;
use crate::text::lemma_split_cut_step;
use crate::text::lemma_split_end;
use crate::text::lemma_split_move_step;
use crate::text::lemma_split_top_len;
use crate::text::name_start;
use crate::text::prepend_first;
use crate::text::short_name;
use crate::text::split_top;
use crate::text::trim_back;
use crate::text::trim_front;
use crate::text::trimmed;

verus! {

/// A descriptor over the fully qualified textual name of a type.
///
/// The stored text is the single source of truth: it never changes after
/// construction, and every view offered here is computed from it on each
/// call. Any text is accepted verbatim; a malformed name only shows as odd
/// results from the derived views, never as a failure.
#[derive(Debug, Clone, Eq, Hash)]
pub struct Type {
    full_name: String,
}

impl View for Type {
    type V = Seq<char>;

    closed spec fn view(&self) -> Seq<char> {
        self.full_name@
    }
}

impl PartialEq for Type {
    /// Two descriptors are equal exactly when their stored texts are equal,
    /// character for character.
    fn eq(&self, other: &Type) -> (r: bool) {
        self.full_name == other.full_name
    }
}

impl vstd::std_specs::cmp::PartialEqSpecImpl for Type {
    open spec fn obeys_eq_spec() -> bool {
        true
    }

    open spec fn eq_spec(&self, other: &Type) -> bool {
        self@ == other@
    }
}

impl Type {
    /// Builds a descriptor holding `s` verbatim; any text is accepted.
    ///
    /// This is the library's sole input boundary: the fully qualified name
    /// is produced by the calling environment (the compiler's type-name
    /// rendering, a registry, or an annotation) and handed in as text.
    pub fn from_string(s: &str) -> (t: Type)
        ensures
            t@ == s@,
    {
        Type { full_name: s.to_owned() }
    }

    /// The short, unqualified name: the head of the stored text, up to the
    /// first `<` if any, with everything through the last `::` of that head
    /// removed. The returned slice borrows from this descriptor.
    pub fn name(&self) -> (r: &str)
        ensures
            r@ == short_name(self@),
    {
        let s: &str = self.full_name.as_str();
        let end = find_head_end(s);
        let start = find_name_start(s, end);
        s.substring_char(start, end)
    }

    /// The stored text, verbatim, as a borrowed slice.
    pub fn full_name(&self) -> (r: &str)
        ensures
            r@ == self@,
    {
        self.full_name.as_str()
    }

    /// The stored text, verbatim, as an owned string.
    pub fn into_string(self) -> (r: String)
        ensures
            r@ == self@,
    {
        self.full_name
    }

    /// The generic arguments: `None` when the stored text holds no `<` or no
    /// `>`, else one descriptor per top-level argument of the text between
    /// the first `<` and the last `>`, trimmed of surrounding whitespace and
    /// in source order. An empty argument span yields an empty list, present
    /// but holding nothing.
    ///
    /// The span is split with awareness of angle-bracket nesting: a comma
    /// inside a nested argument list, as in `Outer<Inner<A, B>, C>`, does
    /// not separate top-level arguments.
    pub fn generics(&self) -> (r: Option<Vec<Type>>)
        ensures
            match generic_args(self@) {
                Some(gs) => r matches Some(v) && v@.len() == gs.len() && (forall|k: int|
                    0 <= k < gs.len() ==> (#[trigger] v@[k])@ == gs[k]),
                None => r is None,
            },
    {
        let s: &str = self.full_name.as_str();
        let n: usize = s.unicode_len();
        let end = find_head_end(s);
        if end == n {
            return None;
        }
        let close = match find_last_close(s) {
            None => { return None; },
            Some(c) => c,
        };
        if close <= end + 1 {
            // the span between the delimiters is empty (or the delimiters
            // are reversed, in a malformed name)
            proof {
                if end + 1 <= close {
                    assert(s@.subrange(end as int + 1, close as int) =~= Seq::<char>::empty());
                }
            }
            return Some(Vec::new());
        }
        let a: usize = end + 1;
        let ghost span: Seq<char> = s@.subrange(a as int, close as int);
        let mut out: Vec<Type> = Vec::new();
        let ghost mut raw: Seq<Seq<char>> = Seq::empty();
        let mut seg_start: usize = a;
        let mut p: usize = a;
        let mut opens: usize = 0;
        let mut closes: usize = 0;
        proof {
            assert(span.skip(0) =~= span);
            assert(s@.subrange(a as int, a as int) =~= Seq::<char>::empty());
            lemma_split_top_len(span, 0);
            assert(prepend_first(Seq::<char>::empty(), split_top(span, 0)) =~~= split_top(
                span,
                0,
            ));
            assert(Seq::<Seq<char>>::empty() + split_top(span, 0) =~~= split_top(span, 0));
        }
        while p < close
            invariant
                a <= seg_start <= p <= close,
                close as int <= s@.len(),
                a == end + 1,
                end + 1 < close,
                end as int == head_end(s@),
                last_close(s@) == Some(close as int),
                span == s@.subrange(a as int, close as int),
                opens <= p - a,
                closes <= p - a,
                split_top(span, 0) == raw + prepend_first(
                    s@.subrange(seg_start as int, p as int),
                    split_top(span.skip(p as int - a as int), opens as int - closes as int),
                ),
                out@.len() == raw.len(),
                forall|k: int| 0 <= k < raw.len() ==> (#[trigger] out@[k])@ == trimmed(raw[k]),
            decreases close - p,
        {
            let c = s.get_char(p);
            let ghost i: int = p as int - a as int;
            let ghost cur: Seq<char> = s@.subrange(seg_start as int, p as int);
            proof {
                assert(span[i] == s@[p as int]);
            }
            if c == ',' && opens == closes {
                let piece = s.substring_char(seg_start, p);
                let arg = Type::from_string(trim_str(piece));
                out.push(arg);
                proof {
                    lemma_split_cut_step(span, i, cur);
                    lemma_split_top_len(span.skip(i + 1), 0);
                    assert((raw + seq![cur]) + prepend_first(
                        Seq::<char>::empty(),
                        split_top(span.skip(i + 1), 0),
                    ) =~~= raw + (seq![cur] + prepend_first(
                        Seq::<char>::empty(),
                        split_top(span.skip(i + 1), 0),
                    )));
                    raw = raw.push(cur);
                    assert(raw =~~= (raw.drop_last() + seq![cur]));
                    assert(s@.subrange(p as int + 1, p as int + 1) =~= Seq::<char>::empty());
                }
                seg_start = p + 1;
            } else {
                proof {
                    lemma_split_move_step(span, i, opens as int - closes as int, cur);
                    assert(cur.push(span[i]) =~= s@.subrange(seg_start as int, p as int + 1));
                }
                if c == '<' {
                    opens = opens + 1;
                } else if c == '>' {
                    closes = closes + 1;
                }
            }
            p = p + 1;
        }
        let piece = s.substring_char(seg_start, close);
        let arg = Type::from_string(trim_str(piece));
        out.push(arg);
        proof {
            let cur = s@.subrange(seg_start as int, close as int);
            assert(span.skip(close as int - a as int) =~= Seq::<char>::empty());
            lemma_split_end(cur, opens as int - closes as int);
            raw = raw.push(cur);
            assert(raw =~~= raw.drop_last() + seq![cur]);
            assert(split_top(span, 0) == raw);
            assert(span.len() > 0);
        }
        Some(out)
    }
}

/// Index of the first character of `s` that is not whitespace, or its
/// length when all of it is.
fn skip_space_front(s: &str) -> (a: usize)
    ensures
        a <= s@.len(),
        trim_front(s@) == s@.skip(a as int),
{
    let n: usize = s.unicode_len();
    proof {
        assert(s@.skip(0) =~= s@);
    }
    let mut a: usize = 0;
    while a < n
        invariant
            a <= n,
            n == s@.len(),
            trim_front(s@) == trim_front(s@.skip(a as int)),
        decreases n - a,
    {
        let c = s.get_char(a);
        proof {
            assert(s@.skip(a as int)[0] == s@[a as int]);
        }
        if !(c == ' ' || c == '\t' || c == '\n' || c == '\r') {
            return a;
        }
        proof {
            assert(s@.skip(a as int).drop_first() =~= s@.skip(a as int + 1));
        }
        a = a + 1;
    }
    proof {
        assert(s@.skip(n as int) =~= Seq::<char>::empty());
    }
    n
}

/// One past the last character that is not whitespace, at or after `a`.
fn skip_space_back(s: &str, a: usize) -> (b: usize)
    requires
        a as int <= s@.len(),
    ensures
        a <= b <= s@.len(),
        trim_back(s@.skip(a as int)) == s@.subrange(a as int, b as int),
{
    let n: usize = s.unicode_len();
    proof {
        assert(s@.skip(a as int) =~= s@.subrange(a as int, n as int));
    }
    let mut b: usize = n;
    while b > a
        invariant
            a <= b <= n,
            n == s@.len(),
            trim_back(s@.skip(a as int)) == trim_back(s@.subrange(a as int, b as int)),
        decreases b,
    {
        let c = s.get_char(b - 1);
        proof {
            assert(s@.subrange(a as int, b as int).last() == s@[b as int - 1]);
        }
        if !(c == ' ' || c == '\t' || c == '\n' || c == '\r') {
            return b;
        }
        proof {
            assert(s@.subrange(a as int, b as int).drop_last() =~= s@.subrange(
                a as int,
                b as int - 1,
            ));
        }
        b = b - 1;
    }
    a
}

/// The slice of `s` with surrounding whitespace removed.
fn trim_str<'a>(s: &'a str) -> (r: &'a str)
    ensures
        r@ == trimmed(s@),
{
    let a = skip_space_front(s);
    let b = skip_space_back(s, a);
    s.substring_char(a, b)
}

/// Index of the first `<` of `s`, or its length when there is none.
fn find_head_end(s: &str) -> (end: usize)
    ensures
        end as int == head_end(s@),
        end <= s@.len(),
{
    let n: usize = s.unicode_len();
    proof {
        assert(s@.skip(0) =~= s@);
    }
    let mut i: usize = 0;
    while i < n
        invariant
            i <= n,
            n == s@.len(),
            head_end(s@) == i + head_end(s@.skip(i as int)),
        decreases n - i,
    {
        let c = s.get_char(i);
        if c == '<' {
            proof {
                assert(s@.skip(i as int)[0] == '<');
            }
            return i;
        }
        proof {
            assert(s@.skip(i as int)[0] != '<');
            assert(s@.skip(i as int).drop_first() =~= s@.skip(i as int + 1));
        }
        i = i + 1;
    }
    proof {
        assert(s@.skip(n as int) =~= Seq::<char>::empty());
    }
    n
}

/// Index of the last `>` of `s`, when one occurs.
fn find_last_close(s: &str) -> (r: Option<usize>)
    ensures
        match r {
            Some(b) => last_close(s@) == Some(b as int) && b < s@.len(),
            None => last_close(s@) is None,
        },
{
    let n: usize = s.unicode_len();
    proof {
        assert(s@.take(n as int) =~= s@);
    }
    let mut e: usize = n;
    while e > 0
        invariant
            e <= n,
            n == s@.len(),
            last_close(s@) == last_close(s@.take(e as int)),
        decreases e,
    {
        let c = s.get_char(e - 1);
        proof {
            assert(s@.take(e as int).last() == s@[e as int - 1]);
        }
        if c == '>' {
            return Some(e - 1);
        }
        proof {
            assert(s@.take(e as int).drop_last() =~= s@.take(e as int - 1));
        }
        e = e - 1;
    }
    None
}

/// Start of the short name: two past the last `::` lying before `end`, or
/// `0` when no `::` does.
fn find_name_start(s: &str, end: usize) -> (start: usize)
    requires
        end as int <= s@.len(),
    ensures
        start as int == name_start(s@, end as int),
        start <= end,
{
    let mut e: usize = end;
    while e >= 2
        invariant
            e <= end,
            end as int <= s@.len(),
            name_start(s@, end as int) == name_start(s@, e as int),
        decreases e,
    {
        let c1 = s.get_char(e - 2);
        let c2 = s.get_char(e - 1);
        if c1 == ':' && c2 == ':' {
            return e;
        }
        e = e - 1;
    }
    0
}

} // verus!
