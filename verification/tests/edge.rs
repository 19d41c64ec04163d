//! Boundary shapes of the name text: empty spans, bare separators,
//! malformed delimiters, whitespace, and nested argument lists.

use typedesc::Type;

/// An empty argument span is an argument list that is present but empty,
/// distinct from the absence of a list.
#[test]
fn test_empty_argument_span() {
    let t = Type::from_string("Type<>");
    assert_eq!("Type", t.name());
    assert_eq!(Some(vec![]), t.generics());
    assert_ne!(None, t.generics());
}

/// Splitting is aware of angle-bracket nesting: the comma inside the inner
/// argument list does not separate top-level arguments, so a nested
/// multi-argument generic yields exactly two of them.
#[test]
fn test_nested_multi_argument() {
    let t = Type::from_string("Outer<Inner<A, B>, C>");
    assert_eq!("Outer", t.name());
    let g = t.generics().unwrap();
    assert_eq!(2, g.len());
    assert_eq!("Inner<A, B>", g[0].full_name());
    assert_eq!("C", g[1].full_name());

    let inner = g[0].generics().unwrap();
    assert_eq!(
        vec![Type::from_string("A"), Type::from_string("B")],
        inner
    );
}

/// Rebuilding a descriptor from its rendered text yields an equal one.
#[test]
fn test_round_trip() {
    let full = "std::collections::hash::map::HashMap<alloc::string::String, alloc::vec::Vec<bool>>";
    let t = Type::from_string(full);
    let u = Type::from_string(t.full_name());
    assert_eq!(t, u);
    assert_eq!(u.name(), t.name());
    assert_eq!(u.generics(), t.generics());

    let owned: String = t.into_string();
    assert_eq!(full, owned);
    let w = Type::from_string(owned.as_str());
    assert_eq!(u, w);
}

/// A head that is only the separator, or ends with it, has an empty short
/// name; that is accepted, not an error.
#[test]
fn test_separator_at_end() {
    let t = Type::from_string("::");
    assert_eq!("", t.name());
    assert_eq!("::", t.full_name());
    assert_eq!(None, t.generics());

    let u = Type::from_string("name::");
    assert_eq!("", u.name());
}

/// Surrounding whitespace of each argument is removed; inner text stays.
#[test]
fn test_argument_whitespace() {
    let t = Type::from_string("Pair<  i32 ,\tbool >");
    assert_eq!(
        Some(vec![Type::from_string("i32"), Type::from_string("bool")]),
        t.generics()
    );
}

/// An argument span with a trailing comma keeps its empty piece.
#[test]
fn test_empty_piece_kept() {
    let t = Type::from_string("T<a,>");
    assert_eq!(
        Some(vec![Type::from_string("a"), Type::from_string("")]),
        t.generics()
    );
}

/// A malformed name whose `>` precedes its `<` degrades to an empty
/// argument list; nothing fails.
#[test]
fn test_reversed_delimiters() {
    let t = Type::from_string(">x<");
    assert_eq!(">x", t.name());
    assert_eq!(Some(vec![]), t.generics());
}

/// The empty text is accepted verbatim, like any other.
#[test]
fn test_empty_text() {
    let t = Type::from_string("");
    assert_eq!("", t.name());
    assert_eq!("", t.full_name());
    assert_eq!(None, t.generics());
}

/// A `<` without any `>` is not a generic name.
#[test]
fn test_unclosed_open() {
    let t = Type::from_string("Broken<i32");
    assert_eq!("Broken", t.name());
    assert_eq!(None, t.generics());
}

/// An unqualified generic name: the short name is the whole head.
#[test]
fn test_unqualified_generic() {
    let t = Type::from_string("Vec<i32>");
    assert_eq!("Vec", t.name());
    assert_eq!(Some(vec![Type::from_string("i32")]), t.generics());
}

/// Equality is structural over the stored text: two different spellings of
/// an equivalent type are not equal.
#[test]
fn test_structural_equality() {
    let a = Type::from_string("alloc::vec::Vec<i32>");
    let b = Type::from_string("Vec<i32>");
    assert_ne!(a, b);
    assert_eq!(a, Type::from_string("alloc::vec::Vec<i32>"));
}
