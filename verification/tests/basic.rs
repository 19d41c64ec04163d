//! The descriptor on the canonical names the compiler renders for common
//! types: primitives, qualified names, and generic containers.

use typedesc::Type;

fn check_plain(full: &str) {
    let t = Type::from_string(full);
    assert_eq!(full, t.name());
    assert_eq!(full, t.full_name());
    assert_eq!(None, t.generics());
}

#[test]
fn test_int() {
    check_plain("i8");
    check_plain("i16");
    check_plain("i32");
    check_plain("i64");
    check_plain("i128");
    check_plain("u8");
    check_plain("u16");
    check_plain("u32");
    check_plain("u64");
    check_plain("u128");
    check_plain("isize");
    check_plain("usize");
}

#[test]
fn test_double() {
    check_plain("f32");
    check_plain("f64");
}

#[test]
fn test_str() {
    check_plain("&str");
}

#[test]
fn test_string() {
    let t = Type::from_string("alloc::string::String");
    assert_eq!("String", t.name());
    assert_eq!("alloc::string::String", t.full_name());
    assert_eq!(None, t.generics());
}

#[test]
fn test_vec() {
    let t = Type::from_string("alloc::vec::Vec<i32>");
    assert_eq!("Vec", t.name());
    assert_eq!("alloc::vec::Vec<i32>", t.full_name());
    assert_eq!(Some(vec![Type::from_string("i32")]), t.generics());
}

#[test]
fn test_hashmap() {
    let t = Type::from_string(
        "std::collections::hash::map::HashMap<alloc::string::String, alloc::vec::Vec<bool>>",
    );
    assert_eq!("HashMap", t.name());
    assert_eq!(
        "std::collections::hash::map::HashMap<alloc::string::String, alloc::vec::Vec<bool>>",
        t.full_name()
    );

    let g = t.generics().unwrap();

    // String
    let s = g.get(0).unwrap();
    assert_eq!("String", s.name());
    assert_eq!("alloc::string::String", s.full_name());
    assert_eq!(None, s.generics());

    // Vec<bool>
    let v = g.get(1).unwrap();
    assert_eq!("Vec", v.name());
    assert_eq!("alloc::vec::Vec<bool>", v.full_name());
    assert_eq!(Some(vec![Type::from_string("bool")]), v.generics());
}

#[test]
fn test_option() {
    let t = Type::from_string("core::option::Option<i32>");
    assert_eq!("Option", t.name());
    assert_eq!("core::option::Option<i32>", t.full_name());
    assert_eq!(Some(vec![Type::from_string("i32")]), t.generics());
}

#[test]
fn test_result() {
    let t = Type::from_string("core::result::Result<(), std::io::error::Error>");
    assert_eq!("Result", t.name());
    assert_eq!(
        "core::result::Result<(), std::io::error::Error>",
        t.full_name()
    );

    let g = t.generics().unwrap();

    // unit
    let u = g.get(0).unwrap();
    assert_eq!("()", u.name());
    assert_eq!("()", u.full_name());
    assert_eq!(None, u.generics());
}
