//! A small descriptor over the textual name of a Rust type.
//!
//! A [`Type`] wraps a fully qualified type name, as the compiler renders it
//! (for example `alloc::vec::Vec<i32>`), and offers structured views of that
//! text: the short unqualified name, and the list of generic arguments, each
//! itself a descriptor.

pub mod descriptor;
pub mod laws;
pub mod text;

pub use descriptor::Type;
