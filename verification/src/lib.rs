//! Draft: a programmable markup language and its object notation.
//!
//! The crate holds the object-notation parser and its text forms, the markup
//! lexer, the markup grammar and the syntax-tree visitors, each with a
//! contract proved by Verus, and the properties of the whole in `laws`.
mod tape;

pub mod ast;
pub mod chars;
pub mod editor;
pub mod format;
pub mod grammar;
pub mod laws;
pub mod lex;
pub mod lexer;
pub mod number;
pub mod object;
pub mod object_parse;
pub mod roundtrip;
pub mod schema;
pub mod visit;

pub use chars::{CharExt, Cursor, SliceExt, TapeExt};
pub use object::{Error, InvalidKey, Key, Number, Object, ObjectMap, ObjectView};
pub use object_parse::{Compile, ObjectSyntax};
