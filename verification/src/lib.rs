//! A small JSON codec: a value tree, a parser from text to the tree, the compact
//! rendering of a tree, and conversions between trees and ordinary Rust values.
//!
//! A number is kept as its decimal literal, and the members of an object stay in
//! the order in which their keys first came.
pub mod collections;
pub mod construct;
pub mod deserialize;
pub mod equality;
pub mod error;
pub mod grammar;
pub mod helper;
pub mod laws;
pub mod number;
pub mod ordered;
pub mod parser;
pub mod render;
pub mod serializer;
pub mod strings;
pub mod values;
pub mod walks;

pub use deserialize::Deserialize;
pub use error::ParseError;
pub use helper::SerializeHelper;
pub use number::Number;
pub use parser::Parser;
pub use serializer::Serialize;
pub use values::{Json, Members, Values};

use vstd::prelude::*;

verus! {

/// The value `null`.
pub const NULL: Values = Values::Null;

} // verus!
