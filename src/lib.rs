//! A JSON lexer and recursive-descent parser with a read-only accessor API.
//!
//! Text is turned into a token sequence by [`lexen::Lexer`], the tokens into a
//! [`json::Json`] tree by [`parsen::Parser`]. Every stage is specified by spec
//! functions over `Seq<char>` and token sequences, and the executable code is
//! proved to follow them; [`document`] proves that every document of the
//! grammar lexes and parses back to its tree.
use vstd::prelude::*;

mod text;
pub mod token;
pub mod lexen;
pub mod json;
pub mod parsen;
pub mod document;

pub use token::{Kind, KindModel, Token};
