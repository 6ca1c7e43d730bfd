//! A parser for the declarations of structured source text: functions,
//! structured types, enumerations, contracts, implementations, namespaces and
//! tests, each with its name, its visibility, its attributes and what is
//! nested in it.
//!
//! * [`token`] and [`lexer`]: the tokens of a text.
//! * [`grammar`]: what the declarations of a token sequence are.
//! * [`parser`]: [`parse`] and [`parse_with`], which compute them.
//! * [`node`] and [`error`]: what a parse gives.
//! * [`render`]: the text of a tree of declarations.
//! * [`laws`]: what holds of every parse; [`spelling`], [`roundtrip`] and
//!   [`readable`] hold the proofs that rendering and parsing undo each other.
//! * [`user`] and [`utils`]: a small user-record model, the running example
//!   whose own source text the tests parse.
//! * [`strings`]: the string operations of the standard library whose
//!   contracts are believed, not proved.

pub mod error;
pub mod grammar;
pub mod laws;
pub mod lexer;
pub mod node;
pub mod parser;
pub mod readable;
pub mod render;
pub mod roundtrip;
pub mod spelling;
pub mod strings;
pub mod token;
pub mod user;
pub mod utils;

pub use error::{ParseError, Position};
pub use grammar::ParseOptions;
pub use lexer::tokenize;
pub use node::{DeclKind, DeclarationNode, Descriptor, Visibility};
pub use parser::{parse, parse_with};
pub use render::render;
pub use token::{Token, TokenKind};
pub use user::{create_user, Status, User, UserView, Validate};
