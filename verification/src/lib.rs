//! A formatter for Modelica source code.
//!
//! A source text is cut into tokens and parsed into a syntax tree. The tree
//! is turned into a stream of layout markers, and the tokens of the tree
//! are then printed with the whitespace that the markers ask for, each
//! optional line break resolved against a maximum line width. Only
//! whitespace ever changes: every token and every comment is printed as it
//! stands in the source, and formatting a formatted text changes nothing.
//! The module `laws` states what is proved of every formatted text.

pub mod attachment;
pub mod balance;
pub mod classes;
pub mod comments;
pub mod equations;
pub mod files;
pub mod fitting;
pub mod formatter;
pub mod formatting;
pub mod grammar;
pub mod laws;
pub mod layout;
pub mod lexer;
pub mod markers;
pub mod offsets;
pub mod parser;
pub mod printing;
pub mod relex;
pub mod reparse;
pub mod roundtrip;
pub mod rules;
pub mod stability;
pub mod syntax;

pub use files::{exit_code, is_modelica, judge, parse_source, Action, Outcome};
pub use markers::{Break, Marker, MarkerStream, Shift};
pub use parser::SyntaxError;
pub use syntax::{Element, ModelicaCST, SyntaxKind, SyntaxNode, Token};
