//! Converts a small bracket-tag markup (`[b]`, `[i]`, `[color=...]`) from
//! untrusted users into HTML, under limits on input size, tag count and nesting.

use vstd::prelude::*;

pub mod ast;
pub mod error;
pub mod laws;
pub mod options;
pub mod parser;
pub mod registry;
pub mod render;
pub mod text;
pub mod tokenizer;

pub use ast::{Element, Node, Span};
pub use error::BbCodeError;
pub use options::BbCodeOptions;
pub use parser::{convert, parse_bbcode_to_ast};
pub use registry::{TagRegistry, TagSpec, ValueCheck};
pub use render::ast_to_html;
pub use tokenizer::BBCodeParser;

verus! {

} // verus!
