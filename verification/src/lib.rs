//! Template expansion: a format string of literal text and `%directive`
//! placeholders is split into tokens, and every directive that a content
//! provider recognizes is replaced by a value that the provider generates.

pub mod charclass;
pub mod strings;
pub mod tokenizer;
pub mod directive;
pub mod decimal;
pub mod provider;
pub mod engine;
pub mod bindings;

pub use bindings::Bindings;
pub use engine::{expand, parse, substitute};
pub use provider::{ContentProvider, FakeData};
pub use tokenizer::lexer;
