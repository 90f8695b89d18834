//! Path selectors and redaction over a generic value tree.
//!
//! Selector text such as `.user.password`, `["api key"]` or `.items[0]` is
//! compiled once into a [`Selector`]; [`Selector::redact`] then replaces every
//! subtree of a [`Content`] value whose path the selector matches.

pub mod content;
pub mod parser;
pub mod redaction;

pub use content::Content;
pub use parser::SelectParser;
pub use redaction::{Segment, Selector, SelectorParseError};
