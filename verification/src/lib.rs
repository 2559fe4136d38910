//! Prompt preparation for code generation requests: a structural outline of a
//! document around a selection, and a token-budgeted choice of code snippets.

pub mod candidate;
pub mod captures;
pub mod lines;
pub mod nesting;
pub mod ordering;
pub mod outline;
pub mod packing;
pub mod prompt;
pub mod selection;
pub mod snippet;
pub mod text;
pub mod tokens;
