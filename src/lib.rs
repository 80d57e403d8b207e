//! Expansion of the extended dot notation `receiver.[ body ]` on token trees.
//!
//! The notation binds the value of `receiver` to the placeholder `it` and
//! evaluates each comma-separated form of `body` against it, in order. The
//! pass rewrites every use of the notation into a plain block and leaves all
//! other tokens as they were.
pub mod classify;
pub mod expand;
pub mod laws;
pub mod token;

pub use expand::{expr, extdot, find_empty_bodies, item, rewrite_sugar};
pub use token::{Delimiter, Group, Ident, Literal, Punct, Spacing, Span, Tok, TokenTree};
