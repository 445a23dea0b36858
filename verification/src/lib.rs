//! Shapes the errors of Nix evaluations into diagnostics.
//!
//! The Nix C bindings offer no structured error: they render the exception into one text. What is
//! here works on that text. It is robust against the shapes that Nix prints today, and where a text
//! has no `error:` line at all, callers are left with one block to show.

pub mod ansi;
pub mod dedent;
pub mod diagnostic;
pub mod lines;
pub mod numbering;
pub mod paragraph;
pub mod text;
pub mod whitespace;

pub use ansi::strip_leading_ansi;
pub use dedent::dedent_lines;
pub use diagnostic::{eval_error_text, format_eval_error, EvalErrorText};
pub use paragraph::{split_at, split_trailing_error};
