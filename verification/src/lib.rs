//! A reader (tokenizer + recursive-descent parser) and printer for a
//! Lisp-family data notation, together with the tagged-union value model
//! they operate on.
//!
//! Text flows through [`reader::tokenize`] into a flat token sequence,
//! through [`reader::read_str`] into a [`types::MalVal`] tree (or the
//! explicit "no form" outcome, or a parse error), and back to canonical
//! text through [`printer::pr_str`].

pub mod printer;
pub mod reader;
pub mod round_trip;
pub mod repl;
pub mod text;
pub mod types;
pub mod util;
