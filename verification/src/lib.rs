//! A Markdown-dialect parser that turns text into a positioned syntax tree.
//!
//! The grammar covers documents, paragraphs, ATX headers, text, nested
//! emphasis and soft breaks. Every parsing function carries a contract that
//! relates its result to the grammar in [`grammar`], stated over the
//! mathematical models of [`ast`] and [`cursor`].

pub mod ast;
pub mod cursor;
pub mod grammar;
pub mod input;
pub mod invariants;
pub mod md_parser;
pub mod soundness;
