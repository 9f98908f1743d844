//! Markdown preview and PDF page-structure logic, verified with Verus.
use vstd::prelude::*;

pub mod text;
pub mod ast;
pub mod spans;
pub mod inline;
pub mod layout;
pub mod preprocess;
pub mod blocks;
pub mod logger;
pub mod fonts;
pub mod pdf_structure;
pub mod preview;
pub mod dialog;
pub mod math;
pub mod html;
pub mod glyphs;
pub mod cli;

verus! {
} // verus!
