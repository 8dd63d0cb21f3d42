//! Text utilities for a rope-backed code editor: rope editing with a
//! selection, line access, bidirectional text segmentation, bracket
//! folding, indentation guides and word extraction.

pub mod bidi;
pub mod bracket_laws;
pub mod chars;
pub mod direction;
pub mod direction_laws;
pub mod editor;
pub mod guides;
pub mod laws;
pub mod lines;
pub mod markup;
pub mod rope;
pub mod text_rope;
pub mod words;
