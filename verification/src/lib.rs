//! Parser for bracket-delimited phrase-structure annotations.
//!
//! A linguistic tree written as nested `[Label child child ...]` groups is
//! turned into an ordered, flat collection of tree nodes carrying stable
//! identifiers, parent links and depth levels, ready for a rendering stage.

use vstd::prelude::*;

pub mod builder;
pub mod element;
pub mod error;
pub mod parser;
pub mod sanitize;
pub mod subscript;
pub mod text;
pub mod tokens;

verus! {

/// Font choice offered to the rendering stage.
pub enum Font {
    NotoSans,
    NotoSerif,
}

impl Default for Font {
    fn default() -> (r: Self)
        ensures
            r is NotoSans,
    {
        Font::NotoSans
    }
}

} // verus!
