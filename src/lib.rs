//! A pretty-printing library after Wadler's "A Prettier Printer", with
//! support for ANSI styling.
//!
//! Documents are built with the combinators on `Doc`, then laid out at a
//! width by `Doc::display_opts` and `Display::to_string`. Each combinator
//! states the document it builds over the model `Tree`; the layout is stated
//! by the spec function `layout::best`, and `laws` proves what holds of it.
use vstd::prelude::*;

pub mod ctors;
pub mod doc;
pub mod laws;
pub mod layout;
pub mod render;

pub use ansi_term::{Colour, Style};
pub use ctors::Sparkly;
pub use doc::{Doc, Tree};
pub use render::Display;

verus! {

} // verus!
