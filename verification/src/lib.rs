//! A hybrid markdown editor's document logic: markers, inline styles, tables,
//! display maps, references and the rules of its panels.

use vstd::prelude::*;

pub mod demo;
pub mod frame;
pub mod github_sync;
pub mod highlight;
pub mod image_cache;
pub mod inline;
pub mod keys;
pub mod line;
pub mod markdown_view;
pub mod marker;
pub mod math;
pub mod mermaid;
pub mod outline;
pub mod overlay;
pub mod parser;
pub mod paste;
pub mod pattern;
pub mod pointer;
pub mod raster;
pub mod refs;
pub mod render;
pub mod rope;
pub mod segment_map;
pub mod shell;
pub mod status_bar;
pub mod syntax;
pub mod table;
pub mod text;
pub mod text_engine;
pub mod text_input;
pub mod theme;
pub mod title_bar;
pub mod tokenize;
pub mod validation;
pub mod viewport;
pub mod window;

verus! {

} // verus!
