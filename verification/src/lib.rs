//! The model behind a desktop PDF editor.
use vstd::prelude::*;

pub mod assets;
pub mod block_model;
pub mod chars;
pub mod clipboard;
pub mod demand;
pub mod document;
pub mod edits;
pub mod fonts;
pub mod frame;
pub mod geometry;
pub mod group;
pub mod joining;
pub mod keys;
pub mod labels;
pub mod menus;
pub mod multi;
pub mod numerals;
pub mod organise;
pub mod overlay;
pub mod pages;
pub mod paging;
pub mod panel;
pub mod paths;
pub mod picture;
pub mod pointer;
pub mod recents;
pub mod rich_text;
pub mod styles;
pub mod templates;
pub mod text_element;
pub mod text_layout;
pub mod units;
pub mod viewer;
pub mod workspace;

verus! {

} // verus!
