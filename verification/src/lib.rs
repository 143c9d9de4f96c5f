//! Extraction of translatable messages and rendering of gettext templates.
//!
//! Text is modelled as a sequence of characters; every contract in this crate
//! speaks of those sequences.

pub mod assoc;
pub mod chars;
pub mod cli;
pub mod order;
pub mod pot;
pub mod string_set;
pub mod visitor;
pub mod walker;
pub mod wrap;
