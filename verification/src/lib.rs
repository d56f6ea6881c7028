//! Compact crossword layouts.
//!
//! From a list of words the library finds every way to interlock them at
//! shared letters and keeps the complete layouts whose bounding box is the
//! most compact, each of them once.
//!
//! - [`crossword`] holds the state: one slot per word with its placement.
//! - [`letters`] and [`letter_map`] build the letter occurrence index.
//! - [`options`] holds the placement validator, the bounding-box comparison,
//!   the duplicate test and the backtracking search.
//! - [`combinations`] lists the orders in which words can be taken, and
//!   [`common`] keeps a crossword as a grid of letters.
//!
//! The contracts are stated over a mathematical model: [`layout`] describes
//! layouts over unbounded integers, [`rules`] the placement rules and what
//! they guarantee, [`ranking`] how layouts compare, and [`search`] what the
//! search computes.

pub mod combinations;
pub mod common;
pub mod crossword;
pub mod layout;
pub mod letter_map;
pub mod letters;
pub mod options;
pub mod ranking;
pub mod rules;
pub mod search;
