//! The Awesome Ledger: entry-level diffing of GitHub awesome lists and the
//! view model of the static site built from the diff history.

pub mod date;
pub mod digest;
pub mod feed;
pub mod fetch;
pub mod model;
pub mod norm;
pub mod parse;
pub mod publish;
pub mod registry;
pub mod render;
pub mod roster;
pub mod sort;
pub mod store;
pub mod text;
pub mod update;
pub mod view;

use vstd::prelude::*;

verus! {
} // verus!
