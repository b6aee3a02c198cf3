//! A verified phone-book store: a mapping from contact names to phone
//! entries, together with the line-oriented on-disk text format that
//! persists it. The format is `<name>: <mobile>: <work>`, one record per
//! line, records separated by a single newline with no trailing newline.
//!
//! The modules:
//! - `entry`: the two-field phone entry value type.
//! - `text`: specification-level string machinery (substring search,
//!   splitting on a delimiter, joining) with the lemmas the codec needs.
//! - `book`: the phone book itself, an association list kept strictly
//!   sorted by name, modelling a map with deterministic iteration order.
//! - `codec`: serialization to and parsing from the text format, with the
//!   round-trip theorem.
//! - `store`: the store handle that owns the file path.
//! - `reducer`: the editor's state machine, a pure reducer from state and
//!   message to the next state, with verified transitions for the
//!   outcomes of the loads and saves the shell performs.

pub mod book;
pub mod codec;
pub mod entry;
pub mod reducer;
pub mod store;
pub mod text;

use vstd::prelude::*;

verus! {

} // verus!
