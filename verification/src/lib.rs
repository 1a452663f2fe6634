//! A flattened trie: an ordered, labelled tree stored as three parallel
//! arrays and navigated through lightweight cursors.
//!
//! The keys of the nodes stand in preorder in one array. A sorted table of
//! jump records tells where that sequence branches: each record describes a
//! run of nodes that are each other's only child, and what ends the run. The
//! values of the nodes stand in a third array, in the order of the table.
//!
//! [`raw::RawTrie`] is the trie with its navigation, insertion and pruning;
//! [`cursor`] holds cursors that carry their tree along. [`model`] is the
//! mathematical model that the contracts speak of, [`layout`] the invariant
//! of the three arrays, and [`laws`] what follows from both.

pub mod cursor;
pub mod cut;
pub mod grow;
pub mod insert;
pub mod jump;
pub mod laws;
pub mod layout;
pub mod model;
pub mod nav;
pub mod prune;
pub mod raw;
pub mod search;
pub mod shrink;
pub mod split;
pub mod thin;

pub use crate::cursor::{Cursor, CursorMove, EnterParentError, Entry, FindError, LongTree, OccupiedEntry, TreeRef, VacantEntry};
pub use crate::jump::{Jump, MajorNode, RawCursor};
pub use crate::raw::RawTrie;
