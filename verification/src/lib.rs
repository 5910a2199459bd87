//! An open-addressing hash table with linear probing, verified with Verus.
//!
//! [`HashTable`] is the executable table. Its contracts are stated over the
//! model of the backing array in [`model`]; [`laws`] states what follows for
//! every table.

pub mod entries;
pub mod hashable;
pub mod laws;
pub mod model;
pub mod placement;
pub mod probing;
pub mod table;
pub mod workload;

pub use hashable::Hashable;
pub use table::HashTable;
