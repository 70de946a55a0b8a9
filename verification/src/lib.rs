//! A hash table with separate chaining, verified against a map model.
//!
//! A [`HashTable`] maps keys to values. It owns an array of buckets, each a
//! chain of entries, and finds the bucket of a key by reducing the key's hash
//! code modulo the number of buckets. Keys that collide share a chain, and
//! every lookup compares keys, never bucket indices alone.
//!
//! The table stands for a finite map, its view, and each operation is stated
//! over that view and over the chains: `insert` adds or replaces one binding,
//! `delete` removes one, `get` reads one, and `resize` moves every entry to a
//! larger array without changing the view.
//!
//! Growth policy: the load factor is kept at or below one. An insert of a new
//! key into a table that already holds as many entries as it has buckets
//! resizes the table first. A resize takes the capacity to the larger of twice
//! the old capacity and the old capacity plus [`DEFAULT_BUCKET_SIZE`].
//!
//! Every operation runs to completion on the calling thread. A table is not
//! synchronised: threads that share one must lock it for the whole of each
//! mutating call, the resize it may bring included.
//!
//! Keys are types that implement [`Key`]: an equality test and a deterministic
//! hash code, both functions of the key's view.

mod flat;
pub mod iter;
pub mod key;
pub mod laws;
pub mod model;
pub mod table;

pub use iter::Iter;
pub use key::Key;
pub use table::{HashTable, DEFAULT_BUCKET_SIZE};
