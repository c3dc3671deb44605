//! An associative container built on open addressing with linear probing.
//!
//! The table stores owned `String` keys and values of any type in a single
//! contiguous slot array. Collisions are resolved by scanning forward from a
//! key's hash-derived start index; deletions leave tombstones that probes
//! scan past; and the array is rebuilt wholesale whenever load-factor
//! thresholds are crossed, so tombstones never survive a resize.
//!
//! Every operation is specified against an abstract `Map<Seq<char>, V>` view
//! of the table, and the internal invariants (counter accuracy, key
//! distinctness, unbroken probe chains, and load-factor headroom) are
//! verified to be preserved by every operation.

mod laws;
mod slot;
mod table;
mod text;

pub use laws::lemma_insert_round_trip;
pub use laws::lemma_other_keys_preserved;
pub use laws::lemma_overwrite;
pub use laws::lemma_remove_absent;
pub use laws::lemma_remove_masks;
pub use table::HashMap;
