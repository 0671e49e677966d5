//! A hash-bucketed map with separate chaining: keys are placed in the bucket
//! chosen by their hash, buckets grow by doubling when the load factor passes
//! 3/4, and lookups scan one bucket. The abstract value of a table is a
//! `Map` from key views to values, and every operation's contract is stated
//! over that map.

pub mod key;
pub mod laws;
pub mod model;
pub mod table;

pub use key::HashKey;
pub use key::KeyProbe;
pub use table::Entry;
pub use table::HashMap;
pub use table::IntoIter;
pub use table::Iter;
pub use table::OccupiedEntry;
pub use table::VacantEntry;
