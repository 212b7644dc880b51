//! A chained hash map: an associative container mapping keys to values,
//! backed by an array of buckets that doubles in size whenever the load
//! factor passes 3/4.  Every operation is specified against a mathematical
//! `Map` view of the structure and verified.

pub mod keys;
pub mod laws;
pub mod model;
pub mod seqs;
pub mod table;

pub use keys::HashKey;
pub use table::HashMap;
pub use table::Iter;
