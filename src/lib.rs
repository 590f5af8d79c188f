//! An open-addressing hash table over string keys, with linear probing,
//! tombstone deletion and load-factor driven resizing.
pub mod entry;
pub mod probe;
pub mod table;
