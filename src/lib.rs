pub mod integer_table;
pub mod laws;
pub mod slots;
pub mod table;
pub mod tombstones;
pub mod traits;

pub use integer_table::{IntegerToIntegerHT, SimpleHasher, create_integer_to_integer_ht};
pub use table::{SimpleHashTable, create_simple_hash_table};
pub use traits::{HashTable, HashValue, HashableKey, Hasher, InsertError};
