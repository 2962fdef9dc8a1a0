//! A fixed-capacity hash table with separate chaining, verified with Verus.
//!
//! Keys are routed to a bucket by `hash(key) % capacity`; each bucket keeps a
//! chain of entries with pairwise distinct keys. Every operation is specified
//! against an abstract `Map` from key views to values.
mod bucket;
mod hashmap;
mod key;
mod laws;

pub use bucket::{Bucket, KeyValue};
pub use hashmap::{bucket_of, looked_up, map_get, MyHashmap, DEFAULT_SIZE};
pub use key::{feed_str_hash_input, TableKey};
pub use laws::{
    insert_all, keys_agree, law_clear_empties_everything, law_insert_order_independent,
    law_inserted_keys_retrievable, law_insert_then_get, law_other_keys_undisturbed,
    law_overwrite, law_remove_absent_is_noop, law_remove_then_get,
};
