//! Namespaced views over a flat key-value store.
//!
//! Every namespace is encoded as a length-prefixed segment, so that no two
//! namespaces can produce overlapping key ranges. A view adds its prefix to
//! every key on the way in and removes it from scanned keys on the way out,
//! and views can be nested.
pub mod addresses;
pub mod length_prefixed;
pub mod lex;
pub mod memory_storage;
pub mod namespace_helpers;
pub mod prefixed_storage;
pub mod storage;

pub use addresses::{Binary, CanonicalAddr, HumanAddr};
pub use length_prefixed::{to_length_prefixed, to_length_prefixed_nested};
pub use memory_storage::{MemoryStorage, MockStorage};
pub use namespace_helpers::{
    get_with_prefix, namespace_upper_bound, range_with_prefix, remove_with_prefix, set_with_prefix,
};
pub use prefixed_storage::{prefixed, prefixed_read, PrefixedStorage, ReadonlyPrefixedStorage};
pub use storage::{Order, ReadonlyStorage, Storage, KV};
