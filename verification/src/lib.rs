//! A compact prefix tree (radix trie) mapping byte-string keys to values.
//!
//! The tree is an in-memory container: edges carry byte-sequence labels
//! ("segments"), chains of single-child nodes are compressed into one edge,
//! and every stored key terminates at exactly one node.  All operations are
//! specified against a mathematical map from byte sequences to values.
//!
//! The structure is not safe for concurrent mutation from multiple threads
//! without external synchronization.

mod cursor;
mod entry;
mod laws;
mod trie;

pub use cursor::SearchKey;
pub use laws::lemma_insert_then_get;
pub use laws::lemma_len_insert;
pub use laws::lemma_prefix_count_empty_prefix;
pub use laws::lemma_prefix_count_long_prefix;
pub use laws::lemma_remove_preserves_others;
pub use laws::lemma_remove_round_trip;
pub use entry::Entry;
pub use entry::OccupiedEntry;
pub use entry::VacantEntry;
pub use trie::common_prefix;
pub use trie::keys_with_prefix;
pub use trie::TrieNode;
