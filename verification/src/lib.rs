//! A double-array trie: an associative container from strings over a
//! user-defined alphabet to payloads, with a compact binary form.

pub mod alpha_map;
pub mod codec;
pub mod da_codec;
pub mod da_spec;
pub mod darray;
pub mod iter_laws;
pub mod iter_spec;
pub mod range_set;
pub mod shape;
pub mod symbols;
pub mod tail;
pub mod trie;
pub mod trie_spec;
pub mod types;

pub use alpha_map::AlphaMap;
pub use darray::{DACell, DArray};
pub use symbols::Symbols;
pub use tail::Tail;
pub use trie::{ROTrie, Trie, TrieIterator, TrieState};
pub use types::{
    AlphaChar, AlphaCharToString, AsAlphaChar, TrieChar, TrieDeserializable, TrieError, TrieIndex,
    TrieSerializable, ALPHA_CHAR_ERROR, TRIE_CHAR_MAX, TRIE_CHAR_TERM, TRIE_INDEX_ERROR,
    TRIE_INDEX_MAX,
};
