pub mod blocklist;
pub mod domain;
pub mod resolver;
pub mod trie;
