//! A contact directory kept in two synchronised indexes: an ordered list
//! sorted by name, for pagination, and a character trie, for prefix search
//! and alphabetical listing.

pub mod lex;
pub mod trie;
pub mod contact_list;
pub mod contact_list_app;
