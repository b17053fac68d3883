//! An x-fast trie over 32-bit keys: membership, insertion, deletion and
//! successor-or-equal queries, with every operation proved against a
//! mathematical set of keys.
pub mod prefix;
pub mod xfasttrie;
pub mod laws;
pub mod vectrique;
