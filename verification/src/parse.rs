//! Reading a description: the grammar of entries over tokens, and the small
//! pieces that entries are made of.

pub mod base;
pub mod entries;
