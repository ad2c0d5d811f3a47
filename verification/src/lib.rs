//! Offline bilingual dictionary lookup: a normalizer and indexer that map
//! free-form headwords into a sorted key space backed by an ordered
//! key-value store, a paginated prefix search over that store, and the
//! state machine of the interactive lookup session.

pub mod db;
pub mod norm;
pub mod order;
pub mod laws;
pub mod parse;
pub mod session;
