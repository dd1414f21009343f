//! A minimal paste-storage core: generation and validation of short
//! identifiers drawn from a 62-symbol alphabet, and a flat keyed store
//! that maps each identifier to the byte content of one paste.

pub mod paste_id;
pub mod store;
