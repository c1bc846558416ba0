//! A content-addressed catalog of reusable design pieces (templates, SVG
//! markers, emoji groups), of the spaces composed from them and of the
//! playsets that bundle them, together with the export / import protocol that
//! replicates a self-consistent part of one store into another.
pub mod hash;
pub mod pieces;
pub mod codec;
pub mod error;
pub mod store;
pub mod catalog;
pub mod replication;

pub mod laws;
