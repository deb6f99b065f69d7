//! A small CRDT library: a vector clock for causality tracking and an
//! LSeq-style sequence CRDT built on a tree of variable-length identifiers.

pub mod errors;
pub mod vclock;
pub mod actors;
pub mod clock_laws;
pub mod ctx;
pub mod identifier;
pub mod tree;
pub mod rng;
pub mod lseq;
