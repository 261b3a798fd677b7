//! Labelled rooted trees and the TREE(k) sequence game on them: arena trees,
//! canonical forms, homeomorphic embedding, fingerprints, enumeration and the
//! greedy sequence generator.

pub mod tree;
pub mod subtree;
pub mod order;
pub mod canonical;
pub mod embed_spec;
pub mod embedding;
pub mod fingerprint;
pub mod candidate_order;
pub mod generator;
pub mod svg_text;
pub mod cli;
pub mod forms;
pub mod gpu_sweep;
pub mod form_unique;
