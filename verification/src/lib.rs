//! An object-storage-backed LSM storage engine: journal record groups,
//! block-indexed segments, manifests and the engine's maintenance logic.
pub mod codec;
pub mod config;
pub mod error;
pub mod journal;
pub mod keys;
pub mod manifest;
pub mod metrics;
pub mod order;
pub mod segment;
pub mod state;
pub mod cache;
pub mod store;
pub mod scan;
pub mod merge;
pub mod engine;
pub mod seqindex;
pub mod text;
pub mod table;
pub mod recovery;
pub mod lsm;
pub mod handle;
pub mod cursor;
pub mod lease;
pub mod r2;
pub mod supervisor;
pub mod file;
pub mod keyorder;
pub mod delta;
