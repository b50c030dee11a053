//! MediaNest core: the verified logic of a local photo and video library.

pub mod text;
pub mod seqs;
pub mod dedup;
pub mod crypto;
pub mod catalog;
pub mod calendar;
pub mod import;
pub mod ops;
pub mod protected;
pub mod media;
pub mod indexer;
