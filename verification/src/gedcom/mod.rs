//! GEDCOM 5.5.1: tokenizing, tree building, mapping to the domain model, and export.
pub mod tokenizer;
pub mod tree;
pub mod serialize;
pub mod custom;
pub mod mapping;
pub mod sources;
pub mod records;
pub mod assertions;
pub mod import;
pub mod export;
pub mod matching;
pub mod diff;
pub mod gramps;
pub mod round_trip;
