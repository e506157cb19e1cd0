//! RustyGene: an assertion-based genealogy engine.
//!
//! The library holds the domain model (persons, families, events, evidence),
//! the date and validation rules, kinship naming, GEDCOM 5.5.1 tokenizing,
//! tree building, mapping and export, import matching and diffing, and the
//! search helpers that the command-line front end uses.
pub mod assertion;
pub mod calendar;
pub mod date_order;
pub mod event;
pub mod evidence;
pub mod family;
pub mod gedcom;
pub mod kinship;
pub mod lds;
pub mod person;
pub mod place;
pub mod raw;
pub mod research;
pub mod search;
pub mod text;
pub mod types;
pub mod validation;

use vstd::prelude::*;

verus! {

} // verus!
