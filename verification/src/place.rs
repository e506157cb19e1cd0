//! Place names, place types and place hierarchy references.
use crate::types::{DateValue, EntityId};
use vstd::prelude::*;

verus! {

#[derive(Debug, Clone, PartialEq, Eq, Default)]
pub enum PlaceType {
    #[default]
    Unknown,
    Country,
    State,
    Province,
    County,
    District,
    Parish,
    Town,
    City,
    Village,
    Hamlet,
    Farm,
    Cemetery,
    Church,
    Custom(String),
}

#[derive(Debug, Clone, Copy, PartialEq, Eq, Default, Structural)]
pub enum HierarchyType {
    #[default]
    Admin,
    Religious,
    Geographic,
    Judicial,
    Cultural,
}

#[derive(Debug, Clone, PartialEq, Eq)]
pub struct PlaceName {
    pub name: String,
    pub language: Option<String>,
    /// Present in the model from day one; Phase 1A leaves this as None in storage/import.
    pub date_range: Option<DateValue>,
}

#[derive(Debug, Clone, PartialEq, Eq)]
pub struct PlaceRef {
    pub place_id: EntityId,
    pub hierarchy_type: HierarchyType,
    /// Present in the model from day one; Phase 1A leaves this as None in storage/import.
    pub date_range: Option<DateValue>,
}

#[derive(Debug, Clone, PartialEq, Eq)]
pub struct ExternalId {
    pub system: String,
    pub value: String,
}


/// A place without coordinates: its identifier, its type and its names.
#[derive(Debug, Clone, PartialEq, Eq)]
pub struct PlaceRecord {
    pub id: EntityId,
    pub place_type: PlaceType,
    pub names: Vec<PlaceName>,
}

} // verus!
