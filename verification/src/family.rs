//! Families, couple relationships and child links.
use crate::raw::RawGedcom;
use crate::types::EntityId;
use vstd::prelude::*;

verus! {

#[derive(Debug, PartialEq, Eq, Default)]
pub enum LineageType {
    #[default]
    Biological,
    Adopted,
    Foster,
    Step,
    Unknown,
    Custom(String),
}

impl Clone for LineageType {
    fn clone(&self) -> (r: Self)
        ensures
            r == *self,
    {
        match self {
            LineageType::Biological => LineageType::Biological,
            LineageType::Adopted => LineageType::Adopted,
            LineageType::Foster => LineageType::Foster,
            LineageType::Step => LineageType::Step,
            LineageType::Unknown => LineageType::Unknown,
            LineageType::Custom(s) => LineageType::Custom(s.clone()),
        }
    }
}

#[derive(Debug, PartialEq, Eq, Default)]
pub enum PartnerLink {
    Married,
    Unmarried,
    #[default]
    Unknown,
    Custom(String),
}

impl Clone for PartnerLink {
    fn clone(&self) -> (r: Self)
        ensures
            r == *self,
    {
        match self {
            PartnerLink::Married => PartnerLink::Married,
            PartnerLink::Unmarried => PartnerLink::Unmarried,
            PartnerLink::Unknown => PartnerLink::Unknown,
            PartnerLink::Custom(s) => PartnerLink::Custom(s.clone()),
        }
    }
}

#[derive(Debug, PartialEq, Eq)]
pub enum RelationshipType {
    Couple,
    ParentChild,
    Godparent,
    Guardian,
    Sibling,
    Associate,
    Custom(String),
}

impl Clone for RelationshipType {
    fn clone(&self) -> (r: Self)
        ensures
            r == *self,
    {
        match self {
            RelationshipType::Couple => RelationshipType::Couple,
            RelationshipType::ParentChild => RelationshipType::ParentChild,
            RelationshipType::Godparent => RelationshipType::Godparent,
            RelationshipType::Guardian => RelationshipType::Guardian,
            RelationshipType::Sibling => RelationshipType::Sibling,
            RelationshipType::Associate => RelationshipType::Associate,
            RelationshipType::Custom(s) => RelationshipType::Custom(s.clone()),
        }
    }
}

#[derive(Debug, PartialEq, Eq)]
pub struct ChildLink {
    pub child_id: EntityId,
    pub lineage_type: LineageType,
}

impl Clone for ChildLink {
    fn clone(&self) -> (r: Self)
        ensures
            r == *self,
    {
        ChildLink {
            child_id: self.child_id,
            lineage_type: self.lineage_type.clone(),
        }
    }
}

#[derive(Debug, Clone, PartialEq, Eq)]
pub struct Relationship {
    pub id: EntityId,
    pub person1_id: EntityId,
    pub person2_id: EntityId,
    pub relationship_type: RelationshipType,
    /// Optional supporting event (e.g., marriage event for couple relationship)
    pub supporting_event: Option<EntityId>,
    pub _raw_gedcom: RawGedcom,
}

#[derive(Debug, Clone, PartialEq, Eq)]
pub struct Family {
    pub id: EntityId,
    pub partner1_id: Option<EntityId>,
    pub partner2_id: Option<EntityId>,
    pub partner_link: PartnerLink,
    /// Reference to the canonical couple relationship edge.
    pub couple_relationship: Option<EntityId>,
    pub child_links: Vec<ChildLink>,
    /// Original GEDCOM xref ID (e.g., "@F12@") for round-trip preservation
    pub original_xref: Option<String>,
    pub _raw_gedcom: RawGedcom,
}

} // verus!
