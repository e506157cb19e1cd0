//! Latter-day Saint ordinances.
use crate::raw::RawGedcom;
use crate::types::{DateValue, EntityId};
use vstd::prelude::*;

verus! {

#[derive(Debug, PartialEq, Eq)]
pub enum LdsOrdinanceType {
    Baptism,
    Confirmation,
    Initiatory,
    Endowment,
    SealingToParents,
    SealingToSpouse,
    Custom(String),
}

impl Clone for LdsOrdinanceType {
    fn clone(&self) -> (r: Self)
        ensures
            r == *self,
    {
        match self {
            LdsOrdinanceType::Baptism => LdsOrdinanceType::Baptism,
            LdsOrdinanceType::Confirmation => LdsOrdinanceType::Confirmation,
            LdsOrdinanceType::Initiatory => LdsOrdinanceType::Initiatory,
            LdsOrdinanceType::Endowment => LdsOrdinanceType::Endowment,
            LdsOrdinanceType::SealingToParents => LdsOrdinanceType::SealingToParents,
            LdsOrdinanceType::SealingToSpouse => LdsOrdinanceType::SealingToSpouse,
            LdsOrdinanceType::Custom(s) => LdsOrdinanceType::Custom(s.clone()),
        }
    }
}

#[derive(Debug, PartialEq, Eq)]
pub enum LdsStatus {
    Bic,
    Canceled,
    Child,
    Completed,
    Cleared,
    Dns,
    Excluded,
    Infant,
    Invalid,
    NotNeeded,
    Qualified,
    Stillborn,
    Submitted,
    Uncleared,
    InProgress,
    NeedsMoreInformation,
    Ready,
    Reserved,
    Printed,
    Shared,
    TempleDone,
    Custom(String),
}

impl Clone for LdsStatus {
    fn clone(&self) -> (r: Self)
        ensures
            r == *self,
    {
        match self {
            LdsStatus::Bic => LdsStatus::Bic,
            LdsStatus::Canceled => LdsStatus::Canceled,
            LdsStatus::Child => LdsStatus::Child,
            LdsStatus::Completed => LdsStatus::Completed,
            LdsStatus::Cleared => LdsStatus::Cleared,
            LdsStatus::Dns => LdsStatus::Dns,
            LdsStatus::Excluded => LdsStatus::Excluded,
            LdsStatus::Infant => LdsStatus::Infant,
            LdsStatus::Invalid => LdsStatus::Invalid,
            LdsStatus::NotNeeded => LdsStatus::NotNeeded,
            LdsStatus::Qualified => LdsStatus::Qualified,
            LdsStatus::Stillborn => LdsStatus::Stillborn,
            LdsStatus::Submitted => LdsStatus::Submitted,
            LdsStatus::Uncleared => LdsStatus::Uncleared,
            LdsStatus::InProgress => LdsStatus::InProgress,
            LdsStatus::NeedsMoreInformation => LdsStatus::NeedsMoreInformation,
            LdsStatus::Ready => LdsStatus::Ready,
            LdsStatus::Reserved => LdsStatus::Reserved,
            LdsStatus::Printed => LdsStatus::Printed,
            LdsStatus::Shared => LdsStatus::Shared,
            LdsStatus::TempleDone => LdsStatus::TempleDone,
            LdsStatus::Custom(s) => LdsStatus::Custom(s.clone()),
        }
    }
}

#[derive(Debug, Clone, PartialEq, Eq)]
pub struct LdsOrdinance {
    pub id: EntityId,
    pub ordinance_type: LdsOrdinanceType,
    pub status: LdsStatus,
    pub temple_code: Option<String>,
    pub date: Option<DateValue>,
    pub place_ref: Option<EntityId>,
    /// Set for family-level ordinances such as spouse sealings.
    pub family_ref: Option<EntityId>,
    pub _raw_gedcom: RawGedcom,
}

} // verus!
