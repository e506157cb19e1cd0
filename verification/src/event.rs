//! Events and their participants.
use crate::raw::RawGedcom;
use crate::types::{DateValue, EntityId};
use vstd::prelude::*;

verus! {

#[derive(Debug, PartialEq, Eq)]
pub enum EventType {
    Birth,
    Death,
    Marriage,
    Census,
    Baptism,
    Burial,
    Migration,
    Occupation,
    Residence,
    Immigration,
    Emigration,
    Naturalization,
    Probate,
    Will,
    Graduation,
    Retirement,
    Custom(String),
}

impl Clone for EventType {
    fn clone(&self) -> (r: Self)
        ensures
            r == *self,
    {
        match self {
            EventType::Birth => EventType::Birth,
            EventType::Death => EventType::Death,
            EventType::Marriage => EventType::Marriage,
            EventType::Census => EventType::Census,
            EventType::Baptism => EventType::Baptism,
            EventType::Burial => EventType::Burial,
            EventType::Migration => EventType::Migration,
            EventType::Occupation => EventType::Occupation,
            EventType::Residence => EventType::Residence,
            EventType::Immigration => EventType::Immigration,
            EventType::Emigration => EventType::Emigration,
            EventType::Naturalization => EventType::Naturalization,
            EventType::Probate => EventType::Probate,
            EventType::Will => EventType::Will,
            EventType::Graduation => EventType::Graduation,
            EventType::Retirement => EventType::Retirement,
            EventType::Custom(s) => EventType::Custom(s.clone()),
        }
    }
}

#[derive(Debug, PartialEq, Eq)]
pub enum EventRole {
    Principal,
    Witness,
    Godparent,
    Informant,
    Clergy,
    Registrar,
    Celebrant,
    Parent,
    Spouse,
    Child,
    Servant,
    Boarder,
    Custom(String),
}

impl Clone for EventRole {
    fn clone(&self) -> (r: Self)
        ensures
            r == *self,
    {
        match self {
            EventRole::Principal => EventRole::Principal,
            EventRole::Witness => EventRole::Witness,
            EventRole::Godparent => EventRole::Godparent,
            EventRole::Informant => EventRole::Informant,
            EventRole::Clergy => EventRole::Clergy,
            EventRole::Registrar => EventRole::Registrar,
            EventRole::Celebrant => EventRole::Celebrant,
            EventRole::Parent => EventRole::Parent,
            EventRole::Spouse => EventRole::Spouse,
            EventRole::Child => EventRole::Child,
            EventRole::Servant => EventRole::Servant,
            EventRole::Boarder => EventRole::Boarder,
            EventRole::Custom(s) => EventRole::Custom(s.clone()),
        }
    }
}

#[derive(Debug, PartialEq, Eq)]
pub enum CensusRole {
    Head,
    Wife,
    Husband,
    Son,
    Daughter,
    Servant,
    Boarder,
    Visitor,
    Lodger,
    Inmate,
    Patient,
    Scholar,
    Apprentice,
    OtherRelative,
    Other,
    Custom(String),
}

impl Clone for CensusRole {
    fn clone(&self) -> (r: Self)
        ensures
            r == *self,
    {
        match self {
            CensusRole::Head => CensusRole::Head,
            CensusRole::Wife => CensusRole::Wife,
            CensusRole::Husband => CensusRole::Husband,
            CensusRole::Son => CensusRole::Son,
            CensusRole::Daughter => CensusRole::Daughter,
            CensusRole::Servant => CensusRole::Servant,
            CensusRole::Boarder => CensusRole::Boarder,
            CensusRole::Visitor => CensusRole::Visitor,
            CensusRole::Lodger => CensusRole::Lodger,
            CensusRole::Inmate => CensusRole::Inmate,
            CensusRole::Patient => CensusRole::Patient,
            CensusRole::Scholar => CensusRole::Scholar,
            CensusRole::Apprentice => CensusRole::Apprentice,
            CensusRole::OtherRelative => CensusRole::OtherRelative,
            CensusRole::Other => CensusRole::Other,
            CensusRole::Custom(s) => CensusRole::Custom(s.clone()),
        }
    }
}

#[derive(Debug, PartialEq, Eq)]
pub struct EventParticipant {
    pub person_id: EntityId,
    pub role: EventRole,
    pub census_role: Option<CensusRole>,
}

impl Clone for EventParticipant {
    fn clone(&self) -> (r: Self)
        ensures
            r == *self,
    {
        EventParticipant {
            person_id: self.person_id,
            role: self.role.clone(),
            census_role: self.census_role.clone(),
        }
    }
}

#[derive(Debug, Clone, PartialEq, Eq)]
pub struct Event {
    pub id: EntityId,
    pub event_type: EventType,
    pub date: Option<DateValue>,
    pub place_ref: Option<EntityId>,
    pub participants: Vec<EventParticipant>,
    pub description: Option<String>,
    pub _raw_gedcom: RawGedcom,
}

/// The name of an event type: the variant's name in snake case, as the
/// type is written in JSON ("birth", "death", ...); a custom type's own text.
pub open spec fn event_type_name(t: EventType) -> Seq<char> {
    match t {
        EventType::Birth => "birth"@,
        EventType::Death => "death"@,
        EventType::Marriage => "marriage"@,
        EventType::Census => "census"@,
        EventType::Baptism => "baptism"@,
        EventType::Burial => "burial"@,
        EventType::Migration => "migration"@,
        EventType::Occupation => "occupation"@,
        EventType::Residence => "residence"@,
        EventType::Immigration => "immigration"@,
        EventType::Emigration => "emigration"@,
        EventType::Naturalization => "naturalization"@,
        EventType::Probate => "probate"@,
        EventType::Will => "will"@,
        EventType::Graduation => "graduation"@,
        EventType::Retirement => "retirement"@,
        EventType::Custom(s) => s@,
    }
}

/// The names of the built-in event types: their lengths and first letters,
/// which already tell any two apart.
pub proof fn lemma_event_type_name_shape(t: EventType)
    requires
        !(t is Custom),
    ensures
        event_type_name(t).len() >= 4,
        t is Birth ==> event_type_name(t).len() == 5 && event_type_name(t)[0] == 'b',
        t is Death ==> event_type_name(t).len() == 5 && event_type_name(t)[0] == 'd',
        t is Marriage ==> event_type_name(t).len() == 8 && event_type_name(t)[0] == 'm',
        t is Census ==> event_type_name(t).len() == 6 && event_type_name(t)[0] == 'c',
        t is Baptism ==> event_type_name(t).len() == 7 && event_type_name(t)[0] == 'b',
        t is Burial ==> event_type_name(t).len() == 6 && event_type_name(t)[0] == 'b',
        t is Migration ==> event_type_name(t).len() == 9 && event_type_name(t)[0] == 'm',
        t is Occupation ==> event_type_name(t).len() == 10 && event_type_name(t)[0] == 'o',
        t is Residence ==> event_type_name(t).len() == 9 && event_type_name(t)[0] == 'r',
        t is Immigration ==> event_type_name(t).len() == 11 && event_type_name(t)[0] == 'i',
        t is Emigration ==> event_type_name(t).len() == 10 && event_type_name(t)[0] == 'e',
        t is Naturalization ==> event_type_name(t).len() == 14 && event_type_name(t)[0] == 'n',
        t is Probate ==> event_type_name(t).len() == 7 && event_type_name(t)[0] == 'p',
        t is Will ==> event_type_name(t).len() == 4 && event_type_name(t)[0] == 'w',
        t is Graduation ==> event_type_name(t).len() == 10 && event_type_name(t)[0] == 'g',
        t is Retirement ==> event_type_name(t).len() == 10 && event_type_name(t)[0] == 'r',
{
    reveal_strlit("birth");
    reveal_strlit("death");
    reveal_strlit("marriage");
    reveal_strlit("census");
    reveal_strlit("baptism");
    reveal_strlit("burial");
    reveal_strlit("migration");
    reveal_strlit("occupation");
    reveal_strlit("residence");
    reveal_strlit("immigration");
    reveal_strlit("emigration");
    reveal_strlit("naturalization");
    reveal_strlit("probate");
    reveal_strlit("will");
    reveal_strlit("graduation");
    reveal_strlit("retirement");
}

/// Different built-in event types have different names.
pub proof fn law_event_type_names_distinct(a: EventType, b: EventType)
    requires
        !(a is Custom),
        !(b is Custom),
        event_type_name(a) == event_type_name(b),
    ensures
        a == b,
{
    lemma_event_type_name_shape(a);
    lemma_event_type_name_shape(b);
    assert(event_type_name(a)[0] == event_type_name(b)[0]);
}

/// Two event types are the same: same variant, same text for a custom one.
pub open spec fn same_event_type(a: EventType, b: EventType) -> bool {
    match (a, b) {
        (EventType::Custom(x), EventType::Custom(y)) => x@ == y@,
        (EventType::Custom(_), _) => false,
        (_, EventType::Custom(_)) => false,
        _ => a == b,
    }
}

/// Whether an event type is the custom one named `name`.
pub open spec fn is_custom_event(t: EventType, name: Seq<char>) -> bool {
    t matches EventType::Custom(x) && x@ == name
}

impl EventType {
    pub fn same_as(&self, other: &EventType) -> (r: bool)
        ensures
            r == same_event_type(*self, *other),
    {
        match (self, other) {
            (EventType::Custom(x), EventType::Custom(y)) => crate::text::str_eq(x.as_str(), y.as_str()),
            (EventType::Custom(_), _) => false,
            (_, EventType::Custom(_)) => false,
            (EventType::Birth, EventType::Birth) => true,
            (EventType::Death, EventType::Death) => true,
            (EventType::Marriage, EventType::Marriage) => true,
            (EventType::Census, EventType::Census) => true,
            (EventType::Baptism, EventType::Baptism) => true,
            (EventType::Burial, EventType::Burial) => true,
            (EventType::Migration, EventType::Migration) => true,
            (EventType::Occupation, EventType::Occupation) => true,
            (EventType::Residence, EventType::Residence) => true,
            (EventType::Immigration, EventType::Immigration) => true,
            (EventType::Emigration, EventType::Emigration) => true,
            (EventType::Naturalization, EventType::Naturalization) => true,
            (EventType::Probate, EventType::Probate) => true,
            (EventType::Will, EventType::Will) => true,
            (EventType::Graduation, EventType::Graduation) => true,
            (EventType::Retirement, EventType::Retirement) => true,
            _ => false,
        }
    }
}

} // verus!
