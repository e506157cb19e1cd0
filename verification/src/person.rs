//! Persons and their names.
use crate::raw::RawGedcom;
use crate::text::{lowercase, new_string, push_char, push_str, str_to_string, to_lowercase};
use crate::types::{DateValue, EntityId, Gender};
use vstd::prelude::*;

verus! {

#[derive(Debug, PartialEq, Eq)]
pub enum NameType {
    Birth,
    Married,
    Aka,
    Immigrant,
    Religious,
    Custom(String),
}

impl Default for NameType {
    fn default() -> (r: Self)
        ensures
            r is Birth,
    {
        NameType::Birth
    }
}

impl Clone for NameType {
    fn clone(&self) -> (r: Self)
        ensures
            r == *self,
    {
        match self {
            NameType::Birth => NameType::Birth,
            NameType::Married => NameType::Married,
            NameType::Aka => NameType::Aka,
            NameType::Immigrant => NameType::Immigrant,
            NameType::Religious => NameType::Religious,
            NameType::Custom(s) => NameType::Custom(s.clone()),
        }
    }
}

#[derive(Debug, PartialEq, Eq)]
pub enum SurnameOrigin {
    Patrilineal,
    Matrilineal,
    Patronymic,
    Matronymic,
    Location,
    Occupation,
    Feudal,
    Pseudonym,
    Taken,
    Inherited,
    Custom(String),
}

impl Default for SurnameOrigin {
    fn default() -> (r: Self)
        ensures
            r is Patrilineal,
    {
        SurnameOrigin::Patrilineal
    }
}

impl Clone for SurnameOrigin {
    fn clone(&self) -> (r: Self)
        ensures
            r == *self,
    {
        match self {
            SurnameOrigin::Patrilineal => SurnameOrigin::Patrilineal,
            SurnameOrigin::Matrilineal => SurnameOrigin::Matrilineal,
            SurnameOrigin::Patronymic => SurnameOrigin::Patronymic,
            SurnameOrigin::Matronymic => SurnameOrigin::Matronymic,
            SurnameOrigin::Location => SurnameOrigin::Location,
            SurnameOrigin::Occupation => SurnameOrigin::Occupation,
            SurnameOrigin::Feudal => SurnameOrigin::Feudal,
            SurnameOrigin::Pseudonym => SurnameOrigin::Pseudonym,
            SurnameOrigin::Taken => SurnameOrigin::Taken,
            SurnameOrigin::Inherited => SurnameOrigin::Inherited,
            SurnameOrigin::Custom(s) => SurnameOrigin::Custom(s.clone()),
        }
    }
}

#[derive(Debug, PartialEq, Eq)]
pub struct Surname {
    pub value: String,
    pub origin_type: SurnameOrigin,
    /// e.g. "van der", "y" for compound parts
    pub connector: Option<String>,
}

impl Clone for Surname {
    fn clone(&self) -> (r: Self)
        ensures
            r == *self,
    {
        Surname {
            value: self.value.clone(),
            origin_type: self.origin_type.clone(),
            connector: self.connector.clone(),
        }
    }
}

#[derive(Debug, PartialEq, Eq)]
pub struct PersonName {
    pub name_type: NameType,
    pub date_range: Option<DateValue>,
    /// First and middle names, e.g. "John Paul"
    pub given_names: String,
    pub call_name: Option<String>,
    pub surnames: Vec<Surname>,
    pub prefix: Option<String>,
    pub suffix: Option<String>,
    /// Override for cultural sorting (e.g. patronymic names sorted by first name)
    pub sort_as: Option<String>,
}

/// Two names hold the same values, field by field (the surnames by their
/// sequence).
pub open spec fn same_name(a: PersonName, b: PersonName) -> bool {
    &&& a.name_type == b.name_type
    &&& a.date_range == b.date_range
    &&& a.given_names == b.given_names
    &&& a.call_name == b.call_name
    &&& a.surnames@ == b.surnames@
    &&& a.prefix == b.prefix
    &&& a.suffix == b.suffix
    &&& a.sort_as == b.sort_as
}

/// A name with the given names `given` and every other field empty or default.
pub open spec fn plain_name(n: PersonName, given: Seq<char>) -> bool {
    &&& n.name_type is Birth
    &&& n.date_range is None
    &&& n.given_names@ == given
    &&& n.call_name is None
    &&& n.surnames@.len() == 0
    &&& n.prefix is None
    &&& n.suffix is None
    &&& n.sort_as is None
}

impl Default for PersonName {
    fn default() -> (r: Self)
        ensures
            plain_name(r, Seq::empty()),
    {
        PersonName {
            name_type: NameType::Birth,
            date_range: None,
            given_names: new_string(),
            call_name: None,
            surnames: Vec::new(),
            prefix: None,
            suffix: None,
            sort_as: None,
        }
    }
}

impl Clone for PersonName {
    fn clone(&self) -> (r: Self)
        ensures
            same_name(r, *self),
    {
        let surnames = self.surnames.clone();
        proof {
            assert(surnames@ =~= self.surnames@);
        }
        PersonName {
            name_type: self.name_type.clone(),
            date_range: self.date_range.clone(),
            given_names: self.given_names.clone(),
            call_name: self.call_name.clone(),
            surnames,
            prefix: self.prefix.clone(),
            suffix: self.suffix.clone(),
            sort_as: self.sort_as.clone(),
        }
    }
}

/// The surname values joined by single spaces; connectors take no part.
pub open spec fn joined_surnames(s: Seq<Surname>) -> Seq<char>
    decreases s.len(),
{
    if s.len() == 0 {
        Seq::empty()
    } else if s.len() == 1 {
        s[0].value@
    } else {
        joined_surnames(s.drop_last()) + seq![' '] + s.last().value@
    }
}

/// "surnames, given names" before case folding; the comma only when both
/// parts are non-empty.
pub open spec fn unfolded_sort_key(n: PersonName) -> Seq<char> {
    let key = joined_surnames(n.surnames@);
    if key.len() > 0 && n.given_names@.len() > 0 {
        key + seq![',', ' '] + n.given_names@
    } else {
        key + n.given_names@
    }
}

/// The sort key: the `sort_as` override verbatim, else the lowercased
/// "surnames, given names".
pub open spec fn sort_key_of(n: PersonName) -> Seq<char> {
    match n.sort_as {
        Some(k) => k@,
        None => lowercase(unfolded_sort_key(n)),
    }
}

impl PersonName {
    /// Generates a standardized sort key for this name.
    /// Connectors are ignored. "van der Bilt" sorts under "B".
    /// If `sort_as` is present, it returns that.
    pub fn sort_key(&self) -> (r: String)
        ensures
            r@ == sort_key_of(*self),
    {
        if let Some(k) = &self.sort_as {
            return k.clone();
        }
        let mut key = new_string();
        let mut i: usize = 0;
        while i < self.surnames.len()
            invariant
                i <= self.surnames@.len(),
                key@ == joined_surnames(self.surnames@.subrange(0, i as int)),
            decreases self.surnames@.len() - i,
        {
            if i > 0 {
                push_char(&mut key, ' ');
            }
            push_str(&mut key, self.surnames[i].value.as_str());
            proof {
                let s = self.surnames@.subrange(0, i + 1);
                assert(s.drop_last() =~= self.surnames@.subrange(0, i as int));
                if i == 0 {
                    assert(self.surnames@.subrange(0, 0) =~= Seq::<Surname>::empty());
                }
            }
            i = i + 1;
        }
        proof {
            assert(self.surnames@.subrange(0, i as int) =~= self.surnames@);
        }
        if !key.as_str().is_empty() && !self.given_names.as_str().is_empty() {
            push_str(&mut key, ", ");
            proof {
                reveal_strlit(", ");
                assert(seq![',', ' '] =~= ", "@);
            }
        }
        push_str(&mut key, self.given_names.as_str());
        to_lowercase(key.as_str())
    }
}

#[derive(Debug, PartialEq, Eq)]
pub struct Person {
    pub id: EntityId,
    pub names: Vec<PersonName>,
    pub gender: Gender,
    pub living: bool,
    pub private: bool,
    /// Original GEDCOM xref ID (e.g., "@I23@") for round-trip preservation
    pub original_xref: Option<String>,
    /// Escape hatch for unstructured vendor-specific tags
    pub _raw_gedcom: RawGedcom,
}

/// Index of the first birth name at or after `i`, or the length if none.
pub open spec fn first_birth_from(names: Seq<PersonName>, i: int) -> int
    decreases names.len() - i,
{
    if i < 0 || i >= names.len() {
        names.len() as int
    } else if names[i].name_type is Birth {
        i
    } else {
        first_birth_from(names, i + 1)
    }
}

/// Index of the primary name: the first birth name, else the first name.
pub open spec fn primary_index(names: Seq<PersonName>) -> int {
    let b = first_birth_from(names, 0);
    if b < names.len() {
        b
    } else {
        0
    }
}

pub proof fn lemma_first_birth_from_bounds(names: Seq<PersonName>, i: int)
    requires
        0 <= i <= names.len(),
    ensures
        i <= first_birth_from(names, i) <= names.len(),
        first_birth_from(names, i) < names.len() ==> names[first_birth_from(names, i)].name_type is Birth,
        forall|j: int| i <= j < first_birth_from(names, i) ==> !(names[j].name_type is Birth),
    decreases names.len() - i,
{
    if i < names.len() && !(names[i].name_type is Birth) {
        lemma_first_birth_from_bounds(names, i + 1);
    }
}

impl Person {
    /// Returns the primary name of the person.
    /// Tries to find a `Birth` name first, falls back to the 0th index,
    /// and generates an "Unknown" name if the list is empty.
    pub fn primary_name(&self) -> (r: PersonName)
        ensures
            self.names@.len() == 0 ==> plain_name(r, seq!['U', 'n', 'k', 'n', 'o', 'w', 'n']),
            self.names@.len() > 0 ==> same_name(r, self.names@[primary_index(self.names@)]),
    {
        if self.names.len() == 0 {
            let mut name = PersonName::default();
            name.given_names = str_to_string("Unknown");
            proof {
                reveal_strlit("Unknown");
                assert("Unknown"@ =~= seq!['U', 'n', 'k', 'n', 'o', 'w', 'n']);
            }
            return name;
        }
        let mut i: usize = 0;
        while i < self.names.len()
            invariant
                i <= self.names@.len(),
                first_birth_from(self.names@, 0) == first_birth_from(self.names@, i as int),
            decreases self.names@.len() - i,
        {
            if matches!(self.names[i].name_type, NameType::Birth) {
                return self.names[i].clone();
            }
            i = i + 1;
        }
        self.names[0].clone()
    }
}

} // verus!
