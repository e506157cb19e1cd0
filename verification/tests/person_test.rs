use rustygene::person::{NameType, Person, PersonName, Surname, SurnameOrigin};
use rustygene::raw::RawGedcom;
use rustygene::types::{EntityId, Gender};

#[test]
fn test_sort_key_standard() {
    let name = PersonName {
        given_names: "John".to_string(),
        surnames: vec![Surname {
            value: "Smith".to_string(),
            origin_type: SurnameOrigin::Patrilineal,
            connector: None,
        }],
        ..Default::default()
    };
    assert_eq!(name.sort_key(), "smith, john");
}

#[test]
fn test_sort_key_connector() {
    let name = PersonName {
        given_names: "Vincent".to_string(),
        surnames: vec![Surname {
            value: "Gogh".to_string(),
            origin_type: SurnameOrigin::Patrilineal,
            connector: Some("van".to_string()),
        }],
        ..Default::default()
    };
    assert_eq!(name.sort_key(), "gogh, vincent");
}

#[test]
fn test_sort_key_override() {
    let name = PersonName {
        given_names: "Jón".to_string(),
        surnames: vec![Surname {
            value: "Stefánsson".to_string(),
            origin_type: SurnameOrigin::Patronymic,
            connector: None,
        }],
        sort_as: Some("Jón Stefánsson".to_string()),
        ..Default::default()
    };
    assert_eq!(name.sort_key(), "Jón Stefánsson");
}

#[test]
fn test_primary_name() {
    let p = Person {
        id: EntityId::new(),
        names: vec![
            PersonName {
                name_type: NameType::Married,
                given_names: "Jane".to_string(),
                surnames: vec![Surname {
                    value: "Doe".to_string(),
                    origin_type: SurnameOrigin::Patrilineal,
                    connector: None,
                }],
                ..Default::default()
            },
            PersonName {
                name_type: NameType::Birth,
                given_names: "Jane".to_string(),
                surnames: vec![Surname {
                    value: "Smith".to_string(),
                    origin_type: SurnameOrigin::Patrilineal,
                    connector: None,
                }],
                ..Default::default()
            },
        ],
        gender: Gender::Female,
        living: false,
        private: false,
        original_xref: Some("@I42@".to_string()),
        _raw_gedcom: RawGedcom::new(),
    };

    let primary = p.primary_name();
    assert_eq!(primary.name_type, NameType::Birth);
    assert_eq!(primary.surnames[0].value, "Smith");
}

#[test]
fn primary_name_falls_back_to_first_then_unknown() {
    let mut p = Person {
        id: EntityId::new(),
        names: vec![PersonName {
            name_type: NameType::Aka,
            given_names: "Jo".to_string(),
            ..Default::default()
        }],
        gender: Gender::Unknown,
        living: true,
        private: false,
        original_xref: None,
        _raw_gedcom: RawGedcom::new(),
    };
    assert_eq!(p.primary_name().given_names, "Jo");
    p.names.clear();
    let unknown = p.primary_name();
    assert_eq!(unknown.given_names, "Unknown");
    assert!(unknown.surnames.is_empty());
    assert_eq!(unknown.name_type, NameType::Birth);
}

#[test]
fn sort_key_joins_several_surnames_and_lowercases() {
    let name = PersonName {
        given_names: "ANA".to_string(),
        surnames: vec![
            Surname {
                value: "García".to_string(),
                origin_type: SurnameOrigin::Patrilineal,
                connector: None,
            },
            Surname {
                value: "LÓPEZ".to_string(),
                origin_type: SurnameOrigin::Matrilineal,
                connector: Some("y".to_string()),
            },
        ],
        ..Default::default()
    };
    assert_eq!(name.sort_key(), "garcía lópez, ana");
}
