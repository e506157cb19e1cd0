use rustygene::event::{Event, EventParticipant, EventRole, EventType};
use rustygene::evidence::Source;
use rustygene::family::{Family, PartnerLink};
use rustygene::gedcom::diff::{generate_person_import_diff, FieldValue};
use rustygene::gedcom::matching::{
    birth_year, canonical_pair, fuzzy_name_match, match_families, match_persons, match_sources,
    normalize_text, GedcomRef, MatchConfidence,
};
use rustygene::person::{Person, PersonName, Surname, SurnameOrigin};
use rustygene::raw::RawGedcom;
use rustygene::types::{Calendar, DateValue, EntityId, FuzzyDate, Gender};

fn person(id: EntityId, given: &str, surname: &str, xref: Option<&str>) -> Person {
    Person {
        id,
        names: vec![PersonName {
            given_names: given.to_string(),
            surnames: vec![Surname {
                value: surname.to_string(),
                origin_type: SurnameOrigin::Patrilineal,
                connector: None,
            }],
            ..Default::default()
        }],
        gender: Gender::Male,
        living: false,
        private: false,
        original_xref: xref.map(|x| x.to_string()),
        _raw_gedcom: RawGedcom::new(),
    }
}

fn birth(person_id: EntityId, date: DateValue) -> Event {
    Event {
        id: EntityId::new(),
        event_type: EventType::Birth,
        date: Some(date),
        place_ref: None,
        participants: vec![EventParticipant {
            person_id,
            role: EventRole::Principal,
            census_role: None,
        }],
        description: None,
        _raw_gedcom: RawGedcom::new(),
    }
}

fn textual(s: &str) -> DateValue {
    DateValue::Textual { value: s.to_string() }
}

#[test]
fn fuzzy_name_and_birth_year_yields_medium_confidence() {
    let gedcom_person = person(EntityId::new(), "Homerx", "Simpson", None);
    let existing_person = person(EntityId::new(), "Homer", "Simpson", None);
    let gedcom_events = vec![birth(gedcom_person.id, textual("12 MAY 1956"))];
    let existing_events = vec![birth(existing_person.id, textual("MAY 1956"))];

    let result = match_persons(&[gedcom_person], &gedcom_events, &[existing_person], &existing_events, &[]);

    assert_eq!(result.matched.len(), 1);
    assert!(result.unmatched.is_empty());
    assert_eq!(result.matched[0].confidence, MatchConfidence::Medium);
}

#[test]
fn xref_table_gives_exact_matches_and_same_birth_gives_high() {
    let a = person(EntityId(1), "John", "Doe", Some("@I1@"));
    let b = person(EntityId(2), "Mary", "Roe", Some("@I9@"));
    let c = person(EntityId(3), "Nobody", "Known", None);
    let existing_b = person(EntityId(20), "Mary", "Roe", None);
    let ge = vec![birth(EntityId(2), textual("1 JAN 1900"))];
    let ee = vec![birth(EntityId(20), textual("1 JAN 1900"))];
    let prior = vec![("@I1@".to_string(), EntityId(10))];

    let result = match_persons(&[a, b, c], &ge, &[existing_b], &ee, &prior);

    assert_eq!(result.matched.len(), 2);
    assert_eq!(result.matched[0].entity_id, EntityId(10));
    assert_eq!(result.matched[0].confidence, MatchConfidence::Exact);
    assert_eq!(result.matched[1].entity_id, EntityId(20));
    assert_eq!(result.matched[1].confidence, MatchConfidence::High);
    assert_eq!(
        result.unmatched,
        vec![GedcomRef::Person { xref: None, label: "Nobody Known".to_string() }]
    );
}

#[test]
fn families_match_on_mapped_partner_pairs_once() {
    let fam = |id: u128, p1: u128, p2: u128| Family {
        id: EntityId(id),
        partner1_id: Some(EntityId(p1)),
        partner2_id: Some(EntityId(p2)),
        partner_link: PartnerLink::Married,
        couple_relationship: None,
        child_links: vec![],
        original_xref: None,
        _raw_gedcom: RawGedcom::new(),
    };
    let imported = vec![fam(1, 11, 12), fam(2, 12, 11), fam(3, 11, 13)];
    let existing = vec![fam(100, 22, 21)];
    let map = vec![(EntityId(11), EntityId(21)), (EntityId(12), EntityId(22))];

    let result = match_families(&imported, &existing, &map);

    assert_eq!(result.matched.len(), 1);
    assert_eq!(result.matched[0].entity_id, EntityId(100));
    assert_eq!(result.matched[0].confidence, MatchConfidence::High);
    assert_eq!(result.unmatched.len(), 2);
    assert_eq!(canonical_pair(Some(EntityId(5)), Some(EntityId(4))), Some((EntityId(4), EntityId(5))));
    assert_eq!(canonical_pair(Some(EntityId(5)), None), None);
}

#[test]
fn sources_match_on_normalized_title_and_author() {
    let src = |id: u128, title: &str, author: Option<&str>| Source {
        id: EntityId(id),
        title: title.to_string(),
        author: author.map(|a| a.to_string()),
        publication_info: None,
        abbreviation: None,
        repository_refs: vec![],
        original_xref: None,
        _raw_gedcom: RawGedcom::new(),
    };
    let imported = vec![src(1, "The 1881 Census!", Some("GRO")), src(2, "the 1881 census", Some("gro"))];
    let existing = vec![src(50, "THE 1881   CENSUS", Some("G.R.O."))];
    let result = match_sources(&imported, &existing);
    assert!(result.matched.is_empty());

    let existing = vec![src(50, "THE 1881   CENSUS", Some("gro"))];
    let result = match_sources(&imported, &existing);
    assert_eq!(result.matched.len(), 1);
    assert_eq!(result.matched[0].entity_id, EntityId(50));
    assert_eq!(result.unmatched.len(), 1);
}

#[test]
fn text_helpers() {
    assert_eq!(normalize_text("  Hello, World -- 42!"), "hello world 42");
    assert!(fuzzy_name_match("john smith", "jack smith"));
    assert!(!fuzzy_name_match("john smith", "mary smith"));
    assert_eq!(birth_year(Some(&textual("abt 12 1956"))), Some(1956));
    assert_eq!(birth_year(Some(&textual("1 2 3"))), None);
    let exact = DateValue::Exact { date: FuzzyDate::new(1801, None, None), calendar: Calendar::Gregorian };
    assert_eq!(birth_year(Some(&exact)), Some(1801));
}

#[test]
fn diff_reports_changed_fields_new_persons_and_unchanged() {
    let same = person(EntityId(1), "Ann", "Lee", Some("@I1@"));
    let changed = person(EntityId(2), "Bob", "Lee", Some("@I2@"));
    let existing = vec![person(EntityId(1), "Ann", "Lee", Some("@I1@")), person(EntityId(2), "Bob", "Lee", Some("@I2@"))];
    let ee = vec![birth(EntityId(2), textual("1900"))];
    let ge = vec![birth(EntityId(2), textual("1901"))];
    let newcomer = person(EntityId(3), "Cy", "Lee", Some("@I3@"));
    let imported = vec![same, changed, newcomer];
    let prior = vec![("@I1@".to_string(), EntityId(1)), ("@I2@".to_string(), EntityId(2))];

    let result = match_persons(&imported, &ge, &existing, &ee, &prior);
    let diff = generate_person_import_diff(&result, &imported, &ge, &existing, &ee, "update.ged");

    assert_eq!(diff.new_entities.len(), 1);
    assert_eq!(diff.unchanged, 1);
    assert_eq!(diff.updated_fields.len(), 1);
    let d = &diff.updated_fields[0];
    assert_eq!(d.entity_id, EntityId(2));
    assert_eq!(d.field, "birth.date");
    assert_eq!(d.old_value, FieldValue::Date(textual("1900")));
    assert_eq!(d.new_value, FieldValue::Date(textual("1901")));
    assert_eq!(d.source, "update.ged");
}

#[test]
fn diff_writes_custom_genders_as_debug_text() {
    let mut old = person(EntityId(1), "Ann", "Lee", Some("@I1@"));
    old.gender = Gender::Custom("x\"y".to_string());
    let new = person(EntityId(1), "Ann", "Lee", Some("@I1@"));
    let prior = vec![("@I1@".to_string(), EntityId(1))];
    let result = match_persons(&[copy(&new)], &[], &[copy(&old)], &[], &prior);
    let diff = generate_person_import_diff(&result, &[new], &[], &[old], &[], "s");
    assert_eq!(diff.updated_fields.len(), 1);
    assert_eq!(diff.updated_fields[0].field, "gender");
    assert_eq!(diff.updated_fields[0].old_value, FieldValue::Text("Custom(\"x\\\"y\")".to_string()));
    assert_eq!(diff.updated_fields[0].new_value, FieldValue::Text("Male".to_string()));
}

fn copy(p: &Person) -> Person {
    Person {
        id: p.id,
        names: p.names.clone(),
        gender: p.gender.clone(),
        living: p.living,
        private: p.private,
        original_xref: p.original_xref.clone(),
        _raw_gedcom: p._raw_gedcom.clone(),
    }
}
