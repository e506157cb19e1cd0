use rustygene::event::{Event, EventParticipant, EventRole, EventType};
use rustygene::evidence::{Media, Note, NoteType, Repository, RepositoryRef, RepositoryType, Source};
use rustygene::family::{ChildLink, Family, LineageType, PartnerLink};
use rustygene::gedcom::export::{
    export_gedcom_document,
    date_value_to_gedcom_string, family_to_fam_node, media_to_obje_node, note_to_note_node,
    person_name_to_name_node, person_to_indi_node, person_to_indi_node_with_policy, repository_to_repo_node,
    source_to_sour_node, ExportPrivacyPolicy,
};
use rustygene::gedcom::mapping::{indi_event_tag_to_type, map_indi_nodes_to_persons};
use rustygene::gedcom::serialize::render_gedcom_file;
use rustygene::gedcom::tokenizer::tokenize_gedcom;
use rustygene::gedcom::tree::build_gedcom_tree;
use rustygene::person::{NameType, Person, PersonName, Surname, SurnameOrigin};
use rustygene::raw::RawGedcom;
use rustygene::types::{Calendar, DateValue, EntityId, FuzzyDate, Gender};

fn person(given: &str, surname: &str, gender: Gender, xref: &str, raw: RawGedcom) -> Person {
    Person {
        id: EntityId::new(),
        names: vec![PersonName {
            name_type: NameType::Birth,
            given_names: given.to_string(),
            surnames: vec![Surname {
                value: surname.to_string(),
                origin_type: SurnameOrigin::Patrilineal,
                connector: None,
            }],
            ..Default::default()
        }],
        gender,
        living: false,
        private: false,
        original_xref: Some(xref.to_string()),
        _raw_gedcom: raw,
    }
}

#[test]
fn person_to_indi_node_renders_complete_person() {
    let person = person("John", "Smith", Gender::Male, "@I1@", RawGedcom::new());

    let node = person_to_indi_node(&person, &[], "@I1@");

    assert_eq!(node.level, 0);
    assert_eq!(node.xref, Some("@I1@".to_string()));
    assert_eq!(node.tag, "INDI");
    assert_eq!(node.value, None);

    let name_node = node.children.iter().find(|n| n.tag == "NAME");
    assert!(name_node.is_some());

    let sex_node = node.children.iter().find(|n| n.tag == "SEX");
    assert!(sex_node.is_some());
    assert_eq!(sex_node.unwrap().value, Some("M".to_string()));
}

#[test]
fn person_name_to_name_node_builds_gedcom_name_structure() {
    let name = PersonName {
        name_type: NameType::Birth,
        given_names: "John Paul".to_string(),
        surnames: vec![Surname {
            value: "Smith".to_string(),
            origin_type: SurnameOrigin::Patrilineal,
            connector: None,
        }],
        prefix: Some("Dr.".to_string()),
        suffix: Some("Jr.".to_string()),
        ..Default::default()
    };

    let node = person_name_to_name_node(&name);

    assert_eq!(node.tag, "NAME");
    assert_eq!(node.level, 1);
    assert!(node.value.as_ref().unwrap().contains("Smith"));
    assert!(node.children.iter().any(|n| n.tag == "GIVN"));
    assert!(node.children.iter().any(|n| n.tag == "SURN"));
    assert!(node.children.iter().any(|n| n.tag == "NPFX"));
    assert!(node.children.iter().any(|n| n.tag == "NSFX"));
}

#[test]
fn family_to_fam_node_renders_family_with_children() {
    let family = Family {
        id: EntityId::new(),
        partner1_id: Some(EntityId::new()),
        partner2_id: Some(EntityId::new()),
        partner_link: PartnerLink::Married,
        couple_relationship: None,
        child_links: vec![ChildLink {
            child_id: EntityId::new(),
            lineage_type: LineageType::Biological,
        }],
        original_xref: Some("@F1@".to_string()),
        _raw_gedcom: RawGedcom::new(),
    };

    let node = family_to_fam_node(&family, &[], "@F1@");

    assert_eq!(node.level, 0);
    assert_eq!(node.xref, Some("@F1@".to_string()));
    assert_eq!(node.tag, "FAM");
    assert!(node.children.iter().any(|n| n.tag == "HUSB"));
    assert!(node.children.iter().any(|n| n.tag == "WIFE"));
    assert!(node.children.iter().any(|n| n.tag == "CHIL"));
}

#[test]
fn family_to_fam_node_renders_child_lineage_with_pedi() {
    let family = Family {
        id: EntityId::new(),
        partner1_id: None,
        partner2_id: None,
        partner_link: PartnerLink::Unknown,
        couple_relationship: None,
        child_links: vec![ChildLink {
            child_id: EntityId::new(),
            lineage_type: LineageType::Adopted,
        }],
        original_xref: Some("@F2@".to_string()),
        _raw_gedcom: RawGedcom::new(),
    };

    let node = family_to_fam_node(&family, &[], "@F1@");

    let chil_node = node.children.iter().find(|n| n.tag == "CHIL");
    assert!(chil_node.is_some());

    let chil = chil_node.unwrap();
    let pedi_node = chil.children.iter().find(|n| n.tag == "PEDI");
    assert!(pedi_node.is_some());
    assert_eq!(pedi_node.unwrap().value, Some("ADOPTED".to_string()));
}

#[test]
fn source_to_sour_node_renders_source_with_details() {
    let source = Source {
        id: EntityId::new(),
        title: "1881 England Census".to_string(),
        author: Some("Census Bureau".to_string()),
        publication_info: Some("Published digitally in 1905".to_string()),
        abbreviation: Some("Census 1881".to_string()),
        repository_refs: vec![RepositoryRef {
            repository_id: EntityId::new(),
            call_number: Some("RG11".to_string()),
            media_type: Some("microfilm".to_string()),
        }],
        original_xref: Some("@S1@".to_string()),
        _raw_gedcom: RawGedcom::new(),
    };

    let node = source_to_sour_node(&source, "@S1@");

    assert_eq!(node.level, 0);
    assert_eq!(node.xref, Some("@S1@".to_string()));
    assert_eq!(node.tag, "SOUR");
    assert!(node.children.iter().any(|n| n.tag == "TITL"));
    assert!(node.children.iter().any(|n| n.tag == "AUTH"));
    assert!(node.children.iter().any(|n| n.tag == "PUBL"));
    assert!(node.children.iter().any(|n| n.tag == "ABBR"));
    assert!(node.children.iter().any(|n| n.tag == "REPO"));
}

#[test]
fn repository_to_repo_node_renders_repository() {
    let repository = Repository {
        id: EntityId::new(),
        name: "The National Archives".to_string(),
        repository_type: RepositoryType::Archive,
        address: Some("Kew, Richmond, Surrey, TW9 4DU".to_string()),
        urls: vec!["https://www.nationalarchives.gov.uk".to_string()],
        original_xref: Some("@R1@".to_string()),
        _raw_gedcom: RawGedcom::new(),
    };

    let node = repository_to_repo_node(&repository, "@R1@");

    assert_eq!(node.level, 0);
    assert_eq!(node.xref, Some("@R1@".to_string()));
    assert_eq!(node.tag, "REPO");

    let name_node = node.children.iter().find(|n| n.tag == "NAME");
    assert!(name_node.is_some());
    assert_eq!(name_node.unwrap().value, Some("The National Archives".to_string()));
    assert!(node.children.iter().any(|n| n.tag == "ADDR"));
    assert!(node.children.iter().any(|n| n.tag == "WWW"));
}

#[test]
fn note_to_note_node_renders_note() {
    let note = Note {
        id: EntityId::new(),
        text: "This is a research note about John Smith.".to_string(),
        note_type: NoteType::Research,
        original_xref: Some("@N1@".to_string()),
        _raw_gedcom: RawGedcom::new(),
    };

    let node = note_to_note_node(&note, "@N1@");

    assert_eq!(node.level, 0);
    assert_eq!(node.xref, Some("@N1@".to_string()));
    assert_eq!(node.tag, "NOTE");
    assert_eq!(node.value, Some("This is a research note about John Smith.".to_string()));
    assert!(node.children.is_empty());
}

#[test]
fn media_to_obje_node_renders_media() {
    let media = Media {
        id: EntityId::new(),
        file_path: "/path/to/census.jpg".to_string(),
        content_hash: "abc123".to_string(),
        mime_type: "image/jpeg".to_string(),
        thumbnail_path: None,
        ocr_text: None,
        dimensions_px: None,
        physical_dimensions_mm: None,
        caption: None,
        original_xref: Some("@O1@".to_string()),
        _raw_gedcom: RawGedcom::new(),
    };

    let node = media_to_obje_node(&media, "@O1@");

    assert_eq!(node.level, 0);
    assert_eq!(node.xref, Some("@O1@".to_string()));
    assert_eq!(node.tag, "OBJE");

    let file_node = node.children.iter().find(|n| n.tag == "FILE");
    assert!(file_node.is_some());
    assert_eq!(file_node.unwrap().value, Some("/path/to/census.jpg".to_string()));

    let medi_node = node.children.iter().find(|n| n.tag == "MEDI");
    assert!(medi_node.is_some());
    assert_eq!(medi_node.unwrap().value, Some("image/jpeg".to_string()));
}

#[test]
fn person_to_indi_node_reemits_root_and_nested_custom_subtrees() {
    let mut raw = RawGedcom::new();
    raw.insert("CUSTOM__UID_0".to_string(), "1 _UID abc-123\n".to_string());
    raw.insert("CUSTOM__MARNM_1".to_string(), "2 _MARNM Jones\n3 TYPE aka\n".to_string());

    let person = person("Jane", "Doe", Gender::Unknown, "@I2@", raw);

    let node = person_to_indi_node(&person, &[], "@I1@");

    let uid_node = node.children.iter().find(|child| child.tag == "_UID");
    assert!(uid_node.is_some());
    assert_eq!(uid_node.expect("uid custom tag").value.as_deref(), Some("abc-123"));

    let name_node = node.children.iter().find(|child| child.tag == "NAME").expect("name node");
    let married_name = name_node.children.iter().find(|child| child.tag == "_MARNM");
    assert!(married_name.is_some());
    assert_eq!(married_name.expect("marnm custom tag").value.as_deref(), Some("Jones"));
    assert!(name_node
        .children
        .iter()
        .find(|child| child.tag == "_MARNM")
        .expect("marnm custom tag")
        .children
        .iter()
        .any(|child| child.tag == "TYPE" && child.value.as_deref() == Some("aka")));
}

#[test]
fn source_to_sour_node_reemits_custom_subtree() {
    let mut raw = RawGedcom::new();
    raw.insert("CUSTOM__TMPLT".to_string(), "1 _TMPLT census\n2 TYPE household\n".to_string());

    let source = Source {
        id: EntityId::new(),
        title: "1881 census".to_string(),
        author: None,
        publication_info: None,
        abbreviation: None,
        repository_refs: Vec::new(),
        original_xref: Some("@S2@".to_string()),
        _raw_gedcom: raw,
    };

    let node = source_to_sour_node(&source, "@S1@");
    let template = node.children.iter().find(|child| child.tag == "_TMPLT");
    assert!(template.is_some());
    assert!(template
        .expect("template custom tag")
        .children
        .iter()
        .any(|child| child.tag == "TYPE" && child.value.as_deref() == Some("household")));
}

#[test]
fn render_gedcom_file_wraps_entities_with_head_and_trailer() {
    let person = person("John", "Doe", Gender::Male, "@I3@", RawGedcom::new());

    let entity_nodes = vec![person_to_indi_node(&person, &[], "@I1@")];
    let rendered = render_gedcom_file(&entity_nodes);

    assert!(rendered.starts_with("0 HEAD\n1 SOUR RUSTYGENE\n"));
    assert!(rendered.contains("1 CHAR UTF-8\n0 @I1@ INDI\n"));
    assert!(rendered.ends_with("0 TRLR\n"));

    let lines = tokenize_gedcom(&rendered).expect("tokenize full GEDCOM document");
    let roots = build_gedcom_tree(&lines).expect("build GEDCOM tree from rendered document");
    assert_eq!(roots.first().map(|node| node.tag.as_str()), Some("HEAD"));
    assert_eq!(roots.get(1).map(|node| node.tag.as_str()), Some("INDI"));
    assert_eq!(roots.last().map(|node| node.tag.as_str()), Some("TRLR"));
}

#[test]
fn person_to_indi_node_with_policy_redacts_living_person() {
    let mut raw = RawGedcom::new();
    raw.insert("CUSTOM__UID_0".to_string(), "1 _UID should-not-leak\n".to_string());
    let mut person = person("Alice", "Jones", Gender::Female, "@I4@", raw);
    person.living = true;

    let node = person_to_indi_node_with_policy(&person, &[], "@I1@", ExportPrivacyPolicy::RedactLiving)
        .expect("living person should be redacted, not omitted");

    let name_node = node.children.iter().find(|child| child.tag == "NAME").expect("name node");
    assert_eq!(name_node.value.as_deref(), Some("Living"));
    assert!(!node.children.iter().any(|child| child.tag == "_UID"));
    assert!(node.children.iter().any(|child| child.tag == "SEX" && child.value.as_deref() == Some("F")));
}

#[test]
fn person_to_indi_node_with_policy_omits_private_person() {
    let mut person = person("Private", "Person", Gender::Unknown, "@I5@", RawGedcom::new());
    person.private = true;

    assert!(person_to_indi_node_with_policy(&person, &[], "@I1@", ExportPrivacyPolicy::RedactLiving).is_none());
}

#[test]
fn person_events_are_exported_with_gedcom_dates_and_places() {
    let person = person("John", "Doe", Gender::Male, "@I7@", RawGedcom::new());
    let birth = Event {
        id: EntityId::new(),
        event_type: EventType::Birth,
        date: Some(DateValue::Exact {
            date: FuzzyDate::new(1850, Some(5), Some(1)),
            calendar: Calendar::Gregorian,
        }),
        place_ref: None,
        participants: vec![EventParticipant {
            person_id: person.id,
            role: EventRole::Principal,
            census_role: None,
        }],
        description: Some("place: Springfield".to_string()),
        _raw_gedcom: RawGedcom::new(),
    };
    let node = person_to_indi_node(&person, &[birth], "@I7@");
    let birt = node.children.iter().find(|child| child.tag == "BIRT").expect("birth node");
    assert!(birt.children.iter().any(|c| c.tag == "DATE" && c.value.as_deref() == Some("1 MAY 1850")));
    assert!(birt.children.iter().any(|c| c.tag == "PLAC" && c.value.as_deref() == Some("Springfield")));
}

#[test]
fn gedcom_date_strings_for_each_kind() {
    let d = FuzzyDate::new(1850, Some(5), Some(1));
    let g = Calendar::Gregorian;
    assert_eq!(date_value_to_gedcom_string(&DateValue::Exact { date: d.clone(), calendar: g.clone() }), "1 MAY 1850");
    assert_eq!(date_value_to_gedcom_string(&DateValue::Before { date: d.clone(), calendar: g.clone() }), "BEF 1 MAY 1850");
    assert_eq!(date_value_to_gedcom_string(&DateValue::About { date: FuzzyDate::new(1900, None, None), calendar: g.clone() }), "ABT 1900");
    assert_eq!(
        date_value_to_gedcom_string(&DateValue::Textual { value: "Easter 1850".to_string() }),
        "Easter 1850"
    );
}

#[test]
fn exported_event_tags_map_back_to_their_event_types() {
    let person = person("Ann", "Lee", Gender::Female, "@I9@", RawGedcom::new());
    let types = vec![
        EventType::Birth,
        EventType::Death,
        EventType::Burial,
        EventType::Baptism,
        EventType::Census,
        EventType::Residence,
        EventType::Custom("christening".to_string()),
        EventType::Custom("num_marriages".to_string()),
        EventType::Custom("general_event".to_string()),
    ];
    for t in types {
        let event = Event {
            id: EntityId::new(),
            event_type: t.clone(),
            date: None,
            place_ref: None,
            participants: vec![EventParticipant {
                person_id: person.id,
                role: EventRole::Principal,
                census_role: None,
            }],
            description: None,
            _raw_gedcom: RawGedcom::new(),
        };
        let node = person_to_indi_node(&person, &[event], "@I9@");
        let tags: Vec<&str> = node
            .children
            .iter()
            .map(|c| c.tag.as_str())
            .filter(|tag| indi_event_tag_to_type(tag).is_some())
            .collect();
        assert_eq!(tags.len(), 1);
        assert_eq!(indi_event_tag_to_type(tags[0]), Some(t));
    }
}

#[test]
fn kept_vendor_subtree_is_reemitted_unchanged() {
    let input = "0 @I1@ INDI\n1 NAME Ann /Lee/\n1 _MILT @X1@ Naval  Reserve \n2 _UNIT 3rd\n3 _NOTE é ü\n2 DATE 1 JAN 1940\n0 TRLR\n";
    let lines = tokenize_gedcom(input).expect("tokenize");
    let roots = build_gedcom_tree(&lines).expect("tree");
    let persons = map_indi_nodes_to_persons(&roots);
    let node = person_to_indi_node(&persons[0], &[], "@I1@");
    let milt = node.children.iter().find(|c| c.tag == "_MILT").expect("kept subtree");
    let original = roots[0].children.iter().find(|c| c.tag == "_MILT").expect("source subtree");
    assert_eq!(milt.level, original.level);
    assert_eq!(milt.value, original.value);
    assert_eq!(milt.value.as_deref(), Some("@X1@ Naval  Reserve "));
    assert_eq!(milt.children.len(), 2);
    assert_eq!(milt.children[0].tag, "_UNIT");
    assert_eq!(milt.children[0].children[0].value.as_deref(), Some("é ü"));
    assert_eq!(milt.children[1].tag, "DATE");
    assert_eq!(milt.children[1].value.as_deref(), Some("1 JAN 1940"));
}

#[test]
fn export_document_orders_records_and_leaves_out_private_persons() {
    let a = person("Ann", "Lee", Gender::Female, "@I7@", RawGedcom::new());
    let mut hidden = person("Hid", "Den", Gender::Male, "@I8@", RawGedcom::new());
    hidden.private = true;
    let mut b = person("Bob", "Lee", Gender::Male, "@I9@", RawGedcom::new());
    b.original_xref = None;
    let text = export_gedcom_document(
        &[a, hidden, b],
        &[],
        &[],
        &[],
        &[],
        &[],
        &[],
        ExportPrivacyPolicy::Off,
    );
    assert!(text.starts_with("0 HEAD\n1 SOUR RUSTYGENE\n1 GEDC\n2 VERS 5.5.1\n2 FORM LINEAGE-LINKED\n1 LANG ENG\n1 CHAR UTF-8\n"));
    assert!(text.contains("0 @I7@ INDI\n"));
    assert!(!text.contains("@I8@"));
    assert!(text.contains("0 @I3@ INDI\n"));
    assert!(text.ends_with("0 TRLR\n"));
    let i7 = text.find("@I7@").expect("first person");
    let i3 = text.find("@I3@").expect("third person");
    assert!(i7 < i3);
}

#[test]
fn name_type_and_chan_survive_import_export_reimport_and_head_has_required_fields() {
    let input = "0 HEAD\n1 SOUR TEST\n1 GEDC\n2 VERS 5.5.1\n1 CHAR UTF-8\n0 @I1@ INDI\n1 NAME John /Doe/\n2 TYPE AKA\n1 CHAN\n2 DATE 1 APR 2026\n3 TIME 20:15:01\n0 TRLR\n";

    let lines = tokenize_gedcom(input).expect("tokenize input");
    let roots = build_gedcom_tree(&lines).expect("build tree");
    let persons = map_indi_nodes_to_persons(&roots);
    let person = persons.first().expect("person parsed");
    assert_eq!(person.names.first().map(|n| &n.name_type), Some(&NameType::Aka));

    let exported = render_gedcom_file(&[person_to_indi_node(person, &[], "@I1@")]);

    assert!(exported.contains("2 TYPE AKA\n"));
    assert!(exported.contains("1 CHAN\n2 DATE 1 APR 2026\n3 TIME 20:15:01\n"));

    assert!(exported.contains("1 SOUR RUSTYGENE\n"));
    assert!(exported.contains("2 VERS 5.5.1\n"));
    assert!(exported.contains("2 FORM LINEAGE-LINKED\n"));
    assert!(exported.contains("1 CHAR UTF-8\n"));
    assert!(exported.contains("1 LANG ENG\n"));

    let exported_lines = tokenize_gedcom(&exported).expect("tokenize exported");
    let exported_roots = build_gedcom_tree(&exported_lines).expect("build exported tree");
    let roundtrip_persons = map_indi_nodes_to_persons(&exported_roots);
    let roundtrip_person = roundtrip_persons.first().expect("roundtrip person");

    assert_eq!(roundtrip_person.names.first().map(|n| &n.name_type), Some(&NameType::Aka));
}

#[test]
fn name_type_values_map_case_insensitively_with_custom_fallback() {
    check_name_type("married", NameType::Married);
    check_name_type(" Birth ", NameType::Birth);
    check_name_type("IMMIGRANT", NameType::Immigrant);
    check_name_type("religious", NameType::Religious);
    check_name_type("Maiden", NameType::Custom("Maiden".to_string()));
}

fn check_name_type(value: &str, expected: NameType) {
    let input = format!("0 @I1@ INDI\n1 NAME Ann /Roe/\n2 TYPE {}\n", value);
    let lines = tokenize_gedcom(&input).expect("tokenize");
    let roots = build_gedcom_tree(&lines).expect("tree");
    let persons = map_indi_nodes_to_persons(&roots);
    assert_eq!(persons[0].names[0].name_type, expected);
}

#[test]
fn change_record_with_vendor_child_is_written_back_once() {
    let input = "0 @I1@ INDI\n1 NAME Jane /Doe/\n1 CHAN\n2 DATE 1 JAN 2020\n2 _UID abc\n1 _MILT Naval Reserve\n";
    let lines = tokenize_gedcom(input).expect("tokenize");
    let roots = build_gedcom_tree(&lines).expect("tree");
    let persons = map_indi_nodes_to_persons(&roots);
    let exported = render_gedcom_file(&[person_to_indi_node(&persons[0], &[], "@I1@")]);
    assert!(exported.contains("1 CHAN\n2 DATE 1 JAN 2020\n2 _UID abc\n1 _MILT Naval Reserve\n"));
    assert_eq!(exported.matches("_UID").count(), 1);
    assert_eq!(exported.matches("_MILT").count(), 1);
}
