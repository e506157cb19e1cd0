use rustygene::assertion::{AssertionStatus, EvidenceType};
use rustygene::event::EventType;
use rustygene::evidence::CropRectPct;
use rustygene::gedcom::assertions::{generate_import_assertions, AssertionValue, EntityType};
use rustygene::gedcom::import::{import_report, prepare_gedcom_import, GedcomImport};
use rustygene::gedcom::mapping::{map_family_nodes, map_indi_nodes_to_events, map_indi_nodes_to_persons};
use rustygene::gedcom::records::map_media_note_lds;
use rustygene::gedcom::sources::map_source_chain;
use rustygene::gedcom::tokenizer::tokenize_gedcom;
use rustygene::gedcom::tree::build_gedcom_tree;
use rustygene::lds::LdsOrdinanceType;
use rustygene::types::ActorRef;

fn import(job: &str, input: &str) -> GedcomImport {
    match prepare_gedcom_import(job, input) {
        Ok(imp) => imp,
        Err(e) => panic!("import should succeed: {}", e.to_text()),
    }
}

#[test]
fn generate_import_assertions_sets_metadata_and_propagates_event_citations() {
    let input = "0 @S1@ SOUR\n1 TITL Parish Register\n0 @I1@ INDI\n1 NAME John /Doe/\n0 @I2@ INDI\n1 NAME Jane /Smith/\n0 @F1@ FAM\n1 HUSB @I1@\n1 WIFE @I2@\n1 MARR\n2 DATE 12 JUN 1880\n2 SOUR @S1@\n3 PAGE 42\n";
    let lines = tokenize_gedcom(input).expect("tokenize should succeed");
    let roots = build_gedcom_tree(&lines).expect("tree build should succeed");
    let persons = map_indi_nodes_to_persons(&roots);
    let source_mapping = map_source_chain(&roots);
    let family_mapping = map_family_nodes(&roots);
    let media_note_lds_mapping = map_media_note_lds(&roots);

    let assertions = generate_import_assertions(
        "job-42",
        &persons,
        &family_mapping,
        &source_mapping,
        &media_note_lds_mapping,
        &[],
    );

    let marriage_event = family_mapping
        .events
        .iter()
        .find(|event| event.event_type == EventType::Marriage)
        .expect("marriage event");
    let event_assertion = assertions
        .iter()
        .find(|record| {
            record.entity_type == EntityType::Event
                && record.entity_id == marriage_event.id
                && record.field == "event_type"
        })
        .expect("event assertion");

    assert_eq!(event_assertion.assertion.status, AssertionStatus::Confirmed);
    assert_eq!(event_assertion.assertion.evidence_type, EvidenceType::Direct);
    assert_eq!(event_assertion.assertion.proposed_by, ActorRef::Import("job-42".to_string()));
    assert_eq!(event_assertion.assertion.source_citations.len(), 1);
    assert_eq!(event_assertion.assertion.reviewed_at, None);
    assert_eq!(event_assertion.assertion.reviewed_by, None);
    assert!(event_assertion.assertion.created_at > 0);

    let participant_assertions: Vec<_> = assertions
        .iter()
        .filter(|record| {
            record.entity_type == EntityType::Person
                && record.field == "event_participation"
                && marriage_event
                    .participants
                    .iter()
                    .any(|participant| participant.person_id == record.entity_id)
        })
        .collect();

    assert_eq!(participant_assertions.len(), 2);
    assert!(participant_assertions.iter().all(|record| {
        record.assertion.status == AssertionStatus::Confirmed
            && record.assertion.evidence_type == EvidenceType::Direct
            && record.assertion.proposed_by == ActorRef::Import("job-42".to_string())
            && record.assertion.source_citations == event_assertion.assertion.source_citations
    }));
}

#[test]
fn generate_import_assertions_links_citations_to_person_level_events() {
    let input = "0 @S1@ SOUR\n1 TITL Birth Record\n0 @I1@ INDI\n1 NAME John /Doe/\n1 BIRT\n2 DATE 12 JUN 1920\n2 SOUR @S1@\n3 PAGE 42\n";

    let lines = tokenize_gedcom(input).expect("tokenize should succeed");
    let roots = build_gedcom_tree(&lines).expect("tree build should succeed");
    let persons = map_indi_nodes_to_persons(&roots);
    let person_events = map_indi_nodes_to_events(&roots);
    let source_mapping = map_source_chain(&roots);
    let family_mapping = map_family_nodes(&roots);
    let media_note_lds_mapping = map_media_note_lds(&roots);

    let assertions = generate_import_assertions(
        "job-43",
        &persons,
        &family_mapping,
        &source_mapping,
        &media_note_lds_mapping,
        &person_events,
    );

    let birth_event = person_events
        .iter()
        .find(|event| event.event_type == EventType::Birth)
        .expect("birth event should exist");

    let event_assertion = assertions
        .iter()
        .find(|record| {
            record.entity_type == EntityType::Event
                && record.entity_id == birth_event.id
                && record.field == "event_type"
        })
        .expect("birth event_type assertion should exist");

    assert_eq!(
        event_assertion.assertion.source_citations.len(),
        1,
        "birth event should have exactly 1 citation"
    );

    let citation_ref = &event_assertion.assertion.source_citations[0];
    let citation = source_mapping
        .citations
        .iter()
        .find(|c| c.id == citation_ref.citation_id)
        .expect("citation should exist");
    assert_eq!(citation.page.as_deref(), Some("42"));
}

#[test]
fn import_pipeline_reports_unknown_tags_preserved() {
    let input = "0 @I1@ INDI\n1 NAME Jane /Doe/\n1 _MILT Naval Reserve\n2 TYPE service\n0 TRLR\n";
    let report = import_report(&import("job-raw-tags", input));
    assert!(report.unknown_tags_preserved >= 1);
}

#[test]
fn import_empty_gedcom_head_trlr_only() {
    let input = "0 HEAD\n1 SOUR TEST\n1 CHAR UTF-8\n0 TRLR\n";
    let imp = import("job-empty", input);
    assert_eq!(imp.persons.len(), 0, "Empty GEDCOM should have zero persons");
    assert_eq!(imp.assertions.len(), 0, "Empty GEDCOM should have zero assertions");
}

#[test]
fn import_gedcom_source_only_no_persons() {
    let input = "0 HEAD\n1 SOUR TEST\n1 CHAR UTF-8\n0 @S1@ SOUR\n1 TITL A Source\n0 TRLR\n";
    let imp = import("job-source-only", input);
    assert_eq!(imp.source_mapping.sources.len(), 1, "Source-only GEDCOM should have one source");
    assert_eq!(imp.persons.len(), 0, "Source-only GEDCOM should have zero persons");
}

#[test]
fn import_gedcom_with_long_note_continuations() {
    let input = "0 HEAD\n1 SOUR TEST\n1 CHAR UTF-8\n0 @N1@ NOTE Title\n1 CONC  long line\n1 CONC  that continues\n1 CONT with multiple\n1 CONT continuation\n1 CONC  markers\n1 CONT and should\n1 CONC  preserve all\n1 CONT the text\n1 CONC  without loss\n1 CONT of data\n1 CONC  even with\n1 CONT many lines\n0 TRLR\n";
    let imp = import("job-long-note", input);
    assert_eq!(imp.media_note_lds_mapping.notes.len(), 1, "GEDCOM should have one note");
    let note = &imp.media_note_lds_mapping.notes[0];
    assert!(note.text.len() > 50, "Note text should be long (got: {})", note.text.len());
    assert!(
        note.text.contains("long line") && note.text.contains("many lines"),
        "Note should contain original segments"
    );
}

#[test]
fn import_gedcom_with_lds_ordinances() {
    let input = "0 HEAD\n1 SOUR TEST\n1 CHAR UTF-8\n0 @I1@ INDI\n1 NAME John /Test/\n1 BAPL\n2 STAT COMPLETED\n0 TRLR\n";
    let imp = import("job-lds", input);
    let ordinances = &imp.media_note_lds_mapping.lds_ordinances;
    assert!(!ordinances.is_empty(), "GEDCOM with baptism should have LDS ordinances");
    assert_eq!(ordinances[0].ordinance_type, LdsOrdinanceType::Baptism, "BAPL should map to baptism");
}

#[test]
fn import_gedcom_with_deep_nesting() {
    let input = "0 HEAD\n1 SOUR TEST\n1 CHAR UTF-8\n0 @I1@ INDI\n1 NAME John Paul James Michael /Smith Jr./\n2 GIVN John Paul James Michael\n2 SURN Smith Jr.\n2 NPFX Dr.\n2 NSFX Jr.\n1 NOTE Research note\n2 CONC with details\n0 TRLR\n";
    let imp = import("job-deep-nest", input);
    assert_eq!(imp.persons.len(), 1, "GEDCOM should have one person");
    let person = &imp.persons[0];
    assert!(!person.names.is_empty(), "Person should have at least one name");
    let name = &person.names[0];
    assert!(!name.given_names.is_empty(), "Name should have given names");
    assert!(!name.surnames.is_empty(), "Name should have surnames");
}

#[test]
fn import_gedcom_with_non_ascii_characters() {
    let input = "0 HEAD\n1 SOUR TEST\n1 CHAR UTF-8\n0 @I1@ INDI\n1 NAME François /Müller/\n1 NOTE Åse Søren Øyvind et français naïve résumé ñ\n0 TRLR\n";
    let imp = import("job-utf8", input);
    assert_eq!(imp.persons.len(), 1, "GEDCOM should have one person");
    let person = &imp.persons[0];
    assert!(person.names[0].given_names.contains("François"));
    assert!(person.names[0].surnames[0].value.contains("Müller"));
}

#[test]
fn import_gedcom_with_multiple_surnames_and_prefixes() {
    let input = "0 HEAD\n1 SOUR TEST\n1 CHAR UTF-8\n0 @I1@ INDI\n1 NAME John /Smith Jones/\n2 GIVN John\n2 SURN Smith Jones\n0 TRLR\n";
    let imp = import("job-multi-surn", input);
    assert_eq!(imp.persons.len(), 1);
    assert!(!imp.persons[0].names[0].surnames.is_empty());
}

#[test]
fn import_gedcom_preserves_custom_tags() {
    let input = "0 HEAD\n1 SOUR TEST\n1 CHAR UTF-8\n0 @I1@ INDI\n1 NAME John /Test/\n1 _UID abc-123-def\n1 _CUSTOM Some value\n2 _NESTED Nested custom\n0 TRLR\n";
    let imp = import("job-custom", input);
    assert_eq!(imp.persons.len(), 1);
    assert!(imp.persons[0]._raw_gedcom.len() > 0, "Custom tags should be preserved");
}

#[test]
fn import_report_counts_match_the_imported_entities() {
    let input = "0 @S1@ SOUR\n1 TITL Parish Register\n0 @I1@ INDI\n1 NAME John /Doe/\n1 SEX M\n1 BIRT\n2 DATE 1 JAN 1850\n0 @I2@ INDI\n1 NAME Jane /Smith/\n0 @F1@ FAM\n1 HUSB @I1@\n1 WIFE @I2@\n1 MARR\n2 DATE 12 JUN 1880\n0 TRLR\n";
    let imp = import("job-counts", input);
    let report = import_report(&imp);
    let count = |k: &str| {
        report
            .entities_created_by_type
            .iter()
            .find(|(key, _)| key == k)
            .map(|(_, n)| *n)
            .unwrap_or(0)
    };
    assert_eq!(count("person"), 2);
    assert_eq!(count("family"), 1);
    assert_eq!(count("relationship"), imp.family_mapping.relationships.len());
    assert_eq!(count("event"), 2);
    assert_eq!(count("source"), 1);
    assert_eq!(report.assertions_created, imp.assertions.len());
    assert!(imp.assertions.iter().any(|r| r.field == "name"));
    assert!(imp.assertions.iter().any(|r| r.field == "gender"));
}

#[test]
fn inline_note_links_and_text_generate_typed_note_assertions_for_person_and_event() {
    let input = "0 HEAD\n1 SOUR TEST\n1 GEDC\n2 VERS 5.5.1\n1 CHAR UTF-8\n0 @S1@ SOUR\n1 TITL Parish register\n0 @N1@ NOTE Root note text\n0 @I1@ INDI\n1 NAME John /Doe/\n1 SEX M\n1 NOTE @N1@\n1 NOTE Inline person note\n2 SOUR @S1@\n1 BIRT\n2 DATE 1 JAN 1900\n2 NOTE @N1@\n2 NOTE Inline birth note\n3 SOUR @S1@\n0 TRLR\n";

    let lines = tokenize_gedcom(input).expect("tokenize GEDCOM");
    let roots = build_gedcom_tree(&lines).expect("build GEDCOM tree");

    let persons = map_indi_nodes_to_persons(&roots);
    let family_mapping = map_family_nodes(&roots);
    let source_mapping = map_source_chain(&roots);
    let media_note_lds_mapping = map_media_note_lds(&roots);
    let person_events = map_indi_nodes_to_events(&roots);

    let assertions = generate_import_assertions(
        "test-note-ref-job",
        &persons,
        &family_mapping,
        &source_mapping,
        &media_note_lds_mapping,
        &person_events,
    );

    let person_id = persons[0].id;
    let birth_event_id = person_events
        .iter()
        .find(|event| matches!(event.event_type, EventType::Birth))
        .expect("birth event")
        .id;

    let count = |t: EntityType, id, field: &str| {
        assertions
            .iter()
            .filter(|record| record.entity_type == t && record.entity_id == id && record.field == field)
            .count()
    };

    assert!(count(EntityType::Person, person_id, "note_ref") >= 1, "expected typed note_ref assertion for INDI NOTE @N...@");
    assert!(count(EntityType::Person, person_id, "note") >= 1, "expected typed note assertion for inline INDI NOTE text");
    assert!(count(EntityType::Event, birth_event_id, "note_ref") >= 1, "expected typed note_ref assertion for event NOTE @N...@");
    assert!(count(EntityType::Event, birth_event_id, "note") >= 1, "expected typed note assertion for event inline NOTE text");

    assert!(
        source_mapping
            .node_citation_refs
            .iter()
            .any(|reference| reference.root_tag == "INDI" && reference.owner_tag == "NOTE"),
        "expected SOUR under NOTE to be captured as NOTE-scoped citation reference"
    );
}

#[test]
fn indi_and_fam_obje_links_generate_media_refs() {
    let input = "0 HEAD\n1 SOUR TEST\n1 GEDC\n2 VERS 5.5.1\n1 CHAR UTF-8\n0 @M1@ OBJE\n1 FILE /tmp/image-1.jpg\n1 FORM jpg\n1 TITL Root Media\n0 @I1@ INDI\n1 NAME John /Doe/\n1 SEX M\n1 OBJE @M1@\n2 _CROP 10,20,30,40\n2 _PRIM Y\n1 OBJE\n2 FILE /tmp/inline-photo.jpg\n2 TITL Inline Photo\n2 _CROP 1,2,3,4\n2 _PRIM N\n1 BIRT\n2 DATE 1 JAN 1900\n2 OBJE @M1@\n3 _PRIM Y\n2 OBJE\n3 FILE /tmp/inline-birth-photo.jpg\n3 TITL Inline Birth Photo\n3 _CROP 5,6,7,8\n0 @F1@ FAM\n1 HUSB @I1@\n1 OBJE @M1@\n1 MARR\n2 DATE 1 JAN 1920\n2 OBJE @M1@\n0 TRLR\n";
    let lines = tokenize_gedcom(input).expect("tokenize ancestry GEDCOM");
    let roots = build_gedcom_tree(&lines).expect("build GEDCOM tree");

    let persons = map_indi_nodes_to_persons(&roots);
    let family_mapping = map_family_nodes(&roots);
    let source_mapping = map_source_chain(&roots);
    let media_note_lds_mapping = map_media_note_lds(&roots);
    let person_events = map_indi_nodes_to_events(&roots);

    let assertions = generate_import_assertions(
        "test-job",
        &persons,
        &family_mapping,
        &source_mapping,
        &media_note_lds_mapping,
        &person_events,
    );

    assert_eq!(media_note_lds_mapping.media.len(), 1);

    let media_refs: Vec<_> = assertions.iter().filter(|record| record.field == "media_ref").collect();
    let media_ref_count = media_refs
        .iter()
        .filter(|record| {
            matches!(record.entity_type, EntityType::Person | EntityType::Family | EntityType::Event)
        })
        .count();
    assert!(media_ref_count >= 4);

    let event_media_ref_count = media_refs.iter().filter(|record| record.entity_type == EntityType::Event).count();
    assert!(event_media_ref_count >= 2, "expected event-level OBJE links to map to Event media_ref assertions");

    let inline_path_assertions = media_refs
        .iter()
        .filter(|record| matches!(&record.assertion.value, AssertionValue::MediaRef { external_path: Some(_), .. }))
        .count();
    assert!(inline_path_assertions >= 1, "expected inline OBJE FILE path to be preserved as external media_ref");

    let has_crop_metadata = media_refs
        .iter()
        .any(|record| matches!(&record.assertion.value, AssertionValue::MediaRef { crop_rect_pct: Some(_), .. }));
    assert!(has_crop_metadata, "expected _CROP to normalize into media_ref.crop_rect_pct");

    let has_primary_flag = media_refs
        .iter()
        .any(|record| matches!(&record.assertion.value, AssertionValue::MediaRef { is_primary: Some(_), .. }));
    assert!(has_primary_flag, "expected _PRIM to normalize into media_ref.is_primary");
}

#[test]
fn media_ref_values_carry_link_crop_and_flag() {
    let input = "0 @M1@ OBJE\n1 FILE a.jpg\n0 @I1@ INDI\n1 NAME Ann /Lee/\n1 OBJE @M1@\n2 _CROP 10,20,30,40\n2 _PRIM Y\n1 OBJE\n2 FILE b.jpg\n2 _CROP 1,2,300,4\n2 _PRIM maybe\n0 TRLR\n";
    let imp = import("job-media", input);
    let values: Vec<_> = imp.assertions.iter().filter(|r| r.field == "media_ref").map(|r| &r.assertion.value).collect();
    assert_eq!(values.len(), 2);
    assert_eq!(
        values[0],
        &AssertionValue::MediaRef {
            media_xref: Some("@M1@".to_string()),
            external_path: None,
            crop_rect_pct: Some(CropRectPct { x_pct: 10, y_pct: 20, width_pct: 30, height_pct: 40 }),
            is_primary: Some(true),
        }
    );
    assert_eq!(
        values[1],
        &AssertionValue::MediaRef {
            media_xref: None,
            external_path: Some("b.jpg".to_string()),
            crop_rect_pct: None,
            is_primary: None,
        }
    );
}

#[test]
fn change_records_are_kept_whole_and_not_counted_as_unknown_tags() {
    let input = "0 @I1@ INDI\n1 NAME Jane /Doe/\n1 CHAN\n2 DATE 1 JAN 2020\n2 _UID abc\n1 _MILT Naval Reserve\n0 TRLR\n";
    let report = import_report(&import("job-chan", input));
    assert_eq!(report.unknown_tags_preserved, 1);
}
