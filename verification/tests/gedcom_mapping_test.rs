use rustygene::event::EventType;
use rustygene::family::{LineageType, PartnerLink};
use rustygene::gedcom::mapping::{map_family_nodes, map_indi_nodes_to_events, map_indi_nodes_to_persons};
use rustygene::gedcom::records::map_media_note_lds;
use rustygene::gedcom::sources::map_source_chain;
use rustygene::gedcom::tokenizer::tokenize_gedcom;
use rustygene::gedcom::tree::{build_gedcom_tree, GedcomNode};
use rustygene::lds::{LdsOrdinanceType, LdsStatus};
use rustygene::types::{DateValue, Gender};

fn parse(input: &str) -> Vec<GedcomNode> {
    let lines = tokenize_gedcom(input).expect("tokenize should succeed");
    build_gedcom_tree(&lines).expect("tree build should succeed")
}

#[test]
fn maps_indi_nodes_to_persons_with_name_and_gender() {
    let roots = parse("0 @I1@ INDI\n1 NAME John /Doe/\n1 SEX M\n0 TRLR\n");

    let persons = map_indi_nodes_to_persons(&roots);
    assert_eq!(persons.len(), 1);

    let person = &persons[0];
    assert_eq!(person.gender, Gender::Male);
    assert_eq!(person.names.len(), 1);
    assert_eq!(person.names[0].given_names, "John");
    assert_eq!(person.names[0].surnames.len(), 1);
    assert_eq!(person.names[0].surnames[0].value, "Doe");
    assert_eq!(person._raw_gedcom.get("XREF"), Some(&"@I1@".to_string()));
}

#[test]
fn maps_name_subtags_over_name_line_value() {
    let roots = parse("0 @I2@ INDI\n1 NAME J. /D./\n2 GIVN Jane Alice\n2 SURN Doe\n2 NPFX Dr\n2 NSFX III\n1 SEX F\n");

    let persons = map_indi_nodes_to_persons(&roots);
    assert_eq!(persons.len(), 1);

    let name = &persons[0].names[0];
    assert_eq!(name.given_names, "Jane Alice");
    assert_eq!(name.surnames[0].value, "Doe");
    assert_eq!(name.prefix.as_deref(), Some("Dr"));
    assert_eq!(name.suffix.as_deref(), Some("III"));
    assert_eq!(persons[0].gender, Gender::Female);
}

#[test]
fn ignores_non_indi_roots_when_mapping_persons() {
    let roots = parse("0 HEAD\n1 SOUR RUSTYGENE\n0 TRLR\n");

    let persons = map_indi_nodes_to_persons(&roots);
    assert!(persons.is_empty());
}

#[test]
fn preserves_custom_tags_in_raw_gedcom() {
    let roots = parse("0 @I1@ INDI\n1 NAME John /Doe/\n1 _UID abc-123\n1 SEX M\n");

    let persons = map_indi_nodes_to_persons(&roots);
    assert_eq!(persons.len(), 1);
    let person = &persons[0];

    let preserved = person._raw_gedcom.entries.iter().find(|(k, _)| k.starts_with("CUSTOM__UID_"));

    assert!(preserved.is_some());
    let (_, value) = preserved.expect("custom tag should be preserved");
    assert!(value.contains("1 _UID abc-123"));
}

#[test]
fn preserves_nested_custom_tags_in_raw_gedcom() {
    let roots = parse("0 @I1@ INDI\n1 NAME John /Doe/\n2 _MARNM Jones\n1 SEX M\n");

    let persons = map_indi_nodes_to_persons(&roots);
    let person = &persons[0];

    let preserved = person._raw_gedcom.entries.iter().find(|(k, _)| k.starts_with("CUSTOM__MARNM_"));

    assert!(preserved.is_some());
    let (_, value) = preserved.expect("nested custom tag should be preserved");
    assert!(value.contains("2 _MARNM Jones"));
}

#[test]
fn maps_source_repository_and_inline_citation_chain() {
    let input = "0 @R1@ REPO\n1 NAME The National Archives\n0 @S1@ SOUR\n1 TITL 1881 England Census\n1 AUTH Registrar General\n1 PUBL Public Record Office\n1 ABBR 1881 Census\n1 REPO @R1@\n2 CALN RG11\n2 MEDI Microfilm\n0 @I1@ INDI\n1 NAME John /Doe/\n1 SOUR @S1@\n2 PAGE 42\n2 QUAY 3\n2 DATA\n3 TEXT Household entry\n";

    let roots = parse(input);
    let mapped = map_source_chain(&roots);

    assert_eq!(mapped.repositories.len(), 1);
    assert_eq!(mapped.repositories[0].name, "The National Archives");

    assert_eq!(mapped.sources.len(), 1);
    let source = &mapped.sources[0];
    assert_eq!(source.title, "1881 England Census");
    assert_eq!(source.author.as_deref(), Some("Registrar General"));
    assert_eq!(source.publication_info.as_deref(), Some("Public Record Office"));
    assert_eq!(source.abbreviation.as_deref(), Some("1881 Census"));
    assert_eq!(source.repository_refs.len(), 1);
    assert_eq!(source.repository_refs[0].call_number.as_deref(), Some("RG11"));
    assert_eq!(source.repository_refs[0].media_type.as_deref(), Some("Microfilm"));

    assert_eq!(mapped.citations.len(), 1);
    assert_eq!(mapped.citations[0].source_id, source.id);
    assert_eq!(mapped.citations[0].page.as_deref(), Some("42"));
    assert_eq!(mapped.citations[0].confidence_level, Some(3));
    assert_eq!(mapped.citations[0].transcription.as_deref(), Some("Household entry"));

    assert_eq!(mapped.entity_citation_refs.len(), 1);
    assert_eq!(mapped.entity_citation_refs[0].owner_tag, "INDI");
    assert_eq!(mapped.entity_citation_refs[0].owner_xref.as_deref(), Some("@I1@"));
    assert_eq!(mapped.entity_citation_refs[0].citation_ref.citation_id, mapped.citations[0].id);
}

#[test]
fn maps_textual_inline_source_to_ad_hoc_source() {
    let roots = parse("0 @I1@ INDI\n1 NAME John /Doe/\n1 SOUR Family Bible entry\n2 PAGE p.12\n");
    let mapped = map_source_chain(&roots);

    assert_eq!(mapped.sources.len(), 1);
    assert_eq!(mapped.sources[0].title, "Family Bible entry");

    assert_eq!(mapped.citations.len(), 1);
    assert_eq!(mapped.citations[0].source_id, mapped.sources[0].id);
    assert_eq!(mapped.citations[0].page.as_deref(), Some("p.12"));
}

#[test]
fn maps_nested_source_citations() {
    let roots = parse("0 @S1@ SOUR\n1 TITL Main source\n0 @I1@ INDI\n1 NAME John /Doe/\n1 SOUR @S1@\n2 PAGE 5\n2 SOUR @S1@\n3 PAGE 6\n");
    let mapped = map_source_chain(&roots);

    assert_eq!(mapped.sources.len(), 1);
    assert_eq!(mapped.citations.len(), 2);
    assert_eq!(mapped.entity_citation_refs.len(), 2);
    assert_eq!(mapped.citations[0].page.as_deref(), Some("5"));
    assert_eq!(mapped.citations[1].page.as_deref(), Some("6"));
}

#[test]
fn maps_obje_and_note_roots() {
    let roots = parse("0 @M1@ OBJE\n1 FILE /tmp/census.jpg\n1 FORM jpg\n1 TITL Census Image\n0 @N1@ NOTE Transcribed by researcher\n");
    let mapped = map_media_note_lds(&roots);

    assert_eq!(mapped.media.len(), 1);
    assert_eq!(mapped.media[0].file_path, "/tmp/census.jpg");
    assert_eq!(mapped.media[0].mime_type, "image/jpeg");
    assert_eq!(mapped.media[0].caption.as_deref(), Some("Census Image"));

    assert_eq!(mapped.notes.len(), 1);
    assert_eq!(mapped.notes[0].text, "Transcribed by researcher");
    assert!(mapped.lds_ordinances.is_empty());
}

#[test]
fn maps_lds_ordinances_from_indi_and_fam_records() {
    let roots = parse("0 @I1@ INDI\n1 BAPL\n2 DATE 14 JUN 1988\n2 TEMP LON\n2 STAT COMPLETED\n0 @F1@ FAM\n1 SLGS\n2 DATE 01 JAN 1990\n2 STAT SUBMITTED\n");
    let mapped = map_media_note_lds(&roots);

    assert_eq!(mapped.lds_ordinances.len(), 2);
    assert_eq!(mapped.lds_ordinances[0].ordinance_type, LdsOrdinanceType::Baptism);
    assert_eq!(mapped.lds_ordinances[0].status, LdsStatus::Completed);
    assert_eq!(mapped.lds_ordinances[0].temple_code.as_deref(), Some("LON"));

    assert_eq!(mapped.lds_ordinances[1].ordinance_type, LdsOrdinanceType::SealingToSpouse);
    assert_eq!(mapped.lds_ordinances[1].status, LdsStatus::Submitted);
}

#[test]
fn maps_family_nodes_to_family_relationship_and_events() {
    let roots = parse("0 @F1@ FAM\n1 HUSB @I1@\n1 WIFE @I2@\n1 CHIL @I3@\n2 PEDI BIRTH\n1 MARR\n2 DATE 12 JUN 1880\n1 DIV\n2 DATE 01 JAN 1890\n");
    let mapped = map_family_nodes(&roots);

    assert_eq!(mapped.families.len(), 1);
    assert_eq!(mapped.relationships.len(), 1);
    assert_eq!(mapped.events.len(), 2);

    let family = &mapped.families[0];
    let rel = &mapped.relationships[0];
    assert_eq!(family.couple_relationship, Some(rel.id));
    assert_eq!(family.partner_link, PartnerLink::Married);
    assert_eq!(family.child_links.len(), 1);
    assert_eq!(family.child_links[0].lineage_type, LineageType::Biological);

    assert!(mapped.events.iter().any(|e| e.event_type == EventType::Marriage));
    assert!(mapped.events.iter().any(|e| matches!(e.event_type, EventType::Custom(ref s) if s == "divorce")));
    assert!(mapped.events.iter().all(|e| e.participants.len() == 2));
}

#[test]
fn maps_child_lineage_types_from_pedi() {
    let roots = parse("0 @F1@ FAM\n1 CHIL @I3@\n2 PEDI ADOPTED\n1 CHIL @I4@\n2 PEDI FOSTER\n1 CHIL @I5@\n2 PEDI STEP\n");
    let mapped = map_family_nodes(&roots);

    let family = &mapped.families[0];
    assert_eq!(family.child_links.len(), 3);
    assert_eq!(family.child_links[0].lineage_type, LineageType::Adopted);
    assert_eq!(family.child_links[1].lineage_type, LineageType::Foster);
    assert_eq!(family.child_links[2].lineage_type, LineageType::Step);
}

#[test]
fn family_mapping_reuses_person_ids_from_indi_records() {
    let roots = parse("0 @I1@ INDI\n1 NAME John /Doe/\n0 @I2@ INDI\n1 NAME Jane /Smith/\n0 @F1@ FAM\n1 HUSB @I1@\n1 WIFE @I2@\n1 MARR\n2 DATE 12 JUN 1880\n");
    let persons = map_indi_nodes_to_persons(&roots);
    let family_mapping = map_family_nodes(&roots);

    let person_ids: std::collections::HashSet<_> = persons.iter().map(|person| person.id).collect();
    assert!(family_mapping
        .events
        .iter()
        .flat_map(|event| event.participants.iter().map(|participant| participant.person_id))
        .all(|person_id| person_ids.contains(&person_id)));
}

#[test]
fn maps_indi_events_with_dates_and_places() {
    let roots = parse("0 @I1@ INDI\n1 NAME John /Doe/\n1 BIRT\n2 DATE 1 JAN 1900\n2 PLAC Springfield\n1 CHR\n1 DEAT Y\n");
    let persons = map_indi_nodes_to_persons(&roots);
    let events = map_indi_nodes_to_events(&roots);
    assert_eq!(events.len(), 3);
    assert_eq!(events[0].event_type, EventType::Birth);
    assert!(matches!(events[0].date, Some(DateValue::Textual { ref value }) if value == "1 JAN 1900"));
    assert_eq!(events[0].participants[0].person_id, persons[0].id);
    assert!(matches!(events[1].event_type, EventType::Custom(ref s) if s == "christening"));
    assert_eq!(events[2].event_type, EventType::Death);
}
