use rustygene::event::EventType;
use rustygene::assertion::{AssertionStatus, EvidenceType};
use rustygene::gedcom::assertions::{AssertionValue, EntityType};
use rustygene::gedcom::gramps::{
    gramps_assertion_records, gramps_import_assertions, gramps_report, import_gramps_xml, parse_database, parse_gramps_date, parse_gramps_event_type, parse_gramps_gender, XmlElement,
    XmlNode,
};
use rustygene::types::{ActorRef, Calendar, DateValue, FuzzyDate, Gender};

fn el(name: &str, attrs: &[(&str, &str)], children: Vec<XmlNode>) -> XmlNode {
    XmlNode::Element(XmlElement {
        name: name.to_string(),
        attributes: attrs.iter().map(|(k, v)| (k.to_string(), v.to_string())).collect(),
        children,
    })
}

fn text(s: &str) -> XmlNode {
    XmlNode::Text(s.to_string())
}

fn leaf(name: &str, t: &str) -> XmlNode {
    el(name, &[], vec![text(t)])
}

fn minimal_database() -> XmlElement {
    let places = el("places", &[], vec![el("placeobj", &[("id", "PL1")], vec![leaf("ptitle", "Springfield")])]);
    let events = el(
        "events",
        &[],
        vec![el(
            "event",
            &[("id", "E1"), ("type", "Birth")],
            vec![el("dateval", &[("val", "1900-01-01")], vec![]), el("place", &[("hlink", "PL1")], vec![])],
        )],
    );
    let repositories = el("repositories", &[], vec![el("repository", &[("id", "R1")], vec![leaf("rname", "State Archive")])]);
    let sources = el(
        "sources",
        &[],
        vec![el("source", &[("id", "S1")], vec![leaf("stitle", "Birth Register"), el("reporef", &[("hlink", "R1")], vec![])])],
    );
    let citations = el("citations", &[], vec![el("citation", &[("id", "C1"), ("source", "S1")], vec![leaf("page", "42")])]);
    let notes = el("notes", &[], vec![el("note", &[("id", "N1")], vec![leaf("text", "Research note")])]);
    let media = el(
        "media",
        &[],
        vec![el(
            "object",
            &[("id", "O1")],
            vec![el("file", &[("src", "media/birth.jpg")], vec![]), leaf("mime", "image/jpeg"), leaf("title", "Birth Scan")],
        )],
    );
    let people = el(
        "people",
        &[],
        vec![
            el(
                "person",
                &[("id", "P1")],
                vec![
                    el("name", &[("first", "John"), ("surname", "Doe")], vec![]),
                    leaf("gender", "M"),
                    el("eventref", &[("hlink", "E1")], vec![]),
                ],
            ),
            el("person", &[("id", "P2")], vec![el("name", &[("first", "Jane"), ("surname", "Doe")], vec![]), leaf("gender", "F")]),
        ],
    );
    let families = el(
        "families",
        &[],
        vec![el(
            "family",
            &[("id", "F1")],
            vec![
                el("father", &[("hlink", "P1")], vec![]),
                el("mother", &[("hlink", "P2")], vec![]),
                el("eventref", &[("hlink", "E1")], vec![]),
            ],
        )],
    );
    XmlElement {
        name: "database".to_string(),
        attributes: vec![],
        children: vec![text("\n  "), places, events, repositories, sources, citations, notes, media, people, families],
    }
}

fn count(report: &rustygene::gedcom::gramps::GrampsImportReport, kind: &str) -> Option<usize> {
    report.entities_created_by_type.iter().find(|(k, _)| k == kind).map(|(_, n)| *n)
}

#[test]
fn imports_minimal_gramps_xml() {
    let data = parse_database(&minimal_database());
    let report = gramps_report(&data);

    assert_eq!(count(&report, "person"), Some(2));
    assert_eq!(count(&report, "family"), Some(1));
    assert_eq!(count(&report, "event"), Some(1));
    assert_eq!(count(&report, "source"), Some(1));
    assert_eq!(count(&report, "citation"), Some(1));
    assert_eq!(count(&report, "repository"), Some(1));
    assert_eq!(count(&report, "note"), Some(1));
    assert_eq!(count(&report, "media"), Some(1));
    assert!(report.assertions_created > 0);
}

#[test]
fn gramps_records_are_resolved_and_linked() {
    let data = parse_database(&minimal_database());
    assert_eq!(data.places[0].names[0].name, "Springfield");
    let event = &data.events[0];
    assert_eq!(event.event_type, EventType::Birth);
    assert_eq!(
        event.date,
        Some(DateValue::Exact { date: FuzzyDate::new(1900, Some(1), Some(1)), calendar: Calendar::Gregorian })
    );
    assert_eq!(event.place_ref, Some(data.places[0].id));
    let participants: Vec<_> = event.participants.iter().map(|p| p.person_id).collect();
    assert_eq!(participants, vec![data.persons[0].id, data.persons[1].id]);
    assert_eq!(data.sources[0].repository_refs[0].repository_id, data.repositories[0].id);
    assert_eq!(data.citations[0].source_id, data.sources[0].id);
    assert_eq!(data.citations[0].page.as_deref(), Some("42"));
    assert_eq!(data.persons[0].names[0].given_names, "John");
    assert_eq!(data.persons[0].gender, Gender::Male);
    assert_eq!(data.persons[0].original_xref.as_deref(), Some("@IP1@"));
    assert_eq!(data.families[0].partner1_id, Some(data.persons[0].id));
    assert_eq!(data.families[0].couple_relationship, Some(data.relationships[0].id));
    assert_eq!(data.relationships.len(), 1);
    assert_eq!(data.media[0].file_path, "media/birth.jpg");
    assert_eq!(data.media[0].content_hash, "gramps:O1");
    assert_eq!(data.notes[0].text, "Research note");
    let report = gramps_report(&data);
    // persons: 2 names + 2 genders; family: 2 partners; event: type, date, place, 2 participants;
    // place: 1 name; source: 1; citation: 1
    assert_eq!(report.assertions_created, 4 + 2 + 5 + 1 + 1 + 1);
}

#[test]
fn gramps_value_parsers() {
    assert_eq!(parse_gramps_gender(Some(&" Female ".to_string())), Gender::Female);
    assert_eq!(parse_gramps_gender(None), Gender::Unknown);
    assert_eq!(parse_gramps_gender(Some(&"X".to_string())), Gender::Custom("x".to_string()));
    assert_eq!(parse_gramps_event_type(Some(&"WILL".to_string())), EventType::Will);
    assert_eq!(parse_gramps_event_type(Some(&"Christening".to_string())), EventType::Custom("christening".to_string()));
    assert_eq!(
        parse_gramps_date("1850-13"),
        Some(DateValue::Exact { date: FuzzyDate::new(1850, Some(13), None), calendar: Calendar::Gregorian })
    );
    assert_eq!(
        parse_gramps_date(" 1850-xx-02 "),
        Some(DateValue::Exact { date: FuzzyDate::new(1850, None, Some(2)), calendar: Calendar::Gregorian })
    );
    assert_eq!(parse_gramps_date("abt 1850"), None);
    assert_eq!(parse_gramps_date("   "), None);
}

#[test]
fn records_without_id_or_with_unknown_source_are_skipped() {
    let root = XmlElement {
        name: "database".to_string(),
        attributes: vec![],
        children: vec![
            el("people", &[], vec![el("person", &[], vec![]), el("person", &[("id", "P9")], vec![])]),
            el("citations", &[], vec![el("citation", &[("id", "C1"), ("source", "S404")], vec![])]),
        ],
    };
    let data = parse_database(&root);
    assert_eq!(data.persons.len(), 1);
    assert_eq!(data.persons[0].names[0].given_names, "Unknown");
    assert_eq!(data.persons[0].names[0].surnames[0].value, "Unknown");
    assert!(data.citations.is_empty());
}

const GRAMPS_TEXT: &str = r#"<?xml version="1.0" encoding="UTF-8"?>
<database xmlns="http://gramps-project.org/xml/1.7.1/">
  <events>
    <event handle="_e1" id="E1" type="Birth"><dateval val="1900-01-01"/></event>
  </events>
  <people>
    <person handle="_p1" id="P1"><gender>M</gender><name type="Birth Name"><first>John</first><surname>Doe</surname></name><eventref hlink="E1"/></person>
    <person handle="_p2" id="P2"><gender>F</gender><name><first>Jane</first><surname>Doe</surname></name></person>
  </people>
  <families>
    <family handle="_f1" id="F1"><father hlink="P1"/><mother hlink="P2"/><eventref hlink="E1"/></family>
  </families>
</database>
"#;

#[test]
fn gramps_xml_text_imports_through_the_library() {
    let (data, report) = import_gramps_xml(GRAMPS_TEXT).expect("well-formed XML");
    assert_eq!(count(&report, "person"), Some(2));
    assert_eq!(count(&report, "family"), Some(1));
    assert_eq!(count(&report, "event"), Some(1));
    let records = gramps_assertion_records(&data);
    assert_eq!(records.len(), report.assertions_created);
    assert!(records.iter().any(|(_, t, f)| *t == EntityType::Person && f == "gender"));
    assert!(records.iter().any(|(_, t, f)| *t == EntityType::Event && f == "event_type"));
    for e in &data.events {
        for (i, a) in e.participants.iter().enumerate() {
            assert!(data.persons.iter().any(|p| p.id == a.person_id));
            assert!(e.participants[i + 1..].iter().all(|b| b.person_id != a.person_id));
        }
    }
    let (again, _) = import_gramps_xml(GRAMPS_TEXT).expect("same text");
    assert_eq!(again.persons.iter().map(|p| p.id).collect::<Vec<_>>(), data.persons.iter().map(|p| p.id).collect::<Vec<_>>());
    assert_eq!(again.events.iter().map(|e| e.id).collect::<Vec<_>>(), data.events.iter().map(|e| e.id).collect::<Vec<_>>());
    assert_eq!(again.families.iter().map(|f| f.id).collect::<Vec<_>>(), data.families.iter().map(|f| f.id).collect::<Vec<_>>());
}

#[test]
fn malformed_gramps_xml_is_reported() {
    match import_gramps_xml("<database><people></database>") {
        Ok(_) => panic!("malformed XML was accepted"),
        Err(err) => assert!(err.starts_with("invalid Gramps XML: ")),
    }
}

const MINIMAL_GRAMPS_TEXT: &str = r#"
<database>
  <places>
    <placeobj id="PL1"><ptitle>Springfield</ptitle></placeobj>
  </places>
  <events>
    <event id="E1" type="Birth"><dateval val="1900-01-01"/><place hlink="PL1"/></event>
  </events>
  <repositories>
    <repository id="R1"><rname>State Archive</rname></repository>
  </repositories>
  <sources>
    <source id="S1"><stitle>Birth Register</stitle><reporef hlink="R1"/></source>
  </sources>
  <citations>
    <citation id="C1" source="S1"><page>42</page></citation>
  </citations>
  <notes>
    <note id="N1"><text>Research note</text></note>
  </notes>
  <media>
    <object id="O1"><file src="media/birth.jpg"/><mime>image/jpeg</mime><title>Birth Scan</title></object>
  </media>
  <people>
    <person id="P1"><name first="John" surname="Doe"/><gender>M</gender><eventref hlink="E1"/></person>
    <person id="P2"><name first="Jane" surname="Doe"/><gender>F</gender></person>
  </people>
  <families>
    <family id="F1"><father hlink="P1"/><mother hlink="P2"/><eventref hlink="E1"/></family>
  </families>
</database>
"#;

#[test]
fn imports_minimal_gramps_xml_text() {
    let (data, report) = import_gramps_xml(MINIMAL_GRAMPS_TEXT).expect("import gramps xml");

    assert_eq!(count(&report, "person"), Some(2));
    assert_eq!(count(&report, "family"), Some(1));
    assert_eq!(count(&report, "event"), Some(1));
    assert_eq!(count(&report, "source"), Some(1));
    assert_eq!(count(&report, "citation"), Some(1));
    assert_eq!(count(&report, "repository"), Some(1));
    assert_eq!(count(&report, "note"), Some(1));
    assert_eq!(count(&report, "media"), Some(1));
    assert!(report.assertions_created > 0);

    assert_eq!(data.persons[0].names[0].given_names, "John");
    assert_eq!(data.persons[0].names[0].surnames[0].value, "Doe");
    assert_eq!(data.persons[1].names[0].given_names, "Jane");
    assert_eq!(data.places[0].names[0].name, "Springfield");
    assert_eq!(data.citations[0].page.as_deref(), Some("42"));
    assert_eq!(data.media[0].file_path, "media/birth.jpg");
}

#[test]
fn reading_the_same_gramps_text_twice_gives_the_same_data() {
    let (a, _) = import_gramps_xml(MINIMAL_GRAMPS_TEXT).expect("first read");
    let (b, _) = import_gramps_xml(MINIMAL_GRAMPS_TEXT).expect("second read");
    assert_eq!(a.persons, b.persons);
    assert_eq!(a.families, b.families);
    assert_eq!(a.relationships, b.relationships);
    assert_eq!(a.events, b.events);
    assert_eq!(a.places, b.places);
    assert_eq!(a.sources, b.sources);
    assert_eq!(a.citations, b.citations);
    assert_eq!(a.repositories, b.repositories);
    assert_eq!(a.notes, b.notes);
    assert_eq!(a.media, b.media);
}

#[test]
fn gramps_import_assertions_hold_values_and_import_metadata() {
    let (data, report) = import_gramps_xml(MINIMAL_GRAMPS_TEXT).expect("import gramps xml");
    let records = gramps_import_assertions("gramps-test", &data);
    assert_eq!(records.len(), report.assertions_created);
    for r in &records {
        assert_eq!(r.assertion.status, AssertionStatus::Confirmed);
        assert_eq!(r.assertion.evidence_type, EvidenceType::Direct);
        assert_eq!(r.assertion.proposed_by, ActorRef::Import("gramps-test".to_string()));
        assert!(r.assertion.source_citations.is_empty());
        assert_eq!(r.assertion.reviewed_at, None);
        assert_eq!(r.assertion.reviewed_by, None);
    }
    let gender = records
        .iter()
        .find(|r| r.entity_id == data.persons[0].id && r.field == "gender")
        .expect("gender assertion");
    assert_eq!(gender.entity_type, EntityType::Person);
    assert_eq!(gender.assertion.value, AssertionValue::Gender(Gender::Male));
    let title = records.iter().find(|r| r.field == "title").expect("title assertion");
    assert_eq!(title.assertion.value, AssertionValue::Text("Birth Register".to_string()));
    let source_id = records.iter().find(|r| r.field == "source_id").expect("citation assertion");
    assert_eq!(source_id.assertion.value, AssertionValue::Id(data.sources[0].id));
    let place = records.iter().find(|r| r.entity_type == EntityType::Place).expect("place name assertion");
    match &place.assertion.value {
        AssertionValue::PlaceName(n) => assert_eq!(n.name, "Springfield"),
        other => panic!("unexpected value {:?}", other),
    }
    let participants: Vec<_> = records
        .iter()
        .filter(|r| r.field == "participant")
        .map(|r| match &r.assertion.value {
            AssertionValue::Participant(p) => p.person_id,
            other => panic!("unexpected value {:?}", other),
        })
        .collect();
    assert_eq!(participants, vec![data.persons[0].id, data.persons[1].id]);
}
