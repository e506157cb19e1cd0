use rustygene::assertion::{Sandbox, SandboxStatus};
use rustygene::research::{ResearchLogEntry, SearchResult};
use rustygene::family::{Family, PartnerLink, Relationship, RelationshipType};
use rustygene::lds::LdsStatus;
use rustygene::place::{HierarchyType, PlaceRef};
use rustygene::raw::RawGedcom;
use rustygene::types::EntityId;

#[test]
fn lds_status_has_expected_variant_coverage() {
    let statuses = [
        LdsStatus::Bic,
        LdsStatus::Canceled,
        LdsStatus::Child,
        LdsStatus::Completed,
        LdsStatus::Cleared,
        LdsStatus::Dns,
        LdsStatus::Excluded,
        LdsStatus::Infant,
        LdsStatus::Invalid,
        LdsStatus::NotNeeded,
        LdsStatus::Qualified,
        LdsStatus::Stillborn,
        LdsStatus::Submitted,
        LdsStatus::Uncleared,
        LdsStatus::InProgress,
        LdsStatus::NeedsMoreInformation,
        LdsStatus::Ready,
        LdsStatus::Reserved,
        LdsStatus::Printed,
        LdsStatus::Shared,
        LdsStatus::TempleDone,
    ];

    assert!(statuses.len() >= 20);
}

#[test]
fn hierarchy_type_defaults_to_admin() {
    let href = PlaceRef {
        place_id: EntityId::new(),
        hierarchy_type: HierarchyType::default(),
        date_range: None,
    };

    assert_eq!(href.hierarchy_type, HierarchyType::Admin);
}

#[test]
fn family_relationship_event_reference_integrity_by_id() {
    let event_id = EntityId::new();
    let relationship = Relationship {
        id: EntityId::new(),
        person1_id: EntityId::new(),
        person2_id: EntityId::new(),
        relationship_type: RelationshipType::Couple,
        supporting_event: Some(event_id),
        _raw_gedcom: RawGedcom::new(),
    };

    let family = Family {
        id: EntityId::new(),
        partner1_id: Some(relationship.person1_id),
        partner2_id: Some(relationship.person2_id),
        partner_link: PartnerLink::Married,
        couple_relationship: Some(relationship.id),
        child_links: vec![],
        original_xref: Some("@F2@".to_string()),
        _raw_gedcom: RawGedcom::new(),
    };

    assert_eq!(family.couple_relationship, Some(relationship.id));
    assert_eq!(relationship.supporting_event, Some(event_id));
}

#[test]
fn research_log_entry_and_sandbox_hold_their_fields() {
    let entry = ResearchLogEntry {
        id: EntityId::new(),
        date: 1_700_000_000_000,
        objective: "Find birth record for John Smith b. ~1850".to_string(),
        repository: Some(EntityId::new()),
        repository_name: Some("The National Archives".to_string()),
        search_terms: vec!["John Smith".to_string(), "1850".to_string()],
        source_searched: Some(EntityId::new()),
        result: SearchResult::PartiallyFound,
        findings: Some("Found likely census entries, no baptism yet.".to_string()),
        citations_created: vec![EntityId::new(), EntityId::new()],
        next_steps: Some("Search parish records in adjacent counties.".to_string()),
        person_refs: vec![EntityId::new()],
        tags: vec!["census".to_string(), "todo".to_string()],
    };
    assert_eq!(entry.clone(), entry);
    assert_eq!(entry.search_terms.len(), 2);

    let parent = Sandbox {
        id: EntityId::new(),
        name: "main hypothesis".to_string(),
        description: None,
        created_at: 1_700_000_000_000,
        parent_sandbox: None,
        status: SandboxStatus::Active,
    };
    let child = Sandbox {
        id: EntityId::new(),
        name: "alternative".to_string(),
        description: Some("a second line of research".to_string()),
        created_at: 1_700_000_100_000,
        parent_sandbox: Some(parent.id),
        status: SandboxStatus::default(),
    };
    assert_eq!(child.parent_sandbox, Some(parent.id));
    assert_eq!(child.status, SandboxStatus::Active);
}
