//! The assertions that a GEDCOM import records for each mapped entity.
use crate::assertion::{AssertionStatus, EvidenceType};
use crate::event::{is_custom_event, CensusRole, Event, EventParticipant, EventRole, EventType};
use crate::evidence::{
    CropRectPct, Citation, CitationRef, Media, Note, NoteType, Repository, RepositoryRef, Source,
};
use crate::family::{ChildLink, Family, PartnerLink, Relationship, RelationshipType};
use crate::gedcom::mapping::FamilyMapping;
use crate::gedcom::records::{MediaLink, MediaNoteLdsMapping, NoteLink};
use crate::gedcom::sources::{EntityCitationRef, NodeCitationRef, SourceChainMapping};
use crate::lds::{LdsOrdinance, LdsOrdinanceType, LdsStatus};
use crate::person::{same_name, Person, PersonName};
use crate::place::PlaceName;
use crate::raw::{raw_entries, raw_lookup};
use crate::text::{str_eq, str_to_string};
use crate::types::{ActorRef, DateValue, EntityId, Gender};
use vstd::prelude::*;

verus! {

/// The kinds of entity that assertions are about.
#[derive(Debug, Clone, Copy, PartialEq, Eq, Structural)]
pub enum EntityType {
    Person,
    Family,
    Relationship,
    Event,
    Place,
    Source,
    Citation,
    Repository,
    Media,
    Note,
    LdsOrdinance,
}

/// The value an imported assertion holds; it is turned into JSON where it is
/// stored.
#[derive(Debug, PartialEq, Eq)]
pub enum AssertionValue {
    Name(PersonName),
    Gender(Gender),
    Id(EntityId),
    PartnerLink(PartnerLink),
    ChildLink(ChildLink),
    RelationshipType(RelationshipType),
    EventType(EventType),
    Date(DateValue),
    Text(String),
    Participation {
        event_id: EntityId,
        event_type: EventType,
        role: EventRole,
        census_role: Option<CensusRole>,
    },
    RepositoryRef(RepositoryRef),
    Number(u8),
    OrdinanceType(LdsOrdinanceType),
    LdsStatus(LdsStatus),
    NoteType(NoteType),
    /// A person taking part in an event.
    Participant(EventParticipant),
    /// A name of a place.
    PlaceName(PlaceName),
    MediaRef {
        media_xref: Option<String>,
        external_path: Option<String>,
        crop_rect_pct: Option<CropRectPct>,
        is_primary: Option<bool>,
    },
}

/// An assertion made by an import: confirmed, direct evidence, proposed by
/// the import job.
#[derive(Debug, PartialEq, Eq)]
pub struct ImportedAssertion {
    pub id: EntityId,
    pub value: AssertionValue,
    pub status: AssertionStatus,
    pub evidence_type: EvidenceType,
    pub source_citations: Vec<CitationRef>,
    pub proposed_by: ActorRef,
    /// When the assertion was made, in milliseconds since the Unix epoch.
    pub created_at: i64,
    /// When it was reviewed, in milliseconds since the Unix epoch.
    pub reviewed_at: Option<i64>,
    pub reviewed_by: Option<ActorRef>,
}

/// The current time (`chrono::Utc::now`) in milliseconds since the Unix
/// epoch (`DateTime::timestamp_millis`). Nothing is stated of the value: it
/// is read from the system clock. `Utc::now` panics on a clock set before
/// the epoch.
#[verifier::external_body]
fn now_millis() -> (r: i64) {
    chrono::Utc::now().timestamp_millis()
}

/// An imported assertion with the entity and field it is about.
#[derive(Debug, PartialEq, Eq)]
pub struct ImportedAssertionRecord {
    pub entity_id: EntityId,
    pub entity_type: EntityType,
    pub field: String,
    pub assertion: ImportedAssertion,
}

/// What one assertion says: entity, kind of entity, field, value, citations.
pub type AssertionSpec = (EntityId, EntityType, Seq<char>, AssertionValue, Seq<CitationRef>);

/// The same value (a name compared field by field, a place name by its
/// texts).
pub open spec fn value_matches(a: AssertionValue, b: AssertionValue) -> bool {
    match (a, b) {
        (AssertionValue::Name(x), AssertionValue::Name(y)) => same_name(x, y),
        (AssertionValue::PlaceName(x), AssertionValue::PlaceName(y)) => {
            &&& x.name@ == y.name@
            &&& x.language.deep_view() == y.language.deep_view()
            &&& x.date_range == y.date_range
        },
        _ => a == b,
    }
}

/// A record that states `e`, made by import job `job`.
pub open spec fn record_matches(r: ImportedAssertionRecord, e: AssertionSpec, job: Seq<char>) -> bool {
    &&& r.entity_id == e.0
    &&& r.entity_type == e.1
    &&& r.field@ == e.2
    &&& value_matches(r.assertion.value, e.3)
    &&& r.assertion.source_citations@ == e.4
    &&& r.assertion.status is Confirmed
    &&& r.assertion.evidence_type is Direct
    &&& r.assertion.proposed_by matches ActorRef::Import(j) && j@ == job
    &&& r.assertion.reviewed_at is None
    &&& r.assertion.reviewed_by is None
}

/// Records that state `es`, one by one.
pub open spec fn records_match(rs: Seq<ImportedAssertionRecord>, es: Seq<AssertionSpec>, job: Seq<char>) -> bool {
    &&& rs.len() == es.len()
    &&& forall|i: int| 0 <= i < rs.len() ==> #[trigger] record_matches(rs[i], es[i], job)
}

pub proof fn lemma_records_match_concat(
    r1: Seq<ImportedAssertionRecord>,
    e1: Seq<AssertionSpec>,
    r2: Seq<ImportedAssertionRecord>,
    e2: Seq<AssertionSpec>,
    job: Seq<char>,
)
    requires
        records_match(r1, e1, job),
        records_match(r2, e2, job),
    ensures
        records_match(r1 + r2, e1 + e2, job),
{
    assert forall|i: int| 0 <= i < (r1 + r2).len() implies #[trigger] record_matches(
        (r1 + r2)[i],
        (e1 + e2)[i],
        job,
    ) by {
        if i >= r1.len() {
            assert(record_matches(r2[i - r1.len()], e2[i - r1.len()], job));
        } else {
            assert(record_matches(r1[i], e1[i], job));
        }
    }
}

/// The records after position `n`.
pub open spec fn tail(s: Seq<ImportedAssertionRecord>, n: int) -> Seq<ImportedAssertionRecord> {
    s.subrange(n, s.len() as int)
}

/// After a run of pushes that stated `a` and then a run that stated `b`.
pub proof fn lemma_tail_concat(
    s0: Seq<ImportedAssertionRecord>,
    s1: Seq<ImportedAssertionRecord>,
    s2: Seq<ImportedAssertionRecord>,
    a: Seq<AssertionSpec>,
    b: Seq<AssertionSpec>,
    job: Seq<char>,
)
    requires
        s0.len() <= s1.len() <= s2.len(),
        s1.subrange(0, s0.len() as int) == s0,
        s2.subrange(0, s1.len() as int) == s1,
        records_match(tail(s1, s0.len() as int), a, job),
        records_match(tail(s2, s1.len() as int), b, job),
    ensures
        s2.subrange(0, s0.len() as int) == s0,
        records_match(tail(s2, s0.len() as int), a + b, job),
{
    assert(tail(s1, s0.len() as int) =~= s2.subrange(s0.len() as int, s1.len() as int));
    lemma_records_match_concat(tail(s1, s0.len() as int), a, tail(s2, s1.len() as int), b, job);
    assert(tail(s1, s0.len() as int) + tail(s2, s1.len() as int) =~= tail(s2, s0.len() as int));
    assert(s2.subrange(0, s0.len() as int) =~= s1.subrange(0, s0.len() as int));
}

/// Records one assertion.
pub(crate) fn push_record(
    out: &mut Vec<ImportedAssertionRecord>,
    entity_id: EntityId,
    entity_type: EntityType,
    field: &str,
    value: AssertionValue,
    cits: &Vec<CitationRef>,
    job: &String,
)
    ensures
        final(out)@.len() == old(out)@.len() + 1,
        final(out)@.drop_last() == old(out)@,
        record_matches(final(out)@.last(), (entity_id, entity_type, field@, value, cits@), job@),
{
    let source_citations = cits.clone();
    proof {
        assert(source_citations@ =~= cits@);
    }
    let ghost v = value;
    out.push(
        ImportedAssertionRecord {
            entity_id,
            entity_type,
            field: str_to_string(field),
            assertion: ImportedAssertion {
                id: EntityId::new(),
                value,
                status: AssertionStatus::Confirmed,
                evidence_type: EvidenceType::Direct,
                source_citations,
                proposed_by: ActorRef::Import(job.clone()),
                created_at: now_millis(),
                reviewed_at: None,
                reviewed_by: None,
            },
        },
    );
    proof {
        assert(out@.drop_last() =~= old(out)@);
        assert(value_matches(v, v));
    }
}

/// The citations attached to record `tag`/`xref`, in order.
pub open spec fn root_citations(refs: Seq<EntityCitationRef>, tag: Seq<char>, xref: Option<Seq<char>>) -> Seq<
    CitationRef,
>
    decreases refs.len(),
{
    if refs.len() == 0 {
        Seq::empty()
    } else {
        let p = root_citations(refs.drop_last(), tag, xref);
        let e = refs.last();
        if e.owner_tag@ == tag && e.owner_xref.deep_view() == xref {
            p.push(e.citation_ref)
        } else {
            p
        }
    }
}

/// The citations attached to nodes tagged `owner_tag` inside record
/// `root_tag`/`root_xref`, in order.
pub open spec fn node_citations(
    refs: Seq<NodeCitationRef>,
    root_tag: Seq<char>,
    root_xref: Option<Seq<char>>,
    owner_tag: Seq<char>,
) -> Seq<CitationRef>
    decreases refs.len(),
{
    if refs.len() == 0 {
        Seq::empty()
    } else {
        let p = node_citations(refs.drop_last(), root_tag, root_xref, owner_tag);
        let e = refs.last();
        if e.root_tag@ == root_tag && e.root_xref.deep_view() == root_xref && e.owner_tag@
            == owner_tag {
            p.push(e.citation_ref)
        } else {
            p
        }
    }
}

fn same_xref(a: &Option<String>, b: Option<&String>) -> (r: bool)
    ensures
        r == (a.deep_view() == match b {
            Some(s) => Some(s@),
            None => None,
        }),
{
    match (a, b) {
        (Some(x), Some(y)) => str_eq(x.as_str(), y.as_str()),
        (None, None) => true,
        _ => false,
    }
}

fn citations_for_root(refs: &Vec<EntityCitationRef>, tag: &str, xref: Option<&String>) -> (r: Vec<
    CitationRef,
>)
    ensures
        r@ == root_citations(
            refs@,
            tag@,
            match xref {
                Some(s) => Some(s@),
                None => None,
            },
        ),
{
    let ghost x = match xref {
        Some(s) => Some(s@),
        None => None,
    };
    let mut out: Vec<CitationRef> = Vec::new();
    let mut i: usize = 0;
    while i < refs.len()
        invariant
            i <= refs@.len(),
            x == match xref {
                Some(s) => Some(s@),
                None => None,
            },
            out@ == root_citations(refs@.subrange(0, i as int), tag@, x),
        decreases refs@.len() - i,
    {
        proof {
            assert(refs@.subrange(0, i + 1).drop_last() =~= refs@.subrange(0, i as int));
        }
        let e = &refs[i];
        if str_eq(e.owner_tag.as_str(), tag) && same_xref(&e.owner_xref, xref) {
            out.push(e.citation_ref.clone());
        }
        i = i + 1;
    }
    proof {
        assert(refs@.subrange(0, i as int) =~= refs@);
    }
    out
}

fn citations_for_node(
    refs: &Vec<NodeCitationRef>,
    root_tag: &str,
    root_xref: Option<&String>,
    owner_tag: &str,
) -> (r: Vec<CitationRef>)
    ensures
        r@ == node_citations(
            refs@,
            root_tag@,
            match root_xref {
                Some(s) => Some(s@),
                None => None,
            },
            owner_tag@,
        ),
{
    let ghost x = match root_xref {
        Some(s) => Some(s@),
        None => None,
    };
    let mut out: Vec<CitationRef> = Vec::new();
    let mut i: usize = 0;
    while i < refs.len()
        invariant
            i <= refs@.len(),
            x == match root_xref {
                Some(s) => Some(s@),
                None => None,
            },
            out@ == node_citations(refs@.subrange(0, i as int), root_tag@, x, owner_tag@),
        decreases refs@.len() - i,
    {
        proof {
            assert(refs@.subrange(0, i + 1).drop_last() =~= refs@.subrange(0, i as int));
        }
        let e = &refs[i];
        if str_eq(e.root_tag.as_str(), root_tag) && same_xref(&e.root_xref, root_xref) && str_eq(
            e.owner_tag.as_str(),
            owner_tag,
        ) {
            out.push(e.citation_ref.clone());
        }
        i = i + 1;
    }
    proof {
        assert(refs@.subrange(0, i as int) =~= refs@);
    }
    out
}

pub proof fn lemma_records_match_push(
    out: Seq<ImportedAssertionRecord>,
    base: int,
    es: Seq<AssertionSpec>,
    r: ImportedAssertionRecord,
    e: AssertionSpec,
    job: Seq<char>,
)
    requires
        0 <= base <= out.len(),
        records_match(tail(out, base), es, job),
        record_matches(r, e, job),
    ensures
        records_match(tail(out.push(r), base), es.push(e), job),
        out.push(r).subrange(0, base) == out.subrange(0, base),
{
    assert(tail(out.push(r), base) =~= tail(out, base).push(r));
    assert(out.push(r).subrange(0, base) =~= out.subrange(0, base));
    assert forall|i: int| 0 <= i < tail(out.push(r), base).len() implies #[trigger] record_matches(
        tail(out.push(r), base)[i],
        es.push(e)[i],
        job,
    ) by {
        if i < es.len() {
            assert(record_matches(tail(out, base)[i], es[i], job));
        }
    }
}

/// What a person's record states: each name, then a known gender.
pub open spec fn person_assertions(p: Person, cits: Seq<CitationRef>) -> Seq<AssertionSpec> {
    p.names@.map_values(
        |n: PersonName| (p.id, EntityType::Person, "name"@, AssertionValue::Name(n), cits),
    ) + if p.gender is Unknown {
        Seq::<AssertionSpec>::empty()
    } else {
        seq![(p.id, EntityType::Person, "gender"@, AssertionValue::Gender(p.gender), cits)]
    }
}

fn push_person_block(
    out: &mut Vec<ImportedAssertionRecord>,
    p: &Person,
    cits: &Vec<CitationRef>,
    job: &String,
)
    ensures
        old(out)@.len() <= final(out)@.len(),
        final(out)@.subrange(0, old(out)@.len() as int) == old(out)@,
        records_match(tail(final(out)@, old(out)@.len() as int), person_assertions(*p, cits@), job@),
{
    let ghost base = out@.len() as int;
    let ghost o0 = out@;
    let ghost names = p.names@.map_values(
        |n: PersonName| (p.id, EntityType::Person, "name"@, AssertionValue::Name(n), cits@),
    );
    let mut i: usize = 0;
    proof {
        assert(tail(out@, base) =~= Seq::<ImportedAssertionRecord>::empty());
        assert(out@.subrange(0, base) =~= o0);
    }
    while i < p.names.len()
        invariant
            i <= p.names@.len(),
            base == o0.len(),
            base <= out@.len(),
            out@.subrange(0, base) == o0,
            names == p.names@.map_values(
                |n: PersonName| (p.id, EntityType::Person, "name"@, AssertionValue::Name(n), cits@),
            ),
            records_match(tail(out@, base), names.subrange(0, i as int), job@),
        decreases p.names@.len() - i,
    {
        let ghost before = out@;
        push_record(out, p.id, EntityType::Person, "name", AssertionValue::Name(p.names[i].clone()), cits, job);
        proof {
            reveal_strlit("name");
            assert(record_matches(out@.last(), names[i as int], job@));
            assert(out@ =~= before.push(out@.last()));
            lemma_records_match_push(before, base, names.subrange(0, i as int), out@.last(), names[i as int], job@);
            assert(names.subrange(0, i as int).push(names[i as int]) =~= names.subrange(0, i + 1));
        }
        i = i + 1;
    }
    proof {
        assert(names.subrange(0, i as int) =~= names);
    }
    if !p.gender.is_unknown() {
        let ghost before = out@;
        push_record(out, p.id, EntityType::Person, "gender", AssertionValue::Gender(p.gender.clone()), cits, job);
        proof {
            let e = (p.id, EntityType::Person, "gender"@, AssertionValue::Gender(p.gender), cits@);
            assert(out@ =~= before.push(out@.last()));
            lemma_records_match_push(before, base, names, out@.last(), e, job@);
            assert(names.push(e) =~= person_assertions(*p, cits@));
        }
    } else {
        proof {
            assert(names + Seq::<AssertionSpec>::empty() =~= person_assertions(*p, cits@));
        }
    }
}

/// Records one more assertion after those already stated from `base` on.
fn push_next(
    out: &mut Vec<ImportedAssertionRecord>,
    Ghost(base): Ghost<int>,
    Ghost(es): Ghost<Seq<AssertionSpec>>,
    entity_id: EntityId,
    entity_type: EntityType,
    field: &str,
    value: AssertionValue,
    cits: &Vec<CitationRef>,
    job: &String,
)
    requires
        0 <= base <= old(out)@.len(),
        records_match(tail(old(out)@, base), es, job@),
    ensures
        final(out)@.len() == old(out)@.len() + 1,
        final(out)@.subrange(0, base) == old(out)@.subrange(0, base),
        records_match(
            tail(final(out)@, base),
            es.push((entity_id, entity_type, field@, value, cits@)),
            job@,
        ),
{
    let ghost before = out@;
    let ghost v = value;
    push_record(out, entity_id, entity_type, field, value, cits, job);
    proof {
        assert(out@ =~= before.push(out@.last()));
        lemma_records_match_push(before, base, es, out@.last(), (entity_id, entity_type, field@, v, cits@), job@);
    }
}

/// An optional assertion: stated when the value is present.
pub open spec fn opt_assertion(
    id: EntityId,
    t: EntityType,
    field: Seq<char>,
    v: Option<AssertionValue>,
    cits: Seq<CitationRef>,
) -> Seq<AssertionSpec> {
    match v {
        Some(x) => seq![(id, t, field, x, cits)],
        None => Seq::empty(),
    }
}

pub open spec fn id_value(v: Option<EntityId>) -> Option<AssertionValue> {
    match v {
        Some(x) => Some(AssertionValue::Id(x)),
        None => None,
    }
}

pub open spec fn text_value(v: Option<String>) -> Option<AssertionValue> {
    match v {
        Some(x) => Some(AssertionValue::Text(x)),
        None => None,
    }
}

/// What a family states: its partners, a known partner link, its couple
/// relationship, and each child link.
pub open spec fn family_assertions(f: Family, cits: Seq<CitationRef>) -> Seq<AssertionSpec> {
    opt_assertion(f.id, EntityType::Family, "partner1_id"@, id_value(f.partner1_id), cits)
        + opt_assertion(f.id, EntityType::Family, "partner2_id"@, id_value(f.partner2_id), cits)
        + opt_assertion(
        f.id,
        EntityType::Family,
        "partner_link"@,
        if f.partner_link is Unknown {
            None
        } else {
            Some(AssertionValue::PartnerLink(f.partner_link))
        },
        cits,
    ) + opt_assertion(
        f.id,
        EntityType::Family,
        "couple_relationship"@,
        id_value(f.couple_relationship),
        cits,
    ) + f.child_links@.map_values(
        |c: ChildLink| (f.id, EntityType::Family, "child_link"@, AssertionValue::ChildLink(c), cits),
    )
}

fn push_family_block(
    out: &mut Vec<ImportedAssertionRecord>,
    f: &Family,
    cits: &Vec<CitationRef>,
    job: &String,
)
    ensures
        old(out)@.len() <= final(out)@.len(),
        final(out)@.subrange(0, old(out)@.len() as int) == old(out)@,
        records_match(tail(final(out)@, old(out)@.len() as int), family_assertions(*f, cits@), job@),
{
    let ghost base = out@.len() as int;
    let ghost o0 = out@;
    let ghost mut es: Seq<AssertionSpec> = Seq::empty();
    proof {
        assert(tail(out@, base) =~= Seq::<ImportedAssertionRecord>::empty());
    }
    match f.partner1_id {
        Some(a) => {
            push_next(out, Ghost(base), Ghost(es), f.id, EntityType::Family, "partner1_id", AssertionValue::Id(a), cits, job);
            proof { es = es.push((f.id, EntityType::Family, "partner1_id"@, AssertionValue::Id(a), cits@)); }
        },
        None => {},
    }
    match f.partner2_id {
        Some(b) => {
            push_next(out, Ghost(base), Ghost(es), f.id, EntityType::Family, "partner2_id", AssertionValue::Id(b), cits, job);
            proof { es = es.push((f.id, EntityType::Family, "partner2_id"@, AssertionValue::Id(b), cits@)); }
        },
        None => {},
    }
    let known_link = match &f.partner_link {
        PartnerLink::Unknown => false,
        _ => true,
    };
    if known_link {
        push_next(out, Ghost(base), Ghost(es), f.id, EntityType::Family, "partner_link", AssertionValue::PartnerLink(f.partner_link.clone()), cits, job);
        proof { es = es.push((f.id, EntityType::Family, "partner_link"@, AssertionValue::PartnerLink(f.partner_link), cits@)); }
    }
    match f.couple_relationship {
        Some(r) => {
            push_next(out, Ghost(base), Ghost(es), f.id, EntityType::Family, "couple_relationship", AssertionValue::Id(r), cits, job);
            proof { es = es.push((f.id, EntityType::Family, "couple_relationship"@, AssertionValue::Id(r), cits@)); }
        },
        None => {},
    }
    let ghost head = es;
    let ghost links = f.child_links@.map_values(
        |c: ChildLink| (f.id, EntityType::Family, "child_link"@, AssertionValue::ChildLink(c), cits@),
    );
    let mut i: usize = 0;
    proof {
        assert(head + links.subrange(0, 0) =~= es);
    }
    while i < f.child_links.len()
        invariant
            i <= f.child_links@.len(),
            base == o0.len(),
            base <= out@.len(),
            out@.subrange(0, base) == o0,
            links == f.child_links@.map_values(
                |c: ChildLink| (f.id, EntityType::Family, "child_link"@, AssertionValue::ChildLink(c), cits@),
            ),
            records_match(tail(out@, base), head + links.subrange(0, i as int), job@),
        decreases f.child_links@.len() - i,
    {
        push_next(out, Ghost(base), Ghost(head + links.subrange(0, i as int)), f.id, EntityType::Family, "child_link", AssertionValue::ChildLink(f.child_links[i].clone()), cits, job);
        proof {
            assert((head + links.subrange(0, i as int)).push(links[i as int]) =~= head + links.subrange(0, i + 1));
        }
        i = i + 1;
    }
    proof {
        assert(links.subrange(0, i as int) =~= links);
        assert(head + links =~= family_assertions(*f, cits@));
    }
}

/// What a relationship states: its type, and its supporting event.
pub open spec fn relationship_assertions(r: Relationship, cits: Seq<CitationRef>) -> Seq<AssertionSpec> {
    seq![
        (
            r.id,
            EntityType::Relationship,
            "relationship_type"@,
            AssertionValue::RelationshipType(r.relationship_type),
            cits,
        ),
    ] + opt_assertion(
        r.id,
        EntityType::Relationship,
        "supporting_event"@,
        id_value(r.supporting_event),
        cits,
    )
}

fn push_relationship_block(
    out: &mut Vec<ImportedAssertionRecord>,
    r: &Relationship,
    cits: &Vec<CitationRef>,
    job: &String,
)
    ensures
        old(out)@.len() <= final(out)@.len(),
        final(out)@.subrange(0, old(out)@.len() as int) == old(out)@,
        records_match(tail(final(out)@, old(out)@.len() as int), relationship_assertions(*r, cits@), job@),
{
    let ghost base = out@.len() as int;
    let ghost o0 = out@;
    let ghost mut es: Seq<AssertionSpec> = Seq::empty();
    proof {
        assert(tail(out@, base) =~= Seq::<ImportedAssertionRecord>::empty());
    }
    push_next(out, Ghost(base), Ghost(es), r.id, EntityType::Relationship, "relationship_type", AssertionValue::RelationshipType(r.relationship_type.clone()), cits, job);
    proof { es = es.push((r.id, EntityType::Relationship, "relationship_type"@, AssertionValue::RelationshipType(r.relationship_type), cits@)); }
    match r.supporting_event {
        Some(e) => {
            push_next(out, Ghost(base), Ghost(es), r.id, EntityType::Relationship, "supporting_event", AssertionValue::Id(e), cits, job);
            proof { es = es.push((r.id, EntityType::Relationship, "supporting_event"@, AssertionValue::Id(e), cits@)); }
        },
        None => {},
    }
    proof {
        assert(es =~= relationship_assertions(*r, cits@));
        assert(out@.subrange(0, base) =~= o0);
    }
}

/// How a participant takes part in an event.
pub open spec fn participation(e: Event, p: EventParticipant) -> AssertionValue {
    AssertionValue::Participation {
        event_id: e.id,
        event_type: e.event_type,
        role: p.role,
        census_role: p.census_role,
    }
}

/// For each participant: the event's "participant" and the person's
/// "event_participation", with the same value.
pub open spec fn participations(e: Event, ps: Seq<EventParticipant>, cits: Seq<CitationRef>) -> Seq<
    AssertionSpec,
>
    decreases ps.len(),
{
    if ps.len() == 0 {
        Seq::empty()
    } else {
        participations(e, ps.drop_last(), cits) + seq![
            (e.id, EntityType::Event, "participant"@, participation(e, ps.last()), cits),
            (
                ps.last().person_id,
                EntityType::Person,
                "event_participation"@,
                participation(e, ps.last()),
                cits,
            ),
        ]
    }
}

/// What an event states: its type, its date, its description, and its
/// participants.
pub open spec fn event_assertions(e: Event, cits: Seq<CitationRef>) -> Seq<AssertionSpec> {
    seq![(e.id, EntityType::Event, "event_type"@, AssertionValue::EventType(e.event_type), cits)]
        + opt_assertion(
        e.id,
        EntityType::Event,
        "date"@,
        match e.date {
            Some(d) => Some(AssertionValue::Date(d)),
            None => None,
        },
        cits,
    ) + opt_assertion(e.id, EntityType::Event, "description"@, text_value(e.description), cits)
        + participations(e, e.participants@, cits)
}

fn participation_value(e: &Event, p: &EventParticipant) -> (r: AssertionValue)
    ensures
        r == participation(*e, *p),
{
    AssertionValue::Participation {
        event_id: e.id,
        event_type: e.event_type.clone(),
        role: p.role.clone(),
        census_role: p.census_role.clone(),
    }
}

fn push_event_block(
    out: &mut Vec<ImportedAssertionRecord>,
    e: &Event,
    cits: &Vec<CitationRef>,
    job: &String,
)
    ensures
        old(out)@.len() <= final(out)@.len(),
        final(out)@.subrange(0, old(out)@.len() as int) == old(out)@,
        records_match(tail(final(out)@, old(out)@.len() as int), event_assertions(*e, cits@), job@),
{
    let ghost base = out@.len() as int;
    let ghost o0 = out@;
    let ghost mut es: Seq<AssertionSpec> = Seq::empty();
    proof {
        assert(tail(out@, base) =~= Seq::<ImportedAssertionRecord>::empty());
    }
    push_next(out, Ghost(base), Ghost(es), e.id, EntityType::Event, "event_type", AssertionValue::EventType(e.event_type.clone()), cits, job);
    proof { es = es.push((e.id, EntityType::Event, "event_type"@, AssertionValue::EventType(e.event_type), cits@)); }
    match &e.date {
        Some(d) => {
            push_next(out, Ghost(base), Ghost(es), e.id, EntityType::Event, "date", AssertionValue::Date(d.clone()), cits, job);
            proof { es = es.push((e.id, EntityType::Event, "date"@, AssertionValue::Date(*d), cits@)); }
        },
        None => {},
    }
    match &e.description {
        Some(t) => {
            push_next(out, Ghost(base), Ghost(es), e.id, EntityType::Event, "description", AssertionValue::Text(t.clone()), cits, job);
            proof { es = es.push((e.id, EntityType::Event, "description"@, AssertionValue::Text(*t), cits@)); }
        },
        None => {},
    }
    let ghost head = es;
    let mut i: usize = 0;
    proof {
        assert(e.participants@.subrange(0, 0) =~= Seq::<EventParticipant>::empty());
        assert(head + participations(*e, Seq::<EventParticipant>::empty(), cits@) =~= es);
    }
    while i < e.participants.len()
        invariant
            i <= e.participants@.len(),
            base == o0.len(),
            base <= out@.len(),
            out@.subrange(0, base) == o0,
            records_match(
                tail(out@, base),
                head + participations(*e, e.participants@.subrange(0, i as int), cits@),
                job@,
            ),
        decreases e.participants@.len() - i,
    {
        let p = &e.participants[i];
        let ghost es0 = head + participations(*e, e.participants@.subrange(0, i as int), cits@);
        push_next(out, Ghost(base), Ghost(es0), e.id, EntityType::Event, "participant", participation_value(e, p), cits, job);
        let ghost es1 = es0.push((e.id, EntityType::Event, "participant"@, participation(*e, *p), cits@));
        push_next(out, Ghost(base), Ghost(es1), p.person_id, EntityType::Person, "event_participation", participation_value(e, p), cits, job);
        proof {
            let es2 = es1.push((p.person_id, EntityType::Person, "event_participation"@, participation(*e, *p), cits@));
            assert(e.participants@.subrange(0, i + 1).drop_last() =~= e.participants@.subrange(0, i as int));
            assert(es2 =~= head + participations(*e, e.participants@.subrange(0, i + 1), cits@));
        }
        i = i + 1;
    }
    proof {
        assert(e.participants@.subrange(0, i as int) =~= e.participants@);
        assert(head + participations(*e, e.participants@, cits@) =~= event_assertions(*e, cits@));
    }
}

/// What a repository states: its name, its address, and each URL.
pub open spec fn repository_assertions(r: Repository) -> Seq<AssertionSpec> {
    seq![(r.id, EntityType::Repository, "name"@, AssertionValue::Text(r.name), Seq::empty())]
        + opt_assertion(r.id, EntityType::Repository, "address"@, text_value(r.address), Seq::empty())
        + r.urls@.map_values(
        |u: String| (r.id, EntityType::Repository, "url"@, AssertionValue::Text(u), Seq::<CitationRef>::empty()),
    )
}

fn push_repository_block(out: &mut Vec<ImportedAssertionRecord>, r: &Repository, job: &String)
    ensures
        old(out)@.len() <= final(out)@.len(),
        final(out)@.subrange(0, old(out)@.len() as int) == old(out)@,
        records_match(tail(final(out)@, old(out)@.len() as int), repository_assertions(*r), job@),
{
    let none: Vec<CitationRef> = Vec::new();
    let ghost base = out@.len() as int;
    let ghost o0 = out@;
    let ghost mut es: Seq<AssertionSpec> = Seq::empty();
    proof {
        assert(tail(out@, base) =~= Seq::<ImportedAssertionRecord>::empty());
    }
    push_next(out, Ghost(base), Ghost(es), r.id, EntityType::Repository, "name", AssertionValue::Text(r.name.clone()), &none, job);
    proof { es = es.push((r.id, EntityType::Repository, "name"@, AssertionValue::Text(r.name), none@)); }
    match &r.address {
        Some(a) => {
            push_next(out, Ghost(base), Ghost(es), r.id, EntityType::Repository, "address", AssertionValue::Text(a.clone()), &none, job);
            proof { es = es.push((r.id, EntityType::Repository, "address"@, AssertionValue::Text(*a), none@)); }
        },
        None => {},
    }
    let ghost head = es;
    let ghost urls = r.urls@.map_values(
        |u: String| (r.id, EntityType::Repository, "url"@, AssertionValue::Text(u), Seq::<CitationRef>::empty()),
    );
    let mut i: usize = 0;
    proof {
        assert(head + urls.subrange(0, 0) =~= es);
    }
    while i < r.urls.len()
        invariant
            i <= r.urls@.len(),
            none@.len() == 0,
            base == o0.len(),
            base <= out@.len(),
            out@.subrange(0, base) == o0,
            urls == r.urls@.map_values(
                |u: String| (r.id, EntityType::Repository, "url"@, AssertionValue::Text(u), Seq::<CitationRef>::empty()),
            ),
            records_match(tail(out@, base), head + urls.subrange(0, i as int), job@),
        decreases r.urls@.len() - i,
    {
        push_next(out, Ghost(base), Ghost(head + urls.subrange(0, i as int)), r.id, EntityType::Repository, "url", AssertionValue::Text(r.urls[i].clone()), &none, job);
        proof {
            assert(none@ =~= Seq::<CitationRef>::empty());
            assert((head + urls.subrange(0, i as int)).push(urls[i as int]) =~= head + urls.subrange(0, i + 1));
        }
        i = i + 1;
    }
    proof {
        assert(urls.subrange(0, i as int) =~= urls);
        assert(none@ =~= Seq::<CitationRef>::empty());
        assert(head + urls =~= repository_assertions(*r));
    }
}

/// What a source states: title, author, publication details, abbreviation,
/// and each repository reference.
pub open spec fn source_assertions(s: Source) -> Seq<AssertionSpec> {
    seq![(s.id, EntityType::Source, "title"@, AssertionValue::Text(s.title), Seq::empty())]
        + opt_assertion(s.id, EntityType::Source, "author"@, text_value(s.author), Seq::empty())
        + opt_assertion(s.id, EntityType::Source, "publication_info"@, text_value(s.publication_info), Seq::empty())
        + opt_assertion(s.id, EntityType::Source, "abbreviation"@, text_value(s.abbreviation), Seq::empty())
        + s.repository_refs@.map_values(
        |r: RepositoryRef| (s.id, EntityType::Source, "repository_ref"@, AssertionValue::RepositoryRef(r), Seq::<CitationRef>::empty()),
    )
}

fn push_source_block(out: &mut Vec<ImportedAssertionRecord>, s: &Source, job: &String)
    ensures
        old(out)@.len() <= final(out)@.len(),
        final(out)@.subrange(0, old(out)@.len() as int) == old(out)@,
        records_match(tail(final(out)@, old(out)@.len() as int), source_assertions(*s), job@),
{
    let none: Vec<CitationRef> = Vec::new();
    let ghost base = out@.len() as int;
    let ghost o0 = out@;
    let ghost mut es: Seq<AssertionSpec> = Seq::empty();
    proof {
        assert(tail(out@, base) =~= Seq::<ImportedAssertionRecord>::empty());
    }
    push_next(out, Ghost(base), Ghost(es), s.id, EntityType::Source, "title", AssertionValue::Text(s.title.clone()), &none, job);
    proof { es = es.push((s.id, EntityType::Source, "title"@, AssertionValue::Text(s.title), none@)); }
    match &s.author {
        Some(a) => {
            push_next(out, Ghost(base), Ghost(es), s.id, EntityType::Source, "author", AssertionValue::Text(a.clone()), &none, job);
            proof { es = es.push((s.id, EntityType::Source, "author"@, AssertionValue::Text(*a), none@)); }
        },
        None => {},
    }
    match &s.publication_info {
        Some(a) => {
            push_next(out, Ghost(base), Ghost(es), s.id, EntityType::Source, "publication_info", AssertionValue::Text(a.clone()), &none, job);
            proof { es = es.push((s.id, EntityType::Source, "publication_info"@, AssertionValue::Text(*a), none@)); }
        },
        None => {},
    }
    match &s.abbreviation {
        Some(a) => {
            push_next(out, Ghost(base), Ghost(es), s.id, EntityType::Source, "abbreviation", AssertionValue::Text(a.clone()), &none, job);
            proof { es = es.push((s.id, EntityType::Source, "abbreviation"@, AssertionValue::Text(*a), none@)); }
        },
        None => {},
    }
    let ghost head = es;
    let ghost refs = s.repository_refs@.map_values(
        |r: RepositoryRef| (s.id, EntityType::Source, "repository_ref"@, AssertionValue::RepositoryRef(r), Seq::<CitationRef>::empty()),
    );
    let mut i: usize = 0;
    proof {
        assert(head + refs.subrange(0, 0) =~= es);
    }
    while i < s.repository_refs.len()
        invariant
            i <= s.repository_refs@.len(),
            none@.len() == 0,
            base == o0.len(),
            base <= out@.len(),
            out@.subrange(0, base) == o0,
            refs == s.repository_refs@.map_values(
                |r: RepositoryRef| (s.id, EntityType::Source, "repository_ref"@, AssertionValue::RepositoryRef(r), Seq::<CitationRef>::empty()),
            ),
            records_match(tail(out@, base), head + refs.subrange(0, i as int), job@),
        decreases s.repository_refs@.len() - i,
    {
        push_next(out, Ghost(base), Ghost(head + refs.subrange(0, i as int)), s.id, EntityType::Source, "repository_ref", AssertionValue::RepositoryRef(s.repository_refs[i].clone()), &none, job);
        proof {
            assert(none@ =~= Seq::<CitationRef>::empty());
            assert((head + refs.subrange(0, i as int)).push(refs[i as int]) =~= head + refs.subrange(0, i + 1));
        }
        i = i + 1;
    }
    proof {
        assert(refs.subrange(0, i as int) =~= refs);
        assert(none@ =~= Seq::<CitationRef>::empty());
        assert(head + refs =~= source_assertions(*s));
    }
}

/// What a citation states: its source, page, certainty and transcription.
pub open spec fn citation_assertions(c: Citation) -> Seq<AssertionSpec> {
    seq![(c.id, EntityType::Citation, "source_id"@, AssertionValue::Id(c.source_id), Seq::empty())]
        + opt_assertion(c.id, EntityType::Citation, "page"@, text_value(c.page), Seq::empty())
        + opt_assertion(
        c.id,
        EntityType::Citation,
        "confidence_level"@,
        match c.confidence_level {
            Some(q) => Some(AssertionValue::Number(q)),
            None => None,
        },
        Seq::empty(),
    ) + opt_assertion(c.id, EntityType::Citation, "transcription"@, text_value(c.transcription), Seq::empty())
}

fn push_citation_block(out: &mut Vec<ImportedAssertionRecord>, c: &Citation, job: &String)
    ensures
        old(out)@.len() <= final(out)@.len(),
        final(out)@.subrange(0, old(out)@.len() as int) == old(out)@,
        records_match(tail(final(out)@, old(out)@.len() as int), citation_assertions(*c), job@),
{
    let none: Vec<CitationRef> = Vec::new();
    let ghost base = out@.len() as int;
    let ghost o0 = out@;
    let ghost mut es: Seq<AssertionSpec> = Seq::empty();
    proof {
        assert(tail(out@, base) =~= Seq::<ImportedAssertionRecord>::empty());
    }
    push_next(out, Ghost(base), Ghost(es), c.id, EntityType::Citation, "source_id", AssertionValue::Id(c.source_id), &none, job);
    proof { es = es.push((c.id, EntityType::Citation, "source_id"@, AssertionValue::Id(c.source_id), none@)); }
    match &c.page {
        Some(a) => {
            push_next(out, Ghost(base), Ghost(es), c.id, EntityType::Citation, "page", AssertionValue::Text(a.clone()), &none, job);
            proof { es = es.push((c.id, EntityType::Citation, "page"@, AssertionValue::Text(*a), none@)); }
        },
        None => {},
    }
    match c.confidence_level {
        Some(q) => {
            push_next(out, Ghost(base), Ghost(es), c.id, EntityType::Citation, "confidence_level", AssertionValue::Number(q), &none, job);
            proof { es = es.push((c.id, EntityType::Citation, "confidence_level"@, AssertionValue::Number(q), none@)); }
        },
        None => {},
    }
    match &c.transcription {
        Some(a) => {
            push_next(out, Ghost(base), Ghost(es), c.id, EntityType::Citation, "transcription", AssertionValue::Text(a.clone()), &none, job);
            proof { es = es.push((c.id, EntityType::Citation, "transcription"@, AssertionValue::Text(*a), none@)); }
        },
        None => {},
    }
    proof {
        assert(none@ =~= Seq::<CitationRef>::empty());
        assert(es =~= citation_assertions(*c));
        assert(out@.subrange(0, base) =~= o0);
    }
}

/// What a media object states: file path, media type and caption.
pub open spec fn media_assertions(m: Media) -> Seq<AssertionSpec> {
    seq![
        (m.id, EntityType::Media, "file_path"@, AssertionValue::Text(m.file_path), Seq::empty()),
        (m.id, EntityType::Media, "mime_type"@, AssertionValue::Text(m.mime_type), Seq::empty()),
    ] + opt_assertion(m.id, EntityType::Media, "caption"@, text_value(m.caption), Seq::empty())
}

fn push_media_block(out: &mut Vec<ImportedAssertionRecord>, m: &Media, job: &String)
    ensures
        old(out)@.len() <= final(out)@.len(),
        final(out)@.subrange(0, old(out)@.len() as int) == old(out)@,
        records_match(tail(final(out)@, old(out)@.len() as int), media_assertions(*m), job@),
{
    let none: Vec<CitationRef> = Vec::new();
    let ghost base = out@.len() as int;
    let ghost o0 = out@;
    let ghost mut es: Seq<AssertionSpec> = Seq::empty();
    proof {
        assert(tail(out@, base) =~= Seq::<ImportedAssertionRecord>::empty());
    }
    push_next(out, Ghost(base), Ghost(es), m.id, EntityType::Media, "file_path", AssertionValue::Text(m.file_path.clone()), &none, job);
    proof { es = es.push((m.id, EntityType::Media, "file_path"@, AssertionValue::Text(m.file_path), none@)); }
    push_next(out, Ghost(base), Ghost(es), m.id, EntityType::Media, "mime_type", AssertionValue::Text(m.mime_type.clone()), &none, job);
    proof { es = es.push((m.id, EntityType::Media, "mime_type"@, AssertionValue::Text(m.mime_type), none@)); }
    match &m.caption {
        Some(a) => {
            push_next(out, Ghost(base), Ghost(es), m.id, EntityType::Media, "caption", AssertionValue::Text(a.clone()), &none, job);
            proof { es = es.push((m.id, EntityType::Media, "caption"@, AssertionValue::Text(*a), none@)); }
        },
        None => {},
    }
    proof {
        assert(none@ =~= Seq::<CitationRef>::empty());
        assert(es =~= media_assertions(*m));
        assert(out@.subrange(0, base) =~= o0);
    }
}

/// What a note states: its text, and (when `with_type`) its type.
pub open spec fn note_assertions(n: Note, with_type: bool) -> Seq<AssertionSpec> {
    seq![(n.id, EntityType::Note, "text"@, AssertionValue::Text(n.text), Seq::empty())] + if with_type {
        seq![(n.id, EntityType::Note, "note_type"@, AssertionValue::NoteType(n.note_type), Seq::<CitationRef>::empty())]
    } else {
        Seq::empty()
    }
}

fn push_note_block(out: &mut Vec<ImportedAssertionRecord>, n: &Note, with_type: bool, job: &String)
    ensures
        old(out)@.len() <= final(out)@.len(),
        final(out)@.subrange(0, old(out)@.len() as int) == old(out)@,
        records_match(tail(final(out)@, old(out)@.len() as int), note_assertions(*n, with_type), job@),
{
    let none: Vec<CitationRef> = Vec::new();
    let ghost base = out@.len() as int;
    let ghost o0 = out@;
    let ghost mut es: Seq<AssertionSpec> = Seq::empty();
    proof {
        assert(tail(out@, base) =~= Seq::<ImportedAssertionRecord>::empty());
    }
    push_next(out, Ghost(base), Ghost(es), n.id, EntityType::Note, "text", AssertionValue::Text(n.text.clone()), &none, job);
    proof { es = es.push((n.id, EntityType::Note, "text"@, AssertionValue::Text(n.text), none@)); }
    if with_type {
        push_next(out, Ghost(base), Ghost(es), n.id, EntityType::Note, "note_type", AssertionValue::NoteType(n.note_type.clone()), &none, job);
        proof { es = es.push((n.id, EntityType::Note, "note_type"@, AssertionValue::NoteType(n.note_type), none@)); }
    }
    proof {
        assert(none@ =~= Seq::<CitationRef>::empty());
        assert(es =~= note_assertions(*n, with_type));
        assert(out@.subrange(0, base) =~= o0);
    }
}

/// What an LDS ordinance states: type, status, temple and date.
pub open spec fn ordinance_assertions(o: LdsOrdinance) -> Seq<AssertionSpec> {
    seq![
        (o.id, EntityType::LdsOrdinance, "ordinance_type"@, AssertionValue::OrdinanceType(o.ordinance_type), Seq::empty()),
        (o.id, EntityType::LdsOrdinance, "status"@, AssertionValue::LdsStatus(o.status), Seq::empty()),
    ] + opt_assertion(o.id, EntityType::LdsOrdinance, "temple_code"@, text_value(o.temple_code), Seq::empty())
        + opt_assertion(
        o.id,
        EntityType::LdsOrdinance,
        "date"@,
        match o.date {
            Some(d) => Some(AssertionValue::Date(d)),
            None => None,
        },
        Seq::empty(),
    )
}

fn push_ordinance_block(out: &mut Vec<ImportedAssertionRecord>, o: &LdsOrdinance, job: &String)
    ensures
        old(out)@.len() <= final(out)@.len(),
        final(out)@.subrange(0, old(out)@.len() as int) == old(out)@,
        records_match(tail(final(out)@, old(out)@.len() as int), ordinance_assertions(*o), job@),
{
    let none: Vec<CitationRef> = Vec::new();
    let ghost base = out@.len() as int;
    let ghost o0 = out@;
    let ghost mut es: Seq<AssertionSpec> = Seq::empty();
    proof {
        assert(tail(out@, base) =~= Seq::<ImportedAssertionRecord>::empty());
    }
    push_next(out, Ghost(base), Ghost(es), o.id, EntityType::LdsOrdinance, "ordinance_type", AssertionValue::OrdinanceType(o.ordinance_type.clone()), &none, job);
    proof { es = es.push((o.id, EntityType::LdsOrdinance, "ordinance_type"@, AssertionValue::OrdinanceType(o.ordinance_type), none@)); }
    push_next(out, Ghost(base), Ghost(es), o.id, EntityType::LdsOrdinance, "status", AssertionValue::LdsStatus(o.status.clone()), &none, job);
    proof { es = es.push((o.id, EntityType::LdsOrdinance, "status"@, AssertionValue::LdsStatus(o.status), none@)); }
    match &o.temple_code {
        Some(a) => {
            push_next(out, Ghost(base), Ghost(es), o.id, EntityType::LdsOrdinance, "temple_code", AssertionValue::Text(a.clone()), &none, job);
            proof { es = es.push((o.id, EntityType::LdsOrdinance, "temple_code"@, AssertionValue::Text(*a), none@)); }
        },
        None => {},
    }
    match &o.date {
        Some(d) => {
            push_next(out, Ghost(base), Ghost(es), o.id, EntityType::LdsOrdinance, "date", AssertionValue::Date(d.clone()), &none, job);
            proof { es = es.push((o.id, EntityType::LdsOrdinance, "date"@, AssertionValue::Date(*d), none@)); }
        },
        None => {},
    }
    proof {
        assert(none@ =~= Seq::<CitationRef>::empty());
        assert(es =~= ordinance_assertions(*o));
        assert(out@.subrange(0, base) =~= o0);
    }
}

/// The assertions of each item, one item after another.
pub open spec fn concat_map<T>(items: Seq<T>, f: spec_fn(T) -> Seq<AssertionSpec>) -> Seq<AssertionSpec>
    decreases items.len(),
{
    if items.len() == 0 {
        Seq::empty()
    } else {
        concat_map(items.drop_last(), f) + f(items.last())
    }
}

pub proof fn lemma_concat_map_step<T>(items: Seq<T>, i: int, f: spec_fn(T) -> Seq<AssertionSpec>)
    requires
        0 <= i < items.len(),
    ensures
        concat_map(items.subrange(0, i + 1), f) == concat_map(items.subrange(0, i), f) + f(items[i]),
{
    assert(items.subrange(0, i + 1).drop_last() =~= items.subrange(0, i));
}

/// Index of the last event with id `id`, or -1.
pub open spec fn last_index_with_id(events: Seq<Event>, id: EntityId) -> int
    decreases events.len(),
{
    if events.len() == 0 {
        -1
    } else if events.last().id == id {
        events.len() - 1
    } else {
        last_index_with_id(events.drop_last(), id)
    }
}

fn find_last_event(events: &[Event], id: EntityId) -> (r: Option<usize>)
    ensures
        match r {
            Some(k) => k as int == last_index_with_id(events@, id) && k < events@.len(),
            None => last_index_with_id(events@, id) == -1,
        },
{
    let mut j = events.len();
    proof {
        assert(events@.subrange(0, j as int) =~= events@);
    }
    while j > 0
        invariant
            j <= events@.len(),
            last_index_with_id(events@, id) == last_index_with_id(events@.subrange(0, j as int), id),
        decreases j,
    {
        proof {
            assert(events@.subrange(0, j as int).drop_last() =~= events@.subrange(0, j - 1));
        }
        if events[j - 1].id == id {
            return Some(j - 1);
        }
        j = j - 1;
    }
    None
}

/// The node tag under which a family event's citations were attached.
pub open spec fn family_event_owner_tag(t: EventType) -> Seq<char> {
    if t is Marriage {
        "MARR"@
    } else if is_custom_event(t, "divorce"@) {
        "DIV"@
    } else {
        "EVEN"@
    }
}

/// The citations of a family event.
pub open spec fn family_event_citations(e: Event, ncr: Seq<NodeCitationRef>) -> Seq<CitationRef> {
    node_citations(
        ncr,
        "FAM"@,
        raw_lookup(raw_entries(e._raw_gedcom), "FAM_XREF"@),
        family_event_owner_tag(e.event_type),
    )
}

/// The citations of a person's event.
pub open spec fn person_event_citations(e: Event, ncr: Seq<NodeCitationRef>) -> Seq<CitationRef> {
    node_citations(
        ncr,
        "INDI"@,
        raw_lookup(raw_entries(e._raw_gedcom), "INDI_XREF"@),
        match raw_lookup(raw_entries(e._raw_gedcom), "EVENT_TAG"@) {
            Some(t) => t,
            None => "EVEN"@,
        },
    )
}

/// The citations recorded for event id `id`: those of the last event with
/// that id (none when there is no such event).
pub open spec fn citations_by_event_id(
    events: Seq<Event>,
    id: EntityId,
    ncr: Seq<NodeCitationRef>,
    family: bool,
) -> Seq<CitationRef> {
    let k = last_index_with_id(events, id);
    if k < 0 {
        Seq::empty()
    } else if family {
        family_event_citations(events[k], ncr)
    } else {
        person_event_citations(events[k], ncr)
    }
}

fn event_citations(e: &Event, ncr: &Vec<NodeCitationRef>, family: bool) -> (r: Vec<CitationRef>)
    ensures
        r@ == (if family {
            family_event_citations(*e, ncr@)
        } else {
            person_event_citations(*e, ncr@)
        }),
{
    if family {
        let owner = match &e.event_type {
            EventType::Marriage => "MARR",
            EventType::Custom(v) => if str_eq(v.as_str(), "divorce") {
                "DIV"
            } else {
                "EVEN"
            },
            _ => "EVEN",
        };
        citations_for_node(ncr, "FAM", e._raw_gedcom.get("FAM_XREF"), owner)
    } else {
        let tag = match e._raw_gedcom.get("EVENT_TAG") {
            Some(t) => t.as_str(),
            None => "EVEN",
        };
        citations_for_node(ncr, "INDI", e._raw_gedcom.get("INDI_XREF"), tag)
    }
}

fn citations_by_id(events: &[Event], id: EntityId, ncr: &Vec<NodeCitationRef>, family: bool) -> (r: Vec<CitationRef>)
    ensures
        r@ == citations_by_event_id(events@, id, ncr@, family),
{
    match find_last_event(events, id) {
        Some(k) => event_citations(&events[k], ncr, family),
        None => Vec::new(),
    }
}

pub open spec fn persons_blocks(ecr: Seq<EntityCitationRef>) -> spec_fn(Person) -> Seq<AssertionSpec> {
    |p: Person| person_assertions(p, root_citations(ecr, "INDI"@, raw_lookup(raw_entries(p._raw_gedcom), "XREF"@)))
}

fn push_persons(out: &mut Vec<ImportedAssertionRecord>, items: &[Person], ecr: &Vec<EntityCitationRef>, job: &String)
    ensures
        old(out)@.len() <= final(out)@.len(),
        final(out)@.subrange(0, old(out)@.len() as int) == old(out)@,
        records_match(tail(final(out)@, old(out)@.len() as int), concat_map(items@, persons_blocks(ecr@)), job@),
{
    let ghost base = out@.len() as int;
    let ghost o0 = out@;
    let ghost f = persons_blocks(ecr@);
    let mut i: usize = 0;
    proof {
        assert(tail(out@, base) =~= Seq::<ImportedAssertionRecord>::empty());
        assert(out@.subrange(0, base) =~= o0);
        assert(items@.subrange(0, 0) =~= Seq::<Person>::empty());
    }
    while i < items.len()
        invariant
            i <= items@.len(),
            base == o0.len(),
            base <= out@.len(),
            out@.subrange(0, base) == o0,
            f == persons_blocks(ecr@),
            records_match(tail(out@, base), concat_map(items@.subrange(0, i as int), f), job@),
        decreases items@.len() - i,
    {
        let ghost s1 = out@;
        let cits = citations_for_root(ecr, "INDI", items[i]._raw_gedcom.get("XREF"));
        push_person_block(out, &items[i], &cits, job);
        proof {
            lemma_tail_concat(o0, s1, out@, concat_map(items@.subrange(0, i as int), f), f(items@[i as int]), job@);
            lemma_concat_map_step(items@, i as int, f);
        }
        i = i + 1;
    }
    proof {
        assert(items@.subrange(0, i as int) =~= items@);
    }
}

pub open spec fn families_blocks(ecr: Seq<EntityCitationRef>) -> spec_fn(Family) -> Seq<AssertionSpec> {
    |f: Family| family_assertions(f, root_citations(ecr, "FAM"@, raw_lookup(raw_entries(f._raw_gedcom), "XREF"@)))
}

fn push_families(out: &mut Vec<ImportedAssertionRecord>, items: &[Family], ecr: &Vec<EntityCitationRef>, job: &String)
    ensures
        old(out)@.len() <= final(out)@.len(),
        final(out)@.subrange(0, old(out)@.len() as int) == old(out)@,
        records_match(tail(final(out)@, old(out)@.len() as int), concat_map(items@, families_blocks(ecr@)), job@),
{
    let ghost base = out@.len() as int;
    let ghost o0 = out@;
    let ghost f = families_blocks(ecr@);
    let mut i: usize = 0;
    proof {
        assert(tail(out@, base) =~= Seq::<ImportedAssertionRecord>::empty());
        assert(out@.subrange(0, base) =~= o0);
        assert(items@.subrange(0, 0) =~= Seq::<Family>::empty());
    }
    while i < items.len()
        invariant
            i <= items@.len(),
            base == o0.len(),
            base <= out@.len(),
            out@.subrange(0, base) == o0,
            f == families_blocks(ecr@),
            records_match(tail(out@, base), concat_map(items@.subrange(0, i as int), f), job@),
        decreases items@.len() - i,
    {
        let ghost s1 = out@;
        let cits = citations_for_root(ecr, "FAM", items[i]._raw_gedcom.get("XREF"));
        push_family_block(out, &items[i], &cits, job);
        proof {
            lemma_tail_concat(o0, s1, out@, concat_map(items@.subrange(0, i as int), f), f(items@[i as int]), job@);
            lemma_concat_map_step(items@, i as int, f);
        }
        i = i + 1;
    }
    proof {
        assert(items@.subrange(0, i as int) =~= items@);
    }
}

pub open spec fn relationships_blocks(events: Seq<Event>, ncr: Seq<NodeCitationRef>) -> spec_fn(Relationship) -> Seq<AssertionSpec> {
    |r: Relationship| relationship_assertions(r, match r.supporting_event { Some(id) => citations_by_event_id(events, id, ncr, true), None => Seq::empty() })
}

fn push_relationships(out: &mut Vec<ImportedAssertionRecord>, items: &[Relationship], events: &[Event], ncr: &Vec<NodeCitationRef>, job: &String)
    ensures
        old(out)@.len() <= final(out)@.len(),
        final(out)@.subrange(0, old(out)@.len() as int) == old(out)@,
        records_match(tail(final(out)@, old(out)@.len() as int), concat_map(items@, relationships_blocks(events@, ncr@)), job@),
{
    let ghost base = out@.len() as int;
    let ghost o0 = out@;
    let ghost f = relationships_blocks(events@, ncr@);
    let mut i: usize = 0;
    proof {
        assert(tail(out@, base) =~= Seq::<ImportedAssertionRecord>::empty());
        assert(out@.subrange(0, base) =~= o0);
        assert(items@.subrange(0, 0) =~= Seq::<Relationship>::empty());
    }
    while i < items.len()
        invariant
            i <= items@.len(),
            base == o0.len(),
            base <= out@.len(),
            out@.subrange(0, base) == o0,
            f == relationships_blocks(events@, ncr@),
            records_match(tail(out@, base), concat_map(items@.subrange(0, i as int), f), job@),
        decreases items@.len() - i,
    {
        let ghost s1 = out@;
        let cits = match items[i].supporting_event {
            Some(id) => citations_by_id(events, id, ncr, true),
            None => Vec::new(),
        };
        push_relationship_block(out, &items[i], &cits, job);
        proof {
            lemma_tail_concat(o0, s1, out@, concat_map(items@.subrange(0, i as int), f), f(items@[i as int]), job@);
            lemma_concat_map_step(items@, i as int, f);
        }
        i = i + 1;
    }
    proof {
        assert(items@.subrange(0, i as int) =~= items@);
    }
}

pub open spec fn events_blocks(events: Seq<Event>, ncr: Seq<NodeCitationRef>, family: bool) -> spec_fn(Event) -> Seq<AssertionSpec> {
    |e: Event| event_assertions(e, citations_by_event_id(events, e.id, ncr, family))
}

fn push_events(out: &mut Vec<ImportedAssertionRecord>, items: &[Event], events: &[Event], ncr: &Vec<NodeCitationRef>, family: bool, job: &String)
    ensures
        old(out)@.len() <= final(out)@.len(),
        final(out)@.subrange(0, old(out)@.len() as int) == old(out)@,
        records_match(tail(final(out)@, old(out)@.len() as int), concat_map(items@, events_blocks(events@, ncr@, family)), job@),
{
    let ghost base = out@.len() as int;
    let ghost o0 = out@;
    let ghost f = events_blocks(events@, ncr@, family);
    let mut i: usize = 0;
    proof {
        assert(tail(out@, base) =~= Seq::<ImportedAssertionRecord>::empty());
        assert(out@.subrange(0, base) =~= o0);
        assert(items@.subrange(0, 0) =~= Seq::<Event>::empty());
    }
    while i < items.len()
        invariant
            i <= items@.len(),
            base == o0.len(),
            base <= out@.len(),
            out@.subrange(0, base) == o0,
            f == events_blocks(events@, ncr@, family),
            records_match(tail(out@, base), concat_map(items@.subrange(0, i as int), f), job@),
        decreases items@.len() - i,
    {
        let ghost s1 = out@;
        let cits = citations_by_id(events, items[i].id, ncr, family);
        push_event_block(out, &items[i], &cits, job);
        proof {
            lemma_tail_concat(o0, s1, out@, concat_map(items@.subrange(0, i as int), f), f(items@[i as int]), job@);
            lemma_concat_map_step(items@, i as int, f);
        }
        i = i + 1;
    }
    proof {
        assert(items@.subrange(0, i as int) =~= items@);
    }
}

pub open spec fn repositories_blocks() -> spec_fn(Repository) -> Seq<AssertionSpec> {
    |r: Repository| repository_assertions(r)
}

fn push_repositories(out: &mut Vec<ImportedAssertionRecord>, items: &[Repository], job: &String)
    ensures
        old(out)@.len() <= final(out)@.len(),
        final(out)@.subrange(0, old(out)@.len() as int) == old(out)@,
        records_match(tail(final(out)@, old(out)@.len() as int), concat_map(items@, repositories_blocks()), job@),
{
    let ghost base = out@.len() as int;
    let ghost o0 = out@;
    let ghost f = repositories_blocks();
    let mut i: usize = 0;
    proof {
        assert(tail(out@, base) =~= Seq::<ImportedAssertionRecord>::empty());
        assert(out@.subrange(0, base) =~= o0);
        assert(items@.subrange(0, 0) =~= Seq::<Repository>::empty());
    }
    while i < items.len()
        invariant
            i <= items@.len(),
            base == o0.len(),
            base <= out@.len(),
            out@.subrange(0, base) == o0,
            f == repositories_blocks(),
            records_match(tail(out@, base), concat_map(items@.subrange(0, i as int), f), job@),
        decreases items@.len() - i,
    {
        let ghost s1 = out@;
        push_repository_block(out, &items[i], job);
        proof {
            lemma_tail_concat(o0, s1, out@, concat_map(items@.subrange(0, i as int), f), f(items@[i as int]), job@);
            lemma_concat_map_step(items@, i as int, f);
        }
        i = i + 1;
    }
    proof {
        assert(items@.subrange(0, i as int) =~= items@);
    }
}

pub open spec fn sources_blocks() -> spec_fn(Source) -> Seq<AssertionSpec> {
    |s: Source| source_assertions(s)
}

fn push_sources(out: &mut Vec<ImportedAssertionRecord>, items: &[Source], job: &String)
    ensures
        old(out)@.len() <= final(out)@.len(),
        final(out)@.subrange(0, old(out)@.len() as int) == old(out)@,
        records_match(tail(final(out)@, old(out)@.len() as int), concat_map(items@, sources_blocks()), job@),
{
    let ghost base = out@.len() as int;
    let ghost o0 = out@;
    let ghost f = sources_blocks();
    let mut i: usize = 0;
    proof {
        assert(tail(out@, base) =~= Seq::<ImportedAssertionRecord>::empty());
        assert(out@.subrange(0, base) =~= o0);
        assert(items@.subrange(0, 0) =~= Seq::<Source>::empty());
    }
    while i < items.len()
        invariant
            i <= items@.len(),
            base == o0.len(),
            base <= out@.len(),
            out@.subrange(0, base) == o0,
            f == sources_blocks(),
            records_match(tail(out@, base), concat_map(items@.subrange(0, i as int), f), job@),
        decreases items@.len() - i,
    {
        let ghost s1 = out@;
        push_source_block(out, &items[i], job);
        proof {
            lemma_tail_concat(o0, s1, out@, concat_map(items@.subrange(0, i as int), f), f(items@[i as int]), job@);
            lemma_concat_map_step(items@, i as int, f);
        }
        i = i + 1;
    }
    proof {
        assert(items@.subrange(0, i as int) =~= items@);
    }
}

pub open spec fn citations_blocks() -> spec_fn(Citation) -> Seq<AssertionSpec> {
    |c: Citation| citation_assertions(c)
}

fn push_citations(out: &mut Vec<ImportedAssertionRecord>, items: &[Citation], job: &String)
    ensures
        old(out)@.len() <= final(out)@.len(),
        final(out)@.subrange(0, old(out)@.len() as int) == old(out)@,
        records_match(tail(final(out)@, old(out)@.len() as int), concat_map(items@, citations_blocks()), job@),
{
    let ghost base = out@.len() as int;
    let ghost o0 = out@;
    let ghost f = citations_blocks();
    let mut i: usize = 0;
    proof {
        assert(tail(out@, base) =~= Seq::<ImportedAssertionRecord>::empty());
        assert(out@.subrange(0, base) =~= o0);
        assert(items@.subrange(0, 0) =~= Seq::<Citation>::empty());
    }
    while i < items.len()
        invariant
            i <= items@.len(),
            base == o0.len(),
            base <= out@.len(),
            out@.subrange(0, base) == o0,
            f == citations_blocks(),
            records_match(tail(out@, base), concat_map(items@.subrange(0, i as int), f), job@),
        decreases items@.len() - i,
    {
        let ghost s1 = out@;
        push_citation_block(out, &items[i], job);
        proof {
            lemma_tail_concat(o0, s1, out@, concat_map(items@.subrange(0, i as int), f), f(items@[i as int]), job@);
            lemma_concat_map_step(items@, i as int, f);
        }
        i = i + 1;
    }
    proof {
        assert(items@.subrange(0, i as int) =~= items@);
    }
}

pub open spec fn media_blocks() -> spec_fn(Media) -> Seq<AssertionSpec> {
    |m: Media| media_assertions(m)
}

fn push_media(out: &mut Vec<ImportedAssertionRecord>, items: &[Media], job: &String)
    ensures
        old(out)@.len() <= final(out)@.len(),
        final(out)@.subrange(0, old(out)@.len() as int) == old(out)@,
        records_match(tail(final(out)@, old(out)@.len() as int), concat_map(items@, media_blocks()), job@),
{
    let ghost base = out@.len() as int;
    let ghost o0 = out@;
    let ghost f = media_blocks();
    let mut i: usize = 0;
    proof {
        assert(tail(out@, base) =~= Seq::<ImportedAssertionRecord>::empty());
        assert(out@.subrange(0, base) =~= o0);
        assert(items@.subrange(0, 0) =~= Seq::<Media>::empty());
    }
    while i < items.len()
        invariant
            i <= items@.len(),
            base == o0.len(),
            base <= out@.len(),
            out@.subrange(0, base) == o0,
            f == media_blocks(),
            records_match(tail(out@, base), concat_map(items@.subrange(0, i as int), f), job@),
        decreases items@.len() - i,
    {
        let ghost s1 = out@;
        push_media_block(out, &items[i], job);
        proof {
            lemma_tail_concat(o0, s1, out@, concat_map(items@.subrange(0, i as int), f), f(items@[i as int]), job@);
            lemma_concat_map_step(items@, i as int, f);
        }
        i = i + 1;
    }
    proof {
        assert(items@.subrange(0, i as int) =~= items@);
    }
}

pub open spec fn notes_blocks(with_type: bool) -> spec_fn(Note) -> Seq<AssertionSpec> {
    |n: Note| note_assertions(n, with_type)
}

fn push_notes(out: &mut Vec<ImportedAssertionRecord>, items: &[Note], with_type: bool, job: &String)
    ensures
        old(out)@.len() <= final(out)@.len(),
        final(out)@.subrange(0, old(out)@.len() as int) == old(out)@,
        records_match(tail(final(out)@, old(out)@.len() as int), concat_map(items@, notes_blocks(with_type)), job@),
{
    let ghost base = out@.len() as int;
    let ghost o0 = out@;
    let ghost f = notes_blocks(with_type);
    let mut i: usize = 0;
    proof {
        assert(tail(out@, base) =~= Seq::<ImportedAssertionRecord>::empty());
        assert(out@.subrange(0, base) =~= o0);
        assert(items@.subrange(0, 0) =~= Seq::<Note>::empty());
    }
    while i < items.len()
        invariant
            i <= items@.len(),
            base == o0.len(),
            base <= out@.len(),
            out@.subrange(0, base) == o0,
            f == notes_blocks(with_type),
            records_match(tail(out@, base), concat_map(items@.subrange(0, i as int), f), job@),
        decreases items@.len() - i,
    {
        let ghost s1 = out@;
        push_note_block(out, &items[i], with_type, job);
        proof {
            lemma_tail_concat(o0, s1, out@, concat_map(items@.subrange(0, i as int), f), f(items@[i as int]), job@);
            lemma_concat_map_step(items@, i as int, f);
        }
        i = i + 1;
    }
    proof {
        assert(items@.subrange(0, i as int) =~= items@);
    }
}

pub open spec fn ordinances_blocks() -> spec_fn(LdsOrdinance) -> Seq<AssertionSpec> {
    |o: LdsOrdinance| ordinance_assertions(o)
}

fn push_ordinances(out: &mut Vec<ImportedAssertionRecord>, items: &[LdsOrdinance], job: &String)
    ensures
        old(out)@.len() <= final(out)@.len(),
        final(out)@.subrange(0, old(out)@.len() as int) == old(out)@,
        records_match(tail(final(out)@, old(out)@.len() as int), concat_map(items@, ordinances_blocks()), job@),
{
    let ghost base = out@.len() as int;
    let ghost o0 = out@;
    let ghost f = ordinances_blocks();
    let mut i: usize = 0;
    proof {
        assert(tail(out@, base) =~= Seq::<ImportedAssertionRecord>::empty());
        assert(out@.subrange(0, base) =~= o0);
        assert(items@.subrange(0, 0) =~= Seq::<LdsOrdinance>::empty());
    }
    while i < items.len()
        invariant
            i <= items@.len(),
            base == o0.len(),
            base <= out@.len(),
            out@.subrange(0, base) == o0,
            f == ordinances_blocks(),
            records_match(tail(out@, base), concat_map(items@.subrange(0, i as int), f), job@),
        decreases items@.len() - i,
    {
        let ghost s1 = out@;
        push_ordinance_block(out, &items[i], job);
        proof {
            lemma_tail_concat(o0, s1, out@, concat_map(items@.subrange(0, i as int), f), f(items@[i as int]), job@);
            lemma_concat_map_step(items@, i as int, f);
        }
        i = i + 1;
    }
    proof {
        assert(items@.subrange(0, i as int) =~= items@);
    }
}

/// Everything an import states, in the order it is recorded: persons,
/// families, couple relationships, family events, person events,
/// repositories, sources, citations, media, notes, LDS ordinances, then the
/// media again and the notes again with their type.
pub open spec fn import_assertions(
    persons: Seq<Person>,
    fm: FamilyMapping,
    sm: SourceChainMapping,
    mm: MediaNoteLdsMapping,
    person_events: Seq<Event>,
) -> Seq<AssertionSpec> {
    let ecr = sm.entity_citation_refs@;
    let ncr = sm.node_citation_refs@;
    concat_map(persons, persons_blocks(ecr)) + concat_map(fm.families@, families_blocks(ecr))
        + concat_map(fm.relationships@, relationships_blocks(fm.events@, ncr)) + concat_map(
        fm.events@,
        events_blocks(fm.events@, ncr, true),
    ) + concat_map(person_events, events_blocks(person_events, ncr, false)) + concat_map(
        sm.repositories@,
        repositories_blocks(),
    ) + concat_map(sm.sources@, sources_blocks()) + concat_map(sm.citations@, citations_blocks())
        + concat_map(mm.media@, media_blocks()) + concat_map(mm.notes@, notes_blocks(false))
        + concat_map(mm.lds_ordinances@, ordinances_blocks()) + concat_map(mm.media@, media_blocks())
        + concat_map(mm.notes@, notes_blocks(true)) + concat_map(
        mm.note_links@,
        note_links_blocks(persons, person_events),
    ) + concat_map(mm.media_links@, media_links_blocks(persons, person_events, fm.families@, fm.events@))
}

/// The first person from `i` on recorded under the xref `x`.
pub open spec fn person_with_raw_xref(ps: Seq<Person>, x: Seq<char>, i: int) -> Option<Person>
    decreases ps.len() - i,
{
    if i < 0 || i >= ps.len() {
        None
    } else if raw_lookup(raw_entries(ps[i]._raw_gedcom), "XREF"@) == Some(x) {
        Some(ps[i])
    } else {
        person_with_raw_xref(ps, x, i + 1)
    }
}

/// The first event from `i` on mapped from a `tag` node of the individual
/// record `x`.
pub open spec fn event_with_owner(es: Seq<Event>, x: Seq<char>, tag: Seq<char>, i: int) -> Option<Event>
    decreases es.len() - i,
{
    if i < 0 || i >= es.len() {
        None
    } else if raw_lookup(raw_entries(es[i]._raw_gedcom), "INDI_XREF"@) == Some(x) && raw_lookup(
        raw_entries(es[i]._raw_gedcom),
        "EVENT_TAG"@,
    ) == Some(tag) {
        Some(es[i])
    } else {
        event_with_owner(es, x, tag, i + 1)
    }
}

/// What a note inside an individual record states: a `note_ref` (the linked
/// xref) or a `note` (its text), about the person when the note sits on the
/// record, else about the first of the person's events of that tag; nothing
/// when the record has no xref or no such person or event was mapped.
pub open spec fn note_link_assertions(l: NoteLink, persons: Seq<Person>, events: Seq<Event>) -> Seq<AssertionSpec> {
    let field = if l.linked {
        "note_ref"@
    } else {
        "note"@
    };
    match l.root_xref.deep_view() {
        None => Seq::empty(),
        Some(x) => if l.owner_tag@ == "INDI"@ {
            match person_with_raw_xref(persons, x, 0) {
                Some(p) => seq![(p.id, EntityType::Person, field, AssertionValue::Text(l.text), Seq::<CitationRef>::empty())],
                None => Seq::empty(),
            }
        } else {
            match event_with_owner(events, x, l.owner_tag@, 0) {
                Some(e) => seq![(e.id, EntityType::Event, field, AssertionValue::Text(l.text), Seq::<CitationRef>::empty())],
                None => Seq::empty(),
            }
        },
    }
}

pub open spec fn note_links_blocks(persons: Seq<Person>, events: Seq<Event>) -> spec_fn(NoteLink) -> Seq<AssertionSpec> {
    |l: NoteLink| note_link_assertions(l, persons, events)
}

fn find_person_by_raw_xref(ps: &[Person], x: &String) -> (r: Option<usize>)
    ensures
        match r {
            Some(k) => k < ps@.len() && person_with_raw_xref(ps@, x@, 0) == Some(ps@[k as int]),
            None => person_with_raw_xref(ps@, x@, 0) is None,
        },
{
    let mut i: usize = 0;
    while i < ps.len()
        invariant
            i <= ps@.len(),
            person_with_raw_xref(ps@, x@, 0) == person_with_raw_xref(ps@, x@, i as int),
        decreases ps@.len() - i,
    {
        match ps[i]._raw_gedcom.get("XREF") {
            Some(v) => {
                if str_eq(v.as_str(), x.as_str()) {
                    return Some(i);
                }
            },
            None => {},
        }
        i = i + 1;
    }
    None
}

fn find_event_by_owner(es: &[Event], x: &String, tag: &String) -> (r: Option<usize>)
    ensures
        match r {
            Some(k) => k < es@.len() && event_with_owner(es@, x@, tag@, 0) == Some(es@[k as int]),
            None => event_with_owner(es@, x@, tag@, 0) is None,
        },
{
    let mut i: usize = 0;
    while i < es.len()
        invariant
            i <= es@.len(),
            event_with_owner(es@, x@, tag@, 0) == event_with_owner(es@, x@, tag@, i as int),
        decreases es@.len() - i,
    {
        let a = match es[i]._raw_gedcom.get("INDI_XREF") {
            Some(v) => str_eq(v.as_str(), x.as_str()),
            None => false,
        };
        let b = match es[i]._raw_gedcom.get("EVENT_TAG") {
            Some(v) => str_eq(v.as_str(), tag.as_str()),
            None => false,
        };
        if a && b {
            return Some(i);
        }
        i = i + 1;
    }
    None
}

fn push_note_link_block(
    out: &mut Vec<ImportedAssertionRecord>,
    l: &NoteLink,
    persons: &[Person],
    events: &[Event],
    job: &String,
)
    ensures
        old(out)@.len() <= final(out)@.len(),
        final(out)@.subrange(0, old(out)@.len() as int) == old(out)@,
        records_match(tail(final(out)@, old(out)@.len() as int), note_link_assertions(*l, persons@, events@), job@),
{
    let none: Vec<CitationRef> = Vec::new();
    let ghost base = out@.len() as int;
    let ghost es: Seq<AssertionSpec> = Seq::empty();
    proof {
        assert(tail(out@, base) =~= Seq::<ImportedAssertionRecord>::empty());
        assert(out@.subrange(0, base) =~= out@);
        assert(none@ =~= Seq::<CitationRef>::empty());
    }
    let field = if l.linked {
        "note_ref"
    } else {
        "note"
    };
    match &l.root_xref {
        None => {},
        Some(x) => {
            if str_eq(l.owner_tag.as_str(), "INDI") {
                match find_person_by_raw_xref(persons, x) {
                    Some(k) => {
                        push_next(out, Ghost(base), Ghost(es), persons[k].id, EntityType::Person, field, AssertionValue::Text(l.text.clone()), &none, job);
                    },
                    None => {},
                }
            } else {
                match find_event_by_owner(events, x, &l.owner_tag) {
                    Some(k) => {
                        push_next(out, Ghost(base), Ghost(es), events[k].id, EntityType::Event, field, AssertionValue::Text(l.text.clone()), &none, job);
                    },
                    None => {},
                }
            }
        },
    }
    proof {
        reveal_strlit("note_ref");
        reveal_strlit("note");
    }
}

fn push_note_links(
    out: &mut Vec<ImportedAssertionRecord>,
    items: &[NoteLink],
    persons: &[Person],
    events: &[Event],
    job: &String,
)
    ensures
        old(out)@.len() <= final(out)@.len(),
        final(out)@.subrange(0, old(out)@.len() as int) == old(out)@,
        records_match(
            tail(final(out)@, old(out)@.len() as int),
            concat_map(items@, note_links_blocks(persons@, events@)),
            job@,
        ),
{
    let ghost base = out@.len() as int;
    let ghost o0 = out@;
    let ghost f = note_links_blocks(persons@, events@);
    let mut i: usize = 0;
    proof {
        assert(tail(out@, base) =~= Seq::<ImportedAssertionRecord>::empty());
        assert(out@.subrange(0, base) =~= o0);
        assert(items@.subrange(0, 0) =~= Seq::<NoteLink>::empty());
    }
    while i < items.len()
        invariant
            i <= items@.len(),
            base == o0.len(),
            base <= out@.len(),
            out@.subrange(0, base) == o0,
            f == note_links_blocks(persons@, events@),
            records_match(tail(out@, base), concat_map(items@.subrange(0, i as int), f), job@),
        decreases items@.len() - i,
    {
        let ghost s1 = out@;
        push_note_link_block(out, &items[i], persons, events, job);
        proof {
            lemma_tail_concat(o0, s1, out@, concat_map(items@.subrange(0, i as int), f), f(items@[i as int]), job@);
            lemma_concat_map_step(items@, i as int, f);
        }
        i = i + 1;
    }
    proof {
        assert(items@.subrange(0, i as int) =~= items@);
    }
}

/// The first family from `i` on recorded under the xref `x`.
pub open spec fn family_with_xref(fs: Seq<Family>, x: Seq<char>, i: int) -> Option<Family>
    decreases fs.len() - i,
{
    if i < 0 || i >= fs.len() {
        None
    } else if fs[i].original_xref.deep_view() == Some(x) {
        Some(fs[i])
    } else {
        family_with_xref(fs, x, i + 1)
    }
}

/// The first family event from `i` on mapped from a `tag` node of the family
/// record `x`.
pub open spec fn family_event_with_owner(es: Seq<Event>, x: Seq<char>, tag: Seq<char>, i: int) -> Option<Event>
    decreases es.len() - i,
{
    if i < 0 || i >= es.len() {
        None
    } else if raw_lookup(raw_entries(es[i]._raw_gedcom), "FAM_XREF"@) == Some(x) && family_event_owner_tag(
        es[i].event_type,
    ) == tag {
        Some(es[i])
    } else {
        family_event_with_owner(es, x, tag, i + 1)
    }
}

/// The value of a media link.
pub open spec fn media_ref_value(l: MediaLink) -> AssertionValue {
    AssertionValue::MediaRef {
        media_xref: l.media_xref,
        external_path: l.external_path,
        crop_rect_pct: l.crop_rect_pct,
        is_primary: l.is_primary,
    }
}

/// What an object inside a record states: a `media_ref` about the person or
/// family when it sits on the record, else about the first of its events of
/// that tag; nothing when the record has no xref or nothing was mapped.
pub open spec fn media_link_assertions(
    l: MediaLink,
    persons: Seq<Person>,
    person_events: Seq<Event>,
    families: Seq<Family>,
    family_events: Seq<Event>,
) -> Seq<AssertionSpec> {
    let v = media_ref_value(l);
    match l.root_xref.deep_view() {
        None => Seq::empty(),
        Some(x) => if l.root_tag@ == "INDI"@ {
            if l.owner_tag@ == "INDI"@ {
                match person_with_raw_xref(persons, x, 0) {
                    Some(p) => seq![(p.id, EntityType::Person, "media_ref"@, v, Seq::<CitationRef>::empty())],
                    None => Seq::empty(),
                }
            } else {
                match event_with_owner(person_events, x, l.owner_tag@, 0) {
                    Some(e) => seq![(e.id, EntityType::Event, "media_ref"@, v, Seq::<CitationRef>::empty())],
                    None => Seq::empty(),
                }
            }
        } else if l.root_tag@ == "FAM"@ {
            if l.owner_tag@ == "FAM"@ {
                match family_with_xref(families, x, 0) {
                    Some(f) => seq![(f.id, EntityType::Family, "media_ref"@, v, Seq::<CitationRef>::empty())],
                    None => Seq::empty(),
                }
            } else {
                match family_event_with_owner(family_events, x, l.owner_tag@, 0) {
                    Some(e) => seq![(e.id, EntityType::Event, "media_ref"@, v, Seq::<CitationRef>::empty())],
                    None => Seq::empty(),
                }
            }
        } else {
            Seq::empty()
        },
    }
}

pub open spec fn media_links_blocks(
    persons: Seq<Person>,
    person_events: Seq<Event>,
    families: Seq<Family>,
    family_events: Seq<Event>,
) -> spec_fn(MediaLink) -> Seq<AssertionSpec> {
    |l: MediaLink| media_link_assertions(l, persons, person_events, families, family_events)
}

fn find_family_by_xref(fs: &[Family], x: &String) -> (r: Option<usize>)
    ensures
        match r {
            Some(k) => k < fs@.len() && family_with_xref(fs@, x@, 0) == Some(fs@[k as int]),
            None => family_with_xref(fs@, x@, 0) is None,
        },
{
    let mut i: usize = 0;
    while i < fs.len()
        invariant
            i <= fs@.len(),
            family_with_xref(fs@, x@, 0) == family_with_xref(fs@, x@, i as int),
        decreases fs@.len() - i,
    {
        match &fs[i].original_xref {
            Some(v) => {
                if str_eq(v.as_str(), x.as_str()) {
                    return Some(i);
                }
            },
            None => {},
        }
        i = i + 1;
    }
    None
}

fn family_owner_tag(t: &EventType) -> (r: &'static str)
    ensures
        r@ == family_event_owner_tag(*t),
{
    match t {
        EventType::Marriage => "MARR",
        EventType::Custom(v) => if str_eq(v.as_str(), "divorce") {
            "DIV"
        } else {
            "EVEN"
        },
        _ => "EVEN",
    }
}

fn find_family_event_by_owner(es: &[Event], x: &String, tag: &String) -> (r: Option<usize>)
    ensures
        match r {
            Some(k) => k < es@.len() && family_event_with_owner(es@, x@, tag@, 0) == Some(es@[k as int]),
            None => family_event_with_owner(es@, x@, tag@, 0) is None,
        },
{
    let mut i: usize = 0;
    while i < es.len()
        invariant
            i <= es@.len(),
            family_event_with_owner(es@, x@, tag@, 0) == family_event_with_owner(es@, x@, tag@, i as int),
        decreases es@.len() - i,
    {
        let a = match es[i]._raw_gedcom.get("FAM_XREF") {
            Some(v) => str_eq(v.as_str(), x.as_str()),
            None => false,
        };
        let b = str_eq(family_owner_tag(&es[i].event_type), tag.as_str());
        if a && b {
            return Some(i);
        }
        i = i + 1;
    }
    None
}

fn clone_opt_text(o: &Option<String>) -> (r: Option<String>)
    ensures
        r == *o,
{
    match o {
        Some(s) => Some(s.clone()),
        None => None,
    }
}

fn media_ref_of(l: &MediaLink) -> (r: AssertionValue)
    ensures
        r == media_ref_value(*l),
{
    let crop = match &l.crop_rect_pct {
        Some(c) => Some(CropRectPct { x_pct: c.x_pct, y_pct: c.y_pct, width_pct: c.width_pct, height_pct: c.height_pct }),
        None => None,
    };
    AssertionValue::MediaRef {
        media_xref: clone_opt_text(&l.media_xref),
        external_path: clone_opt_text(&l.external_path),
        crop_rect_pct: crop,
        is_primary: l.is_primary,
    }
}

fn push_media_link_block(
    out: &mut Vec<ImportedAssertionRecord>,
    l: &MediaLink,
    persons: &[Person],
    person_events: &[Event],
    families: &[Family],
    family_events: &[Event],
    job: &String,
)
    ensures
        old(out)@.len() <= final(out)@.len(),
        final(out)@.subrange(0, old(out)@.len() as int) == old(out)@,
        records_match(
            tail(final(out)@, old(out)@.len() as int),
            media_link_assertions(*l, persons@, person_events@, families@, family_events@),
            job@,
        ),
{
    let none: Vec<CitationRef> = Vec::new();
    let ghost base = out@.len() as int;
    let ghost es: Seq<AssertionSpec> = Seq::empty();
    proof {
        assert(tail(out@, base) =~= Seq::<ImportedAssertionRecord>::empty());
        assert(out@.subrange(0, base) =~= out@);
        assert(none@ =~= Seq::<CitationRef>::empty());
    }
    match &l.root_xref {
        None => {},
        Some(x) => {
            if str_eq(l.root_tag.as_str(), "INDI") {
                if str_eq(l.owner_tag.as_str(), "INDI") {
                    match find_person_by_raw_xref(persons, x) {
                        Some(k) => {
                            push_next(out, Ghost(base), Ghost(es), persons[k].id, EntityType::Person, "media_ref", media_ref_of(l), &none, job);
                        },
                        None => {},
                    }
                } else {
                    match find_event_by_owner(person_events, x, &l.owner_tag) {
                        Some(k) => {
                            push_next(out, Ghost(base), Ghost(es), person_events[k].id, EntityType::Event, "media_ref", media_ref_of(l), &none, job);
                        },
                        None => {},
                    }
                }
            } else if str_eq(l.root_tag.as_str(), "FAM") {
                if str_eq(l.owner_tag.as_str(), "FAM") {
                    match find_family_by_xref(families, x) {
                        Some(k) => {
                            push_next(out, Ghost(base), Ghost(es), families[k].id, EntityType::Family, "media_ref", media_ref_of(l), &none, job);
                        },
                        None => {},
                    }
                } else {
                    match find_family_event_by_owner(family_events, x, &l.owner_tag) {
                        Some(k) => {
                            push_next(out, Ghost(base), Ghost(es), family_events[k].id, EntityType::Event, "media_ref", media_ref_of(l), &none, job);
                        },
                        None => {},
                    }
                }
            }
        },
    }
}

fn push_media_links(
    out: &mut Vec<ImportedAssertionRecord>,
    items: &[MediaLink],
    persons: &[Person],
    person_events: &[Event],
    families: &[Family],
    family_events: &[Event],
    job: &String,
)
    ensures
        old(out)@.len() <= final(out)@.len(),
        final(out)@.subrange(0, old(out)@.len() as int) == old(out)@,
        records_match(
            tail(final(out)@, old(out)@.len() as int),
            concat_map(items@, media_links_blocks(persons@, person_events@, families@, family_events@)),
            job@,
        ),
{
    let ghost base = out@.len() as int;
    let ghost o0 = out@;
    let ghost f = media_links_blocks(persons@, person_events@, families@, family_events@);
    let mut i: usize = 0;
    proof {
        assert(tail(out@, base) =~= Seq::<ImportedAssertionRecord>::empty());
        assert(out@.subrange(0, base) =~= o0);
        assert(items@.subrange(0, 0) =~= Seq::<MediaLink>::empty());
    }
    while i < items.len()
        invariant
            i <= items@.len(),
            base == o0.len(),
            base <= out@.len(),
            out@.subrange(0, base) == o0,
            f == media_links_blocks(persons@, person_events@, families@, family_events@),
            records_match(tail(out@, base), concat_map(items@.subrange(0, i as int), f), job@),
        decreases items@.len() - i,
    {
        let ghost s1 = out@;
        push_media_link_block(out, &items[i], persons, person_events, families, family_events, job);
        proof {
            lemma_tail_concat(o0, s1, out@, concat_map(items@.subrange(0, i as int), f), f(items@[i as int]), job@);
            lemma_concat_map_step(items@, i as int, f);
        }
        i = i + 1;
    }
    proof {
        assert(items@.subrange(0, i as int) =~= items@);
    }
}

/// The assertions an import records for everything mapped from a GEDCOM
/// file (see `import_assertions`), each proposed by the import job.
pub fn generate_import_assertions(
    import_job_id: &str,
    persons: &[Person],
    family_mapping: &FamilyMapping,
    source_mapping: &SourceChainMapping,
    media_note_lds_mapping: &MediaNoteLdsMapping,
    person_events: &[Event],
) -> (r: Vec<ImportedAssertionRecord>)
    ensures
        records_match(
            r@,
            import_assertions(
                persons@,
                *family_mapping,
                *source_mapping,
                *media_note_lds_mapping,
                person_events@,
            ),
            import_job_id@,
        ),
{
    let job = str_to_string(import_job_id);
    let ecr = &source_mapping.entity_citation_refs;
    let ncr = &source_mapping.node_citation_refs;
    let mut out: Vec<ImportedAssertionRecord> = Vec::new();
    let ghost s0 = out@;
    push_persons(&mut out, persons, ecr, &job);
    let ghost s1 = out@;
    push_families(&mut out, family_mapping.families.as_slice(), ecr, &job);
    let ghost s2 = out@;
    push_relationships(&mut out, family_mapping.relationships.as_slice(), family_mapping.events.as_slice(), ncr, &job);
    let ghost s3 = out@;
    push_events(&mut out, family_mapping.events.as_slice(), family_mapping.events.as_slice(), ncr, true, &job);
    let ghost s4 = out@;
    push_events(&mut out, person_events, person_events, ncr, false, &job);
    let ghost s5 = out@;
    push_repositories(&mut out, source_mapping.repositories.as_slice(), &job);
    let ghost s6 = out@;
    push_sources(&mut out, source_mapping.sources.as_slice(), &job);
    let ghost s7 = out@;
    push_citations(&mut out, source_mapping.citations.as_slice(), &job);
    let ghost s8 = out@;
    push_media(&mut out, media_note_lds_mapping.media.as_slice(), &job);
    let ghost s9 = out@;
    push_notes(&mut out, media_note_lds_mapping.notes.as_slice(), false, &job);
    let ghost s10 = out@;
    push_ordinances(&mut out, media_note_lds_mapping.lds_ordinances.as_slice(), &job);
    let ghost s11 = out@;
    push_media(&mut out, media_note_lds_mapping.media.as_slice(), &job);
    let ghost s12 = out@;
    push_notes(&mut out, media_note_lds_mapping.notes.as_slice(), true, &job);
    let ghost s13 = out@;
    push_note_links(&mut out, media_note_lds_mapping.note_links.as_slice(), persons, person_events, &job);
    let ghost s14 = out@;
    push_media_links(
        &mut out,
        media_note_lds_mapping.media_links.as_slice(),
        persons,
        person_events,
        family_mapping.families.as_slice(),
        family_mapping.events.as_slice(),
        &job,
    );
    proof {
        let ecrv = source_mapping.entity_citation_refs@;
        let ncrv = source_mapping.node_citation_refs@;
        let fm = *family_mapping;
        let sm = *source_mapping;
        let mm = *media_note_lds_mapping;
        let a1 = concat_map(persons@, persons_blocks(ecrv));
        let a2 = concat_map(fm.families@, families_blocks(ecrv));
        let a3 = concat_map(fm.relationships@, relationships_blocks(fm.events@, ncrv));
        let a4 = concat_map(fm.events@, events_blocks(fm.events@, ncrv, true));
        let a5 = concat_map(person_events@, events_blocks(person_events@, ncrv, false));
        let a6 = concat_map(sm.repositories@, repositories_blocks());
        let a7 = concat_map(sm.sources@, sources_blocks());
        let a8 = concat_map(sm.citations@, citations_blocks());
        let a9 = concat_map(mm.media@, media_blocks());
        let a10 = concat_map(mm.notes@, notes_blocks(false));
        let a11 = concat_map(mm.lds_ordinances@, ordinances_blocks());
        let a12 = concat_map(mm.notes@, notes_blocks(true));
        assert(s0.len() == 0);
        lemma_tail_concat(s0, s1, s2, a1, a2, job@);
        lemma_tail_concat(s0, s2, s3, a1 + a2, a3, job@);
        lemma_tail_concat(s0, s3, s4, a1 + a2 + a3, a4, job@);
        lemma_tail_concat(s0, s4, s5, a1 + a2 + a3 + a4, a5, job@);
        lemma_tail_concat(s0, s5, s6, a1 + a2 + a3 + a4 + a5, a6, job@);
        lemma_tail_concat(s0, s6, s7, a1 + a2 + a3 + a4 + a5 + a6, a7, job@);
        lemma_tail_concat(s0, s7, s8, a1 + a2 + a3 + a4 + a5 + a6 + a7, a8, job@);
        lemma_tail_concat(s0, s8, s9, a1 + a2 + a3 + a4 + a5 + a6 + a7 + a8, a9, job@);
        lemma_tail_concat(s0, s9, s10, a1 + a2 + a3 + a4 + a5 + a6 + a7 + a8 + a9, a10, job@);
        lemma_tail_concat(s0, s10, s11, a1 + a2 + a3 + a4 + a5 + a6 + a7 + a8 + a9 + a10, a11, job@);
        lemma_tail_concat(s0, s11, s12, a1 + a2 + a3 + a4 + a5 + a6 + a7 + a8 + a9 + a10 + a11, a9, job@);
        lemma_tail_concat(s0, s12, s13, a1 + a2 + a3 + a4 + a5 + a6 + a7 + a8 + a9 + a10 + a11 + a9, a12, job@);
        let a13 = concat_map(mm.note_links@, note_links_blocks(persons@, person_events@));
        lemma_tail_concat(
            s0,
            s13,
            s14,
            a1 + a2 + a3 + a4 + a5 + a6 + a7 + a8 + a9 + a10 + a11 + a9 + a12,
            a13,
            job@,
        );
        let a14 = concat_map(mm.media_links@, media_links_blocks(persons@, person_events@, fm.families@, fm.events@));
        lemma_tail_concat(
            s0,
            s14,
            out@,
            a1 + a2 + a3 + a4 + a5 + a6 + a7 + a8 + a9 + a10 + a11 + a9 + a12 + a13,
            a14,
            job@,
        );
        assert(tail(out@, 0) =~= out@);
        assert(a1 + a2 + a3 + a4 + a5 + a6 + a7 + a8 + a9 + a10 + a11 + a9 + a12 + a13 + a14 =~= import_assertions(
            persons@,
            fm,
            sm,
            mm,
            person_events@,
        ));
    }
    out
}

} // verus!
