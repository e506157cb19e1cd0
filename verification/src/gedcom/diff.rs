//! Field-level differences between matched imported and existing persons.
use crate::event::{event_type_name, lemma_event_type_name_shape, Event, EventType};
use crate::gedcom::matching::{
    date_eq, event_date_for, person_event_date, person_label, person_label_text, primary_given, primary_surname,
    ref_views, same_date, GedcomRef, MatchResult, MatchedEntity, RefKind,
};
use crate::person::Person;
use crate::text::{push_str, str_eq, str_to_string};
use crate::types::{DateValue, EntityId, Gender};
use vstd::prelude::*;

verus! {

/// The text that `{:?}` writes for a string: the string in double quotes,
/// with its special characters escaped.
pub uninterp spec fn debug_quoted(s: Seq<char>) -> Seq<char>;

/// `format!("{:?}", s)` on a string slice. Claimed: the result, named
/// `debug_quoted`, depends on the text of `s` alone.
#[verifier::external_body]
fn str_debug(s: &str) -> (r: String)
    ensures
        r@ == debug_quoted(s@),
{
    format!("{:?}", s)
}

/// The text `{:?}` writes for a gender.
pub open spec fn gender_text(g: Gender) -> Seq<char> {
    match g {
        Gender::Male => "Male"@,
        Gender::Female => "Female"@,
        Gender::Unknown => "Unknown"@,
        Gender::Custom(s) => "Custom("@ + debug_quoted(s@) + ")"@,
    }
}

pub fn gender_debug_text(g: &Gender) -> (r: String)
    ensures
        r@ == gender_text(*g),
{
    match g {
        Gender::Male => str_to_string("Male"),
        Gender::Female => str_to_string("Female"),
        Gender::Unknown => str_to_string("Unknown"),
        Gender::Custom(s) => {
            let mut out = str_to_string("Custom(");
            let q = str_debug(s.as_str());
            push_str(&mut out, q.as_str());
            push_str(&mut out, ")");
            out
        },
    }
}

/// The value of one compared field: absent, a text, or a date.
#[derive(Debug, PartialEq, Eq)]
pub enum FieldValue {
    Null,
    Text(String),
    Date(DateValue),
}

/// A field value with its text as a character sequence.
pub enum FieldView {
    Null,
    Text(Seq<char>),
    Date(DateValue),
}

impl View for FieldValue {
    type V = FieldView;

    open spec fn view(&self) -> FieldView {
        match self {
            FieldValue::Null => FieldView::Null,
            FieldValue::Text(s) => FieldView::Text(s@),
            FieldValue::Date(d) => FieldView::Date(*d),
        }
    }
}

impl Clone for FieldValue {
    fn clone(&self) -> (r: Self)
        ensures
            r@ == self@,
    {
        match self {
            FieldValue::Null => FieldValue::Null,
            FieldValue::Text(s) => FieldValue::Text(s.clone()),
            FieldValue::Date(d) => FieldValue::Date(d.clone()),
        }
    }
}

/// Two field values are the same (dates as `date_eq` compares them).
pub open spec fn field_same(a: FieldView, b: FieldView) -> bool {
    match (a, b) {
        (FieldView::Null, FieldView::Null) => true,
        (FieldView::Text(x), FieldView::Text(y)) => x == y,
        (FieldView::Date(x), FieldView::Date(y)) => date_eq(x, y),
        _ => false,
    }
}

pub fn same_field(a: &FieldValue, b: &FieldValue) -> (r: bool)
    ensures
        r == field_same(a@, b@),
{
    match (a, b) {
        (FieldValue::Null, FieldValue::Null) => true,
        (FieldValue::Text(x), FieldValue::Text(y)) => str_eq(x.as_str(), y.as_str()),
        (FieldValue::Date(x), FieldValue::Date(y)) => same_date(x, y),
        _ => false,
    }
}

/// The number of fields compared for each person.
pub const FIELD_COUNT: usize = 5;

/// The name of the `k`-th compared field; fields are compared in this order.
pub open spec fn field_key(k: int) -> Seq<char> {
    if k == 0 {
        "birth.date"@
    } else if k == 1 {
        "death.date"@
    } else if k == 2 {
        "gender"@
    } else if k == 3 {
        "name.given"@
    } else {
        "name.surname"@
    }
}

fn field_key_string(k: usize) -> (r: String)
    requires
        k < FIELD_COUNT,
    ensures
        r@ == field_key(k as int),
{
    if k == 0 {
        str_to_string("birth.date")
    } else if k == 1 {
        str_to_string("death.date")
    } else if k == 2 {
        str_to_string("gender")
    } else if k == 3 {
        str_to_string("name.given")
    } else {
        str_to_string("name.surname")
    }
}

/// An optional date as a field value.
pub open spec fn date_field(d: Option<DateValue>) -> FieldView {
    match d {
        Some(v) => FieldView::Date(v),
        None => FieldView::Null,
    }
}

/// The `k`-th field of a person: birth date, death date, gender, given names
/// and first surname of the primary name.
pub open spec fn field_of(p: Person, es: Seq<Event>, k: int) -> FieldView {
    if k == 0 {
        date_field(event_date_for(es, p.id, EventType::Birth))
    } else if k == 1 {
        date_field(event_date_for(es, p.id, EventType::Death))
    } else if k == 2 {
        FieldView::Text(gender_text(p.gender))
    } else if k == 3 {
        FieldView::Text(primary_given(p))
    } else {
        FieldView::Text(primary_surname(p))
    }
}

/// The date fields are named after the event type they read: a compared
/// field whose key is an event type's name followed by ".date" (so
/// "birth.date", "death.date") holds the date of the person's first event
/// of that type.
pub proof fn law_date_field_reads_named_event(p: Person, es: Seq<Event>, k: int, t: EventType)
    requires
        0 <= k < FIELD_COUNT,
        !(t is Custom),
        field_key(k) == event_type_name(t) + ".date"@,
    ensures
        field_of(p, es, k) == date_field(event_date_for(es, p.id, t)),
{
    reveal_strlit("birth.date");
    reveal_strlit("death.date");
    reveal_strlit("gender");
    reveal_strlit("name.given");
    reveal_strlit("name.surname");
    reveal_strlit(".date");
    lemma_event_type_name_shape(t);
    let n = event_type_name(t);
    assert((n + ".date"@).len() == n.len() + 5);
    assert((n + ".date"@)[0] == n[0]);
    assert(field_key(k).len() == n.len() + 5);
    assert(field_key(k)[0] == n[0]);
}

fn date_field_value(d: Option<&DateValue>) -> (r: FieldValue)
    ensures
        r@ == date_field(
            match d {
                Some(v) => Some(*v),
                None => None,
            },
        ),
{
    match d {
        Some(v) => FieldValue::Date(v.clone()),
        None => FieldValue::Null,
    }
}

pub fn person_field(p: &Person, es: &[Event], k: usize) -> (r: FieldValue)
    requires
        k < FIELD_COUNT,
    ensures
        r@ == field_of(*p, es@, k as int),
{
    if k == 0 {
        date_field_value(person_event_date(p.id, es, &EventType::Birth))
    } else if k == 1 {
        date_field_value(person_event_date(p.id, es, &EventType::Death))
    } else if k == 2 {
        FieldValue::Text(gender_debug_text(&p.gender))
    } else {
        let n = p.primary_name();
        if k == 3 {
            FieldValue::Text(n.given_names)
        } else if n.surnames.len() > 0 {
            FieldValue::Text(n.surnames[0].value.clone())
        } else {
            FieldValue::Text(String::new())
        }
    }
}

/// A changed field of a matched person.
#[derive(Debug, PartialEq, Eq)]
pub struct FieldDiff {
    pub entity_id: EntityId,
    pub field: String,
    pub old_value: FieldValue,
    pub new_value: FieldValue,
    pub source: String,
}

impl View for FieldDiff {
    type V = (EntityId, Seq<char>, FieldView, FieldView, Seq<char>);

    open spec fn view(&self) -> (EntityId, Seq<char>, FieldView, FieldView, Seq<char>) {
        (self.entity_id, self.field@, self.old_value@, self.new_value@, self.source@)
    }
}

pub open spec fn diff_views(s: Seq<FieldDiff>) -> Seq<(EntityId, Seq<char>, FieldView, FieldView, Seq<char>)> {
    s.map_values(|d: FieldDiff| d@)
}

/// The outcome of comparing an import with the existing records: the new
/// persons, the changed fields, and how many matched persons had no change.
#[derive(Debug, PartialEq, Eq)]
pub struct ImportDiff {
    pub new_entities: Vec<GedcomRef>,
    pub updated_fields: Vec<FieldDiff>,
    pub unchanged: usize,
}

/// The changes among the first `n` fields, in field order, between an
/// existing person `old_p` and the imported person `new_p` matched to it.
pub open spec fn field_diffs(
    id: EntityId,
    new_p: Person,
    ge: Seq<Event>,
    old_p: Person,
    ee: Seq<Event>,
    src: Seq<char>,
    n: int,
) -> Seq<(EntityId, Seq<char>, FieldView, FieldView, Seq<char>)>
    decreases n,
{
    if n <= 0 {
        Seq::empty()
    } else {
        let prev = field_diffs(id, new_p, ge, old_p, ee, src, n - 1);
        let o = field_of(old_p, ee, n - 1);
        let w = field_of(new_p, ge, n - 1);
        if field_same(o, w) {
            prev
        } else {
            prev.push((id, field_key(n - 1), o, w, src))
        }
    }
}

/// The first person from `i` on recorded under the xref `x`.
pub open spec fn first_person_with_xref(ps: Seq<Person>, x: Seq<char>, i: int) -> Option<Person>
    decreases ps.len() - i,
{
    if i < 0 || i >= ps.len() {
        None
    } else if ps[i].original_xref.deep_view() == Some(x) {
        Some(ps[i])
    } else {
        first_person_with_xref(ps, x, i + 1)
    }
}

/// The first person from `i` on with the label `label`.
pub open spec fn first_person_labelled(ps: Seq<Person>, label: Seq<char>, i: int) -> Option<Person>
    decreases ps.len() - i,
{
    if i < 0 || i >= ps.len() {
        None
    } else if person_label_text(ps[i]) == label {
        Some(ps[i])
    } else {
        first_person_labelled(ps, label, i + 1)
    }
}

/// The first person from `i` on with the identifier `id`.
pub open spec fn first_person_with_id(ps: Seq<Person>, id: EntityId, i: int) -> Option<Person>
    decreases ps.len() - i,
{
    if i < 0 || i >= ps.len() {
        None
    } else if ps[i].id == id {
        Some(ps[i])
    } else {
        first_person_with_id(ps, id, i + 1)
    }
}

/// The imported person a person reference names: by its xref when one
/// carries it, else by its label.
pub open spec fn person_for_ref(ps: Seq<Person>, r: (RefKind, Option<Seq<char>>, Seq<char>)) -> Option<Person> {
    if r.0 != RefKind::Person {
        None
    } else {
        match r.1 {
            Some(x) => match first_person_with_xref(ps, x, 0) {
                Some(p) => Some(p),
                None => first_person_labelled(ps, r.2, 0),
            },
            None => first_person_labelled(ps, r.2, 0),
        }
    }
}

/// The changed fields and the number of unchanged persons over a sequence
/// of matches; matches of other kinds, or whose persons are not found, are
/// passed over.
pub open spec fn diff_fold(
    ms: Seq<MatchedEntity>,
    gp: Seq<Person>,
    ge: Seq<Event>,
    ep: Seq<Person>,
    ee: Seq<Event>,
    src: Seq<char>,
) -> (Seq<(EntityId, Seq<char>, FieldView, FieldView, Seq<char>)>, nat)
    decreases ms.len(),
{
    if ms.len() == 0 {
        (Seq::empty(), 0)
    } else {
        let (d, u) = diff_fold(ms.drop_last(), gp, ge, ep, ee, src);
        let m = ms.last();
        match person_for_ref(gp, m.gedcom_ref@) {
            None => (d, u),
            Some(np) => match first_person_with_id(ep, m.entity_id, 0) {
                None => (d, u),
                Some(op) => {
                    let fd = field_diffs(m.entity_id, np, ge, op, ee, src, FIELD_COUNT as int);
                    (d + fd, if fd.len() == 0 {
                        u + 1
                    } else {
                        u
                    })
                },
            },
        }
    }
}

/// The person references among a sequence of references.
pub open spec fn person_refs(us: Seq<(RefKind, Option<Seq<char>>, Seq<char>)>) -> Seq<
    (RefKind, Option<Seq<char>>, Seq<char>),
>
    decreases us.len(),
{
    if us.len() == 0 {
        Seq::empty()
    } else {
        let p = person_refs(us.drop_last());
        if us.last().0 == RefKind::Person {
            p.push(us.last())
        } else {
            p
        }
    }
}

proof fn lemma_diff_fold_unchanged(
    ms: Seq<MatchedEntity>,
    gp: Seq<Person>,
    ge: Seq<Event>,
    ep: Seq<Person>,
    ee: Seq<Event>,
    src: Seq<char>,
)
    ensures
        diff_fold(ms, gp, ge, ep, ee, src).1 <= ms.len(),
    decreases ms.len(),
{
    if ms.len() > 0 {
        lemma_diff_fold_unchanged(ms.drop_last(), gp, ge, ep, ee, src);
    }
}

fn find_person_by_xref<'a>(ps: &'a [Person], x: &str) -> (res: Option<&'a Person>)
    ensures
        match res {
            Some(p) => first_person_with_xref(ps@, x@, 0) == Some(*p),
            None => first_person_with_xref(ps@, x@, 0) is None,
        },
{
    let mut i: usize = 0;
    while i < ps.len()
        invariant
            i <= ps@.len(),
            first_person_with_xref(ps@, x@, 0) == first_person_with_xref(ps@, x@, i as int),
        decreases ps@.len() - i,
    {
        let matches = match &ps[i].original_xref {
            Some(px) => str_eq(px.as_str(), x),
            None => false,
        };
        if matches {
            return Some(&ps[i]);
        }
        i = i + 1;
    }
    None
}

fn find_person_by_label<'a>(ps: &'a [Person], label: &str) -> (res: Option<&'a Person>)
    ensures
        match res {
            Some(p) => first_person_labelled(ps@, label@, 0) == Some(*p),
            None => first_person_labelled(ps@, label@, 0) is None,
        },
{
    let mut j: usize = 0;
    while j < ps.len()
        invariant
            j <= ps@.len(),
            first_person_labelled(ps@, label@, 0) == first_person_labelled(ps@, label@, j as int),
        decreases ps@.len() - j,
    {
        let l = person_label(&ps[j]);
        if str_eq(l.as_str(), label) {
            return Some(&ps[j]);
        }
        j = j + 1;
    }
    None
}

fn find_ref_person<'a>(ps: &'a [Person], r: &GedcomRef) -> (res: Option<&'a Person>)
    ensures
        match res {
            Some(p) => person_for_ref(ps@, r@) == Some(*p),
            None => person_for_ref(ps@, r@) is None,
        },
{
    match r {
        GedcomRef::Person { xref, label } => {
            match xref {
                Some(x) => match find_person_by_xref(ps, x.as_str()) {
                    Some(p) => {
                        return Some(p);
                    },
                    None => {},
                },
                None => {},
            }
            find_person_by_label(ps, label.as_str())
        },
        _ => None,
    }
}

fn find_person_by_id<'a>(ps: &'a [Person], id: EntityId) -> (res: Option<&'a Person>)
    ensures
        match res {
            Some(p) => first_person_with_id(ps@, id, 0) == Some(*p),
            None => first_person_with_id(ps@, id, 0) is None,
        },
{
    let mut i: usize = 0;
    while i < ps.len()
        invariant
            i <= ps@.len(),
            first_person_with_id(ps@, id, 0) == first_person_with_id(ps@, id, i as int),
        decreases ps@.len() - i,
    {
        if ps[i].id == id {
            return Some(&ps[i]);
        }
        i = i + 1;
    }
    None
}

/// Appends the changed fields between `old_p` and `new_p`, returning how
/// many there were.
fn push_field_diffs(
    out: &mut Vec<FieldDiff>,
    id: EntityId,
    new_p: &Person,
    ge: &[Event],
    old_p: &Person,
    ee: &[Event],
    source: &str,
) -> (r: usize)
    ensures
        diff_views(final(out)@) == diff_views(old(out)@) + field_diffs(
            id,
            *new_p,
            ge@,
            *old_p,
            ee@,
            source@,
            FIELD_COUNT as int,
        ),
        r == field_diffs(id, *new_p, ge@, *old_p, ee@, source@, FIELD_COUNT as int).len(),
{
    let ghost start = diff_views(out@);
    let mut count: usize = 0;
    let mut k: usize = 0;
    while k < FIELD_COUNT
        invariant
            k <= FIELD_COUNT,
            diff_views(out@) == start + field_diffs(id, *new_p, ge@, *old_p, ee@, source@, k as int),
            count == field_diffs(id, *new_p, ge@, *old_p, ee@, source@, k as int).len(),
            count <= k,
        decreases FIELD_COUNT - k,
    {
        let o = person_field(old_p, ee, k);
        let w = person_field(new_p, ge, k);
        if !same_field(&o, &w) {
            let ghost before = out@;
            out.push(
                FieldDiff {
                    entity_id: id,
                    field: field_key_string(k),
                    old_value: o,
                    new_value: w,
                    source: str_to_string(source),
                },
            );
            proof {
                assert(diff_views(out@) =~= diff_views(before).push(out@.last()@));
            }
            count = count + 1;
        }
        k = k + 1;
    }
    count
}

/// Compares each matched person of an import with the existing person it
/// matched: every field that differs becomes a `FieldDiff` (in match order,
/// then in field order), and a matched person with no difference counts as
/// unchanged. The unmatched persons are the new entities.
pub fn generate_person_import_diff(
    match_result: &MatchResult,
    gedcom_persons: &[Person],
    gedcom_events: &[Event],
    existing_persons: &[Person],
    existing_events: &[Event],
    source: &str,
) -> (r: ImportDiff)
    ensures
        ref_views(r.new_entities@) == person_refs(ref_views(match_result.unmatched@)),
        diff_views(r.updated_fields@) == diff_fold(
            match_result.matched@,
            gedcom_persons@,
            gedcom_events@,
            existing_persons@,
            existing_events@,
            source@,
        ).0,
        r.unchanged == diff_fold(
            match_result.matched@,
            gedcom_persons@,
            gedcom_events@,
            existing_persons@,
            existing_events@,
            source@,
        ).1,
{
    let ghost ms = match_result.matched@;
    let mut updated_fields: Vec<FieldDiff> = Vec::new();
    let mut unchanged: usize = 0;
    let mut i: usize = 0;
    while i < match_result.matched.len()
        invariant
            i <= ms.len(),
            ms == match_result.matched@,
            (diff_views(updated_fields@), unchanged as nat) == diff_fold(
                ms.subrange(0, i as int),
                gedcom_persons@,
                gedcom_events@,
                existing_persons@,
                existing_events@,
                source@,
            ),
        decreases ms.len() - i,
    {
        proof {
            assert(ms.subrange(0, i + 1).drop_last() =~= ms.subrange(0, i as int));
            lemma_diff_fold_unchanged(
                ms.subrange(0, i as int),
                gedcom_persons@,
                gedcom_events@,
                existing_persons@,
                existing_events@,
                source@,
            );
        }
        let m = &match_result.matched[i];
        match find_ref_person(gedcom_persons, &m.gedcom_ref) {
            Some(np) => match find_person_by_id(existing_persons, m.entity_id) {
                Some(op) => {
                    let changed = push_field_diffs(
                        &mut updated_fields,
                        m.entity_id,
                        np,
                        gedcom_events,
                        op,
                        existing_events,
                        source,
                    );
                    if changed == 0 {
                        unchanged = unchanged + 1;
                    }
                },
                None => {},
            },
            None => {},
        }
        i = i + 1;
    }
    proof {
        assert(ms.subrange(0, i as int) =~= ms);
    }
    let ghost us = match_result.unmatched@;
    let mut new_entities: Vec<GedcomRef> = Vec::new();
    let mut j: usize = 0;
    while j < match_result.unmatched.len()
        invariant
            j <= us.len(),
            us == match_result.unmatched@,
            ref_views(new_entities@) == person_refs(ref_views(us.subrange(0, j as int))),
        decreases us.len() - j,
    {
        proof {
            assert(ref_views(us.subrange(0, j + 1)).drop_last() =~= ref_views(us.subrange(0, j as int)));
        }
        let u = &match_result.unmatched[j];
        match u {
            GedcomRef::Person { .. } => {
                let ghost before = new_entities@;
                new_entities.push(u.clone());
                proof {
                    assert(ref_views(new_entities@) =~= ref_views(before).push(new_entities@.last()@));
                }
            },
            _ => {},
        }
        j = j + 1;
    }
    proof {
        assert(us.subrange(0, j as int) =~= us);
    }
    ImportDiff { new_entities, updated_fields, unchanged }
}

/// A person compared with itself shows no change: with the same events on
/// both sides, no field of a person differs from itself.
pub proof fn law_no_diff_against_itself(id: EntityId, p: Person, events: Seq<Event>, src: Seq<char>, n: int)
    ensures
        field_diffs(id, p, events, p, events, src, n) == Seq::<(EntityId, Seq<char>, FieldView, FieldView, Seq<char>)>::empty(),
    decreases n,
{
    if n > 0 {
        law_no_diff_against_itself(id, p, events, src, n - 1);
        let f = field_of(p, events, n - 1);
        assert(field_same(f, f));
    }
}

} // verus!
