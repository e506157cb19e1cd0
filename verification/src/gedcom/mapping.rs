//! GEDCOM records to the domain model: persons and their names.
use crate::gedcom::custom::{
    custom_subtrees, custom_tag, gather_customs, insert_customs, is_custom_tag, serialize_subtree,
    lemma_custom_subtrees_len, lemma_insert_customs_append, numbered_custom_key,
    subtree_text,
};
use crate::gedcom::tokenizer::LineView;
use crate::gedcom::tree::{flatten, lemma_flatten_push, node_head, GedcomNode};
use crate::event::{event_type_name, is_custom_event, Event, EventParticipant, EventRole, EventType};
use crate::gedcom::custom::custom_key_of;
use crate::gedcom::custom::custom_key;
use crate::family::{ChildLink, Family, LineageType, PartnerLink, Relationship, RelationshipType};
use crate::person::{NameType, Person, PersonName, Surname, SurnameOrigin};
use crate::raw::{keys_unique, raw_entries, raw_insert, RawGedcom};
use crate::text::{
    chars_of, decimal, new_string, push_char, push_decimal, push_str, str_eq, str_to_string,
    string_of_range, to_ascii_upper_string, trim, trimmed, ascii_upper_text,
};
use crate::types::{name_based_uuid, uuid_v5, DateValue, EntityId, Gender};
use vstd::prelude::*;

verus! {

/// Namespace of the name-based ids given to GEDCOM records.
pub const GEDCOM_ENTITY_NAMESPACE: u128 = 0x9c92f726_f6cf_47ea_8a64_0bcb8d332349u128;

/// The id of a record with a cross-reference: the name-based UUID of
/// "TAG:xref" in the GEDCOM namespace.
pub open spec fn xref_entity_id(record_tag: Seq<char>, xref: Seq<char>) -> EntityId {
    EntityId(uuid_v5(GEDCOM_ENTITY_NAMESPACE, vstd::utf8::encode_utf8(record_tag + seq![':'] + xref)))
}

pub fn entity_id_from_xref(record_tag: &str, xref: &str) -> (r: EntityId)
    ensures
        r == xref_entity_id(record_tag@, xref@),
{
    let mut name = str_to_string(record_tag);
    push_char(&mut name, ':');
    push_str(&mut name, xref);
    proof {
        assert(name@ =~= record_tag@ + seq![':'] + xref@);
    }
    let bytes = name.as_str().as_bytes();
    EntityId(name_based_uuid(GEDCOM_ENTITY_NAMESPACE, bytes))
}

/// Whether a node carries the tag `tag`.
pub fn tag_is(node: &GedcomNode, tag: &str) -> (r: bool)
    ensures
        r == (node.tag@ == tag@),
{
    str_eq(node.tag.as_str(), tag)
}

/// The value of a node, or empty text.
pub open spec fn value_or_empty(v: Option<Seq<char>>) -> Seq<char> {
    match v {
        Some(s) => s,
        None => Seq::empty(),
    }
}

pub fn value_text(node: &GedcomNode) -> (r: String)
    ensures
        r@ == value_or_empty(node.value.deep_view()),
{
    match &node.value {
        Some(v) => v.clone(),
        None => new_string(),
    }
}

/// A gender read from a `SEX` value: M, F, U or empty, else custom text
/// (surrounding whitespace ignored).
pub open spec fn gender_matches(g: Gender, value: Option<Seq<char>>) -> bool {
    let t = trim(value_or_empty(value));
    if t == "M"@ {
        g is Male
    } else if t == "F"@ {
        g is Female
    } else if t == "U"@ || t.len() == 0 {
        g is Unknown
    } else {
        g matches Gender::Custom(s) && s@ == t
    }
}

pub fn parse_gender(value: Option<&str>) -> (r: Gender)
    ensures
        gender_matches(
            r,
            match value {
                Some(v) => Some(v@),
                None => None,
            },
        ),
{
    let t = match value {
        Some(v) => trimmed(v),
        None => trimmed(""),
    };
    proof {
        reveal_strlit("");
        assert(""@ =~= Seq::<char>::empty());
    }
    if str_eq(t.as_str(), "M") {
        Gender::Male
    } else if str_eq(t.as_str(), "F") {
        Gender::Female
    } else if str_eq(t.as_str(), "U") || t.as_str().is_empty() {
        Gender::Unknown
    } else {
        Gender::Custom(t)
    }
}

/// Index of the first `c` in `s`, or `s.len()`.
pub open spec fn find_char(s: Seq<char>, c: char) -> int
    decreases s.len(),
{
    if s.len() == 0 {
        0
    } else if s[0] == c {
        0
    } else {
        1 + find_char(s.drop_first(), c)
    }
}

/// Index of the last `c` in `s`, or -1.
pub open spec fn rfind_char(s: Seq<char>, c: char) -> int
    decreases s.len(),
{
    if s.len() == 0 {
        -1
    } else if s.last() == c {
        s.len() - 1
    } else {
        rfind_char(s.drop_last(), c)
    }
}

pub fn find_char_in(s: &[char], c: char) -> (r: usize)
    ensures
        r as int == find_char(s@, c),
        r <= s@.len(),
{
    let mut i: usize = 0;
    proof {
        assert(s@.subrange(0, s@.len() as int) =~= s@);
    }
    while i < s.len() && s[i] != c
        invariant
            i <= s@.len(),
            find_char(s@, c) == i + find_char(s@.subrange(i as int, s@.len() as int), c),
        decreases s@.len() - i,
    {
        proof {
            let t = s@.subrange(i as int, s@.len() as int);
            assert(t.drop_first() =~= s@.subrange(i + 1, s@.len() as int));
        }
        i = i + 1;
    }
    i
}

pub fn rfind_char_in(s: &[char], c: char) -> (r: Option<usize>)
    ensures
        match r {
            Some(j) => j as int == rfind_char(s@, c) && j < s@.len(),
            None => rfind_char(s@, c) == -1,
        },
{
    let mut j = s.len();
    proof {
        assert(s@.subrange(0, j as int) =~= s@);
    }
    while j > 0
        invariant
            j <= s@.len(),
            rfind_char(s@, c) == rfind_char(s@.subrange(0, j as int), c),
        decreases j,
    {
        proof {
            assert(s@.subrange(0, j as int).drop_last() =~= s@.subrange(0, j - 1));
        }
        if s[j - 1] == c {
            return Some(j - 1);
        }
        j = j - 1;
    }
    None
}

pub proof fn lemma_find_char_bounds(s: Seq<char>, c: char)
    ensures
        0 <= find_char(s, c) <= s.len(),
        find_char(s, c) < s.len() ==> s[find_char(s, c)] == c,
    decreases s.len(),
{
    if s.len() > 0 && s[0] != c {
        lemma_find_char_bounds(s.drop_first(), c);
    }
}

pub proof fn lemma_rfind_char_bounds(s: Seq<char>, c: char)
    ensures
        -1 <= rfind_char(s, c) < s.len(),
    decreases s.len(),
{
    if s.len() > 0 && s.last() != c {
        lemma_rfind_char_bounds(s.drop_last(), c);
    }
}

/// A GEDCOM personal name split at its slashes: given names (the text
/// outside the first and last slash, trimmed) and the surname between them
/// (trimmed; none when empty). Without two slashes, all of it is given names.
pub open spec fn split_name(raw: Seq<char>) -> (Seq<char>, Option<Seq<char>>) {
    let start = find_char(raw, '/');
    let end = rfind_char(raw, '/');
    if start < raw.len() && end > start {
        let given = trim(raw.subrange(0, start) + raw.subrange(end + 1, raw.len() as int));
        let surname = trim(raw.subrange(start + 1, end));
        if surname.len() == 0 {
            (given, None)
        } else {
            (given, Some(surname))
        }
    } else {
        (trim(raw), None)
    }
}

pub fn split_gedcom_name(raw: &str) -> (r: (String, Option<String>))
    ensures
        r.0@ == split_name(raw@).0,
        r.1.deep_view() == split_name(raw@).1,
{
    let cs = chars_of(raw);
    let start = find_char_in(cs.as_slice(), '/');
    let end = rfind_char_in(cs.as_slice(), '/');
    proof {
        lemma_find_char_bounds(cs@, '/');
        lemma_rfind_char_bounds(cs@, '/');
    }
    match end {
        Some(e) => {
            if start < cs.len() && e > start {
                let mut outer = string_of_range(cs.as_slice(), 0, start);
                let tail = string_of_range(cs.as_slice(), e + 1, cs.len());
                push_str(&mut outer, tail.as_str());
                let given = trimmed(outer.as_str());
                let middle = string_of_range(cs.as_slice(), start + 1, e);
                let surname = trimmed(middle.as_str());
                if surname.as_str().is_empty() {
                    return (given, None);
                }
                return (given, Some(surname));
            }
        },
        None => {},
    }
    (trimmed(raw), None)
}

/// What a `NAME` record says: given names, at most one surname, prefix, suffix.
pub type NameParts = (Seq<char>, Option<Seq<char>>, Option<Seq<char>>, Option<Seq<char>>);

/// The parts read from a `NAME` value.
pub open spec fn name_parts_of_value(value: Option<Seq<char>>) -> NameParts {
    match value {
        Some(v) => (split_name(v).0, split_name(v).1, None, None),
        None => (Seq::empty(), None, None, None),
    }
}

/// The parts after one sub-record: GIVN, SURN, NPFX and NSFX override.
pub open spec fn name_parts_step(p: NameParts, child: GedcomNode) -> NameParts {
    let v = child.value.deep_view();
    if child.tag@ == "GIVN"@ {
        (value_or_empty(v), p.1, p.2, p.3)
    } else if child.tag@ == "SURN"@ {
        (p.0, Some(value_or_empty(v)), p.2, p.3)
    } else if child.tag@ == "NPFX"@ {
        (p.0, p.1, v, p.3)
    } else if child.tag@ == "NSFX"@ {
        (p.0, p.1, p.2, v)
    } else {
        p
    }
}

pub open spec fn name_parts_over(p: NameParts, children: Seq<GedcomNode>) -> NameParts
    decreases children.len(),
{
    if children.len() == 0 {
        p
    } else {
        name_parts_step(name_parts_over(p, children.drop_last()), children.last())
    }
}

/// The parts of a whole `NAME` record.
pub open spec fn name_parts(node: GedcomNode) -> NameParts {
    name_parts_over(name_parts_of_value(node.value.deep_view()), node.children@)
}

/// A name holding exactly `p`.
pub open spec fn name_has_parts(n: PersonName, p: NameParts) -> bool {
    &&& n.date_range is None
    &&& n.call_name is None
    &&& n.sort_as is None
    &&& n.given_names@ == p.0
    &&& match p.1 {
        None => n.surnames@.len() == 0,
        Some(s) => {
            &&& n.surnames@.len() == 1
            &&& n.surnames@[0].value@ == s
            &&& n.surnames@[0].origin_type is Patrilineal
            &&& n.surnames@[0].connector is None
        },
    }
    &&& n.prefix.deep_view() == p.2
    &&& n.suffix.deep_view() == p.3
}

/// The value of the last `TYPE` among `children`, if any.
pub open spec fn last_type_value(children: Seq<GedcomNode>) -> Option<Seq<char>>
    decreases children.len(),
{
    if children.len() == 0 {
        None
    } else if children.last().tag@ == "TYPE"@ {
        Some(value_or_empty(children.last().value.deep_view()))
    } else {
        last_type_value(children.drop_last())
    }
}

/// The name type a `TYPE` value gives: the known types in any letter case
/// (surrounding whitespace ignored), birth for an empty value, else the
/// trimmed value as a custom type.
pub open spec fn name_type_of_value(t: NameType, v: Seq<char>) -> bool {
    let s = trim(v);
    let u = ascii_upper_text(s);
    if u == "BIRTH"@ || s.len() == 0 {
        t is Birth
    } else if u == "MARRIED"@ {
        t is Married
    } else if u == "AKA"@ {
        t is Aka
    } else if u == "IMMIGRANT"@ {
        t is Immigrant
    } else if u == "RELIGIOUS"@ {
        t is Religious
    } else {
        t matches NameType::Custom(c) && c@ == s
    }
}

/// The name type of a `NAME` record whose last `TYPE` value is `v`: birth
/// when it has none.
pub open spec fn name_type_from(t: NameType, v: Option<Seq<char>>) -> bool {
    match v {
        None => t is Birth,
        Some(s) => name_type_of_value(t, s),
    }
}

/// A name as read from a `NAME` record: its parts and its type.
pub open spec fn name_from_node(n: PersonName, node: GedcomNode) -> bool {
    &&& name_has_parts(n, name_parts(node))
    &&& name_type_from(n.name_type, last_type_value(node.children@))
}

pub fn parse_name_type(value: &str) -> (r: NameType)
    ensures
        name_type_of_value(r, value@),
{
    let s = trimmed(value);
    let u = to_ascii_upper_string(s.as_str());
    if str_eq(u.as_str(), "BIRTH") || s.as_str().is_empty() {
        NameType::Birth
    } else if str_eq(u.as_str(), "MARRIED") {
        NameType::Married
    } else if str_eq(u.as_str(), "AKA") {
        NameType::Aka
    } else if str_eq(u.as_str(), "IMMIGRANT") {
        NameType::Immigrant
    } else if str_eq(u.as_str(), "RELIGIOUS") {
        NameType::Religious
    } else {
        NameType::Custom(s)
    }
}

fn patrilineal(value: String) -> (r: Vec<Surname>)
    ensures
        r@.len() == 1,
        r@[0].value == value,
        r@[0].origin_type is Patrilineal,
        r@[0].connector is None,
{
    let mut v: Vec<Surname> = Vec::new();
    v.push(Surname { value, origin_type: SurnameOrigin::Patrilineal, connector: None });
    v
}

pub fn parse_name_node(node: &GedcomNode) -> (r: PersonName)
    ensures
        name_from_node(r, *node),
{
    let mut name = PersonName::default();
    match &node.value {
        Some(v) => {
            let (given, surname) = split_gedcom_name(v.as_str());
            name.given_names = given;
            match surname {
                Some(s) => {
                    name.surnames = patrilineal(s);
                },
                None => {},
            }
        },
        None => {},
    }
    let mut i: usize = 0;
    while i < node.children.len()
        invariant
            i <= node.children@.len(),
            name_has_parts(
                name,
                name_parts_over(
                    name_parts_of_value(node.value.deep_view()),
                    node.children@.subrange(0, i as int),
                ),
            ),
            name_type_from(name.name_type, last_type_value(node.children@.subrange(0, i as int))),
        decreases node.children@.len() - i,
    {
        proof {
            assert(node.children@.subrange(0, i + 1).drop_last() =~= node.children@.subrange(
                0,
                i as int,
            ));
        }
        proof {
            reveal_strlit("TYPE");
            reveal_strlit("GIVN");
            reveal_strlit("SURN");
            reveal_strlit("NPFX");
            reveal_strlit("NSFX");
            assert("TYPE"@[0] != "GIVN"@[0] && "TYPE"@[0] != "SURN"@[0]);
            assert("TYPE"@[0] != "NPFX"@[0] && "TYPE"@[0] != "NSFX"@[0]);
        }
        let child = &node.children[i];
        if tag_is(child, "GIVN") {
            name.given_names = value_text(child);
        } else if tag_is(child, "SURN") {
            name.surnames = patrilineal(value_text(child));
        } else if tag_is(child, "NPFX") {
            name.prefix = child.value.clone();
        } else if tag_is(child, "NSFX") {
            name.suffix = child.value.clone();
        } else if tag_is(child, "TYPE") {
            let v = value_text(child);
            name.name_type = parse_name_type(v.as_str());
        }
        i = i + 1;
    }
    proof {
        assert(node.children@.subrange(0, i as int) =~= node.children@);
    }
    name
}

/// The children of a forest's node `i` take fewer lines than the forest.
pub proof fn lemma_flatten_child_len(nodes: Seq<GedcomNode>, i: int)
    requires
        0 <= i < nodes.len(),
    ensures
        flatten(nodes[i].children@).len() < flatten(nodes).len(),
    decreases i,
{
    if i > 0 {
        let rest = nodes.subrange(1, nodes.len() as int);
        lemma_flatten_child_len(rest, i - 1);
        assert(rest[i - 1] == nodes[i]);
    }
}

/// The nodes of a forest that carry tag `tag`, in order.
pub open spec fn nodes_tagged(nodes: Seq<GedcomNode>, tag: Seq<char>) -> Seq<GedcomNode>
    decreases nodes.len(),
{
    if nodes.len() == 0 {
        Seq::empty()
    } else if nodes.last().tag@ == tag {
        nodes_tagged(nodes.drop_last(), tag).push(nodes.last())
    } else {
        nodes_tagged(nodes.drop_last(), tag)
    }
}

/// The value of the last `SEX` sub-record, if there is one.
pub open spec fn last_sex(children: Seq<GedcomNode>) -> Option<Option<Seq<char>>>
    decreases children.len(),
{
    if children.len() == 0 {
        None
    } else if children.last().tag@ == "SEX"@ {
        Some(children.last().value.deep_view())
    } else {
        last_sex(children.drop_last())
    }
}

/// The gender of a person record: from its last `SEX`, unknown without one.
pub open spec fn gender_from(g: Gender, children: Seq<GedcomNode>) -> bool {
    match last_sex(children) {
        None => g is Unknown,
        Some(v) => gender_matches(g, v),
    }
}

/// The entry kept for a record's cross-reference.
pub open spec fn xref_entries(xref: Option<Seq<char>>) -> Seq<(Seq<char>, Seq<char>)> {
    match xref {
        Some(x) => seq![("XREF"@, x)],
        None => Seq::empty(),
    }
}

/// A person as mapped from an `INDI` record: id from its cross-reference,
/// its names, its gender, the cross-reference kept, and its vendor subtrees
/// kept under numbered keys.
pub open spec fn person_from_node(p: Person, node: GedcomNode) -> bool {
    &&& (node.xref matches Some(x) ==> p.id == xref_entity_id("INDI"@, x@))
    &&& p.names@.len() == nodes_tagged(node.children@, "NAME"@).len()
    &&& forall|i: int|
        0 <= i < p.names@.len() ==> #[trigger] name_from_node(
            p.names@[i],
            nodes_tagged(node.children@, "NAME"@)[i],
        )
    &&& gender_from(p.gender, node.children@)
    &&& !p.living
    &&& !p.private
    &&& p.original_xref == node.xref
    &&& keys_unique(raw_entries(p._raw_gedcom))
    &&& raw_entries(p._raw_gedcom) == insert_customs(
        xref_entries(node.xref.deep_view()),
        kept_person_subtrees(node.children@),
        0,
    )
}

/// What one child of an `INDI` record adds to the subtrees kept for export:
/// a vendor node or a `CHAN` change record whole, else the vendor subtrees
/// below it.
pub open spec fn person_kept_part(x: GedcomNode) -> Seq<GedcomNode> {
    if is_custom_tag(x.tag@) || x.tag@ == "CHAN"@ {
        seq![x]
    } else {
        custom_subtrees(x.children@)
    }
}

/// The subtrees of an `INDI` record kept for export, in document order: its
/// vendor subtrees and its `CHAN` change records.
pub open spec fn kept_person_subtrees(children: Seq<GedcomNode>) -> Seq<GedcomNode>
    decreases children.len(),
{
    if children.len() == 0 {
        Seq::empty()
    } else {
        kept_person_subtrees(children.drop_last()) + person_kept_part(children.last())
    }
}

/// A forest holds at least as many lines as the subtrees kept from it.
pub proof fn lemma_kept_len(nodes: Seq<GedcomNode>)
    ensures
        kept_person_subtrees(nodes).len() <= flatten(nodes).len(),
    decreases nodes.len(),
{
    if nodes.len() > 0 {
        let p = nodes.drop_last();
        let x = nodes.last();
        lemma_kept_len(p);
        assert(p.push(x) =~= nodes);
        lemma_flatten_push(p, x);
        lemma_custom_subtrees_len(x.children@);
    }
}

/// A prefix of a forest keeps no more subtrees than the forest.
pub proof fn lemma_kept_prefix_len(nodes: Seq<GedcomNode>, i: int)
    requires
        0 <= i <= nodes.len(),
    ensures
        kept_person_subtrees(nodes.subrange(0, i)).len() <= kept_person_subtrees(nodes).len(),
    decreases nodes.len() - i,
{
    if i < nodes.len() {
        lemma_kept_prefix_len(nodes, i + 1);
        assert(nodes.subrange(0, i + 1).drop_last() =~= nodes.subrange(0, i));
    } else {
        assert(nodes.subrange(0, i) =~= nodes);
    }
}

/// Keeps the vendor subtrees and `CHAN` change records of an `INDI` record,
/// numbered from 0 in document order, so that export puts them back.
fn keep_person_subtrees(node: &GedcomNode, raw: &mut RawGedcom)
    requires
        keys_unique(raw_entries(*old(raw))),
        flatten(node.children@).len() <= usize::MAX,
    ensures
        keys_unique(raw_entries(*final(raw))),
        raw_entries(*final(raw)) == insert_customs(
            raw_entries(*old(raw)),
            kept_person_subtrees(node.children@),
            0,
        ),
{
    let ghost e0 = raw_entries(*raw);
    let ghost all = node.children@;
    let mut count: usize = 0;
    let mut i: usize = 0;
    proof {
        lemma_kept_len(all);
        assert(all.subrange(0, 0) =~= Seq::<GedcomNode>::empty());
        reveal_strlit("CHAN");
    }
    while i < node.children.len()
        invariant
            i <= all.len(),
            all == node.children@,
            keys_unique(raw_entries(*raw)),
            kept_person_subtrees(all).len() <= usize::MAX,
            raw_entries(*raw) == insert_customs(e0, kept_person_subtrees(all.subrange(0, i as int)), 0),
            count == kept_person_subtrees(all.subrange(0, i as int)).len(),
        decreases all.len() - i,
    {
        let child = &node.children[i];
        let ghost pre = kept_person_subtrees(all.subrange(0, i as int));
        proof {
            assert(all.subrange(0, i + 1).drop_last() =~= all.subrange(0, i as int));
            assert(all.subrange(0, i + 1).last() == *child);
            assert(kept_person_subtrees(all.subrange(0, i + 1)) == pre + person_kept_part(*child));
            lemma_kept_prefix_len(all, i + 1);
            lemma_insert_customs_append(e0, pre, person_kept_part(*child), 0);
        }
        if custom_tag(child.tag.as_str()) || tag_is(child, "CHAN") {
            let mut key = custom_key_of(child.tag.as_str());
            push_char(&mut key, '_');
            push_decimal(&mut key, count as u64);
            let text = serialize_subtree(child);
            proof {
                assert(key@ =~= numbered_custom_key(child.tag@, count as nat));
                let one = seq![*child];
                assert(one.drop_last() =~= Seq::<GedcomNode>::empty());
                assert(insert_customs(raw_entries(*raw), Seq::<GedcomNode>::empty(), count as nat)
                    == raw_entries(*raw));
            }
            raw.insert(key, text);
            count = count + 1;
        } else {
            gather_customs(child, raw, &mut count);
        }
        i = i + 1;
    }
    proof {
        assert(all.subrange(0, i as int) =~= all);
    }
}

/// Stores a record's cross-reference under "XREF".
pub fn keep_xref(xref: &Option<String>, raw: &mut RawGedcom)
    requires
        raw_entries(*old(raw)).len() == 0,
    ensures
        keys_unique(raw_entries(*final(raw))),
        raw_entries(*final(raw)) == xref_entries(xref.deep_view()),
{
    match xref {
        Some(x) => {
            raw.insert(str_to_string("XREF"), x.clone());
            proof {
                assert(raw_entries(*raw) =~= seq![("XREF"@, x@)]);
            }
        },
        None => {
            proof {
                assert(raw_entries(*raw) =~= Seq::<(Seq<char>, Seq<char>)>::empty());
            }
        },
    }
}

fn map_indi_node_to_person(node: &GedcomNode) -> (r: Person)
    requires
        flatten(node.children@).len() <= usize::MAX,
    ensures
        person_from_node(r, *node),
{
    let id = match &node.xref {
        Some(x) => entity_id_from_xref("INDI", x.as_str()),
        None => EntityId::new(),
    };
    let mut raw = RawGedcom::new();
    keep_xref(&node.xref, &mut raw);
    keep_person_subtrees(node, &mut raw);
    let mut names: Vec<PersonName> = Vec::new();

    let mut gender = Gender::Unknown;
    let mut i: usize = 0;
    while i < node.children.len()
        invariant
            i <= node.children@.len(),
            names@.len() == nodes_tagged(node.children@.subrange(0, i as int), "NAME"@).len(),
            forall|j: int|
                0 <= j < names@.len() ==> #[trigger] name_from_node(
                    names@[j],
                    nodes_tagged(node.children@.subrange(0, i as int), "NAME"@)[j],
                ),
            gender_from(gender, node.children@.subrange(0, i as int)),
        decreases node.children@.len() - i,
    {
        proof {
            assert(node.children@.subrange(0, i + 1).drop_last() =~= node.children@.subrange(
                0,
                i as int,
            ));
        }
        let child = &node.children[i];
        if tag_is(child, "SEX") {
            proof {
                reveal_strlit("SEX");
                reveal_strlit("NAME");
                assert("SEX"@.len() != "NAME"@.len());
            }
            gender = parse_gender(
                match &child.value {
                    Some(v) => Some(v.as_str()),
                    None => None,
                },
            );
        } else if tag_is(child, "NAME") {
            names.push(parse_name_node(child));
        }
        i = i + 1;
    }
    proof {
        assert(node.children@.subrange(0, i as int) =~= node.children@);
    }
    Person {
        id,
        names,
        gender,
        living: false,
        private: false,
        original_xref: node.xref.clone(),
        _raw_gedcom: raw,
    }
}

/// Maps root-level `INDI` nodes into persons, in order.
pub fn map_indi_nodes_to_persons(nodes: &[GedcomNode]) -> (r: Vec<Person>)
    requires
        flatten(nodes@).len() <= usize::MAX,
    ensures
        r@.len() == nodes_tagged(nodes@, "INDI"@).len(),
        forall|i: int|
            0 <= i < r@.len() ==> #[trigger] person_from_node(r@[i], nodes_tagged(nodes@, "INDI"@)[i]),
{
    let mut out: Vec<Person> = Vec::new();
    let mut i: usize = 0;
    while i < nodes.len()
        invariant
            i <= nodes@.len(),
            flatten(nodes@).len() <= usize::MAX,
            out@.len() == nodes_tagged(nodes@.subrange(0, i as int), "INDI"@).len(),
            forall|j: int|
                0 <= j < out@.len() ==> #[trigger] person_from_node(
                    out@[j],
                    nodes_tagged(nodes@.subrange(0, i as int), "INDI"@)[j],
                ),
        decreases nodes@.len() - i,
    {
        proof {
            assert(nodes@.subrange(0, i + 1).drop_last() =~= nodes@.subrange(0, i as int));
            lemma_flatten_child_len(nodes@, i as int);
        }
        if tag_is(&nodes[i], "INDI") {
            out.push(map_indi_node_to_person(&nodes[i]));
        }
        i = i + 1;
    }
    proof {
        assert(nodes@.subrange(0, i as int) =~= nodes@);
    }
    out
}

/// The event type of an individual event or attribute tag.
pub open spec fn indi_event_type_ok(t: EventType, tag: Seq<char>) -> bool {
    if tag == "BIRT"@ {
        t is Birth
    } else if tag == "DEAT"@ {
        t is Death
    } else if tag == "BURI"@ {
        t is Burial
    } else if tag == "CHR"@ {
        is_custom_event(t, "christening"@)
    } else if tag == "CREM"@ {
        is_custom_event(t, "cremation"@)
    } else if tag == "ADOP"@ {
        is_custom_event(t, "adoption"@)
    } else if tag == "BAPM"@ {
        t is Baptism
    } else if tag == "BARM"@ {
        is_custom_event(t, "bar_mitzvah"@)
    } else if tag == "BASM"@ {
        is_custom_event(t, "bas_mitzvah"@)
    } else if tag == "BLES"@ {
        is_custom_event(t, "blessing"@)
    } else if tag == "CHRA"@ {
        is_custom_event(t, "adult_christening"@)
    } else if tag == "CONF"@ {
        is_custom_event(t, "confirmation"@)
    } else if tag == "FCOM"@ {
        is_custom_event(t, "first_communion"@)
    } else if tag == "ORDN"@ {
        is_custom_event(t, "ordination"@)
    } else if tag == "CENS"@ {
        t is Census
    } else if tag == "EMIG"@ {
        t is Emigration
    } else if tag == "IMMI"@ {
        t is Immigration
    } else if tag == "NATU"@ {
        t is Naturalization
    } else if tag == "PROB"@ {
        t is Probate
    } else if tag == "WILL"@ {
        t is Will
    } else if tag == "GRAD"@ {
        t is Graduation
    } else if tag == "RETI"@ {
        t is Retirement
    } else if tag == "OCCU"@ {
        t is Occupation
    } else if tag == "RESI"@ {
        t is Residence
    } else if tag == "CAST"@ {
        is_custom_event(t, "caste"@)
    } else if tag == "DSCR"@ {
        is_custom_event(t, "physical_description"@)
    } else if tag == "EDUC"@ {
        is_custom_event(t, "education"@)
    } else if tag == "IDNO"@ {
        is_custom_event(t, "id_number"@)
    } else if tag == "NATI"@ {
        is_custom_event(t, "nationality"@)
    } else if tag == "NCHI"@ {
        is_custom_event(t, "num_children"@)
    } else if tag == "NMR"@ {
        is_custom_event(t, "num_marriages"@)
    } else if tag == "PROP"@ {
        is_custom_event(t, "possession"@)
    } else if tag == "RELI"@ {
        is_custom_event(t, "religion"@)
    } else if tag == "SSN"@ {
        is_custom_event(t, "social_security"@)
    } else if tag == "TITL"@ {
        is_custom_event(t, "title"@)
    } else if tag == "EVEN"@ {
        is_custom_event(t, "general_event"@)
    } else {
        false
    }
}

/// What each individual event or attribute tag of GEDCOM 5.5.1 records,
/// as the name of an event type: BIRT a birth, DEAT a death, EMIG an
/// emigration, IMMI an immigration, CHR a christening, and so on.
pub open spec fn gedcom_tag_meaning(tag: Seq<char>) -> Option<Seq<char>> {
    if tag == "BIRT"@ {
        Some("birth"@)
    } else if tag == "DEAT"@ {
        Some("death"@)
    } else if tag == "BURI"@ {
        Some("burial"@)
    } else if tag == "CHR"@ {
        Some("christening"@)
    } else if tag == "CREM"@ {
        Some("cremation"@)
    } else if tag == "ADOP"@ {
        Some("adoption"@)
    } else if tag == "BAPM"@ {
        Some("baptism"@)
    } else if tag == "BARM"@ {
        Some("bar_mitzvah"@)
    } else if tag == "BASM"@ {
        Some("bas_mitzvah"@)
    } else if tag == "BLES"@ {
        Some("blessing"@)
    } else if tag == "CHRA"@ {
        Some("adult_christening"@)
    } else if tag == "CONF"@ {
        Some("confirmation"@)
    } else if tag == "FCOM"@ {
        Some("first_communion"@)
    } else if tag == "ORDN"@ {
        Some("ordination"@)
    } else if tag == "CENS"@ {
        Some("census"@)
    } else if tag == "EMIG"@ {
        Some("emigration"@)
    } else if tag == "IMMI"@ {
        Some("immigration"@)
    } else if tag == "NATU"@ {
        Some("naturalization"@)
    } else if tag == "PROB"@ {
        Some("probate"@)
    } else if tag == "WILL"@ {
        Some("will"@)
    } else if tag == "GRAD"@ {
        Some("graduation"@)
    } else if tag == "RETI"@ {
        Some("retirement"@)
    } else if tag == "OCCU"@ {
        Some("occupation"@)
    } else if tag == "RESI"@ {
        Some("residence"@)
    } else if tag == "CAST"@ {
        Some("caste"@)
    } else if tag == "DSCR"@ {
        Some("physical_description"@)
    } else if tag == "EDUC"@ {
        Some("education"@)
    } else if tag == "IDNO"@ {
        Some("id_number"@)
    } else if tag == "NATI"@ {
        Some("nationality"@)
    } else if tag == "NCHI"@ {
        Some("num_children"@)
    } else if tag == "NMR"@ {
        Some("num_marriages"@)
    } else if tag == "PROP"@ {
        Some("possession"@)
    } else if tag == "RELI"@ {
        Some("religion"@)
    } else if tag == "SSN"@ {
        Some("social_security"@)
    } else if tag == "TITL"@ {
        Some("title"@)
    } else if tag == "EVEN"@ {
        Some("general_event"@)
    } else {
        None
    }
}

/// Reading an individual event tag gives the event type that the tag
/// records in GEDCOM 5.5.1: the type's name is the tag's meaning (a birth for
/// BIRT, an emigration for EMIG, an immigration for IMMI, a custom
/// "christening" for CHR, ...), for every tag that is read at all.
pub proof fn law_indi_event_tag_meaning(t: EventType, tag: Seq<char>)
    requires
        indi_event_type_ok(t, tag),
    ensures
        gedcom_tag_meaning(tag) == Some(event_type_name(t)),
{
}

/// The individual event and attribute tags.
pub open spec fn is_indi_event_tag(tag: Seq<char>) -> bool {
    ||| tag == "BIRT"@
    ||| tag == "DEAT"@
    ||| tag == "BURI"@
    ||| tag == "CHR"@
    ||| tag == "CREM"@
    ||| tag == "ADOP"@
    ||| tag == "BAPM"@
    ||| tag == "BARM"@
    ||| tag == "BASM"@
    ||| tag == "BLES"@
    ||| tag == "CHRA"@
    ||| tag == "CONF"@
    ||| tag == "FCOM"@
    ||| tag == "ORDN"@
    ||| tag == "CENS"@
    ||| tag == "EMIG"@
    ||| tag == "IMMI"@
    ||| tag == "NATU"@
    ||| tag == "PROB"@
    ||| tag == "WILL"@
    ||| tag == "GRAD"@
    ||| tag == "RETI"@
    ||| tag == "OCCU"@
    ||| tag == "RESI"@
    ||| tag == "CAST"@
    ||| tag == "DSCR"@
    ||| tag == "EDUC"@
    ||| tag == "IDNO"@
    ||| tag == "NATI"@
    ||| tag == "NCHI"@
    ||| tag == "NMR"@
    ||| tag == "PROP"@
    ||| tag == "RELI"@
    ||| tag == "SSN"@
    ||| tag == "TITL"@
    ||| tag == "EVEN"@
}

/// Maps a GEDCOM individual event/attribute tag to an event type.
pub fn indi_event_tag_to_type(tag: &str) -> (r: Option<EventType>)
    ensures
        match r {
            Some(t) => is_indi_event_tag(tag@) && indi_event_type_ok(t, tag@),
            None => !is_indi_event_tag(tag@),
        },
{
    if str_eq(tag, "BIRT") {
        Some(EventType::Birth)
    } else if str_eq(tag, "DEAT") {
        Some(EventType::Death)
    } else if str_eq(tag, "BURI") {
        Some(EventType::Burial)
    } else if str_eq(tag, "CHR") {
        Some(EventType::Custom(str_to_string("christening")))
    } else if str_eq(tag, "CREM") {
        Some(EventType::Custom(str_to_string("cremation")))
    } else if str_eq(tag, "ADOP") {
        Some(EventType::Custom(str_to_string("adoption")))
    } else if str_eq(tag, "BAPM") {
        Some(EventType::Baptism)
    } else if str_eq(tag, "BARM") {
        Some(EventType::Custom(str_to_string("bar_mitzvah")))
    } else if str_eq(tag, "BASM") {
        Some(EventType::Custom(str_to_string("bas_mitzvah")))
    } else if str_eq(tag, "BLES") {
        Some(EventType::Custom(str_to_string("blessing")))
    } else if str_eq(tag, "CHRA") {
        Some(EventType::Custom(str_to_string("adult_christening")))
    } else if str_eq(tag, "CONF") {
        Some(EventType::Custom(str_to_string("confirmation")))
    } else if str_eq(tag, "FCOM") {
        Some(EventType::Custom(str_to_string("first_communion")))
    } else if str_eq(tag, "ORDN") {
        Some(EventType::Custom(str_to_string("ordination")))
    } else if str_eq(tag, "CENS") {
        Some(EventType::Census)
    } else if str_eq(tag, "EMIG") {
        Some(EventType::Emigration)
    } else if str_eq(tag, "IMMI") {
        Some(EventType::Immigration)
    } else if str_eq(tag, "NATU") {
        Some(EventType::Naturalization)
    } else if str_eq(tag, "PROB") {
        Some(EventType::Probate)
    } else if str_eq(tag, "WILL") {
        Some(EventType::Will)
    } else if str_eq(tag, "GRAD") {
        Some(EventType::Graduation)
    } else if str_eq(tag, "RETI") {
        Some(EventType::Retirement)
    } else if str_eq(tag, "OCCU") {
        Some(EventType::Occupation)
    } else if str_eq(tag, "RESI") {
        Some(EventType::Residence)
    } else if str_eq(tag, "CAST") {
        Some(EventType::Custom(str_to_string("caste")))
    } else if str_eq(tag, "DSCR") {
        Some(EventType::Custom(str_to_string("physical_description")))
    } else if str_eq(tag, "EDUC") {
        Some(EventType::Custom(str_to_string("education")))
    } else if str_eq(tag, "IDNO") {
        Some(EventType::Custom(str_to_string("id_number")))
    } else if str_eq(tag, "NATI") {
        Some(EventType::Custom(str_to_string("nationality")))
    } else if str_eq(tag, "NCHI") {
        Some(EventType::Custom(str_to_string("num_children")))
    } else if str_eq(tag, "NMR") {
        Some(EventType::Custom(str_to_string("num_marriages")))
    } else if str_eq(tag, "PROP") {
        Some(EventType::Custom(str_to_string("possession")))
    } else if str_eq(tag, "RELI") {
        Some(EventType::Custom(str_to_string("religion")))
    } else if str_eq(tag, "SSN") {
        Some(EventType::Custom(str_to_string("social_security")))
    } else if str_eq(tag, "TITL") {
        Some(EventType::Custom(str_to_string("title")))
    } else if str_eq(tag, "EVEN") {
        Some(EventType::Custom(str_to_string("general_event")))
    } else {
        None
    }
}

/// The entries after keeping each vendor child of `nodes` under
/// "CUSTOM_" + tag, in order (a later child replaces an earlier one with the
/// same tag).
pub open spec fn insert_custom_children(
    entries: Seq<(Seq<char>, Seq<char>)>,
    nodes: Seq<GedcomNode>,
) -> Seq<(Seq<char>, Seq<char>)>
    decreases nodes.len(),
{
    if nodes.len() == 0 {
        entries
    } else {
        let p = insert_custom_children(entries, nodes.drop_last());
        if is_custom_tag(nodes.last().tag@) {
            raw_insert(p, custom_key(nodes.last().tag@), subtree_text(nodes.last()))
        } else {
            p
        }
    }
}

/// The value of the last child tagged `tag` that has a value.
pub open spec fn last_value_of(nodes: Seq<GedcomNode>, tag: Seq<char>) -> Option<Seq<char>>
    decreases nodes.len(),
{
    if nodes.len() == 0 {
        None
    } else if nodes.last().tag@ == tag && nodes.last().value is Some {
        nodes.last().value.deep_view()
    } else {
        last_value_of(nodes.drop_last(), tag)
    }
}

/// A date kept as GEDCOM text, when there is one.
pub open spec fn textual_date_from(d: Option<DateValue>, v: Option<Seq<char>>) -> bool {
    match v {
        None => d is None,
        Some(t) => d matches Some(DateValue::Textual { value }) && value@ == t,
    }
}

/// A description "place: " + the place text, when there is one.
pub open spec fn place_description_from(d: Option<String>, v: Option<Seq<char>>) -> bool {
    match v {
        None => d is None,
        Some(t) => d matches Some(s) && s@ == "place: "@ + t,
    }
}

/// The entries an individual event starts with: the person's cross-reference
/// and the event's tag.
pub open spec fn indi_event_start(xref: Option<Seq<char>>, tag: Seq<char>) -> Seq<(Seq<char>, Seq<char>)> {
    raw_insert(
        match xref {
            Some(x) => seq![("INDI_XREF"@, x)],
            None => Seq::empty(),
        },
        "EVENT_TAG"@,
        tag,
    )
}

/// An event as mapped from the event sub-record `child` of `indi`.
pub open spec fn indi_event_from(e: Event, indi: GedcomNode, child: GedcomNode) -> bool {
    &&& indi_event_type_ok(e.event_type, child.tag@)
    &&& e.place_ref is None
    &&& e.participants@.len() == 1
    &&& e.participants@[0].role is Principal
    &&& e.participants@[0].census_role is None
    &&& (indi.xref matches Some(x) ==> e.participants@[0].person_id == xref_entity_id("INDI"@, x@))
    &&& textual_date_from(e.date, last_value_of(child.children@, "DATE"@))
    &&& place_description_from(e.description, last_value_of(child.children@, "PLAC"@))
    &&& keys_unique(raw_entries(e._raw_gedcom))
    &&& raw_entries(e._raw_gedcom) == insert_custom_children(
        indi_event_start(indi.xref.deep_view(), child.tag@),
        child.children@,
    )
}

/// The event sub-records of a person record.
pub open spec fn event_children(children: Seq<GedcomNode>) -> Seq<GedcomNode>
    decreases children.len(),
{
    if children.len() == 0 {
        Seq::empty()
    } else if is_indi_event_tag(children.last().tag@) {
        event_children(children.drop_last()).push(children.last())
    } else {
        event_children(children.drop_last())
    }
}

/// Reads the date, place and vendor children of an event sub-record into `event`.
fn read_event_details(event: &mut Event, child: &GedcomNode)
    requires
        keys_unique(raw_entries(old(event)._raw_gedcom)),
        old(event).date is None,
        old(event).description is None,
    ensures
        final(event).id == old(event).id,
        final(event).event_type == old(event).event_type,
        final(event).place_ref == old(event).place_ref,
        final(event).participants == old(event).participants,
        textual_date_from(final(event).date, last_value_of(child.children@, "DATE"@)),
        place_description_from(final(event).description, last_value_of(child.children@, "PLAC"@)),
        keys_unique(raw_entries(final(event)._raw_gedcom)),
        raw_entries(final(event)._raw_gedcom) == insert_custom_children(
            raw_entries(old(event)._raw_gedcom),
            child.children@,
        ),
{
    let ghost e0 = raw_entries(event._raw_gedcom);
    let mut i: usize = 0;
    while i < child.children.len()
        invariant
            i <= child.children@.len(),
            event.id == old(event).id,
            event.event_type == old(event).event_type,
            event.place_ref == old(event).place_ref,
            event.participants == old(event).participants,
            textual_date_from(event.date, last_value_of(child.children@.subrange(0, i as int), "DATE"@)),
            place_description_from(
                event.description,
                last_value_of(child.children@.subrange(0, i as int), "PLAC"@),
            ),
            keys_unique(raw_entries(event._raw_gedcom)),
            raw_entries(event._raw_gedcom) == insert_custom_children(
                e0,
                child.children@.subrange(0, i as int),
            ),
        decreases child.children@.len() - i,
    {
        proof {
            assert(child.children@.subrange(0, i + 1).drop_last() =~= child.children@.subrange(
                0,
                i as int,
            ));
        }
        let nested = &child.children[i];
        proof {
            reveal_strlit("DATE");
            reveal_strlit("PLAC");
        }
        if tag_is(nested, "DATE") {
            proof {
                assert(nested.tag@ != "PLAC"@ && !is_custom_tag(nested.tag@));
            }
            match &nested.value {
                Some(v) => {
                    event.date = Some(DateValue::Textual { value: v.clone() });
                },
                None => {},
            }
        } else if tag_is(nested, "PLAC") {
            proof {
                assert(!is_custom_tag(nested.tag@));
            }
            match &nested.value {
                Some(v) => {
                    let mut d = str_to_string("place: ");
                    push_str(&mut d, v.as_str());
                    event.description = Some(d);
                },
                None => {},
            }
        } else if custom_tag(nested.tag.as_str()) {
            event._raw_gedcom.insert(custom_key_of(nested.tag.as_str()), serialize_subtree(nested));
        }
        i = i + 1;
    }
    proof {
        assert(child.children@.subrange(0, i as int) =~= child.children@);
    }
}

fn map_indi_node_to_events(indi: &GedcomNode) -> (r: Vec<Event>)
    ensures
        r@.len() == event_children(indi.children@).len(),
        forall|i: int|
            0 <= i < r@.len() ==> #[trigger] indi_event_from(
                r@[i],
                *indi,
                event_children(indi.children@)[i],
            ),
        forall|i: int, j: int|
            0 <= i < r@.len() && 0 <= j < r@.len() ==> (#[trigger] r@[i]).participants@[0].person_id
                == (#[trigger] r@[j]).participants@[0].person_id,
{
    let person_id = match &indi.xref {
        Some(x) => entity_id_from_xref("INDI", x.as_str()),
        None => EntityId::new(),
    };
    let mut events: Vec<Event> = Vec::new();
    let mut i: usize = 0;
    while i < indi.children.len()
        invariant
            i <= indi.children@.len(),
            indi.xref matches Some(x) ==> person_id == xref_entity_id("INDI"@, x@),
            events@.len() == event_children(indi.children@.subrange(0, i as int)).len(),
            forall|k: int|
                0 <= k < events@.len() ==> #[trigger] indi_event_from(
                    events@[k],
                    *indi,
                    event_children(indi.children@.subrange(0, i as int))[k],
                ),
            forall|k: int|
                0 <= k < events@.len() ==> (#[trigger] events@[k]).participants@[0].person_id
                    == person_id,
        decreases indi.children@.len() - i,
    {
        proof {
            assert(indi.children@.subrange(0, i + 1).drop_last() =~= indi.children@.subrange(
                0,
                i as int,
            ));
        }
        let child = &indi.children[i];
        match indi_event_tag_to_type(child.tag.as_str()) {
            Some(event_type) => {
                let mut participants: Vec<EventParticipant> = Vec::new();
                participants.push(
                    EventParticipant { person_id, role: EventRole::Principal, census_role: None },
                );
                let mut raw = RawGedcom::new();
                match &indi.xref {
                    Some(x) => {
                        raw.insert(str_to_string("INDI_XREF"), x.clone());
                        proof {
                            assert(raw_entries(raw) =~= seq![("INDI_XREF"@, x@)]);
                        }
                    },
                    None => {
                        proof {
                            assert(raw_entries(raw) =~= Seq::<(Seq<char>, Seq<char>)>::empty());
                        }
                    },
                }
                raw.insert(str_to_string("EVENT_TAG"), child.tag.clone());
                let mut event = Event {
                    id: EntityId::new(),
                    event_type,
                    date: None,
                    place_ref: None,
                    participants,
                    description: None,
                    _raw_gedcom: raw,
                };
                read_event_details(&mut event, child);
                events.push(event);
            },
            None => {},
        }
        i = i + 1;
    }
    proof {
        assert(indi.children@.subrange(0, i as int) =~= indi.children@);
    }
    events
}

/// The event sub-records of the person records of a forest, each with the
/// index of its person record.
pub open spec fn indi_event_sources(nodes: Seq<GedcomNode>) -> Seq<(int, GedcomNode)>
    decreases nodes.len(),
{
    if nodes.len() == 0 {
        Seq::empty()
    } else if nodes.last().tag@ == "INDI"@ {
        indi_event_sources(nodes.drop_last()) + event_children(nodes.last().children@).map_values(
            |c: GedcomNode| (nodes.len() - 1, c),
        )
    } else {
        indi_event_sources(nodes.drop_last())
    }
}

/// Extracts the events and attributes of all person records, in order. The
/// events of one record share one participant id.
pub fn map_indi_nodes_to_events(nodes: &[GedcomNode]) -> (r: Vec<Event>)
    ensures
        r@.len() == indi_event_sources(nodes@).len(),
        forall|i: int|
            0 <= i < r@.len() ==> #[trigger] indi_event_from(
                r@[i],
                nodes@[indi_event_sources(nodes@)[i].0],
                indi_event_sources(nodes@)[i].1,
            ),
        forall|i: int, j: int|
            0 <= i < r@.len() && 0 <= j < r@.len() && indi_event_sources(nodes@)[i].0
                == indi_event_sources(nodes@)[j].0 ==> (#[trigger] r@[i]).participants@[0].person_id
                == (#[trigger] r@[j]).participants@[0].person_id,
{
    let mut out: Vec<Event> = Vec::new();
    let mut i: usize = 0;
    while i < nodes.len()
        invariant
            i <= nodes@.len(),
            out@.len() == indi_event_sources(nodes@.subrange(0, i as int)).len(),
            forall|k: int|
                0 <= k < out@.len() ==> 0 <= #[trigger] indi_event_sources(nodes@.subrange(0, i as int))[k].0 < i,
            forall|k: int|
                0 <= k < out@.len() ==> #[trigger] indi_event_from(
                    out@[k],
                    nodes@[indi_event_sources(nodes@.subrange(0, i as int))[k].0],
                    indi_event_sources(nodes@.subrange(0, i as int))[k].1,
                ),
            forall|a: int, b: int|
                0 <= a < out@.len() && 0 <= b < out@.len() && indi_event_sources(
                    nodes@.subrange(0, i as int),
                )[a].0 == indi_event_sources(nodes@.subrange(0, i as int))[b].0 ==> (#[trigger] out@[a]).participants@[0].person_id
                    == (#[trigger] out@[b]).participants@[0].person_id,
        decreases nodes@.len() - i,
    {
        let ghost pre = nodes@.subrange(0, i as int);
        proof {
            assert(nodes@.subrange(0, i + 1).drop_last() =~= pre);
            assert(nodes@.subrange(0, i + 1).last() == nodes@[i as int]);
            assert(nodes@.subrange(0, i + 1).len() - 1 == i);
        }
        if tag_is(&nodes[i], "INDI") {
            let mut evs = map_indi_node_to_events(&nodes[i]);
            let ghost before = out@;
            let ghost moved = evs@;
            let ghost added = event_children(nodes@[i as int].children@).map_values(
                |c: GedcomNode| (i as int, c),
            );
            out.append(&mut evs);
            proof {
                let src = indi_event_sources(nodes@.subrange(0, i + 1));
                assert(src =~= indi_event_sources(pre) + added);
                assert(out@ =~= before + moved);
                assert forall|m: int| 0 <= m < out@.len() implies #[trigger] indi_event_from(
                    out@[m],
                    nodes@[src[m].0],
                    src[m].1,
                ) by {
                    if m >= before.len() {
                        assert(out@[m] == moved[m - before.len()]);
                        assert(src[m] == added[m - before.len()]);
                    } else {
                        assert(src[m] == indi_event_sources(pre)[m]);
                    }
                }
            }
        } else {
            proof {
                assert(indi_event_sources(nodes@.subrange(0, i + 1)) =~= indi_event_sources(pre));
            }
        }
        i = i + 1;
    }
    proof {
        assert(nodes@.subrange(0, i as int) =~= nodes@);
    }
    out
}

/// The lineage named by a `PEDI` value (surrounding whitespace and case ignored).
pub open spec fn lineage_of(value: Seq<char>) -> LineageType {
    let t = ascii_upper_text(trim(value));
    if t == "BIRTH"@ {
        LineageType::Biological
    } else if t == "ADOPTED"@ {
        LineageType::Adopted
    } else if t == "FOSTER"@ {
        LineageType::Foster
    } else if t == "STEP"@ {
        LineageType::Step
    } else if t == "SEALING"@ {
        LineageType::Biological
    } else {
        LineageType::Unknown
    }
}

pub fn parse_lineage_type(value: &str) -> (r: LineageType)
    ensures
        r == lineage_of(value@),
{
    let t = trimmed(value);
    let u = to_ascii_upper_string(t.as_str());
    if str_eq(u.as_str(), "BIRTH") {
        LineageType::Biological
    } else if str_eq(u.as_str(), "ADOPTED") {
        LineageType::Adopted
    } else if str_eq(u.as_str(), "FOSTER") {
        LineageType::Foster
    } else if str_eq(u.as_str(), "STEP") {
        LineageType::Step
    } else if str_eq(u.as_str(), "SEALING") {
        LineageType::Biological
    } else {
        LineageType::Unknown
    }
}

/// The value of the last child tagged `tag` (none without such a child, or
/// when that child has no value).
pub open spec fn last_tagged_value(nodes: Seq<GedcomNode>, tag: Seq<char>) -> Option<Seq<char>>
    decreases nodes.len(),
{
    if nodes.len() == 0 {
        None
    } else if nodes.last().tag@ == tag {
        nodes.last().value.deep_view()
    } else {
        last_tagged_value(nodes.drop_last(), tag)
    }
}

/// The person id that a partner reference gives.
pub open spec fn partner_from(xref: Option<Seq<char>>) -> Option<EntityId> {
    match xref {
        Some(x) => Some(xref_entity_id("INDI"@, x)),
        None => None,
    }
}

/// The first child tagged `tag`, if any.
pub open spec fn first_tagged(nodes: Seq<GedcomNode>, tag: Seq<char>) -> Option<GedcomNode>
    decreases nodes.len(),
{
    if nodes.len() == 0 {
        None
    } else if nodes[0].tag@ == tag {
        Some(nodes[0])
    } else {
        first_tagged(nodes.drop_first(), tag)
    }
}

/// The lineage of a `CHIL` reference: from its first `PEDI`, biological
/// when there is none or it has no value.
pub open spec fn child_lineage(chil: GedcomNode) -> LineageType {
    match first_tagged(chil.children@, "PEDI"@) {
        Some(p) => match p.value.deep_view() {
            Some(v) => lineage_of(v),
            None => LineageType::Biological,
        },
        None => LineageType::Biological,
    }
}

/// The `CHIL` references that carry a value.
pub open spec fn child_refs(children: Seq<GedcomNode>) -> Seq<GedcomNode>
    decreases children.len(),
{
    if children.len() == 0 {
        Seq::empty()
    } else if children.last().tag@ == "CHIL"@ && children.last().value is Some {
        child_refs(children.drop_last()).push(children.last())
    } else {
        child_refs(children.drop_last())
    }
}

/// The family event sub-records (`MARR`, `DIV`).
pub open spec fn family_event_children(children: Seq<GedcomNode>) -> Seq<GedcomNode>
    decreases children.len(),
{
    if children.len() == 0 {
        Seq::empty()
    } else if children.last().tag@ == "MARR"@ || children.last().tag@ == "DIV"@ {
        family_event_children(children.drop_last()).push(children.last())
    } else {
        family_event_children(children.drop_last())
    }
}

/// The participants of a family event: each known partner, as principal.
pub open spec fn partners_as_principals(
    ps: Seq<EventParticipant>,
    p1: Option<EntityId>,
    p2: Option<EntityId>,
) -> bool {
    let expected: Seq<EntityId> = match (p1, p2) {
        (Some(a), Some(b)) => seq![a, b],
        (Some(a), None) => seq![a],
        (None, Some(b)) => seq![b],
        (None, None) => Seq::empty(),
    };
    &&& ps.len() == expected.len()
    &&& forall|i: int|
        0 <= i < ps.len() ==> (#[trigger] ps[i]).person_id == expected[i] && ps[i].role is Principal
            && ps[i].census_role is None
}

/// An event as mapped from the family event sub-record `child` of `fam`.
pub open spec fn family_event_from(
    e: Event,
    fam: GedcomNode,
    child: GedcomNode,
    p1: Option<EntityId>,
    p2: Option<EntityId>,
) -> bool {
    &&& (if child.tag@ == "MARR"@ {
        e.event_type is Marriage
    } else {
        is_custom_event(e.event_type, "divorce"@)
    })
    &&& e.place_ref is None
    &&& partners_as_principals(e.participants@, p1, p2)
    &&& textual_date_from(e.date, last_value_of(child.children@, "DATE"@))
    &&& place_description_from(e.description, last_value_of(child.children@, "PLAC"@))
    &&& keys_unique(raw_entries(e._raw_gedcom))
    &&& raw_entries(e._raw_gedcom) == (match fam.xref.deep_view() {
        Some(x) => raw_insert(
            insert_custom_children(Seq::empty(), child.children@),
            "FAM_XREF"@,
            x,
        ),
        None => insert_custom_children(Seq::empty(), child.children@),
    })
}

/// A family as mapped from a `FAM` record (all but its id and its couple
/// relationship).
pub open spec fn family_from_node(f: Family, fam: GedcomNode) -> bool {
    &&& f.partner1_id == partner_from(last_tagged_value(fam.children@, "HUSB"@))
    &&& f.partner2_id == partner_from(last_tagged_value(fam.children@, "WIFE"@))
    &&& f.child_links@.len() == child_refs(fam.children@).len()
    &&& forall|i: int|
        0 <= i < f.child_links@.len() ==> {
            let c = #[trigger] child_refs(fam.children@)[i];
            &&& f.child_links@[i].child_id == xref_entity_id("INDI"@, c.value->0@)
            &&& f.child_links@[i].lineage_type == child_lineage(c)
        }
    &&& (if exists|i: int|
        0 <= i < family_event_children(fam.children@).len() && (#[trigger] family_event_children(
            fam.children@,
        )[i]).tag@ == "MARR"@ {
        f.partner_link is Married
    } else {
        f.partner_link is Unknown
    })
    &&& f.original_xref == fam.xref
    &&& keys_unique(raw_entries(f._raw_gedcom))
    &&& raw_entries(f._raw_gedcom) == insert_custom_children(
        xref_entries(fam.xref.deep_view()),
        fam.children@,
    )
}

fn partner_participants(p1: Option<EntityId>, p2: Option<EntityId>) -> (r: Vec<EventParticipant>)
    ensures
        partners_as_principals(r@, p1, p2),
{
    let mut ps: Vec<EventParticipant> = Vec::new();
    match p1 {
        Some(a) => {
            ps.push(EventParticipant { person_id: a, role: EventRole::Principal, census_role: None });
        },
        None => {},
    }
    match p2 {
        Some(b) => {
            ps.push(EventParticipant { person_id: b, role: EventRole::Principal, census_role: None });
        },
        None => {},
    }
    ps
}

fn map_family_events(fam: &GedcomNode, p1: Option<EntityId>, p2: Option<EntityId>) -> (r: Vec<Event>)
    ensures
        r@.len() == family_event_children(fam.children@).len(),
        forall|i: int|
            0 <= i < r@.len() ==> {
                let c = #[trigger] family_event_children(fam.children@)[i];
                &&& family_event_from(r@[i], *fam, c, p1, p2)
            },
{
    let mut events: Vec<Event> = Vec::new();
    let mut i: usize = 0;
    while i < fam.children.len()
        invariant
            i <= fam.children@.len(),
            events@.len() == family_event_children(fam.children@.subrange(0, i as int)).len(),
            forall|k: int|
                0 <= k < events@.len() ==> #[trigger] family_event_from(
                    events@[k],
                    *fam,
                    family_event_children(fam.children@.subrange(0, i as int))[k],
                    p1,
                    p2,
                ),
        decreases fam.children@.len() - i,
    {
        proof {
            assert(fam.children@.subrange(0, i + 1).drop_last() =~= fam.children@.subrange(
                0,
                i as int,
            ));
        }
        let child = &fam.children[i];
        let is_marr = tag_is(child, "MARR");
        let is_div = tag_is(child, "DIV");
        if is_marr || is_div {
            let event_type = if is_marr {
                EventType::Marriage
            } else {
                EventType::Custom(str_to_string("divorce"))
            };
            let mut event = Event {
                id: EntityId::new(),
                event_type,
                date: None,
                place_ref: None,
                participants: partner_participants(p1, p2),
                description: None,
                _raw_gedcom: RawGedcom::new(),
            };
            read_event_details(&mut event, child);
            match &fam.xref {
                Some(x) => {
                    event._raw_gedcom.insert(str_to_string("FAM_XREF"), x.clone());
                },
                None => {},
            }
            events.push(event);
        }
        i = i + 1;
    }
    proof {
        assert(fam.children@.subrange(0, i as int) =~= fam.children@);
    }
    events
}

fn child_link_of(chil: &GedcomNode, xref: &String) -> (r: ChildLink)
    ensures
        r.child_id == xref_entity_id("INDI"@, xref@),
        r.lineage_type == child_lineage(*chil),
{
    let child_id = entity_id_from_xref("INDI", xref.as_str());
    let mut i: usize = 0;
    proof {
        assert(chil.children@.subrange(0, chil.children@.len() as int) =~= chil.children@);
    }
    while i < chil.children.len()
        invariant
            i <= chil.children@.len(),
            child_id == xref_entity_id("INDI"@, xref@),
            first_tagged(chil.children@, "PEDI"@) == first_tagged(
                chil.children@.subrange(i as int, chil.children@.len() as int),
                "PEDI"@,
            ),
        decreases chil.children@.len() - i,
    {
        let ghost rest = chil.children@.subrange(i as int, chil.children@.len() as int);
        proof {
            assert(rest.drop_first() =~= chil.children@.subrange(i + 1, chil.children@.len() as int));
            assert(rest[0] == chil.children@[i as int]);
        }
        if tag_is(&chil.children[i], "PEDI") {
            let lineage_type = match &chil.children[i].value {
                Some(v) => parse_lineage_type(v.as_str()),
                None => LineageType::Biological,
            };
            return ChildLink { child_id, lineage_type };
        }
        i = i + 1;
    }
    ChildLink { child_id, lineage_type: LineageType::Biological }
}

/// The family, its couple relationship (when both partners are known) and
/// its events, as mapped from one `FAM` record.
fn map_family_node(fam: &GedcomNode) -> (r: (Family, Option<Relationship>, Vec<Event>))
    ensures
        family_from_node(r.0, *fam),
        r.2@.len() == family_event_children(fam.children@).len(),
        forall|i: int|
            0 <= i < r.2@.len() ==> #[trigger] family_event_from(
                r.2@[i],
                *fam,
                family_event_children(fam.children@)[i],
                r.0.partner1_id,
                r.0.partner2_id,
            ),
        match r.1 {
            Some(rel) => {
                &&& r.0.partner1_id == Some(rel.person1_id)
                &&& r.0.partner2_id == Some(rel.person2_id)
                &&& rel.relationship_type is Couple
                &&& rel.supporting_event == (if r.2@.len() > 0 {
                    Some(r.2@[0].id)
                } else {
                    None
                })
                &&& raw_entries(rel._raw_gedcom).len() == 0
                &&& r.0.couple_relationship == Some(rel.id)
            },
            None => {
                &&& (r.0.partner1_id is None || r.0.partner2_id is None)
                &&& r.0.couple_relationship is None
            },
        },
{
    let mut partner1_id: Option<EntityId> = None;
    let mut partner2_id: Option<EntityId> = None;
    let mut child_links: Vec<ChildLink> = Vec::new();
    let mut i: usize = 0;
    while i < fam.children.len()
        invariant
            i <= fam.children@.len(),
            partner1_id == partner_from(last_tagged_value(fam.children@.subrange(0, i as int), "HUSB"@)),
            partner2_id == partner_from(last_tagged_value(fam.children@.subrange(0, i as int), "WIFE"@)),
            child_links@.len() == child_refs(fam.children@.subrange(0, i as int)).len(),
            forall|k: int|
                0 <= k < child_links@.len() ==> {
                    let c = #[trigger] child_refs(fam.children@.subrange(0, i as int))[k];
                    &&& child_links@[k].child_id == xref_entity_id("INDI"@, c.value->0@)
                    &&& child_links@[k].lineage_type == child_lineage(c)
                },
        decreases fam.children@.len() - i,
    {
        proof {
            assert(fam.children@.subrange(0, i + 1).drop_last() =~= fam.children@.subrange(
                0,
                i as int,
            ));
            reveal_strlit("HUSB");
            reveal_strlit("WIFE");
            reveal_strlit("CHIL");
        }
        let child = &fam.children[i];
        if tag_is(child, "HUSB") {
            proof {
                assert(child.tag@[0] == 'H' && "WIFE"@[0] == 'W' && "CHIL"@[0] == 'C');
            }
            partner1_id = match &child.value {
                Some(v) => Some(entity_id_from_xref("INDI", v.as_str())),
                None => None,
            };
        } else if tag_is(child, "WIFE") {
            proof {
                assert(child.tag@[0] == 'W' && "CHIL"@[0] == 'C');
            }
            partner2_id = match &child.value {
                Some(v) => Some(entity_id_from_xref("INDI", v.as_str())),
                None => None,
            };
        } else if tag_is(child, "CHIL") {
            match &child.value {
                Some(v) => {
                    child_links.push(child_link_of(child, v));
                },
                None => {},
            }
        }
        i = i + 1;
    }
    proof {
        assert(fam.children@.subrange(0, i as int) =~= fam.children@);
    }
    let events = map_family_events(fam, partner1_id, partner2_id);
    let supporting_event = if events.len() > 0 {
        Some(events[0].id)
    } else {
        None
    };
    let mut married = false;
    let mut k: usize = 0;
    while k < events.len()
        invariant
            k <= events@.len(),
            events@.len() == family_event_children(fam.children@).len(),
            forall|m: int|
                0 <= m < events@.len() ==> #[trigger] family_event_from(
                    events@[m],
                    *fam,
                    family_event_children(fam.children@)[m],
                    partner1_id,
                    partner2_id,
                ),
            married == exists|m: int|
                0 <= m < k && (#[trigger] family_event_children(fam.children@)[m]).tag@ == "MARR"@,
        decreases events@.len() - k,
    {
        let is_marriage = match &events[k].event_type {
            EventType::Marriage => true,
            _ => false,
        };
        proof {
            let c = family_event_children(fam.children@)[k as int];
            assert(family_event_from(events@[k as int], *fam, c, partner1_id, partner2_id));
            if c.tag@ != "MARR"@ {
                assert(is_custom_event(events@[k as int].event_type, "divorce"@));
            }
        }
        if is_marriage {
            married = true;
        }
        k = k + 1;
    }
    let partner_link = if married {
        PartnerLink::Married
    } else {
        PartnerLink::Unknown
    };
    let (relationship, couple_relationship) = match (partner1_id, partner2_id) {
        (Some(a), Some(b)) => {
            let rel = Relationship {
                id: EntityId::new(),
                person1_id: a,
                person2_id: b,
                relationship_type: RelationshipType::Couple,
                supporting_event,
                _raw_gedcom: RawGedcom::new(),
            };
            let rid = rel.id;
            (Some(rel), Some(rid))
        },
        _ => (None, None),
    };
    let mut raw = RawGedcom::new();
    keep_xref(&fam.xref, &mut raw);
    keep_custom_children(fam, &mut raw);
    let family = Family {
        id: EntityId::new(),
        partner1_id,
        partner2_id,
        partner_link,
        couple_relationship,
        child_links,
        original_xref: fam.xref.clone(),
        _raw_gedcom: raw,
    };
    (family, relationship, events)
}

/// Keeps each vendor child of `node` under "CUSTOM_" + tag.
pub fn keep_custom_children(node: &GedcomNode, raw: &mut RawGedcom)
    requires
        keys_unique(raw_entries(*old(raw))),
    ensures
        keys_unique(raw_entries(*final(raw))),
        raw_entries(*final(raw)) == insert_custom_children(raw_entries(*old(raw)), node.children@),
{
    let ghost e0 = raw_entries(*raw);
    let mut i: usize = 0;
    while i < node.children.len()
        invariant
            i <= node.children@.len(),
            keys_unique(raw_entries(*raw)),
            raw_entries(*raw) == insert_custom_children(e0, node.children@.subrange(0, i as int)),
        decreases node.children@.len() - i,
    {
        proof {
            assert(node.children@.subrange(0, i + 1).drop_last() =~= node.children@.subrange(
                0,
                i as int,
            ));
        }
        let child = &node.children[i];
        if custom_tag(child.tag.as_str()) {
            raw.insert(custom_key_of(child.tag.as_str()), serialize_subtree(child));
        }
        i = i + 1;
    }
    proof {
        assert(node.children@.subrange(0, i as int) =~= node.children@);
    }
}

/// Families, their couple relationships and their events, from `FAM` records.
#[derive(Debug, Clone, PartialEq, Eq)]
pub struct FamilyMapping {
    pub families: Vec<Family>,
    pub relationships: Vec<Relationship>,
    pub events: Vec<Event>,
}

/// The event sub-records of a run of `FAM` records, each with the index of
/// its record.
pub open spec fn family_event_sources(fams: Seq<GedcomNode>) -> Seq<(int, GedcomNode)>
    decreases fams.len(),
{
    if fams.len() == 0 {
        Seq::empty()
    } else {
        family_event_sources(fams.drop_last()) + family_event_children(fams.last().children@).map_values(
            |c: GedcomNode| (fams.len() - 1, c),
        )
    }
}

/// Indices of the families with both partners known, in order.
pub open spec fn couple_indices(fs: Seq<Family>) -> Seq<int>
    decreases fs.len(),
{
    if fs.len() == 0 {
        Seq::empty()
    } else if fs.last().partner1_id is Some && fs.last().partner2_id is Some {
        couple_indices(fs.drop_last()).push(fs.len() - 1)
    } else {
        couple_indices(fs.drop_last())
    }
}

/// The couple relationship of family `k` of a mapping.
pub open spec fn couple_of(m: FamilyMapping, fams: Seq<GedcomNode>, k: int, rel: Relationship) -> bool {
    let f = m.families@[k];
    let offset = family_event_sources(fams.subrange(0, k)).len();
    &&& f.partner1_id == Some(rel.person1_id)
    &&& f.partner2_id == Some(rel.person2_id)
    &&& rel.relationship_type is Couple
    &&& rel.supporting_event == (if family_event_children(fams[k].children@).len() > 0 {
        Some(m.events@[offset as int].id)
    } else {
        None
    })
    &&& raw_entries(rel._raw_gedcom).len() == 0
    &&& f.couple_relationship == Some(rel.id)
}

/// A mapping of the `FAM` records `fams`.
pub open spec fn family_mapping_of(m: FamilyMapping, fams: Seq<GedcomNode>) -> bool {
    let src = family_event_sources(fams);
    let couples = couple_indices(m.families@);
    &&& m.families@.len() == fams.len()
    &&& forall|k: int| 0 <= k < fams.len() ==> #[trigger] family_from_node(m.families@[k], fams[k])
    &&& m.events@.len() == src.len()
    &&& forall|i: int|
        0 <= i < src.len() ==> #[trigger] family_event_from(
            m.events@[i],
            fams[src[i].0],
            src[i].1,
            m.families@[src[i].0].partner1_id,
            m.families@[src[i].0].partner2_id,
        )
    &&& m.relationships@.len() == couples.len()
    &&& forall|r: int|
        0 <= r < couples.len() ==> #[trigger] couple_of(m, fams, couples[r], m.relationships@[r])
    &&& forall|k: int|
        0 <= k < fams.len() && !(m.families@[k].partner1_id is Some && m.families@[k].partner2_id is Some)
            ==> (#[trigger] m.families@[k]).couple_relationship is None
}

proof fn lemma_family_event_sources_bound(fams: Seq<GedcomNode>, i: int)
    requires
        0 <= i < family_event_sources(fams).len(),
    ensures
        0 <= family_event_sources(fams)[i].0 < fams.len(),
    decreases fams.len(),
{
    let p = family_event_sources(fams.drop_last());
    if i < p.len() {
        lemma_family_event_sources_bound(fams.drop_last(), i);
    }
}

proof fn lemma_couple_indices_bound(fs: Seq<Family>, r: int)
    requires
        0 <= r < couple_indices(fs).len(),
    ensures
        0 <= couple_indices(fs)[r] < fs.len(),
        fs[couple_indices(fs)[r]].partner1_id is Some,
        fs[couple_indices(fs)[r]].partner2_id is Some,
    decreases fs.len(),
{
    let p = couple_indices(fs.drop_last());
    if r < p.len() {
        lemma_couple_indices_bound(fs.drop_last(), r);
    }
}

/// Maps `FAM` records into families, couple relationships and family events.
pub fn map_family_nodes(nodes: &[GedcomNode]) -> (r: FamilyMapping)
    ensures
        family_mapping_of(r, nodes_tagged(nodes@, "FAM"@)),
{
    let ghost fams_all = nodes_tagged(nodes@, "FAM"@);
    let mut families: Vec<Family> = Vec::new();
    let mut relationships: Vec<Relationship> = Vec::new();
    let mut events: Vec<Event> = Vec::new();
    let mut i: usize = 0;
    while i < nodes.len()
        invariant
            i <= nodes@.len(),
            fams_all == nodes_tagged(nodes@, "FAM"@),
            family_mapping_of(
                FamilyMapping { families, relationships, events },
                nodes_tagged(nodes@.subrange(0, i as int), "FAM"@),
            ),
        decreases nodes@.len() - i,
    {
        let ghost pre = nodes@.subrange(0, i as int);
        let ghost fams = nodes_tagged(pre, "FAM"@);
        proof {
            assert(nodes@.subrange(0, i + 1).drop_last() =~= pre);
        }
        if tag_is(&nodes[i], "FAM") {
            let fam = &nodes[i];
            let ghost fams2 = nodes_tagged(nodes@.subrange(0, i + 1), "FAM"@);
            let ghost k = fams.len() as int;
            let ghost old_m = FamilyMapping { families, relationships, events };
            let (family, rel, mut fam_events) = map_family_node(fam);
            let ghost moved = fam_events@;
            let ghost fam_v = family;
            let ghost rel_v = rel;
            proof {
                assert(fams2 =~= fams.push(*fam));
                assert(fams2.drop_last() =~= fams);
                assert(fams2.subrange(0, k) =~= fams);
            }
            let ghost ev_offset = events@.len();
            events.append(&mut fam_events);
            families.push(family);
            match rel {
                Some(r) => {
                    relationships.push(r);
                },
                None => {},
            }
            proof {
                let m = FamilyMapping { families, relationships, events };
                let src_old = family_event_sources(fams);
                let src = family_event_sources(fams2);
                let added = family_event_children(fam.children@).map_values(
                    |c: GedcomNode| (fams2.len() - 1, c),
                );
                assert(src =~= src_old + added);
                assert(m.events@ =~= old_m.events@ + moved);
                assert(m.families@ =~= old_m.families@.push(fam_v));
                assert(m.families@.drop_last() =~= old_m.families@);
                assert forall|j: int| 0 <= j < fams2.len() implies #[trigger] family_from_node(
                    m.families@[j],
                    fams2[j],
                ) by {
                    if j < k {
                        assert(fams2[j] == fams[j]);
                    }
                }
                assert forall|e: int| 0 <= e < src.len() implies #[trigger] family_event_from(
                    m.events@[e],
                    fams2[src[e].0],
                    src[e].1,
                    m.families@[src[e].0].partner1_id,
                    m.families@[src[e].0].partner2_id,
                ) by {
                    if e < src_old.len() {
                        assert(src[e] == src_old[e]);
                        lemma_family_event_sources_bound(fams, e);
                        assert(fams2[src[e].0] == fams[src[e].0]);
                        assert(m.events@[e] == old_m.events@[e]);
                    } else {
                        assert(src[e] == added[e - src_old.len()]);
                        assert(m.events@[e] == moved[e - src_old.len()]);
                    }
                }
                let couples_old = couple_indices(old_m.families@);
                let couples = couple_indices(m.families@);
                assert forall|r: int| 0 <= r < couples.len() implies #[trigger] couple_of(
                    m,
                    fams2,
                    couples[r],
                    m.relationships@[r],
                ) by {
                    if r < couples_old.len() {
                        lemma_couple_indices_bound(old_m.families@, r);
                        let kk = couples_old[r];
                        assert(couples[r] == kk);
                        assert(couple_of(old_m, fams, kk, old_m.relationships@[r]));
                        assert(m.relationships@[r] == old_m.relationships@[r]);
                        assert(fams2.subrange(0, kk) =~= fams.subrange(0, kk));
                        assert(fams2[kk] == fams[kk]);
                        let off = family_event_sources(fams.subrange(0, kk)).len();
                        if family_event_children(fams[kk].children@).len() > 0 {
                            lemma_event_offset_bound(fams, kk);
                            assert(m.events@[off as int] == old_m.events@[off as int]);
                        }
                    } else {
                        assert(couples[r] == k);
                        assert(src_old.len() == family_event_sources(fams2.subrange(0, k)).len());
                    }
                }
                assert forall|j: int|
                    0 <= j < fams2.len() && !(m.families@[j].partner1_id is Some
                        && m.families@[j].partner2_id is Some) implies (#[trigger] m.families@[j]).couple_relationship is None by {
                    if j < k {
                        assert(m.families@[j] == old_m.families@[j]);
                    }
                }
            }
        } else {
            proof {
                assert(nodes_tagged(nodes@.subrange(0, i + 1), "FAM"@) =~= fams);
            }
        }
        i = i + 1;
    }
    proof {
        assert(nodes@.subrange(0, i as int) =~= nodes@);
    }
    FamilyMapping { families, relationships, events }
}

proof fn lemma_event_offset_bound(fams: Seq<GedcomNode>, k: int)
    requires
        0 <= k < fams.len(),
        family_event_children(fams[k].children@).len() > 0,
    ensures
        family_event_sources(fams.subrange(0, k)).len() < family_event_sources(fams).len(),
    decreases fams.len(),
{
    if k == fams.len() - 1 {
        assert(fams.drop_last() =~= fams.subrange(0, k));
    } else {
        assert(fams.drop_last().subrange(0, k) =~= fams.subrange(0, k));
        lemma_event_offset_bound(fams.drop_last(), k);
    }
}

} // verus!
