//! Importing a Gramps XML database: its elements mapped to the domain model,
//! and the counts an import reports.
use crate::event::{event_type_name, law_event_type_names_distinct, same_event_type, Event, EventParticipant, EventRole, EventType};
use crate::evidence::{Citation, Media, Note, NoteType, Repository, RepositoryRef, RepositoryType, Source};
use crate::family::{ChildLink, Family, LineageType, PartnerLink, Relationship, RelationshipType};
use crate::gedcom::assertions::{
    push_record, record_matches, records_match, value_matches, AssertionSpec, AssertionValue, EntityType,
    ImportedAssertionRecord,
};
use crate::evidence::CitationRef;
use crate::gedcom::sources::value_or;
use crate::person::{NameType, Person, PersonName, Surname, SurnameOrigin};
use crate::place::{PlaceName, PlaceRecord, PlaceType};
use crate::raw::{raw_entries, RawGedcom};
use crate::text::{
    ascii_lower_text, chars_of, digit_part, digits_value, is_digit, lemma_digits_value_monotone, new_string,
    parse_u8_chars, parse_u8_spec, push_char, push_str, str_eq, str_to_string, to_ascii_lower_string, trim,
    trimmed,
};
use crate::types::{name_based_uuid, uuid_hyphenated_text, uuid_v5, same_gender, Calendar, DateValue, EntityId, FuzzyDate, Gender};
use vstd::prelude::*;

verus! {

/// Namespace of the name-based identifiers given to Gramps records.
pub const GRAMPS_ENTITY_NAMESPACE: u128 = 0x2b8d1226_a3bf_4c0b_a98d_7a59d0132adf_u128;

/// An XML element: its name, its attributes, and its children in document
/// order.
#[derive(Debug)]
pub struct XmlElement {
    pub name: String,
    pub attributes: Vec<(String, String)>,
    pub children: Vec<XmlNode>,
}

/// A child of an XML element: an element, character data, or anything else
/// (a comment, a CDATA section, a processing instruction).
#[derive(Debug)]
pub enum XmlNode {
    Element(XmlElement),
    Text(String),
    Other,
}

/// The value of the first attribute named `key`.
pub open spec fn attr_of(attrs: Seq<(String, String)>, key: Seq<char>) -> Option<Seq<char>>
    decreases attrs.len(),
{
    if attrs.len() == 0 {
        None
    } else {
        let r = attr_of(attrs.drop_last(), key);
        if r is Some {
            r
        } else if attrs.last().0@ == key {
            Some(attrs.last().1@)
        } else {
            None
        }
    }
}

/// The value of an element's attribute `key`.
pub open spec fn attr(e: XmlElement, key: Seq<char>) -> Option<Seq<char>> {
    attr_of(e.attributes@, key)
}

pub fn get_attr<'a>(e: &'a XmlElement, key: &str) -> (r: Option<&'a String>)
    ensures
        match r {
            Some(v) => attr(*e, key@) == Some(v@),
            None => attr(*e, key@) is None,
        },
{
    let mut i: usize = 0;
    while i < e.attributes.len()
        invariant
            i <= e.attributes@.len(),
            attr_of(e.attributes@.subrange(0, i as int), key@) is None,
        decreases e.attributes@.len() - i,
    {
        proof {
            assert(e.attributes@.subrange(0, i + 1).drop_last() =~= e.attributes@.subrange(0, i as int));
        }
        if str_eq(e.attributes[i].0.as_str(), key) {
            proof {
                lemma_attr_prefix(e.attributes@, i + 1, key@);
            }
            return Some(&e.attributes[i].1);
        }
        i = i + 1;
    }
    proof {
        assert(e.attributes@.subrange(0, i as int) =~= e.attributes@);
    }
    None
}

/// A value found among the first `j` attributes is the value for the whole list.
proof fn lemma_attr_prefix(attrs: Seq<(String, String)>, j: int, key: Seq<char>)
    requires
        0 <= j <= attrs.len(),
        attr_of(attrs.subrange(0, j), key) is Some,
    ensures
        attr_of(attrs, key) == attr_of(attrs.subrange(0, j), key),
    decreases attrs.len() - j,
{
    if j < attrs.len() {
        assert(attrs.subrange(0, j + 1).drop_last() =~= attrs.subrange(0, j));
        lemma_attr_prefix(attrs, j + 1, key);
    } else {
        assert(attrs.subrange(0, j) =~= attrs);
    }
}

/// The first child element from `i` on named `name`.
pub open spec fn first_named_from(cs: Seq<XmlNode>, name: Seq<char>, i: int) -> Option<XmlElement>
    decreases cs.len() - i,
{
    if i < 0 || i >= cs.len() {
        None
    } else {
        match cs[i] {
            XmlNode::Element(c) => if c.name@ == name {
                Some(c)
            } else {
                first_named_from(cs, name, i + 1)
            },
            _ => first_named_from(cs, name, i + 1),
        }
    }
}

/// An element's first child element named `name`.
pub open spec fn first_named(e: XmlElement, name: Seq<char>) -> Option<XmlElement> {
    first_named_from(e.children@, name, 0)
}

pub fn first_child_named<'a>(e: &'a XmlElement, name: &str) -> (r: Option<&'a XmlElement>)
    ensures
        match r {
            Some(c) => first_named(*e, name@) == Some(*c),
            None => first_named(*e, name@) is None,
        },
{
    let mut i: usize = 0;
    while i < e.children.len()
        invariant
            i <= e.children@.len(),
            first_named_from(e.children@, name@, 0) == first_named_from(e.children@, name@, i as int),
        decreases e.children@.len() - i,
    {
        match &e.children[i] {
            XmlNode::Element(c) => {
                if str_eq(c.name.as_str(), name) {
                    return Some(c);
                }
            },
            _ => {},
        }
        i = i + 1;
    }
    None
}

/// The child elements named `name`, in order.
pub open spec fn named_elements(cs: Seq<XmlNode>, name: Seq<char>) -> Seq<XmlElement>
    decreases cs.len(),
{
    if cs.len() == 0 {
        Seq::empty()
    } else {
        let p = named_elements(cs.drop_last(), name);
        match cs.last() {
            XmlNode::Element(c) => if c.name@ == name {
                p.push(c)
            } else {
                p
            },
            _ => p,
        }
    }
}

/// The character data directly inside a sequence of nodes, joined.
pub open spec fn text_of(cs: Seq<XmlNode>) -> Seq<char>
    decreases cs.len(),
{
    if cs.len() == 0 {
        Seq::empty()
    } else {
        let p = text_of(cs.drop_last());
        match cs.last() {
            XmlNode::Text(t) => p + t@,
            _ => p,
        }
    }
}

/// An element's text: its character data joined and trimmed, when not empty.
pub open spec fn element_text(e: XmlElement) -> Option<Seq<char>> {
    let t = trim(text_of(e.children@));
    if t.len() == 0 {
        None
    } else {
        Some(t)
    }
}

pub fn element_text_of(e: &XmlElement) -> (r: Option<String>)
    ensures
        r.deep_view() == element_text(*e),
{
    let mut text = new_string();
    let mut i: usize = 0;
    while i < e.children.len()
        invariant
            i <= e.children@.len(),
            text@ == text_of(e.children@.subrange(0, i as int)),
        decreases e.children@.len() - i,
    {
        proof {
            assert(e.children@.subrange(0, i + 1).drop_last() =~= e.children@.subrange(0, i as int));
        }
        match &e.children[i] {
            XmlNode::Text(t) => push_str(&mut text, t.as_str()),
            _ => {},
        }
        i = i + 1;
    }
    proof {
        assert(e.children@.subrange(0, i as int) =~= e.children@);
    }
    let t = trimmed(text.as_str());
    if t.as_str().is_empty() {
        None
    } else {
        Some(t)
    }
}

/// The text of an element's first child element named `name`.
pub open spec fn child_text(e: XmlElement, name: Seq<char>) -> Option<Seq<char>> {
    match first_named(e, name) {
        Some(c) => element_text(c),
        None => None,
    }
}

pub fn child_text_of(e: &XmlElement, name: &str) -> (r: Option<String>)
    ensures
        r.deep_view() == child_text(*e, name@),
{
    match first_child_named(e, name) {
        Some(c) => element_text_of(c),
        None => None,
    }
}

/// The first of two optional texts that is present.
pub open spec fn or_else(a: Option<Seq<char>>, b: Option<Seq<char>>) -> Option<Seq<char>> {
    match a {
        Some(x) => Some(x),
        None => b,
    }
}

/// The identifier of the Gramps record `seed` of kind `kind`: the name-based
/// UUID of "kind:seed".
pub open spec fn gramps_id(kind: Seq<char>, seed: Seq<char>) -> EntityId {
    EntityId(uuid_v5(GRAMPS_ENTITY_NAMESPACE, vstd::utf8::encode_utf8(kind + seq![':'] + seed)))
}

pub fn entity_id_from_seed(kind: &str, seed: &str) -> (r: EntityId)
    ensures
        r == gramps_id(kind@, seed@),
{
    let mut name = str_to_string(kind);
    push_char(&mut name, ':');
    push_str(&mut name, seed);
    proof {
        assert(name@ =~= kind@ + seq![':'] + seed@);
    }
    let bytes = name.as_str().as_bytes();
    EntityId(name_based_uuid(GRAMPS_ENTITY_NAMESPACE, bytes))
}

/// The items of a section of the database: the child elements named `item`
/// of the root's first child element named `section`.
pub open spec fn section_items(root: XmlElement, section: Seq<char>, item: Seq<char>) -> Seq<XmlElement> {
    match first_named(root, section) {
        Some(s) => named_elements(s.children@, item),
        None => Seq::empty(),
    }
}

/// The elements of a sequence that carry an `id` attribute, with that id.
pub open spec fn with_ids(es: Seq<XmlElement>) -> Seq<(Seq<char>, XmlElement)>
    decreases es.len(),
{
    if es.len() == 0 {
        Seq::empty()
    } else {
        let p = with_ids(es.drop_last());
        match attr(es.last(), "id"@) {
            Some(id) => p.push((id, es.last())),
            None => p,
        }
    }
}

/// The ids of the records of a section.
pub open spec fn ids_of(items: Seq<(Seq<char>, XmlElement)>) -> Seq<Seq<char>> {
    items.map_values(|it: (Seq<char>, XmlElement)| it.0)
}

/// The identifier a reference to a record of kind `kind` resolves to: that of
/// the record, when a record with that id was read.
pub open spec fn resolve(kind: Seq<char>, ids: Seq<Seq<char>>, r: Option<Seq<char>>) -> Option<EntityId> {
    match r {
        Some(h) => if ids.contains(h) {
            Some(gramps_id(kind, h))
        } else {
            None
        },
        None => None,
    }
}

fn contains_text(ids: &Vec<String>, h: &str) -> (r: bool)
    ensures
        r == ids@.map_values(|s: String| s@).contains(h@),
{
    let ghost v = ids@.map_values(|s: String| s@);
    let mut i: usize = 0;
    while i < ids.len()
        invariant
            i <= ids@.len(),
            v == ids@.map_values(|s: String| s@),
            forall|k: int| 0 <= k < i ==> v[k] != h@,
        decreases ids@.len() - i,
    {
        if str_eq(ids[i].as_str(), h) {
            proof {
                assert(v[i as int] == h@);
            }
            return true;
        }
        i = i + 1;
    }
    false
}

fn resolve_ref(kind: &str, ids: &Vec<String>, r: Option<&String>) -> (res: Option<EntityId>)
    ensures
        res == resolve(
            kind@,
            ids@.map_values(|s: String| s@),
            match r {
                Some(h) => Some(h@),
                None => None,
            },
        ),
{
    match r {
        Some(h) => if contains_text(ids, h.as_str()) {
            Some(entity_id_from_seed(kind, h.as_str()))
        } else {
            None
        },
        None => None,
    }
}


/// A gender as Gramps writes it: `m`/`male`, `f`/`female`, `u`/`unknown` or
/// nothing, in any ASCII case and with surrounding whitespace; any other text
/// is kept, lower-cased, as a custom gender.
pub open spec fn gramps_gender(g: Gender, v: Option<Seq<char>>) -> bool {
    let t = ascii_lower_text(trim(value_or(v, Seq::empty())));
    if t == "m"@ || t == "male"@ {
        g is Male
    } else if t == "f"@ || t == "female"@ {
        g is Female
    } else if t == "u"@ || t == "unknown"@ || t == ""@ {
        g is Unknown
    } else {
        g matches Gender::Custom(s) && s@ == t
    }
}

pub fn parse_gramps_gender(v: Option<&String>) -> (g: Gender)
    ensures
        gramps_gender(
            g,
            match v {
                Some(s) => Some(s@),
                None => None,
            },
        ),
{
    let raw = match v {
        Some(s) => trimmed(s.as_str()),
        None => {
            proof {
                reveal_strlit("");
                assert(trim(Seq::<char>::empty()) =~= Seq::<char>::empty());
            }
            new_string()
        },
    };
    let t = to_ascii_lower_string(raw.as_str());
    proof {
        if v is None {
            assert(ascii_lower_text(Seq::<char>::empty()) =~= Seq::<char>::empty());
        }
    }
    if str_eq(t.as_str(), "m") || str_eq(t.as_str(), "male") {
        Gender::Male
    } else if str_eq(t.as_str(), "f") || str_eq(t.as_str(), "female") {
        Gender::Female
    } else if str_eq(t.as_str(), "u") || str_eq(t.as_str(), "unknown") || str_eq(t.as_str(), "") {
        Gender::Unknown
    } else {
        Gender::Custom(t)
    }
}

/// An event type as Gramps writes it: a known name in any ASCII case, with
/// surrounding whitespace; any other text is kept, lower-cased, as a custom
/// type.
pub open spec fn gramps_event_type(t: EventType, v: Option<Seq<char>>) -> bool {
    let s = ascii_lower_text(trim(value_or(v, Seq::empty())));
    if s == "birth"@ {
        t is Birth
    } else if s == "death"@ {
        t is Death
    } else if s == "marriage"@ {
        t is Marriage
    } else if s == "baptism"@ {
        t is Baptism
    } else if s == "burial"@ {
        t is Burial
    } else if s == "census"@ {
        t is Census
    } else if s == "residence"@ {
        t is Residence
    } else if s == "occupation"@ {
        t is Occupation
    } else if s == "immigration"@ {
        t is Immigration
    } else if s == "emigration"@ {
        t is Emigration
    } else if s == "naturalization"@ {
        t is Naturalization
    } else if s == "probate"@ {
        t is Probate
    } else if s == "will"@ {
        t is Will
    } else if s == "migration"@ {
        t is Migration
    } else if s == "graduation"@ {
        t is Graduation
    } else if s == "retirement"@ {
        t is Retirement
    } else {
        t matches EventType::Custom(c) && c@ == s
    }
}

/// The event type read from a Gramps `type` attribute is the one named by
/// the attribute (letter case and surrounding whitespace ignored): its name
/// is the attribute's text, and when that text names a built-in type, it is
/// that type ("burial" a burial, "death" a death, ...), so different names
/// give different types.
pub proof fn law_gramps_event_type_named(t: EventType, v: Option<Seq<char>>)
    requires
        gramps_event_type(t, v),
    ensures
        event_type_name(t) == ascii_lower_text(trim(value_or(v, Seq::empty()))),
        forall|t0: EventType|
            !(t0 is Custom) && #[trigger] event_type_name(t0) == ascii_lower_text(trim(value_or(v, Seq::empty())))
                ==> t == t0,
{
    let s = ascii_lower_text(trim(value_or(v, Seq::empty())));
    assert forall|t0: EventType| !(t0 is Custom) && #[trigger] event_type_name(t0) == s implies t == t0 by {
        if t is Custom {
            assert(event_type_name(t0) != s);
        } else {
            law_event_type_names_distinct(t, t0);
        }
    }
}

pub fn parse_gramps_event_type(v: Option<&String>) -> (t: EventType)
    ensures
        gramps_event_type(
            t,
            match v {
                Some(s) => Some(s@),
                None => None,
            },
        ),
{
    let raw = match v {
        Some(s) => trimmed(s.as_str()),
        None => {
            proof {
                assert(trim(Seq::<char>::empty()) =~= Seq::<char>::empty());
            }
            new_string()
        },
    };
    let s = to_ascii_lower_string(raw.as_str());
    let k = s.as_str();
    if str_eq(k, "birth") {
        EventType::Birth
    } else if str_eq(k, "death") {
        EventType::Death
    } else if str_eq(k, "marriage") {
        EventType::Marriage
    } else if str_eq(k, "baptism") {
        EventType::Baptism
    } else if str_eq(k, "burial") {
        EventType::Burial
    } else if str_eq(k, "census") {
        EventType::Census
    } else if str_eq(k, "residence") {
        EventType::Residence
    } else if str_eq(k, "occupation") {
        EventType::Occupation
    } else if str_eq(k, "immigration") {
        EventType::Immigration
    } else if str_eq(k, "emigration") {
        EventType::Emigration
    } else if str_eq(k, "naturalization") {
        EventType::Naturalization
    } else if str_eq(k, "probate") {
        EventType::Probate
    } else if str_eq(k, "will") {
        EventType::Will
    } else if str_eq(k, "migration") {
        EventType::Migration
    } else if str_eq(k, "graduation") {
        EventType::Graduation
    } else if str_eq(k, "retirement") {
        EventType::Retirement
    } else {
        EventType::Custom(s)
    }
}

/// The parts of `s` between occurrences of `sep`, as `str::split` gives them
/// (one part when `sep` does not occur).
pub open spec fn split_on(s: Seq<char>, sep: char) -> Seq<Seq<char>>
    decreases s.len(),
{
    if s.len() == 0 {
        seq![Seq::empty()]
    } else {
        let p = split_on(s.drop_last(), sep);
        if s.last() == sep {
            p.push(Seq::empty())
        } else {
            p.update(p.len() - 1, p.last().push(s.last()))
        }
    }
}

proof fn lemma_split_nonempty(s: Seq<char>, sep: char)
    ensures
        split_on(s, sep).len() >= 1,
    decreases s.len(),
{
    if s.len() > 0 {
        lemma_split_nonempty(s.drop_last(), sep);
    }
}

/// What `str::parse::<i32>` gives on a text without a minus sign: an
/// optional `+`, then one or more decimal digits whose value fits.
pub open spec fn parse_i32_spec(s: Seq<char>) -> Option<i32> {
    let d = digit_part(s);
    if d.len() > 0 && (forall|i: int| 0 <= i < d.len() ==> is_digit(d[i])) && digits_value(d) <= 2147483647 {
        Some(digits_value(d) as i32)
    } else {
        None
    }
}

pub fn parse_i32_chars(s: &[char]) -> (r: Option<i32>)
    ensures
        r == parse_i32_spec(s@),
{
    let ghost t = s@;
    let mut start: usize = 0;
    if s.len() > 0 && s[0] == '+' {
        start = 1;
    }
    let ghost d = s@.subrange(start as int, s@.len() as int);
    proof {
        if s@.len() > 0 && s@[0] == '+' {
            assert(t.drop_first() =~= d);
        } else {
            assert(t =~= d);
        }
    }
    if start >= s.len() {
        return None;
    }
    let mut value: u64 = 0;
    let mut i = start;
    while i < s.len()
        invariant
            start <= i <= s@.len(),
            d == s@.subrange(start as int, s@.len() as int),
            t == s@,
            d.len() > 0,
            digit_part(t) == d,
            forall|k: int| start <= k < i ==> is_digit(s@[k]),
            value as int == digits_value(s@.subrange(start as int, i as int)),
            value <= 2147483647,
        decreases s@.len() - i,
    {
        let c = s[i];
        if !('0' <= c && c <= '9') {
            proof {
                assert(!is_digit(d[i - start]));
            }
            return None;
        }
        let digit = (c as u64) - ('0' as u64);
        proof {
            let a = s@.subrange(start as int, i + 1);
            assert(a.drop_last() =~= s@.subrange(start as int, i as int));
            assert(a.last() == c);
        }
        value = value * 10 + digit;
        i = i + 1;
        if value > 2147483647 {
            proof {
                let pre = s@.subrange(start as int, i as int);
                if forall|k: int| #![trigger d[k]] 0 <= k < d.len() ==> is_digit(d[k]) {
                    lemma_digits_value_monotone(d, i - start);
                    assert(d.subrange(0, i - start) =~= pre);
                }
            }
            return None;
        }
    }
    proof {
        assert(s@.subrange(start as int, i as int) =~= d);
        assert forall|k: int| 0 <= k < d.len() implies is_digit(d[k]) by {
            assert(d[k] == s@[start + k]);
        }
    }
    Some(value as i32)
}

/// A Gramps date value `YYYY[-MM[-DD]]`: an exact Gregorian date whose year
/// must parse; a month or day that does not parse is left out.
pub open spec fn gramps_date(raw: Seq<char>) -> Option<DateValue> {
    let t = trim(raw);
    if t.len() == 0 {
        None
    } else {
        let parts = split_on(t, '-');
        match parse_i32_spec(parts[0]) {
            None => None,
            Some(year) => Some(
                DateValue::Exact {
                    date: FuzzyDate {
                        year,
                        month: if parts.len() > 1 {
                            parse_u8_spec(parts[1])
                        } else {
                            None
                        },
                        day: if parts.len() > 2 {
                            parse_u8_spec(parts[2])
                        } else {
                            None
                        },
                    },
                    calendar: Calendar::Gregorian,
                },
            ),
        }
    }
}

pub open spec fn char_vec_views(v: Seq<Vec<char>>) -> Seq<Seq<char>> {
    v.map_values(|x: Vec<char>| x@)
}

pub(crate) fn split_chars(s: &[char], sep: char) -> (r: Vec<Vec<char>>)
    ensures
        char_vec_views(r@) == split_on(s@, sep),
{
    let mut done: Vec<Vec<char>> = Vec::new();
    let mut cur: Vec<char> = Vec::new();
    let mut i: usize = 0;
    proof {
        assert(char_vec_views(done@).push(cur@) =~= split_on(s@.subrange(0, 0), sep));
    }
    while i < s.len()
        invariant
            i <= s@.len(),
            char_vec_views(done@).push(cur@) == split_on(s@.subrange(0, i as int), sep),
        decreases s@.len() - i,
    {
        proof {
            assert(s@.subrange(0, i + 1).drop_last() =~= s@.subrange(0, i as int));
        }
        let ghost before = char_vec_views(done@);
        let ghost cbefore = cur@;
        if s[i] == sep {
            let finished = cur;
            done.push(finished);
            cur = Vec::new();
            proof {
                assert(char_vec_views(done@) =~= before.push(cbefore));
            }
        } else {
            cur.push(s[i]);
            proof {
                assert(char_vec_views(done@).push(cur@) =~= before.push(cbefore).update(
                    before.len() as int,
                    cbefore.push(s@[i as int]),
                ));
            }
        }
        i = i + 1;
    }
    proof {
        assert(s@.subrange(0, i as int) =~= s@);
    }
    let ghost before = char_vec_views(done@);
    done.push(cur);
    proof {
        assert(char_vec_views(done@) =~= before.push(done@.last()@));
    }
    done
}

pub fn parse_gramps_date(raw: &str) -> (r: Option<DateValue>)
    ensures
        r == gramps_date(raw@),
{
    let t = trimmed(raw);
    if t.as_str().is_empty() {
        return None;
    }
    let cs = chars_of(t.as_str());
    let parts = split_chars(cs.as_slice(), '-');
    proof {
        lemma_split_nonempty(t@, '-');
        assert(parts@[0]@ == split_on(t@, '-')[0]);
    }
    let year = match parse_i32_chars(parts[0].as_slice()) {
        Some(y) => y,
        None => {
            return None;
        },
    };
    let month = if parts.len() > 1 {
        proof {
            assert(parts@[1]@ == split_on(t@, '-')[1]);
            assert(parts@[1]@.subrange(0, parts@[1]@.len() as int) =~= parts@[1]@);
        }
        parse_u8_chars(parts[1].as_slice(), 0, parts[1].len())
    } else {
        None
    };
    let day = if parts.len() > 2 {
        proof {
            assert(parts@[2]@ == split_on(t@, '-')[2]);
            assert(parts@[2]@.subrange(0, parts@[2]@.len() as int) =~= parts@[2]@);
        }
        parse_u8_chars(parts[2].as_slice(), 0, parts[2].len())
    } else {
        None
    };
    Some(DateValue::Exact { date: FuzzyDate::new(year, month, day), calendar: Calendar::Gregorian })
}


/// The records of a section that carry an id, with that id.
pub open spec fn section_records(root: XmlElement, section: Seq<char>, item: Seq<char>) -> Seq<(Seq<char>, XmlElement)> {
    with_ids(section_items(root, section, item))
}

/// The records of a section, in document order, each with its id.
pub fn section_entries<'a>(root: &'a XmlElement, section: &str, item: &str) -> (r: Vec<(&'a String, &'a XmlElement)>)
    ensures
        r@.len() == section_records(*root, section@, item@).len(),
        forall|k: int|
            0 <= k < r@.len() ==> (#[trigger] r@[k]).0@ == section_records(*root, section@, item@)[k].0 && *r@[k].1
                == section_records(*root, section@, item@)[k].1,
{
    let mut out: Vec<(&'a String, &'a XmlElement)> = Vec::new();
    let sec = match first_child_named(root, section) {
        Some(s) => s,
        None => {
            return out;
        },
    };
    let ghost cs = sec.children@;
    let mut i: usize = 0;
    while i < sec.children.len()
        invariant
            i <= cs.len(),
            cs == sec.children@,
            first_named(*root, section@) == Some(*sec),
            out@.len() == with_ids(named_elements(cs.subrange(0, i as int), item@)).len(),
            forall|k: int|
                0 <= k < out@.len() ==> (#[trigger] out@[k]).0@ == with_ids(
                    named_elements(cs.subrange(0, i as int), item@),
                )[k].0 && *out@[k].1 == with_ids(named_elements(cs.subrange(0, i as int), item@))[k].1,
        decreases cs.len() - i,
    {
        let ghost pre = named_elements(cs.subrange(0, i as int), item@);
        proof {
            assert(cs.subrange(0, i + 1).drop_last() =~= cs.subrange(0, i as int));
        }
        match &sec.children[i] {
            XmlNode::Element(c) => {
                if str_eq(c.name.as_str(), item) {
                    proof {
                        assert(named_elements(cs.subrange(0, i + 1), item@) == pre.push(*c));
                        assert(pre.push(*c).drop_last() =~= pre);
                    }
                    match get_attr(c, "id") {
                        Some(id) => {
                            out.push((id, c));
                        },
                        None => {},
                    }
                }
            },
            _ => {},
        }
        i = i + 1;
    }
    proof {
        assert(cs.subrange(0, i as int) =~= cs);
    }
    out
}

/// A Gramps `placeobj` with the id `id`, as a place.
pub open spec fn gramps_place(pl: PlaceRecord, id: Seq<char>, el: XmlElement) -> bool {
    &&& pl.id == gramps_id("place"@, id)
    &&& pl.place_type is Unknown
    &&& pl.names@.len() == 1
    &&& pl.names@[0].name@ == value_or(or_else(child_text(el, "ptitle"@), child_text(el, "name"@)), id)
    &&& pl.names@[0].language is None
    &&& pl.names@[0].date_range is None
}

fn map_place(id: &String, el: &XmlElement) -> (r: PlaceRecord)
    ensures
        gramps_place(r, id@, *el),
{
    let name = match child_text_of(el, "ptitle") {
        Some(t) => t,
        None => match child_text_of(el, "name") {
            Some(t) => t,
            None => id.clone(),
        },
    };
    let mut names: Vec<PlaceName> = Vec::new();
    names.push(PlaceName { name, language: None, date_range: None });
    PlaceRecord { id: entity_id_from_seed("place", id.as_str()), place_type: PlaceType::Unknown, names }
}

/// The text `@` + letter + id + `@` used as a record's xref.
pub open spec fn gramps_xref(letter: char, id: Seq<char>) -> Seq<char> {
    seq!['@', letter] + id + seq!['@']
}

fn xref_string(letter: char, id: &str) -> (r: String)
    ensures
        r@ == gramps_xref(letter, id@),
{
    let mut out = new_string();
    push_char(&mut out, '@');
    push_char(&mut out, letter);
    push_str(&mut out, id);
    push_char(&mut out, '@');
    proof {
        assert(out@ =~= gramps_xref(letter, id@));
    }
    out
}

/// A Gramps `repository` with the id `id`, as a repository.
pub open spec fn gramps_repository(r: Repository, id: Seq<char>, el: XmlElement) -> bool {
    &&& r.id == gramps_id("repository"@, id)
    &&& r.name@ == value_or(child_text(el, "rname"@), id)
    &&& r.repository_type is Archive
    &&& r.address.deep_view() == child_text(el, "address"@)
    &&& r.urls@.map_values(|u: String| u@) == match child_text(el, "url"@) {
        Some(u) => seq![u],
        None => Seq::empty(),
    }
    &&& r.original_xref.deep_view() == Some(gramps_xref('R', id))
    &&& raw_entries(r._raw_gedcom).len() == 0
}

fn map_repository(id: &String, el: &XmlElement) -> (r: Repository)
    ensures
        gramps_repository(r, id@, *el),
{
    let name = match child_text_of(el, "rname") {
        Some(t) => t,
        None => id.clone(),
    };
    let mut urls: Vec<String> = Vec::new();
    match child_text_of(el, "url") {
        Some(u) => urls.push(u),
        None => {},
    }
    proof {
        assert(urls@.map_values(|u: String| u@) =~= match child_text(*el, "url"@) {
            Some(u) => seq![u],
            None => Seq::empty(),
        });
    }
    Repository {
        id: entity_id_from_seed("repository", id.as_str()),
        name,
        repository_type: RepositoryType::Archive,
        address: child_text_of(el, "address"),
        urls,
        original_xref: Some(xref_string('R', id.as_str())),
        _raw_gedcom: RawGedcom::new(),
    }
}

/// A Gramps `note` with the id `id`, as a note.
pub open spec fn gramps_note(n: Note, id: Seq<char>, el: XmlElement) -> bool {
    &&& n.id == gramps_id("note"@, id)
    &&& n.text@ == value_or(or_else(child_text(el, "text"@), element_text(el)), Seq::empty())
    &&& n.note_type is General
    &&& n.original_xref.deep_view() == Some(gramps_xref('N', id))
    &&& raw_entries(n._raw_gedcom).len() == 0
}

fn map_note(id: &String, el: &XmlElement) -> (r: Note)
    ensures
        gramps_note(r, id@, *el),
{
    let text = match child_text_of(el, "text") {
        Some(t) => t,
        None => match element_text_of(el) {
            Some(t) => t,
            None => new_string(),
        },
    };
    Note {
        id: entity_id_from_seed("note", id.as_str()),
        text,
        note_type: NoteType::General,
        original_xref: Some(xref_string('N', id.as_str())),
        _raw_gedcom: RawGedcom::new(),
    }
}

/// The file of a Gramps media object: the `src` of its `file` element, else
/// that element's text.
pub open spec fn media_file(el: XmlElement) -> Seq<char> {
    let src = match first_named(el, "file"@) {
        Some(f) => attr(f, "src"@),
        None => None,
    };
    value_or(or_else(src, child_text(el, "file"@)), Seq::empty())
}

/// A Gramps media `object` with the id `id`, as a media record.
pub open spec fn gramps_media(m: Media, id: Seq<char>, el: XmlElement) -> bool {
    &&& m.id == gramps_id("media"@, id)
    &&& m.file_path@ == media_file(el)
    &&& m.content_hash@ == "gramps:"@ + id
    &&& m.mime_type@ == value_or(child_text(el, "mime"@), "application/octet-stream"@)
    &&& m.thumbnail_path is None
    &&& m.ocr_text is None
    &&& m.dimensions_px is None
    &&& m.physical_dimensions_mm is None
    &&& m.caption.deep_view() == child_text(el, "title"@)
    &&& m.original_xref.deep_view() == Some(gramps_xref('O', id))
    &&& raw_entries(m._raw_gedcom).len() == 0
}

fn map_media(id: &String, el: &XmlElement) -> (r: Media)
    ensures
        gramps_media(r, id@, *el),
{
    let src = match first_child_named(el, "file") {
        Some(f) => match get_attr(f, "src") {
            Some(v) => Some(v.clone()),
            None => None,
        },
        None => None,
    };
    let file_path = match src {
        Some(v) => v,
        None => match child_text_of(el, "file") {
            Some(t) => t,
            None => new_string(),
        },
    };
    let mime_type = match child_text_of(el, "mime") {
        Some(t) => t,
        None => str_to_string("application/octet-stream"),
    };
    let mut content_hash = str_to_string("gramps:");
    push_str(&mut content_hash, id.as_str());
    Media {
        id: entity_id_from_seed("media", id.as_str()),
        file_path,
        content_hash,
        mime_type,
        thumbnail_path: None,
        ocr_text: None,
        dimensions_px: None,
        physical_dimensions_mm: None,
        caption: child_text_of(el, "title"),
        original_xref: Some(xref_string('O', id.as_str())),
        _raw_gedcom: RawGedcom::new(),
    }
}


/// The value of attribute `key` of an element's first child named `child`.
pub open spec fn child_attr(el: XmlElement, child: Seq<char>, key: Seq<char>) -> Option<Seq<char>> {
    match first_named(el, child) {
        Some(c) => attr(c, key),
        None => None,
    }
}

fn child_attr_of<'a>(el: &'a XmlElement, child: &str, key: &str) -> (r: Option<&'a String>)
    ensures
        match r {
            Some(v) => child_attr(*el, child@, key@) == Some(v@),
            None => child_attr(*el, child@, key@) is None,
        },
{
    match first_child_named(el, child) {
        Some(c) => get_attr(c, key),
        None => None,
    }
}

/// The date of a Gramps event: the value of its `dateval`, read as a date.
pub open spec fn event_date_of(el: XmlElement) -> Option<DateValue> {
    match child_attr(el, "dateval"@, "val"@) {
        Some(v) => gramps_date(v),
        None => None,
    }
}

/// A Gramps `event` with the id `id`, as an event before its participants
/// are known (places resolved among the ids `place_ids`).
pub open spec fn gramps_event(ev: Event, id: Seq<char>, el: XmlElement, place_ids: Seq<Seq<char>>) -> bool {
    &&& ev.id == gramps_id("event"@, id)
    &&& gramps_event_type(ev.event_type, attr(el, "type"@))
    &&& ev.date == event_date_of(el)
    &&& ev.place_ref == resolve("place"@, place_ids, child_attr(el, "place"@, "hlink"@))
    &&& ev.description.deep_view() == child_text(el, "description"@)
    &&& raw_entries(ev._raw_gedcom).len() == 0
}

pub open spec fn string_views(v: Seq<String>) -> Seq<Seq<char>> {
    v.map_values(|s: String| s@)
}

fn map_event(id: &String, el: &XmlElement, place_ids: &Vec<String>, participants: Vec<EventParticipant>) -> (r: Event)
    ensures
        gramps_event(r, id@, *el, string_views(place_ids@)),
        r.participants@ == participants@,
{
    let event_type = parse_gramps_event_type(get_attr(el, "type"));
    let date = match child_attr_of(el, "dateval", "val") {
        Some(v) => parse_gramps_date(v.as_str()),
        None => None,
    };
    let place_ref = resolve_ref("place", place_ids, child_attr_of(el, "place", "hlink"));
    Event {
        id: entity_id_from_seed("event", id.as_str()),
        event_type,
        date,
        place_ref,
        participants,
        description: child_text_of(el, "description"),
        _raw_gedcom: RawGedcom::new(),
    }
}

/// The repository references of a source: each `reporef` whose repository
/// was read, with its call number and media type.
pub open spec fn repo_refs_of(rs: Seq<XmlElement>, repo_ids: Seq<Seq<char>>) -> Seq<
    (EntityId, Option<Seq<char>>, Option<Seq<char>>),
>
    decreases rs.len(),
{
    if rs.len() == 0 {
        Seq::empty()
    } else {
        let p = repo_refs_of(rs.drop_last(), repo_ids);
        let r = rs.last();
        match resolve("repository"@, repo_ids, attr(r, "hlink"@)) {
            Some(rid) => p.push((rid, child_text(r, "callno"@), child_text(r, "mediatype"@))),
            None => p,
        }
    }
}

pub open spec fn repo_ref_views(v: Seq<RepositoryRef>) -> Seq<(EntityId, Option<Seq<char>>, Option<Seq<char>>)> {
    v.map_values(|r: RepositoryRef| (r.repository_id, r.call_number.deep_view(), r.media_type.deep_view()))
}

/// A Gramps `source` with the id `id`, as a source (repositories resolved
/// among the ids `repo_ids`).
pub open spec fn gramps_source(s: Source, id: Seq<char>, el: XmlElement, repo_ids: Seq<Seq<char>>) -> bool {
    &&& s.id == gramps_id("source"@, id)
    &&& s.title@ == value_or(child_text(el, "stitle"@), id)
    &&& s.author.deep_view() == child_text(el, "author"@)
    &&& s.publication_info.deep_view() == child_text(el, "publication"@)
    &&& s.abbreviation.deep_view() == child_text(el, "abbrev"@)
    &&& repo_ref_views(s.repository_refs@) == repo_refs_of(named_elements(el.children@, "reporef"@), repo_ids)
    &&& s.original_xref.deep_view() == Some(gramps_xref('S', id))
    &&& raw_entries(s._raw_gedcom).len() == 0
}

fn map_source(id: &String, el: &XmlElement, repo_ids: &Vec<String>) -> (r: Source)
    ensures
        gramps_source(r, id@, *el, string_views(repo_ids@)),
{
    let ghost rids = string_views(repo_ids@);
    let ghost cs = el.children@;
    let mut refs: Vec<RepositoryRef> = Vec::new();
    let mut i: usize = 0;
    while i < el.children.len()
        invariant
            i <= cs.len(),
            cs == el.children@,
            rids == string_views(repo_ids@),
            repo_ref_views(refs@) == repo_refs_of(named_elements(cs.subrange(0, i as int), "reporef"@), rids),
        decreases cs.len() - i,
    {
        let ghost pre = named_elements(cs.subrange(0, i as int), "reporef"@);
        proof {
            assert(cs.subrange(0, i + 1).drop_last() =~= cs.subrange(0, i as int));
        }
        match &el.children[i] {
            XmlNode::Element(c) => {
                if str_eq(c.name.as_str(), "reporef") {
                    proof {
                        assert(named_elements(cs.subrange(0, i + 1), "reporef"@) == pre.push(*c));
                        assert(pre.push(*c).drop_last() =~= pre);
                    }
                    match resolve_ref("repository", repo_ids, get_attr(c, "hlink")) {
                        Some(rid) => {
                            let ghost before = refs@;
                            refs.push(
                                RepositoryRef {
                                    repository_id: rid,
                                    call_number: child_text_of(c, "callno"),
                                    media_type: child_text_of(c, "mediatype"),
                                },
                            );
                            proof {
                                assert(repo_ref_views(refs@) =~= repo_ref_views(before).push(
                                    (rid, refs@.last().call_number.deep_view(), refs@.last().media_type.deep_view()),
                                ));
                            }
                        },
                        None => {},
                    }
                }
            },
            _ => {},
        }
        i = i + 1;
    }
    proof {
        assert(cs.subrange(0, i as int) =~= cs);
    }
    let title = match child_text_of(el, "stitle") {
        Some(t) => t,
        None => id.clone(),
    };
    Source {
        id: entity_id_from_seed("source", id.as_str()),
        title,
        author: child_text_of(el, "author"),
        publication_info: child_text_of(el, "publication"),
        abbreviation: child_text_of(el, "abbrev"),
        repository_refs: refs,
        original_xref: Some(xref_string('S', id.as_str())),
        _raw_gedcom: RawGedcom::new(),
    }
}

/// The source a Gramps citation names: its `source` attribute, else the
/// `hlink` of its `sourceref`.
pub open spec fn citation_source(el: XmlElement) -> Option<Seq<char>> {
    or_else(attr(el, "source"@), child_attr(el, "sourceref"@, "hlink"@))
}

/// The citations of a section whose source was read, each with its id, its
/// element and its source's identifier.
pub open spec fn citation_records(items: Seq<(Seq<char>, XmlElement)>, source_ids: Seq<Seq<char>>) -> Seq<
    (Seq<char>, XmlElement, EntityId),
>
    decreases items.len(),
{
    if items.len() == 0 {
        Seq::empty()
    } else {
        let p = citation_records(items.drop_last(), source_ids);
        let (id, el) = items.last();
        match resolve("source"@, source_ids, citation_source(el)) {
            Some(sid) => p.push((id, el, sid)),
            None => p,
        }
    }
}

/// A Gramps `citation` with the id `id`, as a citation of `source_id`.
pub open spec fn gramps_citation(c: Citation, id: Seq<char>, el: XmlElement, source_id: EntityId) -> bool {
    &&& c.id == gramps_id("citation"@, id)
    &&& c.source_id == source_id
    &&& c.volume.deep_view() == child_text(el, "volume"@)
    &&& c.page.deep_view() == child_text(el, "page"@)
    &&& c.folio.deep_view() == child_text(el, "folio"@)
    &&& c.entry.deep_view() == child_text(el, "entry"@)
    &&& c.confidence_level == match child_text(el, "confidence"@) {
        Some(v) => parse_u8_spec(v),
        None => None,
    }
    &&& c.date_accessed is None
    &&& c.transcription.deep_view() == child_text(el, "text"@)
    &&& raw_entries(c._raw_gedcom).len() == 0
}

fn map_citation(id: &String, el: &XmlElement, source_id: EntityId) -> (r: Citation)
    ensures
        gramps_citation(r, id@, *el, source_id),
{
    let confidence_level = match child_text_of(el, "confidence") {
        Some(v) => {
            let cs = chars_of(v.as_str());
            proof {
                assert(cs@.subrange(0, cs@.len() as int) =~= cs@);
            }
            parse_u8_chars(cs.as_slice(), 0, cs.len())
        },
        None => None,
    };
    Citation {
        id: entity_id_from_seed("citation", id.as_str()),
        source_id,
        volume: child_text_of(el, "volume"),
        page: child_text_of(el, "page"),
        folio: child_text_of(el, "folio"),
        entry: child_text_of(el, "entry"),
        confidence_level,
        date_accessed: None,
        transcription: child_text_of(el, "text"),
        _raw_gedcom: RawGedcom::new(),
    }
}

fn citation_source_of<'a>(el: &'a XmlElement) -> (r: Option<&'a String>)
    ensures
        match r {
            Some(v) => citation_source(*el) == Some(v@),
            None => citation_source(*el) is None,
        },
{
    match get_attr(el, "source") {
        Some(v) => Some(v),
        None => child_attr_of(el, "sourceref", "hlink"),
    }
}


/// A part of a Gramps person's name: the attribute `key` of its first `name`
/// element, else the text of that element's child `key`.
pub open spec fn name_part(el: XmlElement, key: Seq<char>) -> Option<Seq<char>> {
    match first_named(el, "name"@) {
        Some(n) => or_else(attr(n, key), child_text(n, key)),
        None => None,
    }
}

fn name_part_of(el: &XmlElement, key: &str) -> (r: Option<String>)
    ensures
        r.deep_view() == name_part(*el, key@),
{
    match first_child_named(el, "name") {
        Some(n) => match get_attr(n, key) {
            Some(v) => Some(v.clone()),
            None => child_text_of(n, key),
        },
        None => None,
    }
}

/// A Gramps `person` with the id `id`, as a person with one birth name.
pub open spec fn gramps_person(p: Person, id: Seq<char>, el: XmlElement) -> bool {
    &&& p.id == gramps_id("person"@, id)
    &&& p.names@.len() == 1
    &&& p.names@[0].name_type is Birth
    &&& p.names@[0].date_range is None
    &&& p.names@[0].given_names@ == value_or(name_part(el, "first"@), "Unknown"@)
    &&& p.names@[0].call_name is None
    &&& p.names@[0].surnames@.len() == 1
    &&& p.names@[0].surnames@[0].value@ == value_or(name_part(el, "surname"@), "Unknown"@)
    &&& p.names@[0].surnames@[0].origin_type is Patrilineal
    &&& p.names@[0].surnames@[0].connector is None
    &&& p.names@[0].prefix is None
    &&& p.names@[0].suffix is None
    &&& p.names@[0].sort_as is None
    &&& gramps_gender(p.gender, child_text(el, "gender"@))
    &&& !p.living
    &&& !p.private
    &&& p.original_xref.deep_view() == Some(gramps_xref('I', id))
    &&& raw_entries(p._raw_gedcom).len() == 0
}

fn map_person(id: &String, el: &XmlElement) -> (r: Person)
    ensures
        gramps_person(r, id@, *el),
{
    let given_names = match name_part_of(el, "first") {
        Some(v) => v,
        None => str_to_string("Unknown"),
    };
    let surname_value = match name_part_of(el, "surname") {
        Some(v) => v,
        None => str_to_string("Unknown"),
    };
    let mut surnames: Vec<Surname> = Vec::new();
    surnames.push(Surname { value: surname_value, origin_type: SurnameOrigin::Patrilineal, connector: None });
    let mut names: Vec<PersonName> = Vec::new();
    names.push(
        PersonName {
            name_type: NameType::Birth,
            date_range: None,
            given_names,
            call_name: None,
            surnames,
            prefix: None,
            suffix: None,
            sort_as: None,
        },
    );
    let gender_text = child_text_of(el, "gender");
    let gender = parse_gramps_gender(
        match &gender_text {
            Some(g) => Some(g),
            None => None,
        },
    );
    Person {
        id: entity_id_from_seed("person", id.as_str()),
        names,
        gender,
        living: false,
        private: false,
        original_xref: Some(xref_string('I', id.as_str())),
        _raw_gedcom: RawGedcom::new(),
    }
}

/// The records named by the `hlink`s of a sequence of elements, resolved
/// among the ids `ids` of records of kind `kind`; unknown ones are left out.
pub open spec fn linked_ids(rs: Seq<XmlElement>, kind: Seq<char>, ids: Seq<Seq<char>>) -> Seq<EntityId>
    decreases rs.len(),
{
    if rs.len() == 0 {
        Seq::empty()
    } else {
        let p = linked_ids(rs.drop_last(), kind, ids);
        match resolve(kind, ids, attr(rs.last(), "hlink"@)) {
            Some(x) => p.push(x),
            None => p,
        }
    }
}

/// The identifiers linked from an element's children named `child`.
fn linked_ids_of(el: &XmlElement, child: &str, kind: &str, ids: &Vec<String>) -> (r: Vec<EntityId>)
    ensures
        r@ == linked_ids(named_elements(el.children@, child@), kind@, string_views(ids@)),
{
    let ghost cs = el.children@;
    let mut out: Vec<EntityId> = Vec::new();
    let mut i: usize = 0;
    while i < el.children.len()
        invariant
            i <= cs.len(),
            cs == el.children@,
            out@ == linked_ids(named_elements(cs.subrange(0, i as int), child@), kind@, string_views(ids@)),
        decreases cs.len() - i,
    {
        let ghost pre = named_elements(cs.subrange(0, i as int), child@);
        proof {
            assert(cs.subrange(0, i + 1).drop_last() =~= cs.subrange(0, i as int));
        }
        match &el.children[i] {
            XmlNode::Element(c) => {
                if str_eq(c.name.as_str(), child) {
                    proof {
                        assert(named_elements(cs.subrange(0, i + 1), child@) == pre.push(*c));
                        assert(pre.push(*c).drop_last() =~= pre);
                    }
                    match resolve_ref(kind, ids, get_attr(c, "hlink")) {
                        Some(x) => out.push(x),
                        None => {},
                    }
                }
            },
            _ => {},
        }
        i = i + 1;
    }
    proof {
        assert(cs.subrange(0, i as int) =~= cs);
    }
    out
}

/// The partner a Gramps family names in its child element `tag` (`father`
/// or `mother`), when that person was read.
pub open spec fn family_partner(el: XmlElement, tag: Seq<char>, person_ids: Seq<Seq<char>>) -> Option<EntityId> {
    resolve("person"@, person_ids, child_attr(el, tag, "hlink"@))
}

/// The identifier of the couple relationship between two partners.
pub open spec fn couple_rel_id(a: EntityId, b: EntityId) -> EntityId {
    gramps_id("relationship"@, uuid_hyphenated_text(a.0) + seq![':'] + uuid_hyphenated_text(b.0) + ":couple"@)
}

/// The identifier of the relationship between a parent and a child.
pub open spec fn parent_rel_id(parent: EntityId, child: EntityId) -> EntityId {
    gramps_id(
        "relationship"@,
        uuid_hyphenated_text(parent.0) + seq![':'] + uuid_hyphenated_text(child.0) + ":parent_child"@,
    )
}

/// The known partners of a family, in order.
pub open spec fn partners(p1: Option<EntityId>, p2: Option<EntityId>) -> Seq<EntityId> {
    let a = match p1 {
        Some(x) => seq![x],
        None => Seq::empty(),
    };
    let b = match p2 {
        Some(x) => seq![x],
        None => Seq::empty(),
    };
    a + b
}

/// The parent-child relationships of a family, child by child, each with
/// each known parent: (identifier, parent, child, is a couple).
pub open spec fn child_rels(parents: Seq<EntityId>, kids: Seq<EntityId>) -> Seq<(EntityId, EntityId, EntityId, bool)>
    decreases kids.len(),
{
    if kids.len() == 0 {
        Seq::empty()
    } else {
        let c = kids.last();
        child_rels(parents, kids.drop_last()) + parents.map_values(
            |p: EntityId| (parent_rel_id(p, c), p, c, false),
        )
    }
}

/// The relationships a family gives: the couple, when both partners are
/// known, then each parent with each child.
pub open spec fn family_rels(p1: Option<EntityId>, p2: Option<EntityId>, kids: Seq<EntityId>) -> Seq<
    (EntityId, EntityId, EntityId, bool),
> {
    let couple = match (p1, p2) {
        (Some(a), Some(b)) => seq![(couple_rel_id(a, b), a, b, true)],
        _ => Seq::empty(),
    };
    couple + child_rels(partners(p1, p2), kids)
}

/// A relationship as described by (identifier, first person, second person,
/// is a couple).
pub open spec fn rel_matches(r: Relationship, v: (EntityId, EntityId, EntityId, bool)) -> bool {
    &&& r.id == v.0
    &&& r.person1_id == v.1
    &&& r.person2_id == v.2
    &&& if v.3 {
        r.relationship_type is Couple
    } else {
        r.relationship_type is ParentChild
    }
    &&& r.supporting_event is None
    &&& raw_entries(r._raw_gedcom).len() == 0
}

/// A sequence of relationships as described.
pub open spec fn rels_match(rs: Seq<Relationship>, vs: Seq<(EntityId, EntityId, EntityId, bool)>) -> bool {
    rs.len() == vs.len() && forall|k: int| 0 <= k < rs.len() ==> #[trigger] rel_matches(rs[k], vs[k])
}

/// A Gramps `family` with the id `id`, as a family (persons resolved among
/// `person_ids`).
pub open spec fn gramps_family(f: Family, id: Seq<char>, el: XmlElement, person_ids: Seq<Seq<char>>) -> bool {
    let p1 = family_partner(el, "father"@, person_ids);
    let p2 = family_partner(el, "mother"@, person_ids);
    let kids = linked_ids(named_elements(el.children@, "childref"@), "person"@, person_ids);
    &&& f.id == gramps_id("family"@, id)
    &&& f.partner1_id == p1
    &&& f.partner2_id == p2
    &&& f.partner_link is Unknown
    &&& f.couple_relationship == match (p1, p2) {
        (Some(a), Some(b)) => Some(couple_rel_id(a, b)),
        _ => None,
    }
    &&& f.child_links@.len() == kids.len()
    &&& forall|k: int|
        0 <= k < kids.len() ==> (#[trigger] f.child_links@[k]).child_id == kids[k]
            && f.child_links@[k].lineage_type is Biological
    &&& f.original_xref.deep_view() == Some(gramps_xref('F', id))
    &&& raw_entries(f._raw_gedcom).len() == 0
}

fn relationship_id(a: EntityId, b: EntityId, suffix: &str) -> (r: EntityId)
    ensures
        r == gramps_id("relationship"@, uuid_hyphenated_text(a.0) + seq![':'] + uuid_hyphenated_text(b.0) + suffix@),
{
    let mut seed = a.to_text();
    push_char(&mut seed, ':');
    let bt = b.to_text();
    push_str(&mut seed, bt.as_str());
    push_str(&mut seed, suffix);
    proof {
        assert(seed@ =~= uuid_hyphenated_text(a.0) + seq![':'] + uuid_hyphenated_text(b.0) + suffix@);
    }
    entity_id_from_seed("relationship", seed.as_str())
}

fn new_relationship(id: EntityId, a: EntityId, b: EntityId, couple: bool) -> (r: Relationship)
    ensures
        rel_matches(r, (id, a, b, couple)),
{
    Relationship {
        id,
        person1_id: a,
        person2_id: b,
        relationship_type: if couple {
            RelationshipType::Couple
        } else {
            RelationshipType::ParentChild
        },
        supporting_event: None,
        _raw_gedcom: RawGedcom::new(),
    }
}

fn partner_list(p1: Option<EntityId>, p2: Option<EntityId>) -> (r: Vec<EntityId>)
    ensures
        r@ == partners(p1, p2),
{
    let mut v: Vec<EntityId> = Vec::new();
    match p1 {
        Some(x) => v.push(x),
        None => {},
    }
    match p2 {
        Some(x) => v.push(x),
        None => {},
    }
    proof {
        assert(v@ =~= partners(p1, p2));
    }
    v
}

/// Maps a Gramps family, appending the relationships it gives to `rels`.
fn map_family(id: &String, el: &XmlElement, person_ids: &Vec<String>, rels: &mut Vec<Relationship>) -> (r: Family)
    ensures
        gramps_family(r, id@, *el, string_views(person_ids@)),
        final(rels)@.len() >= old(rels)@.len(),
        final(rels)@.subrange(0, old(rels)@.len() as int) == old(rels)@,
        rels_match(
            final(rels)@.subrange(old(rels)@.len() as int, final(rels)@.len() as int),
            family_rels(r.partner1_id, r.partner2_id, r.child_links@.map_values(|c: ChildLink| c.child_id)),
        ),
{
    let ghost pids = string_views(person_ids@);
    let ghost start = rels@.len();
    let ghost old_rels = rels@;
    let p1 = resolve_ref("person", person_ids, child_attr_of(el, "father", "hlink"));
    let p2 = resolve_ref("person", person_ids, child_attr_of(el, "mother", "hlink"));
    let kids = linked_ids_of(el, "childref", "person", person_ids);
    let mut child_links: Vec<ChildLink> = Vec::new();
    let mut k: usize = 0;
    while k < kids.len()
        invariant
            k <= kids@.len(),
            child_links@.len() == k,
            forall|m: int|
                0 <= m < k ==> (#[trigger] child_links@[m]).child_id == kids@[m] && child_links@[m].lineage_type is Biological,
        decreases kids@.len() - k,
    {
        child_links.push(ChildLink { child_id: kids[k], lineage_type: LineageType::Biological });
        k = k + 1;
    }
    proof {
        assert(child_links@.map_values(|c: ChildLink| c.child_id) =~= kids@);
    }
    let couple_relationship = match (p1, p2) {
        (Some(a), Some(b)) => {
            let rid = relationship_id(a, b, ":couple");
            rels.push(new_relationship(rid, a, b, true));
            Some(rid)
        },
        _ => None,
    };
    let ghost couple = match (p1, p2) {
        (Some(a), Some(b)) => seq![(couple_rel_id(a, b), a, b, true)],
        _ => Seq::<(EntityId, EntityId, EntityId, bool)>::empty(),
    };
    proof {
        assert(rels@.subrange(0, start as int) =~= old_rels);
        assert(rels_match(rels@.subrange(start as int, rels@.len() as int), couple));
    }
    let parents = partner_list(p1, p2);
    let mut c: usize = 0;
    while c < kids.len()
        invariant
            c <= kids@.len(),
            parents@ == partners(p1, p2),
            rels@.len() >= start,
            rels@.subrange(0, start as int) == old_rels,
            rels_match(rels@.subrange(start as int, rels@.len() as int), couple + child_rels(parents@, kids@.subrange(0, c as int))),
        decreases kids@.len() - c,
    {
        let ghost before = rels@;
        let ghost done = couple + child_rels(parents@, kids@.subrange(0, c as int));
        proof {
            assert(kids@.subrange(0, c + 1).drop_last() =~= kids@.subrange(0, c as int));
            assert(kids@.subrange(0, c + 1).last() == kids@[c as int]);
        }
        let child = kids[c];
        let mut q: usize = 0;
        while q < parents.len()
            invariant
                q <= parents@.len(),
                rels@.len() == before.len() + q,
                rels@.subrange(0, before.len() as int) == before,
                before.len() >= start,
                forall|m: int|
                    0 <= m < q ==> #[trigger] rel_matches(
                        rels@[before.len() + m],
                        (parent_rel_id(parents@[m], child), parents@[m], child, false),
                    ),
            decreases parents@.len() - q,
        {
            let parent = parents[q];
            let rid = relationship_id(parent, child, ":parent_child");
            rels.push(new_relationship(rid, parent, child, false));
            proof {
                assert(rels@.subrange(0, before.len() as int) =~= before);
            }
            q = q + 1;
        }
        proof {
            let add = parents@.map_values(|p: EntityId| (parent_rel_id(p, child), p, child, false));
            let now = couple + child_rels(parents@, kids@.subrange(0, c + 1));
            assert(couple + (child_rels(parents@, kids@.subrange(0, c as int)) + add) =~= done + add);
            assert(now =~= done + add);
            assert(rels@.subrange(0, start as int) =~= old_rels);
            let seg = rels@.subrange(start as int, rels@.len() as int);
            assert forall|m: int| 0 <= m < seg.len() implies #[trigger] rel_matches(seg[m], now[m]) by {
                if m < done.len() {
                    assert(seg[m] == before.subrange(start as int, before.len() as int)[m]);
                } else {
                    assert(seg[m] == rels@[before.len() + (m - done.len())]);
                }
            }
        }
        c = c + 1;
    }
    proof {
        assert(kids@.subrange(0, kids@.len() as int) =~= kids@);
    }
    Family {
        id: entity_id_from_seed("family", id.as_str()),
        partner1_id: p1,
        partner2_id: p2,
        partner_link: PartnerLink::Unknown,
        couple_relationship,
        child_links,
        original_xref: Some(xref_string('F', id.as_str())),
        _raw_gedcom: RawGedcom::new(),
    }
}


/// The keys of a sequence of (key, values) records, each once, in order of
/// first appearance.
pub open spec fn distinct_keys(recs: Seq<(EntityId, Seq<EntityId>)>) -> Seq<EntityId>
    decreases recs.len(),
{
    if recs.len() == 0 {
        Seq::empty()
    } else {
        let p = distinct_keys(recs.drop_last());
        if p.contains(recs.last().0) {
            p
        } else {
            p.push(recs.last().0)
        }
    }
}

/// Whether some record with key `key` lists `v`.
pub open spec fn refs_mention(recs: Seq<(EntityId, Seq<EntityId>)>, key: EntityId, v: EntityId) -> bool {
    exists|i: int| 0 <= i < recs.len() && recs[i].0 == key && (#[trigger] recs[i].1).contains(v)
}

pub open spec fn ref_records(v: Seq<(EntityId, Vec<EntityId>)>) -> Seq<(EntityId, Seq<EntityId>)> {
    v.map_values(|x: (EntityId, Vec<EntityId>)| (x.0, x.1@))
}

/// The records grouped by key (in order of first appearance), each key with
/// all the values listed under it.
fn merged_table(recs: &Vec<(EntityId, Vec<EntityId>)>) -> (r: Vec<(EntityId, Vec<EntityId>)>)
    ensures
        r@.map_values(|x: (EntityId, Vec<EntityId>)| x.0) == distinct_keys(ref_records(recs@)),
        forall|k: int, v: EntityId|
            0 <= k < r@.len() ==> (#[trigger] r@[k].1@.contains(v) <==> refs_mention(ref_records(recs@), r@[k].0, v)),
{
    let ghost rv = ref_records(recs@);
    let mut out: Vec<(EntityId, Vec<EntityId>)> = Vec::new();
    let mut keys: Vec<EntityId> = Vec::new();
    let mut i: usize = 0;
    while i < recs.len()
        invariant
            i <= recs@.len(),
            rv == ref_records(recs@),
            keys@ == distinct_keys(rv.subrange(0, i as int)),
            out@.map_values(|x: (EntityId, Vec<EntityId>)| x.0) == keys@,
            forall|k: int, v: EntityId|
                0 <= k < out@.len() ==> (#[trigger] out@[k].1@.contains(v) <==> refs_mention(rv, out@[k].0, v)),
        decreases recs@.len() - i,
    {
        proof {
            assert(rv.subrange(0, i + 1).drop_last() =~= rv.subrange(0, i as int));
        }
        let key = recs[i].0;
        if !crate::gedcom::matching::contains_id(keys.as_slice(), key) {
            let mut all: Vec<EntityId> = Vec::new();
            let mut j: usize = 0;
            while j < recs.len()
                invariant
                    j <= recs@.len(),
                    rv == ref_records(recs@),
                    forall|v: EntityId|
                        (#[trigger] all@.contains(v)) <==> (exists|m: int|
                            0 <= m < j && rv[m].0 == key && (#[trigger] rv[m].1).contains(v)),
                decreases recs@.len() - j,
            {
                if recs[j].0 == key {
                    let mut q: usize = 0;
                    let ghost before = all@;
                    while q < recs[j].1.len()
                        invariant
                            q <= recs@[j as int].1@.len(),
                            j < recs@.len(),
                            all@ == before + recs@[j as int].1@.subrange(0, q as int),
                        decreases recs@[j as int].1@.len() - q,
                    {
                        all.push(recs[j].1[q]);
                        proof {
                            assert(before + recs@[j as int].1@.subrange(0, q + 1) =~= (before
                                + recs@[j as int].1@.subrange(0, q as int)).push(recs@[j as int].1@[q as int]));
                        }
                        q = q + 1;
                    }
                    proof {
                        assert(recs@[j as int].1@.subrange(0, q as int) =~= recs@[j as int].1@);
                        assert(rv[j as int].1 == recs@[j as int].1@);
                        assert forall|v: EntityId|
                            (#[trigger] all@.contains(v)) <==> (exists|m: int|
                                0 <= m < j + 1 && rv[m].0 == key && (#[trigger] rv[m].1).contains(v)) by {
                            if all@.contains(v) {
                                let x = choose|x: int| 0 <= x < all@.len() && all@[x] == v;
                                if x < before.len() {
                                    assert(before.contains(v));
                                } else {
                                    assert(rv[j as int].1[x - before.len()] == v);
                                    assert(rv[j as int].1.contains(v));
                                }
                            }
                            if exists|m: int| 0 <= m < j + 1 && rv[m].0 == key && (#[trigger] rv[m].1).contains(v) {
                                let m = choose|m: int| 0 <= m < j + 1 && rv[m].0 == key && (#[trigger] rv[m].1).contains(v);
                                if m < j {
                                    assert(before.contains(v));
                                    let x = choose|x: int| 0 <= x < before.len() && before[x] == v;
                                    assert(all@[x] == v);
                                } else {
                                    let x = choose|x: int| 0 <= x < rv[m].1.len() && rv[m].1[x] == v;
                                    assert(all@[before.len() + x] == v);
                                }
                            }
                        }
                    }
                } else {
                    proof {
                        assert forall|v: EntityId|
                            (#[trigger] all@.contains(v)) <==> (exists|m: int|
                                0 <= m < j + 1 && rv[m].0 == key && (#[trigger] rv[m].1).contains(v)) by {
                            if exists|m: int| 0 <= m < j + 1 && rv[m].0 == key && (#[trigger] rv[m].1).contains(v) {
                                let m = choose|m: int| 0 <= m < j + 1 && rv[m].0 == key && (#[trigger] rv[m].1).contains(v);
                                assert(m < j);
                            }
                        }
                    }
                }
                j = j + 1;
            }
            let ghost before_out = out@;
            let ghost allv = all@;
            proof {
                assert(j == recs@.len());
                assert forall|v: EntityId| allv.contains(v) <==> refs_mention(rv, key, v) by {
                    if refs_mention(rv, key, v) {
                        let m = choose|m: int| 0 <= m < rv.len() && rv[m].0 == key && (#[trigger] rv[m].1).contains(v);
                        assert(0 <= m < j && rv[m].0 == key && rv[m].1.contains(v));
                    }
                }
            }
            out.push((key, all));
            keys.push(key);
            proof {
                assert(out@.map_values(|x: (EntityId, Vec<EntityId>)| x.0) =~= before_out.map_values(
                    |x: (EntityId, Vec<EntityId>)| x.0,
                ).push(key));
                assert forall|k: int, v: EntityId|
                    0 <= k < out@.len() implies (#[trigger] out@[k].1@.contains(v) <==> refs_mention(rv, out@[k].0, v)) by {
                    if k == out@.len() - 1 {
                        assert(out@[k].1@ == allv);
                        assert(out@[k].0 == key);
                    } else {
                        assert(out@[k] == before_out[k]);
                    }
                }
            }
        } else {
            proof {
                assert(out@.map_values(|x: (EntityId, Vec<EntityId>)| x.0) =~= keys@);
            }
        }
        i = i + 1;
    }
    proof {
        assert(rv.subrange(0, i as int) =~= rv);
    }
    out
}

/// The participants an event gets from the persons that list it, in order.
pub open spec fn person_pass(
    acc: Seq<EntityId>,
    keys: Seq<EntityId>,
    recs: Seq<(EntityId, Seq<EntityId>)>,
    ev: EntityId,
) -> Seq<EntityId>
    decreases keys.len(),
{
    if keys.len() == 0 {
        acc
    } else {
        let a = person_pass(acc, keys.drop_last(), recs, ev);
        let k = keys.last();
        if refs_mention(recs, k, ev) && !a.contains(k) {
            a.push(k)
        } else {
            a
        }
    }
}

/// `acc` with a known person added when not yet in it.
pub open spec fn add_partner(acc: Seq<EntityId>, p: Option<EntityId>) -> Seq<EntityId> {
    match p {
        Some(x) => if acc.contains(x) {
            acc
        } else {
            acc.push(x)
        },
        None => acc,
    }
}

/// The first family with the identifier `id`.
pub open spec fn family_with_id(fs: Seq<Family>, id: EntityId, i: int) -> Option<Family>
    decreases fs.len() - i,
{
    if i < 0 || i >= fs.len() {
        None
    } else if fs[i].id == id {
        Some(fs[i])
    } else {
        family_with_id(fs, id, i + 1)
    }
}

/// The participants an event gets from the families that list it: their
/// partners, each once.
pub open spec fn family_pass(
    acc: Seq<EntityId>,
    keys: Seq<EntityId>,
    recs: Seq<(EntityId, Seq<EntityId>)>,
    fs: Seq<Family>,
    ev: EntityId,
) -> Seq<EntityId>
    decreases keys.len(),
{
    if keys.len() == 0 {
        acc
    } else {
        let a = family_pass(acc, keys.drop_last(), recs, fs, ev);
        let k = keys.last();
        if refs_mention(recs, k, ev) {
            match family_with_id(fs, k, 0) {
                Some(f) => add_partner(add_partner(a, f.partner1_id), f.partner2_id),
                None => a,
            }
        } else {
            a
        }
    }
}

/// The participants of an event: the persons listing it, then the partners
/// of the families listing it, each once.
pub open spec fn event_participants(
    ev: EntityId,
    precs: Seq<(EntityId, Seq<EntityId>)>,
    frecs: Seq<(EntityId, Seq<EntityId>)>,
    fs: Seq<Family>,
) -> Seq<EntityId> {
    family_pass(person_pass(Seq::empty(), distinct_keys(precs), precs, ev), distinct_keys(frecs), frecs, fs, ev)
}

fn contains_entity(v: &Vec<EntityId>, id: EntityId) -> (r: bool)
    ensures
        r == v@.contains(id),
{
    crate::gedcom::matching::contains_id(v.as_slice(), id)
}

fn find_family<'a>(fs: &'a Vec<Family>, id: EntityId) -> (r: Option<&'a Family>)
    ensures
        match r {
            Some(f) => family_with_id(fs@, id, 0) == Some(*f),
            None => family_with_id(fs@, id, 0) is None,
        },
{
    let mut i: usize = 0;
    while i < fs.len()
        invariant
            i <= fs@.len(),
            family_with_id(fs@, id, 0) == family_with_id(fs@, id, i as int),
        decreases fs@.len() - i,
    {
        if fs[i].id == id {
            return Some(&fs[i]);
        }
        i = i + 1;
    }
    None
}

fn push_partner(acc: &mut Vec<EntityId>, p: Option<EntityId>)
    ensures
        final(acc)@ == add_partner(old(acc)@, p),
{
    match p {
        Some(x) => if !contains_entity(acc, x) {
            acc.push(x);
        },
        None => {},
    }
}

fn participants_of(
    ev: EntityId,
    ptable: &Vec<(EntityId, Vec<EntityId>)>,
    ftable: &Vec<(EntityId, Vec<EntityId>)>,
    fs: &Vec<Family>,
    Ghost(precs): Ghost<Seq<(EntityId, Seq<EntityId>)>>,
    Ghost(frecs): Ghost<Seq<(EntityId, Seq<EntityId>)>>,
) -> (r: Vec<EntityId>)
    requires
        ptable@.map_values(|x: (EntityId, Vec<EntityId>)| x.0) == distinct_keys(precs),
        forall|k: int, v: EntityId|
            0 <= k < ptable@.len() ==> (#[trigger] ptable@[k].1@.contains(v) <==> refs_mention(precs, ptable@[k].0, v)),
        ftable@.map_values(|x: (EntityId, Vec<EntityId>)| x.0) == distinct_keys(frecs),
        forall|k: int, v: EntityId|
            0 <= k < ftable@.len() ==> (#[trigger] ftable@[k].1@.contains(v) <==> refs_mention(frecs, ftable@[k].0, v)),
    ensures
        r@ == event_participants(ev, precs, frecs, fs@),
{
    let ghost pkeys = distinct_keys(precs);
    let ghost fkeys = distinct_keys(frecs);
    let mut acc: Vec<EntityId> = Vec::new();
    let mut i: usize = 0;
    while i < ptable.len()
        invariant
            i <= ptable@.len(),
            ptable@.map_values(|x: (EntityId, Vec<EntityId>)| x.0) == pkeys,
            forall|k: int, v: EntityId|
                0 <= k < ptable@.len() ==> (#[trigger] ptable@[k].1@.contains(v) <==> refs_mention(precs, ptable@[k].0, v)),
            acc@ == person_pass(Seq::empty(), pkeys.subrange(0, i as int), precs, ev),
        decreases ptable@.len() - i,
    {
        proof {
            assert(pkeys.subrange(0, i + 1).drop_last() =~= pkeys.subrange(0, i as int));
            assert(pkeys[i as int] == ptable@[i as int].0);
        }
        let key = ptable[i].0;
        if contains_entity(&ptable[i].1, ev) && !contains_entity(&acc, key) {
            acc.push(key);
        }
        i = i + 1;
    }
    proof {
        assert(pkeys.subrange(0, i as int) =~= pkeys);
    }
    let ghost base = acc@;
    let mut j: usize = 0;
    while j < ftable.len()
        invariant
            j <= ftable@.len(),
            ftable@.map_values(|x: (EntityId, Vec<EntityId>)| x.0) == fkeys,
            forall|k: int, v: EntityId|
                0 <= k < ftable@.len() ==> (#[trigger] ftable@[k].1@.contains(v) <==> refs_mention(frecs, ftable@[k].0, v)),
            acc@ == family_pass(base, fkeys.subrange(0, j as int), frecs, fs@, ev),
        decreases ftable@.len() - j,
    {
        proof {
            assert(fkeys.subrange(0, j + 1).drop_last() =~= fkeys.subrange(0, j as int));
            assert(fkeys[j as int] == ftable@[j as int].0);
        }
        let key = ftable[j].0;
        if contains_entity(&ftable[j].1, ev) {
            match find_family(fs, key) {
                Some(f) => {
                    push_partner(&mut acc, f.partner1_id);
                    push_partner(&mut acc, f.partner2_id);
                },
                None => {},
            }
        }
        j = j + 1;
    }
    proof {
        assert(fkeys.subrange(0, j as int) =~= fkeys);
    }
    acc
}


/// The entities read from a Gramps database.
pub struct GrampsImportData {
    pub persons: Vec<Person>,
    pub families: Vec<Family>,
    pub relationships: Vec<Relationship>,
    pub events: Vec<Event>,
    pub places: Vec<PlaceRecord>,
    pub sources: Vec<Source>,
    pub citations: Vec<Citation>,
    pub repositories: Vec<Repository>,
    pub notes: Vec<Note>,
    pub media: Vec<Media>,
}

fn ids_of_entries(entries: &Vec<(&String, &XmlElement)>, Ghost(recs): Ghost<Seq<(Seq<char>, XmlElement)>>) -> (r: Vec<
    String,
>)
    requires
        entries@.len() == recs.len(),
        forall|k: int| 0 <= k < entries@.len() ==> (#[trigger] entries@[k]).0@ == recs[k].0,
    ensures
        string_views(r@) == ids_of(recs),
{
    let mut out: Vec<String> = Vec::new();
    let mut k: usize = 0;
    while k < entries.len()
        invariant
            k <= entries@.len(),
            entries@.len() == recs.len(),
            forall|m: int| 0 <= m < entries@.len() ==> (#[trigger] entries@[m]).0@ == recs[m].0,
            string_views(out@) == ids_of(recs).subrange(0, k as int),
        decreases entries@.len() - k,
    {
        let ghost before = out@;
        out.push(entries[k].0.clone());
        proof {
            assert(string_views(out@) =~= string_views(before).push(recs[k as int].0));
            assert(ids_of(recs).subrange(0, k + 1) =~= ids_of(recs).subrange(0, k as int).push(recs[k as int].0));
        }
        k = k + 1;
    }
    proof {
        assert(ids_of(recs).subrange(0, k as int) =~= ids_of(recs));
    }
    out
}

/// The places of a database, one per `placeobj` record.
pub open spec fn places_ok(ps: Seq<PlaceRecord>, recs: Seq<(Seq<char>, XmlElement)>) -> bool {
    ps.len() == recs.len() && forall|k: int| 0 <= k < ps.len() ==> #[trigger] gramps_place(ps[k], recs[k].0, recs[k].1)
}

fn map_places(root: &XmlElement) -> (r: (Vec<PlaceRecord>, Vec<String>))
    ensures
        places_ok(r.0@, section_records(*root, "places"@, "placeobj"@)),
        string_views(r.1@) == ids_of(section_records(*root, "places"@, "placeobj"@)),
{
    let ghost recs = section_records(*root, "places"@, "placeobj"@);
    let entries = section_entries(root, "places", "placeobj");
    let mut out: Vec<PlaceRecord> = Vec::new();
    let mut k: usize = 0;
    while k < entries.len()
        invariant
            k <= entries@.len(),
            entries@.len() == recs.len(),
            forall|m: int|
                0 <= m < entries@.len() ==> (#[trigger] entries@[m]).0@ == recs[m].0 && *entries@[m].1 == recs[m].1,
            out@.len() == k,
            forall|m: int| 0 <= m < k ==> #[trigger] gramps_place(out@[m], recs[m].0, recs[m].1),
        decreases entries@.len() - k,
    {
        out.push(map_place(entries[k].0, entries[k].1));
        k = k + 1;
    }
    let ids = ids_of_entries(&entries, Ghost(recs));
    (out, ids)
}

/// The repositories of a database, one per `repository` record.
pub open spec fn repositories_ok(rs: Seq<Repository>, recs: Seq<(Seq<char>, XmlElement)>) -> bool {
    rs.len() == recs.len() && forall|k: int|
        0 <= k < rs.len() ==> #[trigger] gramps_repository(rs[k], recs[k].0, recs[k].1)
}

fn map_repositories(root: &XmlElement) -> (r: (Vec<Repository>, Vec<String>))
    ensures
        repositories_ok(r.0@, section_records(*root, "repositories"@, "repository"@)),
        string_views(r.1@) == ids_of(section_records(*root, "repositories"@, "repository"@)),
{
    let ghost recs = section_records(*root, "repositories"@, "repository"@);
    let entries = section_entries(root, "repositories", "repository");
    let mut out: Vec<Repository> = Vec::new();
    let mut k: usize = 0;
    while k < entries.len()
        invariant
            k <= entries@.len(),
            entries@.len() == recs.len(),
            forall|m: int|
                0 <= m < entries@.len() ==> (#[trigger] entries@[m]).0@ == recs[m].0 && *entries@[m].1 == recs[m].1,
            out@.len() == k,
            forall|m: int| 0 <= m < k ==> #[trigger] gramps_repository(out@[m], recs[m].0, recs[m].1),
        decreases entries@.len() - k,
    {
        out.push(map_repository(entries[k].0, entries[k].1));
        k = k + 1;
    }
    let ids = ids_of_entries(&entries, Ghost(recs));
    (out, ids)
}

/// The sources of a database, one per `source` record.
pub open spec fn sources_ok(ss: Seq<Source>, recs: Seq<(Seq<char>, XmlElement)>, repo_ids: Seq<Seq<char>>) -> bool {
    ss.len() == recs.len() && forall|k: int|
        0 <= k < ss.len() ==> #[trigger] gramps_source(ss[k], recs[k].0, recs[k].1, repo_ids)
}

fn map_sources(root: &XmlElement, repo_ids: &Vec<String>) -> (r: (Vec<Source>, Vec<String>))
    ensures
        sources_ok(r.0@, section_records(*root, "sources"@, "source"@), string_views(repo_ids@)),
        string_views(r.1@) == ids_of(section_records(*root, "sources"@, "source"@)),
{
    let ghost recs = section_records(*root, "sources"@, "source"@);
    let entries = section_entries(root, "sources", "source");
    let mut out: Vec<Source> = Vec::new();
    let mut k: usize = 0;
    while k < entries.len()
        invariant
            k <= entries@.len(),
            entries@.len() == recs.len(),
            forall|m: int|
                0 <= m < entries@.len() ==> (#[trigger] entries@[m]).0@ == recs[m].0 && *entries@[m].1 == recs[m].1,
            out@.len() == k,
            forall|m: int|
                0 <= m < k ==> #[trigger] gramps_source(out@[m], recs[m].0, recs[m].1, string_views(repo_ids@)),
        decreases entries@.len() - k,
    {
        out.push(map_source(entries[k].0, entries[k].1, repo_ids));
        k = k + 1;
    }
    let ids = ids_of_entries(&entries, Ghost(recs));
    (out, ids)
}

/// The citations of a database, one per `citation` record whose source was
/// read.
pub open spec fn citations_ok(cs: Seq<Citation>, recs: Seq<(Seq<char>, XmlElement, EntityId)>) -> bool {
    cs.len() == recs.len() && forall|k: int|
        0 <= k < cs.len() ==> #[trigger] gramps_citation(cs[k], recs[k].0, recs[k].1, recs[k].2)
}

fn map_citations(root: &XmlElement, source_ids: &Vec<String>) -> (r: Vec<Citation>)
    ensures
        citations_ok(
            r@,
            citation_records(section_records(*root, "citations"@, "citation"@), string_views(source_ids@)),
        ),
{
    let ghost recs = section_records(*root, "citations"@, "citation"@);
    let ghost sids = string_views(source_ids@);
    let entries = section_entries(root, "citations", "citation");
    let mut out: Vec<Citation> = Vec::new();
    let mut k: usize = 0;
    while k < entries.len()
        invariant
            k <= entries@.len(),
            entries@.len() == recs.len(),
            sids == string_views(source_ids@),
            forall|m: int|
                0 <= m < entries@.len() ==> (#[trigger] entries@[m]).0@ == recs[m].0 && *entries@[m].1 == recs[m].1,
            citations_ok(out@, citation_records(recs.subrange(0, k as int), sids)),
        decreases entries@.len() - k,
    {
        proof {
            assert(recs.subrange(0, k + 1).drop_last() =~= recs.subrange(0, k as int));
        }
        let ghost pre = citation_records(recs.subrange(0, k as int), sids);
        let el = entries[k].1;
        match resolve_ref("source", source_ids, citation_source_of(el)) {
            Some(sid) => {
                out.push(map_citation(entries[k].0, el, sid));
                proof {
                    let now = citation_records(recs.subrange(0, k + 1), sids);
                    assert(now == pre.push((recs[k as int].0, recs[k as int].1, sid)));
                    assert forall|m: int| 0 <= m < out@.len() implies #[trigger] gramps_citation(
                        out@[m],
                        now[m].0,
                        now[m].1,
                        now[m].2,
                    ) by {
                        if m < pre.len() {
                            assert(now[m] == pre[m]);
                        }
                    }
                }
            },
            None => {},
        }
        k = k + 1;
    }
    proof {
        assert(recs.subrange(0, k as int) =~= recs);
    }
    out
}

/// The persons of a database, one per `person` record.
pub open spec fn persons_ok(ps: Seq<Person>, recs: Seq<(Seq<char>, XmlElement)>) -> bool {
    ps.len() == recs.len() && forall|k: int| 0 <= k < ps.len() ==> #[trigger] gramps_person(ps[k], recs[k].0, recs[k].1)
}

fn map_persons(root: &XmlElement) -> (r: (Vec<Person>, Vec<String>))
    ensures
        persons_ok(r.0@, section_records(*root, "people"@, "person"@)),
        string_views(r.1@) == ids_of(section_records(*root, "people"@, "person"@)),
{
    let ghost recs = section_records(*root, "people"@, "person"@);
    let entries = section_entries(root, "people", "person");
    let mut out: Vec<Person> = Vec::new();
    let mut k: usize = 0;
    while k < entries.len()
        invariant
            k <= entries@.len(),
            entries@.len() == recs.len(),
            forall|m: int|
                0 <= m < entries@.len() ==> (#[trigger] entries@[m]).0@ == recs[m].0 && *entries@[m].1 == recs[m].1,
            out@.len() == k,
            forall|m: int| 0 <= m < k ==> #[trigger] gramps_person(out@[m], recs[m].0, recs[m].1),
        decreases entries@.len() - k,
    {
        out.push(map_person(entries[k].0, entries[k].1));
        k = k + 1;
    }
    let ids = ids_of_entries(&entries, Ghost(recs));
    (out, ids)
}

/// The child identifiers of a family.
pub open spec fn child_ids(f: Family) -> Seq<EntityId> {
    f.child_links@.map_values(|c: ChildLink| c.child_id)
}

/// The relationships of a sequence of families, family by family.
pub open spec fn all_family_rels(fs: Seq<Family>) -> Seq<(EntityId, EntityId, EntityId, bool)>
    decreases fs.len(),
{
    if fs.len() == 0 {
        Seq::empty()
    } else {
        all_family_rels(fs.drop_last()) + family_rels(fs.last().partner1_id, fs.last().partner2_id, child_ids(fs.last()))
    }
}

/// The families of a database, one per `family` record.
pub open spec fn families_ok(fs: Seq<Family>, recs: Seq<(Seq<char>, XmlElement)>, person_ids: Seq<Seq<char>>) -> bool {
    fs.len() == recs.len() && forall|k: int|
        0 <= k < fs.len() ==> #[trigger] gramps_family(fs[k], recs[k].0, recs[k].1, person_ids)
}

fn map_families(root: &XmlElement, person_ids: &Vec<String>) -> (r: (Vec<Family>, Vec<Relationship>))
    ensures
        families_ok(r.0@, section_records(*root, "families"@, "family"@), string_views(person_ids@)),
        rels_match(r.1@, all_family_rels(r.0@)),
{
    let ghost recs = section_records(*root, "families"@, "family"@);
    let entries = section_entries(root, "families", "family");
    let mut out: Vec<Family> = Vec::new();
    let mut rels: Vec<Relationship> = Vec::new();
    let mut k: usize = 0;
    while k < entries.len()
        invariant
            k <= entries@.len(),
            entries@.len() == recs.len(),
            forall|m: int|
                0 <= m < entries@.len() ==> (#[trigger] entries@[m]).0@ == recs[m].0 && *entries@[m].1 == recs[m].1,
            out@.len() == k,
            forall|m: int|
                0 <= m < k ==> #[trigger] gramps_family(out@[m], recs[m].0, recs[m].1, string_views(person_ids@)),
            rels_match(rels@, all_family_rels(out@)),
        decreases entries@.len() - k,
    {
        let ghost before_rels = rels@;
        let ghost before_out = out@;
        let f = map_family(entries[k].0, entries[k].1, person_ids, &mut rels);
        out.push(f);
        proof {
            assert(out@.drop_last() =~= before_out);
            let fr = family_rels(out@.last().partner1_id, out@.last().partner2_id, child_ids(out@.last()));
            let seg = rels@.subrange(before_rels.len() as int, rels@.len() as int);
            assert(rels_match(seg, fr));
            let all = all_family_rels(out@);
            assert(all == all_family_rels(before_out) + fr);
            assert forall|m: int| 0 <= m < rels@.len() implies #[trigger] rel_matches(rels@[m], all[m]) by {
                if m < before_rels.len() {
                    assert(rels@[m] == rels@.subrange(0, before_rels.len() as int)[m]);
                    assert(rel_matches(before_rels[m], all_family_rels(before_out)[m]));
                } else {
                    assert(rels@[m] == seg[m - before_rels.len()]);
                    assert(rel_matches(seg[m - before_rels.len()], fr[m - before_rels.len()]));
                }
            }
        }
        k = k + 1;
    }
    (out, rels)
}

/// The notes of a database, one per `note` record.
pub open spec fn notes_ok(ns: Seq<Note>, recs: Seq<(Seq<char>, XmlElement)>) -> bool {
    ns.len() == recs.len() && forall|k: int| 0 <= k < ns.len() ==> #[trigger] gramps_note(ns[k], recs[k].0, recs[k].1)
}

fn map_notes(root: &XmlElement) -> (r: Vec<Note>)
    ensures
        notes_ok(r@, section_records(*root, "notes"@, "note"@)),
{
    let ghost recs = section_records(*root, "notes"@, "note"@);
    let entries = section_entries(root, "notes", "note");
    let mut out: Vec<Note> = Vec::new();
    let mut k: usize = 0;
    while k < entries.len()
        invariant
            k <= entries@.len(),
            entries@.len() == recs.len(),
            forall|m: int|
                0 <= m < entries@.len() ==> (#[trigger] entries@[m]).0@ == recs[m].0 && *entries@[m].1 == recs[m].1,
            out@.len() == k,
            forall|m: int| 0 <= m < k ==> #[trigger] gramps_note(out@[m], recs[m].0, recs[m].1),
        decreases entries@.len() - k,
    {
        out.push(map_note(entries[k].0, entries[k].1));
        k = k + 1;
    }
    out
}

/// The media of a database, one per media `object` record.
pub open spec fn media_ok(ms: Seq<Media>, recs: Seq<(Seq<char>, XmlElement)>) -> bool {
    ms.len() == recs.len() && forall|k: int| 0 <= k < ms.len() ==> #[trigger] gramps_media(ms[k], recs[k].0, recs[k].1)
}

fn map_media_objects(root: &XmlElement) -> (r: Vec<Media>)
    ensures
        media_ok(r@, section_records(*root, "media"@, "object"@)),
{
    let ghost recs = section_records(*root, "media"@, "object"@);
    let entries = section_entries(root, "media", "object");
    let mut out: Vec<Media> = Vec::new();
    let mut k: usize = 0;
    while k < entries.len()
        invariant
            k <= entries@.len(),
            entries@.len() == recs.len(),
            forall|m: int|
                0 <= m < entries@.len() ==> (#[trigger] entries@[m]).0@ == recs[m].0 && *entries@[m].1 == recs[m].1,
            out@.len() == k,
            forall|m: int| 0 <= m < k ==> #[trigger] gramps_media(out@[m], recs[m].0, recs[m].1),
        decreases entries@.len() - k,
    {
        out.push(map_media(entries[k].0, entries[k].1));
        k = k + 1;
    }
    out
}

/// For each record of a section, its identifier (of kind `kind`) and the
/// events its `eventref`s name.
pub open spec fn event_ref_records(
    recs: Seq<(Seq<char>, XmlElement)>,
    kind: Seq<char>,
    event_ids: Seq<Seq<char>>,
) -> Seq<(EntityId, Seq<EntityId>)> {
    recs.map_values(
        |it: (Seq<char>, XmlElement)|
            (gramps_id(kind, it.0), linked_ids(named_elements(it.1.children@, "eventref"@), "event"@, event_ids)),
    )
}

fn event_refs_of(
    root: &XmlElement,
    section: &str,
    item: &str,
    kind: &str,
    event_ids: &Vec<String>,
) -> (r: Vec<(EntityId, Vec<EntityId>)>)
    ensures
        ref_records(r@) == event_ref_records(section_records(*root, section@, item@), kind@, string_views(event_ids@)),
{
    let ghost recs = section_records(*root, section@, item@);
    let ghost target = event_ref_records(recs, kind@, string_views(event_ids@));
    let entries = section_entries(root, section, item);
    let mut out: Vec<(EntityId, Vec<EntityId>)> = Vec::new();
    let mut k: usize = 0;
    while k < entries.len()
        invariant
            k <= entries@.len(),
            entries@.len() == recs.len(),
            target == event_ref_records(recs, kind@, string_views(event_ids@)),
            forall|m: int|
                0 <= m < entries@.len() ==> (#[trigger] entries@[m]).0@ == recs[m].0 && *entries@[m].1 == recs[m].1,
            ref_records(out@) == target.subrange(0, k as int),
        decreases entries@.len() - k,
    {
        let ghost before = out@;
        let id = entity_id_from_seed(kind, entries[k].0.as_str());
        let refs = linked_ids_of(entries[k].1, "eventref", "event", event_ids);
        out.push((id, refs));
        proof {
            assert(ref_records(out@) =~= ref_records(before).push((id, refs@)));
            assert(target.subrange(0, k + 1) =~= target.subrange(0, k as int).push(target[k as int]));
        }
        k = k + 1;
    }
    proof {
        assert(target.subrange(0, k as int) =~= target);
    }
    out
}

/// An event whose participants are the persons `parts`, each a principal.
pub open spec fn participants_are(ev: Event, parts: Seq<EntityId>) -> bool {
    &&& ev.participants@.len() == parts.len()
    &&& forall|k: int|
        0 <= k < parts.len() ==> (#[trigger] ev.participants@[k]).person_id == parts[k]
            && ev.participants@[k].role is Principal && ev.participants@[k].census_role is None
}

/// The events of a database, one per `event` record, with their participants.
pub open spec fn events_ok(
    es: Seq<Event>,
    recs: Seq<(Seq<char>, XmlElement)>,
    place_ids: Seq<Seq<char>>,
    precs: Seq<(EntityId, Seq<EntityId>)>,
    frecs: Seq<(EntityId, Seq<EntityId>)>,
    fs: Seq<Family>,
) -> bool {
    es.len() == recs.len() && forall|k: int|
        0 <= k < es.len() ==> #[trigger] gramps_event(es[k], recs[k].0, recs[k].1, place_ids) && participants_are(
            es[k],
            event_participants(es[k].id, precs, frecs, fs),
        )
}

fn map_events(
    root: &XmlElement,
    place_ids: &Vec<String>,
    ptable: &Vec<(EntityId, Vec<EntityId>)>,
    ftable: &Vec<(EntityId, Vec<EntityId>)>,
    fs: &Vec<Family>,
    Ghost(precs): Ghost<Seq<(EntityId, Seq<EntityId>)>>,
    Ghost(frecs): Ghost<Seq<(EntityId, Seq<EntityId>)>>,
) -> (r: Vec<Event>)
    requires
        ptable@.map_values(|x: (EntityId, Vec<EntityId>)| x.0) == distinct_keys(precs),
        forall|k: int, v: EntityId|
            0 <= k < ptable@.len() ==> (#[trigger] ptable@[k].1@.contains(v) <==> refs_mention(precs, ptable@[k].0, v)),
        ftable@.map_values(|x: (EntityId, Vec<EntityId>)| x.0) == distinct_keys(frecs),
        forall|k: int, v: EntityId|
            0 <= k < ftable@.len() ==> (#[trigger] ftable@[k].1@.contains(v) <==> refs_mention(frecs, ftable@[k].0, v)),
    ensures
        events_ok(r@, section_records(*root, "events"@, "event"@), string_views(place_ids@), precs, frecs, fs@),
{
    let ghost recs = section_records(*root, "events"@, "event"@);
    let entries = section_entries(root, "events", "event");
    let mut out: Vec<Event> = Vec::new();
    let mut k: usize = 0;
    while k < entries.len()
        invariant
            k <= entries@.len(),
            entries@.len() == recs.len(),
            forall|m: int|
                0 <= m < entries@.len() ==> (#[trigger] entries@[m]).0@ == recs[m].0 && *entries@[m].1 == recs[m].1,
            ptable@.map_values(|x: (EntityId, Vec<EntityId>)| x.0) == distinct_keys(precs),
            forall|m: int, v: EntityId|
                0 <= m < ptable@.len() ==> (#[trigger] ptable@[m].1@.contains(v) <==> refs_mention(precs, ptable@[m].0, v)),
            ftable@.map_values(|x: (EntityId, Vec<EntityId>)| x.0) == distinct_keys(frecs),
            forall|m: int, v: EntityId|
                0 <= m < ftable@.len() ==> (#[trigger] ftable@[m].1@.contains(v) <==> refs_mention(frecs, ftable@[m].0, v)),
            out@.len() == k,
            forall|m: int|
                0 <= m < k ==> #[trigger] gramps_event(out@[m], recs[m].0, recs[m].1, string_views(place_ids@))
                    && participants_are(out@[m], event_participants(out@[m].id, precs, frecs, fs@)),
        decreases entries@.len() - k,
    {
        let eid = entity_id_from_seed("event", entries[k].0.as_str());
        let parts = participants_of(eid, ptable, ftable, fs, Ghost(precs), Ghost(frecs));
        let mut plist: Vec<EventParticipant> = Vec::new();
        let mut q: usize = 0;
        while q < parts.len()
            invariant
                q <= parts@.len(),
                plist@.len() == q,
                forall|m: int|
                    0 <= m < q ==> (#[trigger] plist@[m]).person_id == parts@[m] && plist@[m].role is Principal
                        && plist@[m].census_role is None,
            decreases parts@.len() - q,
        {
            plist.push(EventParticipant { person_id: parts[q], role: EventRole::Principal, census_role: None });
            q = q + 1;
        }
        let ev = map_event(entries[k].0, entries[k].1, place_ids, plist);
        out.push(ev);
        k = k + 1;
    }
    out
}

/// What a Gramps database gives: each section's records (those with an id)
/// mapped in document order, references resolved among the records read,
/// the relationships of the families, and each event's participants.
pub open spec fn gramps_data_of(d: GrampsImportData, root: XmlElement) -> bool {
    let place_ids = ids_of(section_records(root, "places"@, "placeobj"@));
    let event_ids = ids_of(section_records(root, "events"@, "event"@));
    let repo_ids = ids_of(section_records(root, "repositories"@, "repository"@));
    let source_ids = ids_of(section_records(root, "sources"@, "source"@));
    let person_ids = ids_of(section_records(root, "people"@, "person"@));
    let precs = event_ref_records(section_records(root, "people"@, "person"@), "person"@, event_ids);
    let frecs = event_ref_records(section_records(root, "families"@, "family"@), "family"@, event_ids);
    &&& places_ok(d.places@, section_records(root, "places"@, "placeobj"@))
    &&& events_ok(d.events@, section_records(root, "events"@, "event"@), place_ids, precs, frecs, d.families@)
    &&& repositories_ok(d.repositories@, section_records(root, "repositories"@, "repository"@))
    &&& sources_ok(d.sources@, section_records(root, "sources"@, "source"@), repo_ids)
    &&& citations_ok(d.citations@, citation_records(section_records(root, "citations"@, "citation"@), source_ids))
    &&& persons_ok(d.persons@, section_records(root, "people"@, "person"@))
    &&& families_ok(d.families@, section_records(root, "families"@, "family"@), person_ids)
    &&& rels_match(d.relationships@, all_family_rels(d.families@))
    &&& notes_ok(d.notes@, section_records(root, "notes"@, "note"@))
    &&& media_ok(d.media@, section_records(root, "media"@, "object"@))
}

/// Reads the records of a Gramps database element.
pub fn parse_database(root: &XmlElement) -> (r: GrampsImportData)
    ensures
        gramps_data_of(r, *root),
{
    let (places, place_ids) = map_places(root);
    let event_entries = section_entries(root, "events", "event");
    let event_ids = ids_of_entries(&event_entries, Ghost(section_records(*root, "events"@, "event"@)));
    let (repositories, repo_ids) = map_repositories(root);
    let (sources, source_ids) = map_sources(root, &repo_ids);
    let citations = map_citations(root, &source_ids);
    let (persons, person_ids) = map_persons(root);
    let (families, relationships) = map_families(root, &person_ids);
    let precs = event_refs_of(root, "people", "person", "person", &event_ids);
    let frecs = event_refs_of(root, "families", "family", "family", &event_ids);
    let ptable = merged_table(&precs);
    let ftable = merged_table(&frecs);
    let events = map_events(
        root,
        &place_ids,
        &ptable,
        &ftable,
        &families,
        Ghost(ref_records(precs@)),
        Ghost(ref_records(frecs@)),
    );
    let notes = map_notes(root);
    let media = map_media_objects(root);
    GrampsImportData {
        persons,
        families,
        relationships,
        events,
        places,
        sources,
        citations,
        repositories,
        notes,
        media,
    }
}


/// What a Gramps import reports: the entities created by kind (in key
/// order) and the number of assertions created.
#[derive(Debug, Clone, PartialEq, Eq)]
pub struct GrampsImportReport {
    pub entities_created_by_type: Vec<(String, usize)>,
    pub assertions_created: usize,
}

/// The entity counts of an import, by kind in key order.
pub open spec fn gramps_entity_counts(d: GrampsImportData) -> Seq<(Seq<char>, int)> {
    seq![
        ("citation"@, d.citations@.len() as int),
        ("event"@, d.events@.len() as int),
        ("family"@, d.families@.len() as int),
        ("media"@, d.media@.len() as int),
        ("note"@, d.notes@.len() as int),
        ("person"@, d.persons@.len() as int),
        ("place"@, d.places@.len() as int),
        ("relationship"@, d.relationships@.len() as int),
        ("repository"@, d.repositories@.len() as int),
        ("source"@, d.sources@.len() as int),
    ]
}

/// Assertions made about persons: one per name and one for the gender.
pub open spec fn person_assertions(ps: Seq<Person>) -> nat
    decreases ps.len(),
{
    if ps.len() == 0 {
        0
    } else {
        person_assertions(ps.drop_last()) + ps.last().names@.len() + 1
    }
}

/// Assertions made about families: one per known partner and per child.
pub open spec fn family_assertions(fs: Seq<Family>) -> nat
    decreases fs.len(),
{
    if fs.len() == 0 {
        0
    } else {
        let f = fs.last();
        family_assertions(fs.drop_last()) + (if f.partner1_id is Some {
            1nat
        } else {
            0nat
        }) + (if f.partner2_id is Some {
            1nat
        } else {
            0nat
        }) + f.child_links@.len()
    }
}

/// Assertions made about events: the type, the date and place when known,
/// and one per participant.
pub open spec fn event_assertions(es: Seq<Event>) -> nat
    decreases es.len(),
{
    if es.len() == 0 {
        0
    } else {
        let e = es.last();
        event_assertions(es.drop_last()) + 1 + (if e.date is Some {
            1nat
        } else {
            0nat
        }) + (if e.place_ref is Some {
            1nat
        } else {
            0nat
        }) + e.participants@.len()
    }
}

/// Assertions made about places: one per name.
pub open spec fn place_assertions(ps: Seq<PlaceRecord>) -> nat
    decreases ps.len(),
{
    if ps.len() == 0 {
        0
    } else {
        place_assertions(ps.drop_last()) + ps.last().names@.len()
    }
}

/// All assertions an import makes; sources and citations get one each.
pub open spec fn gramps_assertion_count(d: GrampsImportData) -> nat {
    person_assertions(d.persons@) + family_assertions(d.families@) + event_assertions(d.events@) + place_assertions(
        d.places@,
    ) + d.sources@.len() + d.citations@.len()
}

/// `x` capped at the largest `usize`.
pub open spec fn cap(x: int) -> int {
    if x > usize::MAX {
        usize::MAX as int
    } else {
        x
    }
}

fn count_person_assertions(ps: &Vec<Person>) -> (r: usize)
    ensures
        r == cap(person_assertions(ps@) as int),
{
    let mut n: usize = 0;
    let mut i: usize = 0;
    while i < ps.len()
        invariant
            i <= ps@.len(),
            n == cap(person_assertions(ps@.subrange(0, i as int)) as int),
        decreases ps@.len() - i,
    {
        proof {
            assert(ps@.subrange(0, i + 1).drop_last() =~= ps@.subrange(0, i as int));
        }
        n = n.saturating_add(ps[i].names.len()).saturating_add(1);
        i = i + 1;
    }
    proof {
        assert(ps@.subrange(0, i as int) =~= ps@);
    }
    n
}

fn count_family_assertions(fs: &Vec<Family>) -> (r: usize)
    ensures
        r == cap(family_assertions(fs@) as int),
{
    let mut n: usize = 0;
    let mut i: usize = 0;
    while i < fs.len()
        invariant
            i <= fs@.len(),
            n == cap(family_assertions(fs@.subrange(0, i as int)) as int),
        decreases fs@.len() - i,
    {
        proof {
            assert(fs@.subrange(0, i + 1).drop_last() =~= fs@.subrange(0, i as int));
        }
        let f = &fs[i];
        if f.partner1_id.is_some() {
            n = n.saturating_add(1);
        }
        if f.partner2_id.is_some() {
            n = n.saturating_add(1);
        }
        n = n.saturating_add(f.child_links.len());
        i = i + 1;
    }
    proof {
        assert(fs@.subrange(0, i as int) =~= fs@);
    }
    n
}

fn count_event_assertions(es: &Vec<Event>) -> (r: usize)
    ensures
        r == cap(event_assertions(es@) as int),
{
    let mut n: usize = 0;
    let mut i: usize = 0;
    while i < es.len()
        invariant
            i <= es@.len(),
            n == cap(event_assertions(es@.subrange(0, i as int)) as int),
        decreases es@.len() - i,
    {
        proof {
            assert(es@.subrange(0, i + 1).drop_last() =~= es@.subrange(0, i as int));
        }
        let e = &es[i];
        n = n.saturating_add(1);
        if e.date.is_some() {
            n = n.saturating_add(1);
        }
        if e.place_ref.is_some() {
            n = n.saturating_add(1);
        }
        n = n.saturating_add(e.participants.len());
        i = i + 1;
    }
    proof {
        assert(es@.subrange(0, i as int) =~= es@);
    }
    n
}

fn count_place_assertions(ps: &Vec<PlaceRecord>) -> (r: usize)
    ensures
        r == cap(place_assertions(ps@) as int),
{
    let mut n: usize = 0;
    let mut i: usize = 0;
    while i < ps.len()
        invariant
            i <= ps@.len(),
            n == cap(place_assertions(ps@.subrange(0, i as int)) as int),
        decreases ps@.len() - i,
    {
        proof {
            assert(ps@.subrange(0, i + 1).drop_last() =~= ps@.subrange(0, i as int));
        }
        n = n.saturating_add(ps[i].names.len());
        i = i + 1;
    }
    proof {
        assert(ps@.subrange(0, i as int) =~= ps@);
    }
    n
}

/// The report of a Gramps import whose entities and assertions were all
/// stored: entity counts by kind, and the assertions made (at most the
/// largest `usize`).
pub fn gramps_report(d: &GrampsImportData) -> (r: GrampsImportReport)
    ensures
        r.entities_created_by_type@.len() == 10,
        forall|i: int|
            0 <= i < 10 ==> (#[trigger] r.entities_created_by_type@[i]).0@ == gramps_entity_counts(*d)[i].0
                && r.entities_created_by_type@[i].1 == gramps_entity_counts(*d)[i].1,
        r.assertions_created == cap(gramps_assertion_count(*d) as int),
{
    let mut v: Vec<(String, usize)> = Vec::new();
    v.push((str_to_string("citation"), d.citations.len()));
    v.push((str_to_string("event"), d.events.len()));
    v.push((str_to_string("family"), d.families.len()));
    v.push((str_to_string("media"), d.media.len()));
    v.push((str_to_string("note"), d.notes.len()));
    v.push((str_to_string("person"), d.persons.len()));
    v.push((str_to_string("place"), d.places.len()));
    v.push((str_to_string("relationship"), d.relationships.len()));
    v.push((str_to_string("repository"), d.repositories.len()));
    v.push((str_to_string("source"), d.sources.len()));
    let n = count_person_assertions(&d.persons).saturating_add(count_family_assertions(&d.families)).saturating_add(
        count_event_assertions(&d.events),
    ).saturating_add(count_place_assertions(&d.places)).saturating_add(d.sources.len()).saturating_add(
        d.citations.len(),
    );
    GrampsImportReport { entities_created_by_type: v, assertions_created: n }
}


/// Whether `id` is the identifier of one of the persons read.
pub open spec fn is_person_of(d: GrampsImportData, id: EntityId) -> bool {
    exists|k: int| 0 <= k < d.persons@.len() && (#[trigger] d.persons@[k]).id == id
}

/// Whether `id` is the identifier of one of the sources read.
pub open spec fn is_source_of(d: GrampsImportData, id: EntityId) -> bool {
    exists|k: int| 0 <= k < d.sources@.len() && (#[trigger] d.sources@[k]).id == id
}

proof fn lemma_resolve_in_ids(kind: Seq<char>, recs: Seq<(Seq<char>, XmlElement)>, r: Option<Seq<char>>)
    ensures
        resolve(kind, ids_of(recs), r) matches Some(x) ==> exists|k: int|
            0 <= k < recs.len() && x == gramps_id(kind, (#[trigger] recs[k]).0),
{
    if let Some(h) = r {
        if ids_of(recs).contains(h) {
            let k = choose|k: int| 0 <= k < ids_of(recs).len() && ids_of(recs)[k] == h;
            assert(recs[k].0 == h);
        }
    }
}

/// Whether `x` is the identifier (of kind `kind`) of one of the records `recs`.
pub open spec fn from_records(x: EntityId, kind: Seq<char>, recs: Seq<(Seq<char>, XmlElement)>) -> bool {
    exists|k: int| 0 <= k < recs.len() && x == gramps_id(kind, (#[trigger] recs[k]).0)
}

proof fn lemma_linked_ids_in(rs: Seq<XmlElement>, kind: Seq<char>, recs: Seq<(Seq<char>, XmlElement)>)
    ensures
        forall|i: int|
            0 <= i < linked_ids(rs, kind, ids_of(recs)).len() ==> from_records(
                #[trigger] linked_ids(rs, kind, ids_of(recs))[i],
                kind,
                recs,
            ),
    decreases rs.len(),
{
    if rs.len() > 0 {
        lemma_linked_ids_in(rs.drop_last(), kind, recs);
        lemma_resolve_in_ids(kind, recs, attr(rs.last(), "hlink"@));
        let p = linked_ids(rs.drop_last(), kind, ids_of(recs));
        let l = linked_ids(rs, kind, ids_of(recs));
        assert forall|i: int| 0 <= i < l.len() implies from_records(#[trigger] l[i], kind, recs) by {
            if i < p.len() {
                assert(l[i] == p[i]);
            } else {
                let x = resolve(kind, ids_of(recs), attr(rs.last(), "hlink"@)).unwrap();
                assert(l[i] == x);
                let k = choose|k: int| 0 <= k < recs.len() && x == gramps_id(kind, (#[trigger] recs[k]).0);
                assert(0 <= k < recs.len() && x == gramps_id(kind, recs[k].0));
            }
        }
    }
}

/// Whether every known partner and child of a family is a person read.
pub open spec fn family_people_known(d: GrampsImportData, f: Family) -> bool {
    &&& (f.partner1_id matches Some(p) ==> is_person_of(d, p))
    &&& (f.partner2_id matches Some(p) ==> is_person_of(d, p))
    &&& forall|i: int| 0 <= i < f.child_links@.len() ==> is_person_of(d, (#[trigger] f.child_links@[i]).child_id)
}

proof fn lemma_person_id_known(d: GrampsImportData, root: XmlElement, x: EntityId)
    requires
        persons_ok(d.persons@, section_records(root, "people"@, "person"@)),
        exists|k: int|
            0 <= k < section_records(root, "people"@, "person"@).len() && x == gramps_id(
                "person"@,
                (#[trigger] section_records(root, "people"@, "person"@)[k]).0,
            ),
    ensures
        is_person_of(d, x),
{
    let recs = section_records(root, "people"@, "person"@);
    let k = choose|k: int| 0 <= k < recs.len() && x == gramps_id("person"@, (#[trigger] recs[k]).0);
    assert(gramps_person(d.persons@[k], recs[k].0, recs[k].1));
    assert(d.persons@[k].id == x);
}

proof fn lemma_families_people_known(d: GrampsImportData, root: XmlElement)
    requires
        gramps_data_of(d, root),
    ensures
        forall|j: int| 0 <= j < d.families@.len() ==> family_people_known(d, #[trigger] d.families@[j]),
{
    let precs = section_records(root, "people"@, "person"@);
    let frecs = section_records(root, "families"@, "family"@);
    assert forall|j: int| 0 <= j < d.families@.len() implies family_people_known(d, #[trigger] d.families@[j]) by {
        let f = d.families@[j];
        let el = frecs[j].1;
        assert(gramps_family(f, frecs[j].0, el, ids_of(precs)));
        lemma_resolve_in_ids("person"@, precs, child_attr(el, "father"@, "hlink"@));
        lemma_resolve_in_ids("person"@, precs, child_attr(el, "mother"@, "hlink"@));
        if let Some(p) = f.partner1_id {
            lemma_person_id_known(d, root, p);
        }
        if let Some(p) = f.partner2_id {
            lemma_person_id_known(d, root, p);
        }
        let kids = linked_ids(named_elements(el.children@, "childref"@), "person"@, ids_of(precs));
        lemma_linked_ids_in(named_elements(el.children@, "childref"@), "person"@, precs);
        assert forall|i: int| 0 <= i < f.child_links@.len() implies is_person_of(
            d,
            (#[trigger] f.child_links@[i]).child_id,
        ) by {
            assert(f.child_links@[i].child_id == kids[i]);
            assert(from_records(kids[i], "person"@, precs));
            lemma_person_id_known(d, root, kids[i]);
        }
    }
}

proof fn lemma_child_rels_from(parents: Seq<EntityId>, kids: Seq<EntityId>)
    ensures
        forall|i: int|
            0 <= i < child_rels(parents, kids).len() ==> parents.contains((#[trigger] child_rels(parents, kids)[i]).1)
                && kids.contains(child_rels(parents, kids)[i].2),
    decreases kids.len(),
{
    if kids.len() > 0 {
        lemma_child_rels_from(parents, kids.drop_last());
        let p = child_rels(parents, kids.drop_last());
        let c = kids.last();
        let add = parents.map_values(|q: EntityId| (parent_rel_id(q, c), q, c, false));
        let all = child_rels(parents, kids);
        assert(all == p + add);
        assert forall|i: int| 0 <= i < all.len() implies parents.contains((#[trigger] all[i]).1) && kids.contains(
            all[i].2,
        ) by {
            if i < p.len() {
                assert(all[i] == p[i]);
                let x = choose|x: int| 0 <= x < kids.drop_last().len() && kids.drop_last()[x] == p[i].2;
                assert(kids[x] == p[i].2);
            } else {
                let m = i - p.len();
                assert(all[i] == add[m]);
                assert(parents[m] == all[i].1);
                assert(kids[kids.len() - 1] == c);
            }
        }
    }
}

proof fn lemma_family_rels_known(d: GrampsImportData, fs: Seq<Family>)
    requires
        forall|j: int| 0 <= j < fs.len() ==> family_people_known(d, #[trigger] fs[j]),
    ensures
        forall|i: int|
            0 <= i < all_family_rels(fs).len() ==> is_person_of(d, (#[trigger] all_family_rels(fs)[i]).1)
                && is_person_of(d, all_family_rels(fs)[i].2),
    decreases fs.len(),
{
    if fs.len() > 0 {
        let init = fs.drop_last();
        assert forall|j: int| 0 <= j < init.len() implies family_people_known(d, #[trigger] init[j]) by {
            assert(init[j] == fs[j]);
        }
        lemma_family_rels_known(d, init);
        let f = fs.last();
        assert(family_people_known(d, fs[fs.len() - 1]));
        let kids = child_ids(f);
        let parents = partners(f.partner1_id, f.partner2_id);
        lemma_child_rels_from(parents, kids);
        let fr = family_rels(f.partner1_id, f.partner2_id, kids);
        let couple = match (f.partner1_id, f.partner2_id) {
            (Some(a), Some(b)) => seq![(couple_rel_id(a, b), a, b, true)],
            _ => Seq::<(EntityId, EntityId, EntityId, bool)>::empty(),
        };
        let cr = child_rels(parents, kids);
        assert(fr == couple + cr);
        let all = all_family_rels(fs);
        let prev = all_family_rels(init);
        assert(all == prev + fr);
        assert forall|i: int| 0 <= i < all.len() implies is_person_of(d, (#[trigger] all[i]).1) && is_person_of(
            d,
            all[i].2,
        ) by {
            if i < prev.len() {
                assert(all[i] == prev[i]);
            } else {
                let m = i - prev.len();
                assert(all[i] == fr[m]);
                if m < couple.len() {
                } else {
                    let n = m - couple.len();
                    assert(fr[m] == cr[n]);
                    assert(parents.contains(cr[n].1));
                    assert(kids.contains(cr[n].2));
                    let x = choose|x: int| 0 <= x < kids.len() && kids[x] == cr[n].2;
                    assert(kids[x] == f.child_links@[x].child_id);
                    let y = choose|y: int| 0 <= y < parents.len() && parents[y] == cr[n].1;
                    if f.partner1_id is Some {
                        if y == 0 {
                            assert(parents[0] == f.partner1_id.unwrap());
                        } else {
                            assert(parents[y] == f.partner2_id.unwrap());
                        }
                    } else {
                        assert(parents[y] == f.partner2_id.unwrap());
                    }
                }
            }
        }
    }
}

proof fn lemma_distinct_keys_from(recs: Seq<(EntityId, Seq<EntityId>)>)
    ensures
        forall|i: int|
            0 <= i < distinct_keys(recs).len() ==> exists|k: int|
                0 <= k < recs.len() && (#[trigger] recs[k]).0 == #[trigger] distinct_keys(recs)[i],
    decreases recs.len(),
{
    if recs.len() > 0 {
        lemma_distinct_keys_from(recs.drop_last());
        let p = distinct_keys(recs.drop_last());
        let dk = distinct_keys(recs);
        assert forall|i: int| 0 <= i < dk.len() implies exists|k: int|
            0 <= k < recs.len() && (#[trigger] recs[k]).0 == #[trigger] dk[i] by {
            if i < p.len() {
                assert(dk[i] == p[i]);
                let k = choose|k: int|
                    0 <= k < recs.drop_last().len() && (#[trigger] recs.drop_last()[k]).0 == p[i];
                assert(recs[k] == recs.drop_last()[k]);
            } else {
                assert(recs[recs.len() - 1].0 == dk[i]);
            }
        }
    }
}

proof fn lemma_person_pass_known(
    d: GrampsImportData,
    acc: Seq<EntityId>,
    keys: Seq<EntityId>,
    recs: Seq<(EntityId, Seq<EntityId>)>,
    ev: EntityId,
)
    requires
        forall|i: int| 0 <= i < acc.len() ==> is_person_of(d, #[trigger] acc[i]),
        forall|i: int| 0 <= i < keys.len() ==> is_person_of(d, #[trigger] keys[i]),
    ensures
        forall|i: int|
            0 <= i < person_pass(acc, keys, recs, ev).len() ==> is_person_of(d, #[trigger] person_pass(acc, keys, recs, ev)[i]),
    decreases keys.len(),
{
    if keys.len() > 0 {
        let init = keys.drop_last();
        assert forall|i: int| 0 <= i < init.len() implies is_person_of(d, #[trigger] init[i]) by {
            assert(init[i] == keys[i]);
        }
        lemma_person_pass_known(d, acc, init, recs, ev);
        assert(is_person_of(d, keys[keys.len() - 1]));
        let a = person_pass(acc, init, recs, ev);
        let r = person_pass(acc, keys, recs, ev);
        assert forall|i: int| 0 <= i < r.len() implies is_person_of(d, #[trigger] r[i]) by {
            if i < a.len() {
                assert(r[i] == a[i]);
            }
        }
    }
}

proof fn lemma_family_pass_known(
    d: GrampsImportData,
    acc: Seq<EntityId>,
    keys: Seq<EntityId>,
    recs: Seq<(EntityId, Seq<EntityId>)>,
    fs: Seq<Family>,
    ev: EntityId,
)
    requires
        forall|i: int| 0 <= i < acc.len() ==> is_person_of(d, #[trigger] acc[i]),
        forall|j: int| 0 <= j < fs.len() ==> family_people_known(d, #[trigger] fs[j]),
    ensures
        forall|i: int|
            0 <= i < family_pass(acc, keys, recs, fs, ev).len() ==> is_person_of(
                d,
                #[trigger] family_pass(acc, keys, recs, fs, ev)[i],
            ),
    decreases keys.len(),
{
    if keys.len() > 0 {
        lemma_family_pass_known(d, acc, keys.drop_last(), recs, fs, ev);
        let a = family_pass(acc, keys.drop_last(), recs, fs, ev);
        let k = keys.last();
        if refs_mention(recs, k, ev) {
            lemma_family_with_id_in(fs, k, 0);
            if let Some(f) = family_with_id(fs, k, 0) {
                let j = choose|j: int| 0 <= j < fs.len() && fs[j] == f;
                assert(family_people_known(d, fs[j]));
                let a1 = add_partner(a, f.partner1_id);
                let a2 = add_partner(a1, f.partner2_id);
                assert forall|i: int| 0 <= i < a1.len() implies is_person_of(d, #[trigger] a1[i]) by {
                    if i < a.len() {
                        assert(a1[i] == a[i]);
                    }
                }
                assert forall|i: int| 0 <= i < a2.len() implies is_person_of(d, #[trigger] a2[i]) by {
                    if i < a1.len() {
                        assert(a2[i] == a1[i]);
                    }
                }
            }
        }
    }
}

proof fn lemma_family_with_id_in(fs: Seq<Family>, id: EntityId, i: int)
    ensures
        family_with_id(fs, id, i) matches Some(f) ==> exists|j: int| 0 <= j < fs.len() && fs[j] == f,
    decreases fs.len() - i,
{
    if 0 <= i < fs.len() && fs[i].id != id {
        lemma_family_with_id_in(fs, id, i + 1);
    }
}

/// No reference in what a Gramps database gives dangles: family partners
/// and children, both ends of every relationship, and every event
/// participant are persons read, and every citation's source is a source
/// read; no person takes part in one event twice.
pub proof fn law_gramps_references_resolve(d: GrampsImportData, root: XmlElement)
    requires
        gramps_data_of(d, root),
    ensures
        forall|j: int| 0 <= j < d.families@.len() ==> family_people_known(d, #[trigger] d.families@[j]),
        forall|i: int|
            0 <= i < d.relationships@.len() ==> is_person_of(d, (#[trigger] d.relationships@[i]).person1_id)
                && is_person_of(d, d.relationships@[i].person2_id),
        forall|i: int| 0 <= i < d.citations@.len() ==> is_source_of(d, (#[trigger] d.citations@[i]).source_id),
        forall|e: int, p: int|
            0 <= e < d.events@.len() && 0 <= p < d.events@[e].participants@.len() ==> is_person_of(
                d,
                (#[trigger] d.events@[e].participants@[p]).person_id,
            ),
        forall|e: int, p: int, q: int|
            0 <= e < d.events@.len() && 0 <= p < q < d.events@[e].participants@.len() ==> (
            #[trigger] d.events@[e].participants@[p]).person_id != (
            #[trigger] d.events@[e].participants@[q]).person_id,
{
    lemma_families_people_known(d, root);
    lemma_family_rels_known(d, d.families@);
    let rels = all_family_rels(d.families@);
    assert forall|i: int| 0 <= i < d.relationships@.len() implies is_person_of(
        d,
        (#[trigger] d.relationships@[i]).person1_id,
    ) && is_person_of(d, d.relationships@[i].person2_id) by {
        assert(rel_matches(d.relationships@[i], rels[i]));
    }
    let srecs = section_records(root, "sources"@, "source"@);
    let crecs = citation_records(section_records(root, "citations"@, "citation"@), ids_of(srecs));
    lemma_citation_sources(section_records(root, "citations"@, "citation"@), srecs);
    assert forall|i: int| 0 <= i < d.citations@.len() implies is_source_of(d, (#[trigger] d.citations@[i]).source_id) by {
        assert(gramps_citation(d.citations@[i], crecs[i].0, crecs[i].1, crecs[i].2));
        assert(from_records(crecs[i].2, "source"@, srecs));
        let k = choose|k: int| 0 <= k < srecs.len() && crecs[i].2 == gramps_id("source"@, (#[trigger] srecs[k]).0);
        assert(gramps_source(d.sources@[k], srecs[k].0, srecs[k].1, ids_of(section_records(root, "repositories"@, "repository"@))));
    }
    let event_ids = ids_of(section_records(root, "events"@, "event"@));
    let people = section_records(root, "people"@, "person"@);
    let precs = event_ref_records(people, "person"@, event_ids);
    let frecs = event_ref_records(section_records(root, "families"@, "family"@), "family"@, event_ids);
    lemma_distinct_keys_from(precs);
    let pkeys = distinct_keys(precs);
    assert forall|i: int| 0 <= i < pkeys.len() implies is_person_of(d, #[trigger] pkeys[i]) by {
        let k = choose|k: int| 0 <= k < precs.len() && (#[trigger] precs[k]).0 == pkeys[i];
        assert(precs[k].0 == gramps_id("person"@, people[k].0));
        assert(gramps_person(d.persons@[k], people[k].0, people[k].1));
    }
    assert forall|e: int, p: int|
        0 <= e < d.events@.len() && 0 <= p < d.events@[e].participants@.len() implies is_person_of(
        d,
        (#[trigger] d.events@[e].participants@[p]).person_id,
    ) by {
        let ev = d.events@[e];
        let recs = section_records(root, "events"@, "event"@);
        let place_ids = ids_of(section_records(root, "places"@, "placeobj"@));
        assert(events_ok(d.events@, recs, place_ids, precs, frecs, d.families@));
        assert(0 <= e < d.events@.len());
        assert(gramps_event(d.events@[e], recs[e].0, recs[e].1, place_ids));
        assert(participants_are(ev, event_participants(ev.id, precs, frecs, d.families@)));
        lemma_person_pass_known(d, Seq::empty(), pkeys, precs, ev.id);
        lemma_family_pass_known(
            d,
            person_pass(Seq::empty(), pkeys, precs, ev.id),
            distinct_keys(frecs),
            frecs,
            d.families@,
            ev.id,
        );
        let parts = event_participants(ev.id, precs, frecs, d.families@);
        assert(ev.participants@[p].person_id == parts[p]);
    }
    assert forall|e: int, p: int, q: int|
        0 <= e < d.events@.len() && 0 <= p < q < d.events@[e].participants@.len() implies (
        #[trigger] d.events@[e].participants@[p]).person_id != (
        #[trigger] d.events@[e].participants@[q]).person_id by {
        let ev = d.events@[e];
        let recs = section_records(root, "events"@, "event"@);
        let place_ids = ids_of(section_records(root, "places"@, "placeobj"@));
        assert(events_ok(d.events@, recs, place_ids, precs, frecs, d.families@));
        assert(gramps_event(d.events@[e], recs[e].0, recs[e].1, place_ids));
        assert(participants_are(ev, event_participants(ev.id, precs, frecs, d.families@)));
        lemma_person_pass_distinct(Seq::empty(), pkeys, precs, ev.id);
        lemma_family_pass_distinct(
            person_pass(Seq::empty(), pkeys, precs, ev.id),
            distinct_keys(frecs),
            frecs,
            d.families@,
            ev.id,
        );
        let parts = event_participants(ev.id, precs, frecs, d.families@);
        assert(ev.participants@[p].person_id == parts[p]);
        assert(ev.participants@[q].person_id == parts[q]);
    }
}

proof fn lemma_add_partner_distinct(acc: Seq<EntityId>, x: Option<EntityId>)
    requires
        acc.no_duplicates(),
    ensures
        add_partner(acc, x).no_duplicates(),
{
    if let Some(v) = x {
        if !acc.contains(v) {
            assert forall|i: int, j: int| 0 <= i < j < acc.push(v).len() implies acc.push(v)[i] != acc.push(v)[j] by {
                if j == acc.len() {
                    assert(acc.push(v)[i] == acc[i]);
                }
            }
        }
    }
}

proof fn lemma_person_pass_distinct(acc: Seq<EntityId>, keys: Seq<EntityId>, recs: Seq<(EntityId, Seq<EntityId>)>, ev: EntityId)
    requires
        acc.no_duplicates(),
    ensures
        person_pass(acc, keys, recs, ev).no_duplicates(),
    decreases keys.len(),
{
    if keys.len() > 0 {
        lemma_person_pass_distinct(acc, keys.drop_last(), recs, ev);
        let a = person_pass(acc, keys.drop_last(), recs, ev);
        lemma_add_partner_distinct(a, Some(keys.last()));
    }
}

proof fn lemma_family_pass_distinct(
    acc: Seq<EntityId>,
    keys: Seq<EntityId>,
    recs: Seq<(EntityId, Seq<EntityId>)>,
    fs: Seq<Family>,
    ev: EntityId,
)
    requires
        acc.no_duplicates(),
    ensures
        family_pass(acc, keys, recs, fs, ev).no_duplicates(),
    decreases keys.len(),
{
    if keys.len() > 0 {
        lemma_family_pass_distinct(acc, keys.drop_last(), recs, fs, ev);
        let a = family_pass(acc, keys.drop_last(), recs, fs, ev);
        if let Some(f) = family_with_id(fs, keys.last(), 0) {
            lemma_add_partner_distinct(a, f.partner1_id);
            lemma_add_partner_distinct(add_partner(a, f.partner1_id), f.partner2_id);
        }
    }
}

proof fn lemma_citation_sources(items: Seq<(Seq<char>, XmlElement)>, srecs: Seq<(Seq<char>, XmlElement)>)
    ensures
        forall|i: int|
            0 <= i < citation_records(items, ids_of(srecs)).len() ==> from_records(
                (#[trigger] citation_records(items, ids_of(srecs))[i]).2,
                "source"@,
                srecs,
            ),
    decreases items.len(),
{
    if items.len() > 0 {
        lemma_citation_sources(items.drop_last(), srecs);
        let (id, el) = items.last();
        lemma_resolve_in_ids("source"@, srecs, citation_source(el));
        let p = citation_records(items.drop_last(), ids_of(srecs));
        let c = citation_records(items, ids_of(srecs));
        assert forall|i: int| 0 <= i < c.len() implies from_records((#[trigger] c[i]).2, "source"@, srecs) by {
            if i < p.len() {
                assert(c[i] == p[i]);
            } else {
                let x = resolve("source"@, ids_of(srecs), citation_source(el)).unwrap();
                assert(c[i].2 == x);
                let k = choose|k: int| 0 <= k < srecs.len() && x == gramps_id("source"@, (#[trigger] srecs[k]).0);
                assert(0 <= k < srecs.len() && x == gramps_id("source"@, srecs[k].0));
            }
        }
    }
}

/// `xmltree::Element`, carried through as an opaque value.
#[verifier::external_type_specification]
#[verifier::external_body]
pub struct ExXmlTreeElement(xmltree::Element);

/// What reading `text` as an XML document gives: its root element, with
/// attributes in document order and comments or processing instructions as
/// `Other`; none when the text is not well-formed XML.
pub uninterp spec fn xml_document(text: Seq<char>) -> Option<XmlElement>;

/// Copies an `xmltree` element into the library's element type, one node
/// for one node.
#[verifier::external_body]
fn xml_element_of(e: &xmltree::Element) -> XmlElement {
    XmlElement {
        name: e.name.clone(),
        attributes: e.attributes.iter().map(|(k, v)| (k.clone(), v.clone())).collect(),
        children: e.children.iter().map(|node| match node {
            xmltree::XMLNode::Element(child) => XmlNode::Element(xml_element_of(child)),
            xmltree::XMLNode::Text(t) => XmlNode::Text(t.clone()),
            xmltree::XMLNode::CData(_) => XmlNode::Other,
            xmltree::XMLNode::Comment(_) => XmlNode::Other,
            xmltree::XMLNode::ProcessingInstruction(_, _) => XmlNode::Other,
        }).collect(),
    }
}

/// `xmltree::Element::parse` on the text's bytes (with attributes kept in
/// document order), converted to `XmlElement`. Claimed: the root, named
/// `xml_document`, depends on the text alone; on malformed XML the parser's
/// error message is returned, of which nothing is claimed.
#[verifier::external_body]
fn parse_xml(text: &str) -> (r: Result<XmlElement, String>)
    ensures
        r matches Ok(root) ==> xml_document(text@) == Some(root),
        r is Err ==> xml_document(text@) is None,
{
    match xmltree::Element::parse(text.as_bytes()) {
        Ok(e) => Ok(xml_element_of(&e)),
        Err(err) => Err(format!("{err}")),
    }
}

/// The report of a Gramps import of `d`: entity counts by kind in key order
/// and the number of assertions.
pub open spec fn gramps_report_of(r: GrampsImportReport, d: GrampsImportData) -> bool {
    &&& r.entities_created_by_type@.len() == 10
    &&& forall|i: int|
        0 <= i < 10 ==> (#[trigger] r.entities_created_by_type@[i]).0@ == gramps_entity_counts(d)[i].0
            && r.entities_created_by_type@[i].1 == gramps_entity_counts(d)[i].1
    &&& r.assertions_created == cap(gramps_assertion_count(d) as int)
}

/// Reads a Gramps XML text: its database (see `gramps_data_of`) and the
/// import's report; malformed XML is reported as "invalid Gramps XML: "
/// followed by the parser's message.
pub fn import_gramps_xml(text: &str) -> (r: Result<(GrampsImportData, GrampsImportReport), String>)
    ensures
        match r {
            Ok((d, rep)) => xml_document(text@) matches Some(root) && gramps_data_of(d, root)
                && gramps_report_of(rep, d),
            Err(m) => xml_document(text@) is None && m@.len() >= 20 && m@.subrange(0, 20)
                == "invalid Gramps XML: "@,
        },
{
    match parse_xml(text) {
        Ok(root) => {
            let d = parse_database(&root);
            let rep = gramps_report(&d);
            Ok((d, rep))
        },
        Err(e) => {
            let mut m = str_to_string("invalid Gramps XML: ");
            proof {
                reveal_strlit("invalid Gramps XML: ");
            }
            let ghost m0 = m@;
            push_str(&mut m, e.as_str());
            proof {
                assert(m@.subrange(0, 20) =~= m0);
            }
            Err(m)
        },
    }
}

/// What one Gramps import assertion is about: the entity, its kind, the field.
pub type GrampsRecordView = (EntityId, EntityType, Seq<char>);

/// The views of assertion records.
pub open spec fn record_views(v: Seq<(EntityId, EntityType, String)>) -> Seq<GrampsRecordView> {
    v.map_values(|r: (EntityId, EntityType, String)| (r.0, r.1, r.2@))
}

/// `k` assertions about the same field of one entity.
pub open spec fn copies(id: EntityId, t: EntityType, field: Seq<char>, k: nat) -> Seq<GrampsRecordView> {
    Seq::new(k, |i: int| (id, t, field))
}

/// One assertion when `present`, none otherwise.
pub open spec fn one_if(present: bool, id: EntityId, t: EntityType, field: Seq<char>) -> Seq<GrampsRecordView> {
    if present {
        seq![(id, t, field)]
    } else {
        Seq::empty()
    }
}

/// A person's assertions: one per name, then its gender.
pub open spec fn person_records_of(ps: Seq<Person>) -> Seq<GrampsRecordView>
    decreases ps.len(),
{
    if ps.len() == 0 {
        Seq::empty()
    } else {
        let p = ps.last();
        person_records_of(ps.drop_last()) + copies(p.id, EntityType::Person, "name"@, p.names@.len()) + seq![
            (p.id, EntityType::Person, "gender"@),
        ]
    }
}

/// A family's assertions: each known partner, then one per child.
pub open spec fn family_records_of(fs: Seq<Family>) -> Seq<GrampsRecordView>
    decreases fs.len(),
{
    if fs.len() == 0 {
        Seq::empty()
    } else {
        let f = fs.last();
        family_records_of(fs.drop_last()) + one_if(f.partner1_id is Some, f.id, EntityType::Family, "partner1_id"@)
            + one_if(f.partner2_id is Some, f.id, EntityType::Family, "partner2_id"@) + copies(
            f.id,
            EntityType::Family,
            "child_link"@,
            f.child_links@.len(),
        )
    }
}

/// An event's assertions: its type, its date and place when known, one per
/// participant.
pub open spec fn event_records_of(es: Seq<Event>) -> Seq<GrampsRecordView>
    decreases es.len(),
{
    if es.len() == 0 {
        Seq::empty()
    } else {
        let e = es.last();
        event_records_of(es.drop_last()) + seq![(e.id, EntityType::Event, "event_type"@)] + one_if(
            e.date is Some,
            e.id,
            EntityType::Event,
            "date"@,
        ) + one_if(e.place_ref is Some, e.id, EntityType::Event, "place_ref"@) + copies(
            e.id,
            EntityType::Event,
            "participant"@,
            e.participants@.len(),
        )
    }
}

/// A place's assertions: one per name.
pub open spec fn place_records_of(ps: Seq<PlaceRecord>) -> Seq<GrampsRecordView>
    decreases ps.len(),
{
    if ps.len() == 0 {
        Seq::empty()
    } else {
        place_records_of(ps.drop_last()) + copies(ps.last().id, EntityType::Place, "name"@, ps.last().names@.len())
    }
}

/// A source's title assertions.
pub open spec fn source_records_of(ss: Seq<Source>) -> Seq<GrampsRecordView>
    decreases ss.len(),
{
    if ss.len() == 0 {
        Seq::empty()
    } else {
        source_records_of(ss.drop_last()).push((ss.last().id, EntityType::Source, "title"@))
    }
}

/// A citation's source assertions.
pub open spec fn citation_records_of(cs: Seq<Citation>) -> Seq<GrampsRecordView>
    decreases cs.len(),
{
    if cs.len() == 0 {
        Seq::empty()
    } else {
        citation_records_of(cs.drop_last()).push((cs.last().id, EntityType::Citation, "source_id"@))
    }
}

/// Every assertion a Gramps import makes, in the order it makes them.
pub open spec fn gramps_records(d: GrampsImportData) -> Seq<GrampsRecordView> {
    person_records_of(d.persons@) + family_records_of(d.families@) + event_records_of(d.events@) + place_records_of(
        d.places@,
    ) + source_records_of(d.sources@) + citation_records_of(d.citations@)
}

fn push_record_view(out: &mut Vec<(EntityId, EntityType, String)>, id: EntityId, t: EntityType, field: &str)
    ensures
        record_views(final(out)@) == record_views(old(out)@).push((id, t, field@)),
{
    let ghost before = out@;
    out.push((id, t, str_to_string(field)));
    proof {
        assert(record_views(out@) =~= record_views(before).push((id, t, field@)));
    }
}

fn push_copies(out: &mut Vec<(EntityId, EntityType, String)>, id: EntityId, t: EntityType, field: &str, k: usize)
    ensures
        record_views(final(out)@) == record_views(old(out)@) + copies(id, t, field@, k as nat),
{
    let ghost base = record_views(out@);
    let mut j: usize = 0;
    proof {
        assert(base + copies(id, t, field@, 0) =~= base);
    }
    while j < k
        invariant
            j <= k,
            record_views(out@) == base + copies(id, t, field@, j as nat),
        decreases k - j,
    {
        push_record_view(out, id, t, field);
        proof {
            assert(base + copies(id, t, field@, (j + 1) as nat) =~= (base + copies(id, t, field@, j as nat)).push(
                (id, t, field@),
            ));
        }
        j = j + 1;
    }
}

fn push_if(out: &mut Vec<(EntityId, EntityType, String)>, present: bool, id: EntityId, t: EntityType, field: &str)
    ensures
        record_views(final(out)@) == record_views(old(out)@) + one_if(present, id, t, field@),
{
    if present {
        push_record_view(out, id, t, field);
        proof {
            assert(record_views(old(out)@).push((id, t, field@)) =~= record_views(old(out)@) + one_if(
                present,
                id,
                t,
                field@,
            ));
        }
    } else {
        proof {
            assert(record_views(out@) + one_if(present, id, t, field@) =~= record_views(out@));
        }
    }
}

proof fn lemma_records_len(d: GrampsImportData)
    ensures
        gramps_records(d).len() == gramps_assertion_count(d),
{
    lemma_person_records_len(d.persons@);
    lemma_family_records_len(d.families@);
    lemma_event_records_len(d.events@);
    lemma_place_records_len(d.places@);
    lemma_source_records_len(d.sources@);
    lemma_citation_records_len(d.citations@);
}

proof fn lemma_person_records_len(ps: Seq<Person>)
    ensures
        person_records_of(ps).len() == person_assertions(ps),
    decreases ps.len(),
{
    if ps.len() > 0 {
        lemma_person_records_len(ps.drop_last());
    }
}

proof fn lemma_family_records_len(fs: Seq<Family>)
    ensures
        family_records_of(fs).len() == family_assertions(fs),
    decreases fs.len(),
{
    if fs.len() > 0 {
        lemma_family_records_len(fs.drop_last());
    }
}

proof fn lemma_event_records_len(es: Seq<Event>)
    ensures
        event_records_of(es).len() == event_assertions(es),
    decreases es.len(),
{
    if es.len() > 0 {
        lemma_event_records_len(es.drop_last());
    }
}

proof fn lemma_place_records_len(ps: Seq<PlaceRecord>)
    ensures
        place_records_of(ps).len() == place_assertions(ps),
    decreases ps.len(),
{
    if ps.len() > 0 {
        lemma_place_records_len(ps.drop_last());
    }
}

proof fn lemma_source_records_len(ss: Seq<Source>)
    ensures
        source_records_of(ss).len() == ss.len(),
    decreases ss.len(),
{
    if ss.len() > 0 {
        lemma_source_records_len(ss.drop_last());
    }
}

proof fn lemma_citation_records_len(cs: Seq<Citation>)
    ensures
        citation_records_of(cs).len() == cs.len(),
    decreases cs.len(),
{
    if cs.len() > 0 {
        lemma_citation_records_len(cs.drop_last());
    }
}

/// The assertions a Gramps import of `d` makes (entity, kind, field), in the
/// order it makes them: persons, families, events, places, sources,
/// citations; there are as many as the report counts.
pub fn gramps_assertion_records(d: &GrampsImportData) -> (r: Vec<(EntityId, EntityType, String)>)
    ensures
        record_views(r@) == gramps_records(*d),
        r@.len() == gramps_assertion_count(*d),
{
    let mut out: Vec<(EntityId, EntityType, String)> = Vec::new();
    proof {
        assert(record_views(out@) =~= Seq::<GrampsRecordView>::empty());
    }
    let mut i: usize = 0;
    while i < d.persons.len()
        invariant
            i <= d.persons@.len(),
            record_views(out@) == person_records_of(d.persons@.subrange(0, i as int)),
        decreases d.persons@.len() - i,
    {
        let p = &d.persons[i];
        proof {
            assert(d.persons@.subrange(0, i + 1).drop_last() =~= d.persons@.subrange(0, i as int));
        }
        push_copies(&mut out, p.id, EntityType::Person, "name", p.names.len());
        push_record_view(&mut out, p.id, EntityType::Person, "gender");
        proof {
            let pre = person_records_of(d.persons@.subrange(0, i as int));
            let c = copies(p.id, EntityType::Person, "name"@, p.names@.len());
            assert((pre + c).push((p.id, EntityType::Person, "gender"@)) =~= pre + c + seq![
                (p.id, EntityType::Person, "gender"@),
            ]);
        }
        i = i + 1;
    }
    proof {
        assert(d.persons@.subrange(0, i as int) =~= d.persons@);
    }
    let ghost b1 = record_views(out@);
    let mut j: usize = 0;
    while j < d.families.len()
        invariant
            j <= d.families@.len(),
            record_views(out@) == b1 + family_records_of(d.families@.subrange(0, j as int)),
        decreases d.families@.len() - j,
    {
        let f = &d.families[j];
        proof {
            assert(d.families@.subrange(0, j + 1).drop_last() =~= d.families@.subrange(0, j as int));
        }
        push_if(&mut out, f.partner1_id.is_some(), f.id, EntityType::Family, "partner1_id");
        push_if(&mut out, f.partner2_id.is_some(), f.id, EntityType::Family, "partner2_id");
        push_copies(&mut out, f.id, EntityType::Family, "child_link", f.child_links.len());
        proof {
            assert(record_views(out@) =~= b1 + family_records_of(d.families@.subrange(0, j + 1)));
        }
        j = j + 1;
    }
    proof {
        assert(d.families@.subrange(0, j as int) =~= d.families@);
    }
    let ghost b2 = record_views(out@);
    let mut k: usize = 0;
    while k < d.events.len()
        invariant
            k <= d.events@.len(),
            record_views(out@) == b2 + event_records_of(d.events@.subrange(0, k as int)),
        decreases d.events@.len() - k,
    {
        let e = &d.events[k];
        proof {
            assert(d.events@.subrange(0, k + 1).drop_last() =~= d.events@.subrange(0, k as int));
        }
        push_record_view(&mut out, e.id, EntityType::Event, "event_type");
        push_if(&mut out, e.date.is_some(), e.id, EntityType::Event, "date");
        push_if(&mut out, e.place_ref.is_some(), e.id, EntityType::Event, "place_ref");
        push_copies(&mut out, e.id, EntityType::Event, "participant", e.participants.len());
        proof {
            assert(record_views(out@) =~= b2 + event_records_of(d.events@.subrange(0, k + 1)));
        }
        k = k + 1;
    }
    proof {
        assert(d.events@.subrange(0, k as int) =~= d.events@);
    }
    let ghost b3 = record_views(out@);
    let mut m: usize = 0;
    while m < d.places.len()
        invariant
            m <= d.places@.len(),
            record_views(out@) == b3 + place_records_of(d.places@.subrange(0, m as int)),
        decreases d.places@.len() - m,
    {
        proof {
            assert(d.places@.subrange(0, m + 1).drop_last() =~= d.places@.subrange(0, m as int));
        }
        push_copies(&mut out, d.places[m].id, EntityType::Place, "name", d.places[m].names.len());
        proof {
            assert(record_views(out@) =~= b3 + place_records_of(d.places@.subrange(0, m + 1)));
        }
        m = m + 1;
    }
    proof {
        assert(d.places@.subrange(0, m as int) =~= d.places@);
    }
    let ghost b4 = record_views(out@);
    let mut q: usize = 0;
    while q < d.sources.len()
        invariant
            q <= d.sources@.len(),
            record_views(out@) == b4 + source_records_of(d.sources@.subrange(0, q as int)),
        decreases d.sources@.len() - q,
    {
        proof {
            assert(d.sources@.subrange(0, q + 1).drop_last() =~= d.sources@.subrange(0, q as int));
        }
        push_record_view(&mut out, d.sources[q].id, EntityType::Source, "title");
        proof {
            assert(record_views(out@) =~= b4 + source_records_of(d.sources@.subrange(0, q + 1)));
        }
        q = q + 1;
    }
    proof {
        assert(d.sources@.subrange(0, q as int) =~= d.sources@);
    }
    let ghost b5 = record_views(out@);
    let mut t: usize = 0;
    while t < d.citations.len()
        invariant
            t <= d.citations@.len(),
            record_views(out@) == b5 + citation_records_of(d.citations@.subrange(0, t as int)),
        decreases d.citations@.len() - t,
    {
        proof {
            assert(d.citations@.subrange(0, t + 1).drop_last() =~= d.citations@.subrange(0, t as int));
        }
        push_record_view(&mut out, d.citations[t].id, EntityType::Citation, "source_id");
        proof {
            assert(record_views(out@) =~= b5 + citation_records_of(d.citations@.subrange(0, t + 1)));
        }
        t = t + 1;
    }
    proof {
        assert(d.citations@.subrange(0, t as int) =~= d.citations@);
        assert(record_views(out@) =~= gramps_records(*d));
        lemma_records_len(*d);
    }
    out
}

/// An assertion of a Gramps import: no citations.
pub open spec fn gspec(id: EntityId, t: EntityType, field: Seq<char>, v: AssertionValue) -> AssertionSpec {
    (id, t, field, v, Seq::<CitationRef>::empty())
}

/// One assertion holding `x` when it is known.
pub open spec fn id_spec(id: EntityId, t: EntityType, field: Seq<char>, x: Option<EntityId>) -> Seq<AssertionSpec> {
    match x {
        Some(v) => seq![gspec(id, t, field, AssertionValue::Id(v))],
        None => Seq::empty(),
    }
}

/// One name assertion per name.
pub open spec fn name_specs(id: EntityId, ns: Seq<PersonName>) -> Seq<AssertionSpec> {
    ns.map_values(|n: PersonName| gspec(id, EntityType::Person, "name"@, AssertionValue::Name(n)))
}

/// A person's assertions: its names, then its gender.
pub open spec fn person_value_specs(ps: Seq<Person>) -> Seq<AssertionSpec>
    decreases ps.len(),
{
    if ps.len() == 0 {
        Seq::empty()
    } else {
        let p = ps.last();
        person_value_specs(ps.drop_last()) + name_specs(p.id, p.names@) + seq![
            gspec(p.id, EntityType::Person, "gender"@, AssertionValue::Gender(p.gender)),
        ]
    }
}

/// One child-link assertion per child.
pub open spec fn child_specs(id: EntityId, cs: Seq<ChildLink>) -> Seq<AssertionSpec> {
    cs.map_values(|c: ChildLink| gspec(id, EntityType::Family, "child_link"@, AssertionValue::ChildLink(c)))
}

/// A family's assertions: each known partner, then its children.
pub open spec fn family_value_specs(fs: Seq<Family>) -> Seq<AssertionSpec>
    decreases fs.len(),
{
    if fs.len() == 0 {
        Seq::empty()
    } else {
        let f = fs.last();
        family_value_specs(fs.drop_last()) + id_spec(f.id, EntityType::Family, "partner1_id"@, f.partner1_id)
            + id_spec(f.id, EntityType::Family, "partner2_id"@, f.partner2_id) + child_specs(f.id, f.child_links@)
    }
}

/// One participant assertion per participant.
pub open spec fn participant_specs(id: EntityId, ps: Seq<EventParticipant>) -> Seq<AssertionSpec> {
    ps.map_values(
        |p: EventParticipant| gspec(id, EntityType::Event, "participant"@, AssertionValue::Participant(p)),
    )
}

/// An event's date assertion, when it has a date.
pub open spec fn date_spec(id: EntityId, d: Option<DateValue>) -> Seq<AssertionSpec> {
    match d {
        Some(v) => seq![gspec(id, EntityType::Event, "date"@, AssertionValue::Date(v))],
        None => Seq::empty(),
    }
}

/// An event's assertions: its type, its date and place when known, then its
/// participants.
pub open spec fn event_value_specs(es: Seq<Event>) -> Seq<AssertionSpec>
    decreases es.len(),
{
    if es.len() == 0 {
        Seq::empty()
    } else {
        let e = es.last();
        event_value_specs(es.drop_last()) + seq![
            gspec(e.id, EntityType::Event, "event_type"@, AssertionValue::EventType(e.event_type)),
        ] + date_spec(e.id, e.date) + id_spec(e.id, EntityType::Event, "place_ref"@, e.place_ref)
            + participant_specs(e.id, e.participants@)
    }
}

/// One name assertion per place name.
pub open spec fn place_name_specs(id: EntityId, ns: Seq<PlaceName>) -> Seq<AssertionSpec> {
    ns.map_values(|n: PlaceName| gspec(id, EntityType::Place, "name"@, AssertionValue::PlaceName(n)))
}

/// A place's assertions: its names.
pub open spec fn place_value_specs(ps: Seq<PlaceRecord>) -> Seq<AssertionSpec>
    decreases ps.len(),
{
    if ps.len() == 0 {
        Seq::empty()
    } else {
        place_value_specs(ps.drop_last()) + place_name_specs(ps.last().id, ps.last().names@)
    }
}

/// A source's title assertion.
pub open spec fn source_value_specs(ss: Seq<Source>) -> Seq<AssertionSpec>
    decreases ss.len(),
{
    if ss.len() == 0 {
        Seq::empty()
    } else {
        source_value_specs(ss.drop_last()).push(
            gspec(ss.last().id, EntityType::Source, "title"@, AssertionValue::Text(ss.last().title)),
        )
    }
}

/// A citation's source assertion.
pub open spec fn citation_value_specs(cs: Seq<Citation>) -> Seq<AssertionSpec>
    decreases cs.len(),
{
    if cs.len() == 0 {
        Seq::empty()
    } else {
        citation_value_specs(cs.drop_last()).push(
            gspec(cs.last().id, EntityType::Citation, "source_id"@, AssertionValue::Id(cs.last().source_id)),
        )
    }
}

/// Every assertion a Gramps import of `d` makes, with its value, in the
/// order it makes them.
pub open spec fn gramps_value_specs(d: GrampsImportData) -> Seq<AssertionSpec> {
    person_value_specs(d.persons@) + family_value_specs(d.families@) + event_value_specs(d.events@)
        + place_value_specs(d.places@) + source_value_specs(d.sources@) + citation_value_specs(d.citations@)
}

proof fn lemma_value_matches_trans(a: AssertionValue, b: AssertionValue, c: AssertionValue)
    requires
        value_matches(a, b),
        value_matches(b, c),
    ensures
        value_matches(a, c),
{
}

/// Records one assertion of a Gramps import, holding a value that matches
/// `want`.
fn push_gramps(
    out: &mut Vec<ImportedAssertionRecord>,
    Ghost(es): Ghost<Seq<AssertionSpec>>,
    id: EntityId,
    t: EntityType,
    field: &str,
    value: AssertionValue,
    Ghost(want): Ghost<AssertionValue>,
    job: &String,
)
    requires
        records_match(old(out)@, es, job@),
        value_matches(value, want),
    ensures
        records_match(final(out)@, es.push(gspec(id, t, field@, want)), job@),
{
    let ghost before = out@;
    let ghost v = value;
    let none: Vec<CitationRef> = Vec::new();
    push_record(out, id, t, field, value, &none, job);
    proof {
        let e2 = es.push(gspec(id, t, field@, want));
        lemma_value_matches_trans(out@.last().assertion.value, v, want);
        assert(none@ =~= Seq::<CitationRef>::empty());
        assert forall|i: int| 0 <= i < out@.len() implies #[trigger] record_matches(out@[i], e2[i], job@) by {
            if i < before.len() {
                assert(out@[i] == out@.drop_last()[i]);
                assert(record_matches(before[i], es[i], job@));
            }
        }
    }
}

fn push_person_values(out: &mut Vec<ImportedAssertionRecord>, Ghost(es0): Ghost<Seq<AssertionSpec>>, ps: &Vec<Person>, job: &String)
    requires
        records_match(old(out)@, es0, job@),
    ensures
        records_match(final(out)@, es0 + person_value_specs(ps@), job@),
{
    let mut i: usize = 0;
    proof {
        assert(es0 + person_value_specs(ps@.subrange(0, 0)) =~= es0);
    }
    while i < ps.len()
        invariant
            i <= ps@.len(),
            records_match(out@, es0 + person_value_specs(ps@.subrange(0, i as int)), job@),
        decreases ps@.len() - i,
    {
        let p = &ps[i];
        let ghost es = es0 + person_value_specs(ps@.subrange(0, i as int));
        let mut j: usize = 0;
        proof {
            assert(es + name_specs(p.id, p.names@.subrange(0, 0)) =~= es);
        }
        while j < p.names.len()
            invariant
                j <= p.names@.len(),
                p == ps@[i as int],
                records_match(out@, es + name_specs(p.id, p.names@.subrange(0, j as int)), job@),
            decreases p.names@.len() - j,
        {
            let ghost n = p.names@[j as int];
            push_gramps(
                out,
                Ghost(es + name_specs(p.id, p.names@.subrange(0, j as int))),
                p.id,
                EntityType::Person,
                "name",
                AssertionValue::Name(p.names[j].clone()),
                Ghost(AssertionValue::Name(n)),
                job,
            );
            proof {
                assert(name_specs(p.id, p.names@.subrange(0, j + 1)) =~= name_specs(p.id, p.names@.subrange(0, j as int)).push(
                    gspec(p.id, EntityType::Person, "name"@, AssertionValue::Name(n)),
                ));
                assert((es + name_specs(p.id, p.names@.subrange(0, j as int))).push(
                    gspec(p.id, EntityType::Person, "name"@, AssertionValue::Name(n)),
                ) =~= es + name_specs(p.id, p.names@.subrange(0, j + 1)));
            }
            j = j + 1;
        }
        proof {
            assert(p.names@.subrange(0, j as int) =~= p.names@);
        }
        push_gramps(
            out,
            Ghost(es + name_specs(p.id, p.names@)),
            p.id,
            EntityType::Person,
            "gender",
            AssertionValue::Gender(p.gender.clone()),
            Ghost(AssertionValue::Gender(p.gender)),
            job,
        );
        proof {
            let q = ps@.subrange(0, i + 1);
            assert(q.drop_last() =~= ps@.subrange(0, i as int));
            assert(q.last() == *p);
            assert((es + name_specs(p.id, p.names@)).push(
                gspec(p.id, EntityType::Person, "gender"@, AssertionValue::Gender(p.gender)),
            ) =~= es0 + person_value_specs(q));
        }
        i = i + 1;
    }
    proof {
        assert(ps@.subrange(0, i as int) =~= ps@);
    }
}

fn push_id_value(
    out: &mut Vec<ImportedAssertionRecord>,
    Ghost(es): Ghost<Seq<AssertionSpec>>,
    id: EntityId,
    t: EntityType,
    field: &str,
    x: Option<EntityId>,
    job: &String,
)
    requires
        records_match(old(out)@, es, job@),
    ensures
        records_match(final(out)@, es + id_spec(id, t, field@, x), job@),
{
    match x {
        Some(v) => {
            push_gramps(out, Ghost(es), id, t, field, AssertionValue::Id(v), Ghost(AssertionValue::Id(v)), job);
            proof {
                assert(es.push(gspec(id, t, field@, AssertionValue::Id(v))) =~= es + id_spec(id, t, field@, x));
            }
        },
        None => {
            proof {
                assert(es + id_spec(id, t, field@, x) =~= es);
            }
        },
    }
}

fn push_family_values(out: &mut Vec<ImportedAssertionRecord>, Ghost(es0): Ghost<Seq<AssertionSpec>>, fs: &Vec<Family>, job: &String)
    requires
        records_match(old(out)@, es0, job@),
    ensures
        records_match(final(out)@, es0 + family_value_specs(fs@), job@),
{
    let mut i: usize = 0;
    proof {
        assert(es0 + family_value_specs(fs@.subrange(0, 0)) =~= es0);
    }
    while i < fs.len()
        invariant
            i <= fs@.len(),
            records_match(out@, es0 + family_value_specs(fs@.subrange(0, i as int)), job@),
        decreases fs@.len() - i,
    {
        let f = &fs[i];
        let ghost es = es0 + family_value_specs(fs@.subrange(0, i as int));
        push_id_value(out, Ghost(es), f.id, EntityType::Family, "partner1_id", f.partner1_id, job);
        let ghost es1 = es + id_spec(f.id, EntityType::Family, "partner1_id"@, f.partner1_id);
        push_id_value(out, Ghost(es1), f.id, EntityType::Family, "partner2_id", f.partner2_id, job);
        let ghost es2 = es1 + id_spec(f.id, EntityType::Family, "partner2_id"@, f.partner2_id);
        let mut j: usize = 0;
        proof {
            assert(es2 + child_specs(f.id, f.child_links@.subrange(0, 0)) =~= es2);
        }
        while j < f.child_links.len()
            invariant
                j <= f.child_links@.len(),
                f == fs@[i as int],
                records_match(out@, es2 + child_specs(f.id, f.child_links@.subrange(0, j as int)), job@),
            decreases f.child_links@.len() - j,
        {
            let ghost c = f.child_links@[j as int];
            push_gramps(
                out,
                Ghost(es2 + child_specs(f.id, f.child_links@.subrange(0, j as int))),
                f.id,
                EntityType::Family,
                "child_link",
                AssertionValue::ChildLink(f.child_links[j].clone()),
                Ghost(AssertionValue::ChildLink(c)),
                job,
            );
            proof {
                assert((es2 + child_specs(f.id, f.child_links@.subrange(0, j as int))).push(
                    gspec(f.id, EntityType::Family, "child_link"@, AssertionValue::ChildLink(c)),
                ) =~= es2 + child_specs(f.id, f.child_links@.subrange(0, j + 1)));
            }
            j = j + 1;
        }
        proof {
            assert(f.child_links@.subrange(0, j as int) =~= f.child_links@);
            let q = fs@.subrange(0, i + 1);
            assert(q.drop_last() =~= fs@.subrange(0, i as int));
            assert(q.last() == *f);
            assert(es2 + child_specs(f.id, f.child_links@) =~= es0 + family_value_specs(q));
        }
        i = i + 1;
    }
    proof {
        assert(fs@.subrange(0, i as int) =~= fs@);
    }
}

fn push_event_values(out: &mut Vec<ImportedAssertionRecord>, Ghost(es0): Ghost<Seq<AssertionSpec>>, evs: &Vec<Event>, job: &String)
    requires
        records_match(old(out)@, es0, job@),
    ensures
        records_match(final(out)@, es0 + event_value_specs(evs@), job@),
{
    let mut i: usize = 0;
    proof {
        assert(es0 + event_value_specs(evs@.subrange(0, 0)) =~= es0);
    }
    while i < evs.len()
        invariant
            i <= evs@.len(),
            records_match(out@, es0 + event_value_specs(evs@.subrange(0, i as int)), job@),
        decreases evs@.len() - i,
    {
        let e = &evs[i];
        let ghost es = es0 + event_value_specs(evs@.subrange(0, i as int));
        push_gramps(
            out,
            Ghost(es),
            e.id,
            EntityType::Event,
            "event_type",
            AssertionValue::EventType(e.event_type.clone()),
            Ghost(AssertionValue::EventType(e.event_type)),
            job,
        );
        let ghost es1 = es.push(gspec(e.id, EntityType::Event, "event_type"@, AssertionValue::EventType(e.event_type)));
        match &e.date {
            Some(d) => {
                push_gramps(
                    out,
                    Ghost(es1),
                    e.id,
                    EntityType::Event,
                    "date",
                    AssertionValue::Date(d.clone()),
                    Ghost(AssertionValue::Date(*d)),
                    job,
                );
                proof {
                    assert(es1.push(gspec(e.id, EntityType::Event, "date"@, AssertionValue::Date(*d))) =~= es1
                        + date_spec(e.id, e.date));
                }
            },
            None => {
                proof {
                    assert(es1 + date_spec(e.id, e.date) =~= es1);
                }
            },
        }
        let ghost es2 = es1 + date_spec(e.id, e.date);
        push_id_value(out, Ghost(es2), e.id, EntityType::Event, "place_ref", e.place_ref, job);
        let ghost es3 = es2 + id_spec(e.id, EntityType::Event, "place_ref"@, e.place_ref);
        let mut j: usize = 0;
        proof {
            assert(es3 + participant_specs(e.id, e.participants@.subrange(0, 0)) =~= es3);
        }
        while j < e.participants.len()
            invariant
                j <= e.participants@.len(),
                e == evs@[i as int],
                records_match(out@, es3 + participant_specs(e.id, e.participants@.subrange(0, j as int)), job@),
            decreases e.participants@.len() - j,
        {
            let ghost p = e.participants@[j as int];
            push_gramps(
                out,
                Ghost(es3 + participant_specs(e.id, e.participants@.subrange(0, j as int))),
                e.id,
                EntityType::Event,
                "participant",
                AssertionValue::Participant(e.participants[j].clone()),
                Ghost(AssertionValue::Participant(p)),
                job,
            );
            proof {
                assert((es3 + participant_specs(e.id, e.participants@.subrange(0, j as int))).push(
                    gspec(e.id, EntityType::Event, "participant"@, AssertionValue::Participant(p)),
                ) =~= es3 + participant_specs(e.id, e.participants@.subrange(0, j + 1)));
            }
            j = j + 1;
        }
        proof {
            assert(e.participants@.subrange(0, j as int) =~= e.participants@);
            let q = evs@.subrange(0, i + 1);
            assert(q.drop_last() =~= evs@.subrange(0, i as int));
            assert(q.last() == *e);
            assert(es3 + participant_specs(e.id, e.participants@) =~= es0 + event_value_specs(q));
        }
        i = i + 1;
    }
    proof {
        assert(evs@.subrange(0, i as int) =~= evs@);
    }
}

fn copy_place_name(n: &PlaceName) -> (r: PlaceName)
    ensures
        r.name@ == n.name@,
        r.language.deep_view() == n.language.deep_view(),
        r.date_range == n.date_range,
{
    PlaceName {
        name: n.name.clone(),
        language: match &n.language {
            Some(l) => Some(l.clone()),
            None => None,
        },
        date_range: match &n.date_range {
            Some(d) => Some(d.clone()),
            None => None,
        },
    }
}

fn push_place_values(out: &mut Vec<ImportedAssertionRecord>, Ghost(es0): Ghost<Seq<AssertionSpec>>, ps: &Vec<PlaceRecord>, job: &String)
    requires
        records_match(old(out)@, es0, job@),
    ensures
        records_match(final(out)@, es0 + place_value_specs(ps@), job@),
{
    let mut i: usize = 0;
    proof {
        assert(es0 + place_value_specs(ps@.subrange(0, 0)) =~= es0);
    }
    while i < ps.len()
        invariant
            i <= ps@.len(),
            records_match(out@, es0 + place_value_specs(ps@.subrange(0, i as int)), job@),
        decreases ps@.len() - i,
    {
        let p = &ps[i];
        let ghost es = es0 + place_value_specs(ps@.subrange(0, i as int));
        let mut j: usize = 0;
        proof {
            assert(es + place_name_specs(p.id, p.names@.subrange(0, 0)) =~= es);
        }
        while j < p.names.len()
            invariant
                j <= p.names@.len(),
                p == ps@[i as int],
                records_match(out@, es + place_name_specs(p.id, p.names@.subrange(0, j as int)), job@),
            decreases p.names@.len() - j,
        {
            let ghost n = p.names@[j as int];
            push_gramps(
                out,
                Ghost(es + place_name_specs(p.id, p.names@.subrange(0, j as int))),
                p.id,
                EntityType::Place,
                "name",
                AssertionValue::PlaceName(copy_place_name(&p.names[j])),
                Ghost(AssertionValue::PlaceName(n)),
                job,
            );
            proof {
                assert((es + place_name_specs(p.id, p.names@.subrange(0, j as int))).push(
                    gspec(p.id, EntityType::Place, "name"@, AssertionValue::PlaceName(n)),
                ) =~= es + place_name_specs(p.id, p.names@.subrange(0, j + 1)));
            }
            j = j + 1;
        }
        proof {
            assert(p.names@.subrange(0, j as int) =~= p.names@);
            let q = ps@.subrange(0, i + 1);
            assert(q.drop_last() =~= ps@.subrange(0, i as int));
            assert(q.last() == *p);
            assert(es + place_name_specs(p.id, p.names@) =~= es0 + place_value_specs(q));
        }
        i = i + 1;
    }
    proof {
        assert(ps@.subrange(0, i as int) =~= ps@);
    }
}

fn push_source_values(out: &mut Vec<ImportedAssertionRecord>, Ghost(es0): Ghost<Seq<AssertionSpec>>, ss: &Vec<Source>, job: &String)
    requires
        records_match(old(out)@, es0, job@),
    ensures
        records_match(final(out)@, es0 + source_value_specs(ss@), job@),
{
    let mut i: usize = 0;
    proof {
        assert(es0 + source_value_specs(ss@.subrange(0, 0)) =~= es0);
    }
    while i < ss.len()
        invariant
            i <= ss@.len(),
            records_match(out@, es0 + source_value_specs(ss@.subrange(0, i as int)), job@),
        decreases ss@.len() - i,
    {
        let s = &ss[i];
        push_gramps(
            out,
            Ghost(es0 + source_value_specs(ss@.subrange(0, i as int))),
            s.id,
            EntityType::Source,
            "title",
            AssertionValue::Text(s.title.clone()),
            Ghost(AssertionValue::Text(s.title)),
            job,
        );
        proof {
            let q = ss@.subrange(0, i + 1);
            assert(q.drop_last() =~= ss@.subrange(0, i as int));
            assert(q.last() == *s);
            assert((es0 + source_value_specs(ss@.subrange(0, i as int))).push(
                gspec(s.id, EntityType::Source, "title"@, AssertionValue::Text(s.title)),
            ) =~= es0 + source_value_specs(q));
        }
        i = i + 1;
    }
    proof {
        assert(ss@.subrange(0, i as int) =~= ss@);
    }
}

fn push_citation_values(out: &mut Vec<ImportedAssertionRecord>, Ghost(es0): Ghost<Seq<AssertionSpec>>, cs: &Vec<Citation>, job: &String)
    requires
        records_match(old(out)@, es0, job@),
    ensures
        records_match(final(out)@, es0 + citation_value_specs(cs@), job@),
{
    let mut i: usize = 0;
    proof {
        assert(es0 + citation_value_specs(cs@.subrange(0, 0)) =~= es0);
    }
    while i < cs.len()
        invariant
            i <= cs@.len(),
            records_match(out@, es0 + citation_value_specs(cs@.subrange(0, i as int)), job@),
        decreases cs@.len() - i,
    {
        let c = &cs[i];
        push_gramps(
            out,
            Ghost(es0 + citation_value_specs(cs@.subrange(0, i as int))),
            c.id,
            EntityType::Citation,
            "source_id",
            AssertionValue::Id(c.source_id),
            Ghost(AssertionValue::Id(c.source_id)),
            job,
        );
        proof {
            let q = cs@.subrange(0, i + 1);
            assert(q.drop_last() =~= cs@.subrange(0, i as int));
            assert(q.last() == *c);
            assert((es0 + citation_value_specs(cs@.subrange(0, i as int))).push(
                gspec(c.id, EntityType::Citation, "source_id"@, AssertionValue::Id(c.source_id)),
            ) =~= es0 + citation_value_specs(q));
        }
        i = i + 1;
    }
    proof {
        assert(cs@.subrange(0, i as int) =~= cs@);
    }
}

proof fn lemma_value_specs_len(d: GrampsImportData)
    ensures
        gramps_value_specs(d).len() == gramps_assertion_count(d),
{
    lemma_person_values_len(d.persons@);
    lemma_family_values_len(d.families@);
    lemma_event_values_len(d.events@);
    lemma_place_values_len(d.places@);
    lemma_source_values_len(d.sources@);
    lemma_citation_values_len(d.citations@);
}

proof fn lemma_person_values_len(ps: Seq<Person>)
    ensures
        person_value_specs(ps).len() == person_assertions(ps),
    decreases ps.len(),
{
    if ps.len() > 0 {
        lemma_person_values_len(ps.drop_last());
    }
}

proof fn lemma_family_values_len(fs: Seq<Family>)
    ensures
        family_value_specs(fs).len() == family_assertions(fs),
    decreases fs.len(),
{
    if fs.len() > 0 {
        lemma_family_values_len(fs.drop_last());
    }
}

proof fn lemma_event_values_len(es: Seq<Event>)
    ensures
        event_value_specs(es).len() == event_assertions(es),
    decreases es.len(),
{
    if es.len() > 0 {
        lemma_event_values_len(es.drop_last());
    }
}

proof fn lemma_place_values_len(ps: Seq<PlaceRecord>)
    ensures
        place_value_specs(ps).len() == place_assertions(ps),
    decreases ps.len(),
{
    if ps.len() > 0 {
        lemma_place_values_len(ps.drop_last());
    }
}

proof fn lemma_source_values_len(ss: Seq<Source>)
    ensures
        source_value_specs(ss).len() == ss.len(),
    decreases ss.len(),
{
    if ss.len() > 0 {
        lemma_source_values_len(ss.drop_last());
    }
}

proof fn lemma_citation_values_len(cs: Seq<Citation>)
    ensures
        citation_value_specs(cs).len() == cs.len(),
    decreases cs.len(),
{
    if cs.len() > 0 {
        lemma_citation_values_len(cs.drop_last());
    }
}

/// The assertions a Gramps import of `d` by job `job` makes, with their
/// values, in the order it makes them: each person's names and gender, each
/// family's known partners and children, each event's type, date, place
/// and participants, each place's names, each source's title and each
/// citation's source; every one confirmed, direct evidence, proposed by the
/// import job, without citations and not reviewed. There are as many as the
/// report counts.
pub fn gramps_import_assertions(job: &str, d: &GrampsImportData) -> (r: Vec<ImportedAssertionRecord>)
    ensures
        records_match(r@, gramps_value_specs(*d), job@),
        r@.len() == gramps_assertion_count(*d),
{
    let job_id = str_to_string(job);
    let mut out: Vec<ImportedAssertionRecord> = Vec::new();
    let ghost e0 = Seq::<AssertionSpec>::empty();
    proof {
        assert(records_match(out@, e0, job_id@));
    }
    push_person_values(&mut out, Ghost(e0), &d.persons, &job_id);
    let ghost e1 = e0 + person_value_specs(d.persons@);
    push_family_values(&mut out, Ghost(e1), &d.families, &job_id);
    let ghost e2 = e1 + family_value_specs(d.families@);
    push_event_values(&mut out, Ghost(e2), &d.events, &job_id);
    let ghost e3 = e2 + event_value_specs(d.events@);
    push_place_values(&mut out, Ghost(e3), &d.places, &job_id);
    let ghost e4 = e3 + place_value_specs(d.places@);
    push_source_values(&mut out, Ghost(e4), &d.sources, &job_id);
    let ghost e5 = e4 + source_value_specs(d.sources@);
    push_citation_values(&mut out, Ghost(e5), &d.citations, &job_id);
    proof {
        assert(e5 + citation_value_specs(d.citations@) =~= gramps_value_specs(*d));
        lemma_value_specs_len(*d);
    }
    out
}

/// Two surnames hold the same values (texts by their characters).
pub open spec fn same_surname(a: Surname, b: Surname) -> bool {
    &&& a.value@ == b.value@
    &&& a.origin_type == b.origin_type
    &&& a.connector.deep_view() == b.connector.deep_view()
}

/// Two names hold the same values (texts by their characters).
pub open spec fn same_name_text(a: PersonName, b: PersonName) -> bool {
    &&& a.name_type == b.name_type
    &&& a.date_range == b.date_range
    &&& a.given_names@ == b.given_names@
    &&& a.call_name.deep_view() == b.call_name.deep_view()
    &&& a.surnames@.len() == b.surnames@.len()
    &&& forall|j: int| 0 <= j < a.surnames@.len() ==> same_surname(#[trigger] a.surnames@[j], b.surnames@[j])
    &&& a.prefix.deep_view() == b.prefix.deep_view()
    &&& a.suffix.deep_view() == b.suffix.deep_view()
    &&& a.sort_as.deep_view() == b.sort_as.deep_view()
}

/// Two persons hold the same values, field by field (texts by their
/// characters, lists element by element).
pub open spec fn same_person(a: Person, b: Person) -> bool {
    &&& a.id == b.id
    &&& a.names@.len() == b.names@.len()
    &&& forall|j: int| 0 <= j < a.names@.len() ==> same_name_text(#[trigger] a.names@[j], b.names@[j])
    &&& same_gender(a.gender, b.gender)
    &&& a.living == b.living
    &&& a.private == b.private
    &&& a.original_xref.deep_view() == b.original_xref.deep_view()
    &&& raw_entries(a._raw_gedcom) == raw_entries(b._raw_gedcom)
}

/// Two families hold the same values.
pub open spec fn same_family(a: Family, b: Family) -> bool {
    &&& a.id == b.id
    &&& a.partner1_id == b.partner1_id
    &&& a.partner2_id == b.partner2_id
    &&& a.partner_link == b.partner_link
    &&& a.couple_relationship == b.couple_relationship
    &&& a.child_links@ == b.child_links@
    &&& a.original_xref.deep_view() == b.original_xref.deep_view()
    &&& raw_entries(a._raw_gedcom) == raw_entries(b._raw_gedcom)
}

/// Two relationships hold the same values.
pub open spec fn same_relationship(a: Relationship, b: Relationship) -> bool {
    &&& a.id == b.id
    &&& a.person1_id == b.person1_id
    &&& a.person2_id == b.person2_id
    &&& a.relationship_type == b.relationship_type
    &&& a.supporting_event == b.supporting_event
    &&& raw_entries(a._raw_gedcom) == raw_entries(b._raw_gedcom)
}

/// Two events hold the same values, their participants in the same order.
pub open spec fn same_event(a: Event, b: Event) -> bool {
    &&& a.id == b.id
    &&& same_event_type(a.event_type, b.event_type)
    &&& a.date == b.date
    &&& a.place_ref == b.place_ref
    &&& a.participants@ == b.participants@
    &&& a.description.deep_view() == b.description.deep_view()
    &&& raw_entries(a._raw_gedcom) == raw_entries(b._raw_gedcom)
}

/// Two places hold the same values.
pub open spec fn same_place(a: PlaceRecord, b: PlaceRecord) -> bool {
    &&& a.id == b.id
    &&& a.place_type == b.place_type
    &&& a.names@.len() == b.names@.len()
    &&& forall|j: int|
        0 <= j < a.names@.len() ==> (#[trigger] a.names@[j]).name@ == b.names@[j].name@
            && a.names@[j].language.deep_view() == b.names@[j].language.deep_view()
            && a.names@[j].date_range == b.names@[j].date_range
}

/// Two sources hold the same values.
pub open spec fn same_source(a: Source, b: Source) -> bool {
    &&& a.id == b.id
    &&& a.title@ == b.title@
    &&& a.author.deep_view() == b.author.deep_view()
    &&& a.publication_info.deep_view() == b.publication_info.deep_view()
    &&& a.abbreviation.deep_view() == b.abbreviation.deep_view()
    &&& repo_ref_views(a.repository_refs@) == repo_ref_views(b.repository_refs@)
    &&& a.original_xref.deep_view() == b.original_xref.deep_view()
    &&& raw_entries(a._raw_gedcom) == raw_entries(b._raw_gedcom)
}

/// Two citations hold the same values.
pub open spec fn same_citation(a: Citation, b: Citation) -> bool {
    &&& a.id == b.id
    &&& a.source_id == b.source_id
    &&& a.volume.deep_view() == b.volume.deep_view()
    &&& a.page.deep_view() == b.page.deep_view()
    &&& a.folio.deep_view() == b.folio.deep_view()
    &&& a.entry.deep_view() == b.entry.deep_view()
    &&& a.confidence_level == b.confidence_level
    &&& a.date_accessed == b.date_accessed
    &&& a.transcription.deep_view() == b.transcription.deep_view()
    &&& raw_entries(a._raw_gedcom) == raw_entries(b._raw_gedcom)
}

/// Two repositories hold the same values.
pub open spec fn same_repository(a: Repository, b: Repository) -> bool {
    &&& a.id == b.id
    &&& a.name@ == b.name@
    &&& a.repository_type == b.repository_type
    &&& a.address.deep_view() == b.address.deep_view()
    &&& a.urls@.map_values(|u: String| u@) == b.urls@.map_values(|u: String| u@)
    &&& a.original_xref.deep_view() == b.original_xref.deep_view()
    &&& raw_entries(a._raw_gedcom) == raw_entries(b._raw_gedcom)
}

/// Two notes hold the same values.
pub open spec fn same_note(a: Note, b: Note) -> bool {
    &&& a.id == b.id
    &&& a.text@ == b.text@
    &&& a.note_type == b.note_type
    &&& a.original_xref.deep_view() == b.original_xref.deep_view()
    &&& raw_entries(a._raw_gedcom) == raw_entries(b._raw_gedcom)
}

/// Two media records hold the same values.
pub open spec fn same_media(a: Media, b: Media) -> bool {
    &&& a.id == b.id
    &&& a.file_path@ == b.file_path@
    &&& a.content_hash@ == b.content_hash@
    &&& a.mime_type@ == b.mime_type@
    &&& a.thumbnail_path.deep_view() == b.thumbnail_path.deep_view()
    &&& a.ocr_text.deep_view() == b.ocr_text.deep_view()
    &&& a.dimensions_px == b.dimensions_px
    &&& a.physical_dimensions_mm == b.physical_dimensions_mm
    &&& a.caption.deep_view() == b.caption.deep_view()
    &&& a.original_xref.deep_view() == b.original_xref.deep_view()
    &&& raw_entries(a._raw_gedcom) == raw_entries(b._raw_gedcom)
}

/// Two results of a Gramps read hold the same records with the same values,
/// in the same order.
pub open spec fn same_gramps_data(a: GrampsImportData, b: GrampsImportData) -> bool {
    &&& a.persons@.len() == b.persons@.len()
    &&& forall|k: int| 0 <= k < a.persons@.len() ==> same_person(#[trigger] a.persons@[k], b.persons@[k])
    &&& a.families@.len() == b.families@.len()
    &&& forall|k: int| 0 <= k < a.families@.len() ==> same_family(#[trigger] a.families@[k], b.families@[k])
    &&& a.relationships@.len() == b.relationships@.len()
    &&& forall|k: int|
        0 <= k < a.relationships@.len() ==> same_relationship(#[trigger] a.relationships@[k], b.relationships@[k])
    &&& a.events@.len() == b.events@.len()
    &&& forall|k: int| 0 <= k < a.events@.len() ==> same_event(#[trigger] a.events@[k], b.events@[k])
    &&& a.places@.len() == b.places@.len()
    &&& forall|k: int| 0 <= k < a.places@.len() ==> same_place(#[trigger] a.places@[k], b.places@[k])
    &&& a.sources@.len() == b.sources@.len()
    &&& forall|k: int| 0 <= k < a.sources@.len() ==> same_source(#[trigger] a.sources@[k], b.sources@[k])
    &&& a.citations@.len() == b.citations@.len()
    &&& forall|k: int| 0 <= k < a.citations@.len() ==> same_citation(#[trigger] a.citations@[k], b.citations@[k])
    &&& a.repositories@.len() == b.repositories@.len()
    &&& forall|k: int|
        0 <= k < a.repositories@.len() ==> same_repository(#[trigger] a.repositories@[k], b.repositories@[k])
    &&& a.notes@.len() == b.notes@.len()
    &&& forall|k: int| 0 <= k < a.notes@.len() ==> same_note(#[trigger] a.notes@[k], b.notes@[k])
    &&& a.media@.len() == b.media@.len()
    &&& forall|k: int| 0 <= k < a.media@.len() ==> same_media(#[trigger] a.media@[k], b.media@[k])
}

/// Families that agree, position by position, on id, partners and children.
pub open spec fn families_alike(f1: Seq<Family>, f2: Seq<Family>) -> bool {
    &&& f1.len() == f2.len()
    &&& forall|k: int|
        0 <= k < f1.len() ==> (#[trigger] f1[k]).id == f2[k].id && f1[k].partner1_id == f2[k].partner1_id
            && f1[k].partner2_id == f2[k].partner2_id && f1[k].child_links@ == f2[k].child_links@
}

proof fn lemma_family_with_id_alike(f1: Seq<Family>, f2: Seq<Family>, id: EntityId, i: int)
    requires
        families_alike(f1, f2),
    ensures
        (family_with_id(f1, id, i) is Some) == (family_with_id(f2, id, i) is Some),
        family_with_id(f1, id, i) matches Some(a) ==> (family_with_id(f2, id, i) matches Some(b)
            && a.partner1_id == b.partner1_id && a.partner2_id == b.partner2_id),
    decreases f1.len() - i,
{
    if 0 <= i < f1.len() {
        assert(f1[i].id == f2[i].id);
        lemma_family_with_id_alike(f1, f2, id, i + 1);
    }
}

proof fn lemma_family_pass_alike(
    acc: Seq<EntityId>,
    keys: Seq<EntityId>,
    recs: Seq<(EntityId, Seq<EntityId>)>,
    f1: Seq<Family>,
    f2: Seq<Family>,
    ev: EntityId,
)
    requires
        families_alike(f1, f2),
    ensures
        family_pass(acc, keys, recs, f1, ev) == family_pass(acc, keys, recs, f2, ev),
    decreases keys.len(),
{
    if keys.len() > 0 {
        lemma_family_pass_alike(acc, keys.drop_last(), recs, f1, f2, ev);
        lemma_family_with_id_alike(f1, f2, keys.last(), 0);
    }
}

proof fn lemma_family_rels_alike(f1: Seq<Family>, f2: Seq<Family>)
    requires
        families_alike(f1, f2),
    ensures
        all_family_rels(f1) == all_family_rels(f2),
    decreases f1.len(),
{
    if f1.len() > 0 {
        let p1 = f1.drop_last();
        let p2 = f2.drop_last();
        assert forall|k: int| 0 <= k < p1.len() implies (#[trigger] p1[k]).id == p2[k].id && p1[k].partner1_id
            == p2[k].partner1_id && p1[k].partner2_id == p2[k].partner2_id && p1[k].child_links@
            == p2[k].child_links@ by {
            assert(p1[k] == f1[k] && p2[k] == f2[k]);
        }
        lemma_family_rels_alike(p1, p2);
        assert(f1.last() == f1[f1.len() - 1] && f2.last() == f2[f2.len() - 1]);
        assert(child_ids(f1.last()) == child_ids(f2.last()));
    }
}

proof fn lemma_empty_raw(a: RawGedcom, b: RawGedcom)
    requires
        raw_entries(a).len() == 0,
        raw_entries(b).len() == 0,
    ensures
        raw_entries(a) == raw_entries(b),
{
    assert(raw_entries(a) =~= raw_entries(b));
}

proof fn lemma_gramps_gender_same(a: Gender, b: Gender, v: Option<Seq<char>>)
    requires
        gramps_gender(a, v),
        gramps_gender(b, v),
    ensures
        same_gender(a, b),
{
}

proof fn lemma_gramps_event_type_same(a: EventType, b: EventType, v: Option<Seq<char>>)
    requires
        gramps_event_type(a, v),
        gramps_event_type(b, v),
    ensures
        same_event_type(a, b),
{
}

/// Reading one Gramps database twice gives the same data: the same records
/// in the same order, with the same values field by field (ids come from
/// the XML ids alone, and each event's participants come in the same order).
pub proof fn law_gramps_read_deterministic(d1: GrampsImportData, d2: GrampsImportData, root: XmlElement)
    requires
        gramps_data_of(d1, root),
        gramps_data_of(d2, root),
    ensures
        same_gramps_data(d1, d2),
{
    let people = section_records(root, "people"@, "person"@);
    let fams = section_records(root, "families"@, "family"@);
    let evs = section_records(root, "events"@, "event"@);
    let places = section_records(root, "places"@, "placeobj"@);
    let srcs = section_records(root, "sources"@, "source"@);
    let repos = section_records(root, "repositories"@, "repository"@);
    let notes = section_records(root, "notes"@, "note"@);
    let media = section_records(root, "media"@, "object"@);
    let crecs = citation_records(section_records(root, "citations"@, "citation"@), ids_of(srcs));
    let place_ids = ids_of(places);
    let repo_ids = ids_of(repos);
    let person_ids = ids_of(people);
    let event_ids = ids_of(evs);
    let precs = event_ref_records(people, "person"@, event_ids);
    let frecs = event_ref_records(fams, "family"@, event_ids);
    assert forall|k: int| 0 <= k < d1.persons@.len() implies same_person(#[trigger] d1.persons@[k], d2.persons@[k]) by {
        let a = d1.persons@[k];
        let b = d2.persons@[k];
        assert(gramps_person(a, people[k].0, people[k].1));
        assert(gramps_person(b, people[k].0, people[k].1));
        lemma_empty_raw(a._raw_gedcom, b._raw_gedcom);
        lemma_gramps_gender_same(a.gender, b.gender, child_text(people[k].1, "gender"@));
        assert forall|j: int| 0 <= j < a.names@.len() implies same_name_text(#[trigger] a.names@[j], b.names@[j]) by {
            assert(j == 0);
            assert forall|i: int| 0 <= i < a.names@[j].surnames@.len() implies same_surname(
                #[trigger] a.names@[j].surnames@[i],
                b.names@[j].surnames@[i],
            ) by {
                assert(i == 0);
            }
        }
    }
    assert forall|k: int| 0 <= k < d1.families@.len() implies same_family(#[trigger] d1.families@[k], d2.families@[k]) by {
        let a = d1.families@[k];
        let b = d2.families@[k];
        assert(gramps_family(a, fams[k].0, fams[k].1, person_ids));
        assert(gramps_family(b, fams[k].0, fams[k].1, person_ids));
        lemma_empty_raw(a._raw_gedcom, b._raw_gedcom);
        assert forall|i: int| 0 <= i < a.child_links@.len() implies a.child_links@[i] == b.child_links@[i] by {
            assert(a.child_links@[i].child_id == b.child_links@[i].child_id);
        }
        assert(a.child_links@ =~= b.child_links@);
    }
    assert(families_alike(d1.families@, d2.families@));
    lemma_family_rels_alike(d1.families@, d2.families@);
    assert forall|k: int| 0 <= k < d1.relationships@.len() implies same_relationship(
        #[trigger] d1.relationships@[k],
        d2.relationships@[k],
    ) by {
        let v = all_family_rels(d1.families@)[k];
        assert(rel_matches(d1.relationships@[k], v));
        assert(rel_matches(d2.relationships@[k], v));
        lemma_empty_raw(d1.relationships@[k]._raw_gedcom, d2.relationships@[k]._raw_gedcom);
    }
    assert(events_ok(d1.events@, evs, place_ids, precs, frecs, d1.families@));
    assert(events_ok(d2.events@, evs, place_ids, precs, frecs, d2.families@));
    assert forall|k: int| 0 <= k < d1.events@.len() implies same_event(#[trigger] d1.events@[k], d2.events@[k]) by {
        let a = d1.events@[k];
        let b = d2.events@[k];
        assert(0 <= k < evs.len());
        assert(gramps_event(a, evs[k].0, evs[k].1, place_ids));
        assert(participants_are(
            a,
            event_participants(a.id, precs, frecs, d1.families@),
        ));
        assert(gramps_event(b, evs[k].0, evs[k].1, place_ids));
        assert(participants_are(
            b,
            event_participants(b.id, precs, frecs, d2.families@),
        ));
        lemma_empty_raw(a._raw_gedcom, b._raw_gedcom);
        lemma_gramps_event_type_same(a.event_type, b.event_type, attr(evs[k].1, "type"@));
        lemma_empty_raw(a._raw_gedcom, b._raw_gedcom);
        lemma_gramps_event_type_same(a.event_type, b.event_type, attr(evs[k].1, "type"@));
        lemma_family_pass_alike(
            person_pass(Seq::empty(), distinct_keys(precs), precs, a.id),
            distinct_keys(frecs),
            frecs,
            d1.families@,
            d2.families@,
            a.id,
        );
        let parts = event_participants(a.id, precs, frecs, d1.families@);
        assert forall|i: int| 0 <= i < a.participants@.len() implies a.participants@[i] == b.participants@[i] by {
            assert(a.participants@[i].person_id == parts[i]);
            assert(b.participants@[i].person_id == parts[i]);
        }
        assert(a.participants@ =~= b.participants@);
    }
    assert forall|k: int| 0 <= k < d1.places@.len() implies same_place(#[trigger] d1.places@[k], d2.places@[k]) by {
        assert(gramps_place(d1.places@[k], places[k].0, places[k].1));
        assert(gramps_place(d2.places@[k], places[k].0, places[k].1));
    }
    assert forall|k: int| 0 <= k < d1.sources@.len() implies same_source(#[trigger] d1.sources@[k], d2.sources@[k]) by {
        assert(gramps_source(d1.sources@[k], srcs[k].0, srcs[k].1, repo_ids));
        assert(gramps_source(d2.sources@[k], srcs[k].0, srcs[k].1, repo_ids));
        lemma_empty_raw(d1.sources@[k]._raw_gedcom, d2.sources@[k]._raw_gedcom);
    }
    assert forall|k: int| 0 <= k < d1.citations@.len() implies same_citation(
        #[trigger] d1.citations@[k],
        d2.citations@[k],
    ) by {
        assert(gramps_citation(d1.citations@[k], crecs[k].0, crecs[k].1, crecs[k].2));
        assert(gramps_citation(d2.citations@[k], crecs[k].0, crecs[k].1, crecs[k].2));
        lemma_empty_raw(d1.citations@[k]._raw_gedcom, d2.citations@[k]._raw_gedcom);
    }
    assert forall|k: int| 0 <= k < d1.repositories@.len() implies same_repository(
        #[trigger] d1.repositories@[k],
        d2.repositories@[k],
    ) by {
        assert(gramps_repository(d1.repositories@[k], repos[k].0, repos[k].1));
        assert(gramps_repository(d2.repositories@[k], repos[k].0, repos[k].1));
        lemma_empty_raw(d1.repositories@[k]._raw_gedcom, d2.repositories@[k]._raw_gedcom);
    }
    assert forall|k: int| 0 <= k < d1.notes@.len() implies same_note(#[trigger] d1.notes@[k], d2.notes@[k]) by {
        assert(gramps_note(d1.notes@[k], notes[k].0, notes[k].1));
        assert(gramps_note(d2.notes@[k], notes[k].0, notes[k].1));
        lemma_empty_raw(d1.notes@[k]._raw_gedcom, d2.notes@[k]._raw_gedcom);
    }
    assert forall|k: int| 0 <= k < d1.media@.len() implies same_media(#[trigger] d1.media@[k], d2.media@[k]) by {
        assert(gramps_media(d1.media@[k], media[k].0, media[k].1));
        assert(gramps_media(d2.media@[k], media[k].0, media[k].1));
        lemma_empty_raw(d1.media@[k]._raw_gedcom, d2.media@[k]._raw_gedcom);
    }
}

} // verus!
