//! GEDCOM repositories, sources and citations to the domain model.
use crate::evidence::{Citation, CitationRef, Repository, RepositoryRef, RepositoryType, Source};
use crate::gedcom::custom::{custom_key_of, custom_tag, serialize_subtree};
use crate::gedcom::mapping::{
    insert_custom_children, keep_custom_children, keep_xref, last_tagged_value, last_value_of,
    nodes_tagged, tag_is, value_or_empty, xref_entries,
};
use crate::gedcom::tree::GedcomNode;
use crate::raw::{keys_unique, raw_entries, RawGedcom};
use crate::text::{
    chars_of, parse_u8_chars, parse_u8_spec, str_eq, str_to_string, trim, trim_bounds, trimmed,
};
use crate::types::EntityId;
use vstd::prelude::*;

verus! {

/// A name, or a fallback when there is none.
pub open spec fn value_or(v: Option<Seq<char>>, fallback: Seq<char>) -> Seq<char> {
    match v {
        Some(s) => s,
        None => fallback,
    }
}

/// The values of the children tagged `tag` that have one, in order.
pub open spec fn tagged_values(nodes: Seq<GedcomNode>, tag: Seq<char>) -> Seq<Seq<char>>
    decreases nodes.len(),
{
    if nodes.len() == 0 {
        Seq::empty()
    } else if nodes.last().tag@ == tag && nodes.last().value is Some {
        tagged_values(nodes.drop_last(), tag).push(nodes.last().value->0@)
    } else {
        tagged_values(nodes.drop_last(), tag)
    }
}

pub open spec fn string_views(v: Seq<String>) -> Seq<Seq<char>> {
    v.map_values(|s: String| s@)
}

/// A repository as mapped from a `REPO` record (all but its id).
pub open spec fn repository_from_node(r: Repository, node: GedcomNode) -> bool {
    &&& r.name@ == value_or(
        last_value_of(node.children@, "NAME"@),
        value_or(node.value.deep_view(), "Unnamed repository"@),
    )
    &&& r.repository_type is Archive
    &&& r.address.deep_view() == last_tagged_value(node.children@, "ADDR"@)
    &&& string_views(r.urls@) == tagged_values(node.children@, "WWW"@)
    &&& r.original_xref == node.xref
    &&& keys_unique(raw_entries(r._raw_gedcom))
    &&& raw_entries(r._raw_gedcom) == insert_custom_children(
        xref_entries(node.xref.deep_view()),
        node.children@,
    )
}

fn value_or_text(v: &Option<String>, fallback: &str) -> (r: String)
    ensures
        r@ == value_or(v.deep_view(), fallback@),
{
    match v {
        Some(s) => s.clone(),
        None => str_to_string(fallback),
    }
}

fn map_repository_node(node: &GedcomNode) -> (r: Repository)
    ensures
        repository_from_node(r, *node),
{
    let mut name = value_or_text(&node.value, "Unnamed repository");
    let mut address: Option<String> = None;
    let mut urls: Vec<String> = Vec::new();
    let ghost init = value_or(node.value.deep_view(), "Unnamed repository"@);
    let mut i: usize = 0;
    while i < node.children.len()
        invariant
            i <= node.children@.len(),
            name@ == value_or(last_value_of(node.children@.subrange(0, i as int), "NAME"@), init),
            address.deep_view() == last_tagged_value(node.children@.subrange(0, i as int), "ADDR"@),
            string_views(urls@) == tagged_values(node.children@.subrange(0, i as int), "WWW"@),
        decreases node.children@.len() - i,
    {
        proof {
            assert(node.children@.subrange(0, i + 1).drop_last() =~= node.children@.subrange(
                0,
                i as int,
            ));
            reveal_strlit("NAME");
            reveal_strlit("ADDR");
            reveal_strlit("WWW");
        }
        let child = &node.children[i];
        if tag_is(child, "NAME") {
            proof {
                assert(child.tag@[0] == 'N' && "ADDR"@[0] == 'A' && "WWW"@[0] == 'W');
            }
            match &child.value {
                Some(v) => {
                    name = v.clone();
                },
                None => {},
            }
        } else if tag_is(child, "ADDR") {
            proof {
                assert(child.tag@[0] == 'A' && "WWW"@[0] == 'W');
            }
            address = child.value.clone();
        } else if tag_is(child, "WWW") {
            match &child.value {
                Some(v) => {
                    let ghost before = urls@;
                    urls.push(v.clone());
                    proof {
                        assert(string_views(urls@) =~= string_views(before).push(v@));
                    }
                },
                None => {},
            }
        }
        i = i + 1;
    }
    proof {
        assert(node.children@.subrange(0, i as int) =~= node.children@);
    }
    let mut raw = RawGedcom::new();
    keep_xref(&node.xref, &mut raw);
    keep_custom_children(node, &mut raw);
    Repository {
        id: EntityId::new(),
        name,
        repository_type: RepositoryType::Archive,
        address,
        urls,
        original_xref: node.xref.clone(),
        _raw_gedcom: raw,
    }
}

/// A table from cross-references to ids.
pub open spec fn table_view(t: Seq<(String, EntityId)>) -> Seq<(Seq<char>, EntityId)> {
    t.map_values(|e: (String, EntityId)| (e.0@, e.1))
}

/// The id last recorded for `key`.
pub open spec fn lookup_last(t: Seq<(Seq<char>, EntityId)>, key: Seq<char>) -> Option<EntityId>
    decreases t.len(),
{
    if t.len() == 0 {
        None
    } else if t.last().0 == key {
        Some(t.last().1)
    } else {
        lookup_last(t.drop_last(), key)
    }
}

pub(crate) fn table_get(t: &[(String, EntityId)], key: &str) -> (r: Option<EntityId>)
    ensures
        r == lookup_last(table_view(t@), key@),
{
    let mut j = t.len();
    proof {
        assert(table_view(t@).subrange(0, j as int) =~= table_view(t@));
    }
    while j > 0
        invariant
            j <= t@.len(),
            lookup_last(table_view(t@), key@) == lookup_last(
                table_view(t@).subrange(0, j as int),
                key@,
            ),
        decreases j,
    {
        proof {
            assert(table_view(t@).subrange(0, j as int).drop_last() =~= table_view(t@).subrange(
                0,
                j - 1,
            ));
        }
        if str_eq(t[j - 1].0.as_str(), key) {
            return Some(t[j - 1].1);
        }
        j = j - 1;
    }
    None
}

/// The `REPO` references of a source that name a known repository.
pub open spec fn known_repo_refs(nodes: Seq<GedcomNode>, t: Seq<(Seq<char>, EntityId)>) -> Seq<
    GedcomNode,
>
    decreases nodes.len(),
{
    if nodes.len() == 0 {
        Seq::empty()
    } else {
        let p = known_repo_refs(nodes.drop_last(), t);
        let n = nodes.last();
        if n.tag@ == "REPO"@ && n.value is Some && lookup_last(t, n.value->0@) is Some {
            p.push(n)
        } else {
            p
        }
    }
}

/// A repository reference as mapped from a `REPO` reference.
pub open spec fn repo_ref_from(r: RepositoryRef, n: GedcomNode, t: Seq<(Seq<char>, EntityId)>) -> bool {
    &&& Some(r.repository_id) == lookup_last(t, n.value->0@)
    &&& r.call_number.deep_view() == last_tagged_value(n.children@, "CALN"@)
    &&& r.media_type.deep_view() == last_tagged_value(n.children@, "MEDI"@)
}

/// A source as mapped from a `SOUR` record (all but its id).
pub open spec fn source_from_node(s: Source, node: GedcomNode, t: Seq<(Seq<char>, EntityId)>) -> bool {
    let refs = known_repo_refs(node.children@, t);
    &&& s.title@ == value_or(
        last_value_of(node.children@, "TITL"@),
        value_or(node.value.deep_view(), "Untitled source"@),
    )
    &&& s.author.deep_view() == last_tagged_value(node.children@, "AUTH"@)
    &&& s.publication_info.deep_view() == last_tagged_value(node.children@, "PUBL"@)
    &&& s.abbreviation.deep_view() == last_tagged_value(node.children@, "ABBR"@)
    &&& s.repository_refs@.len() == refs.len()
    &&& forall|i: int|
        0 <= i < refs.len() ==> #[trigger] repo_ref_from(s.repository_refs@[i], refs[i], t)
    &&& s.original_xref == node.xref
    &&& keys_unique(raw_entries(s._raw_gedcom))
    &&& raw_entries(s._raw_gedcom) == insert_custom_children(
        xref_entries(node.xref.deep_view()),
        node.children@,
    )
}

fn map_repo_ref(n: &GedcomNode, id: EntityId) -> (r: RepositoryRef)
    ensures
        r.repository_id == id,
        r.call_number.deep_view() == last_tagged_value(n.children@, "CALN"@),
        r.media_type.deep_view() == last_tagged_value(n.children@, "MEDI"@),
{
    let mut call_number: Option<String> = None;
    let mut media_type: Option<String> = None;
    let mut i: usize = 0;
    while i < n.children.len()
        invariant
            i <= n.children@.len(),
            call_number.deep_view() == last_tagged_value(n.children@.subrange(0, i as int), "CALN"@),
            media_type.deep_view() == last_tagged_value(n.children@.subrange(0, i as int), "MEDI"@),
        decreases n.children@.len() - i,
    {
        proof {
            assert(n.children@.subrange(0, i + 1).drop_last() =~= n.children@.subrange(0, i as int));
            reveal_strlit("CALN");
            reveal_strlit("MEDI");
        }
        let c = &n.children[i];
        if tag_is(c, "CALN") {
            proof {
                assert(c.tag@[0] == 'C' && "MEDI"@[0] == 'M');
            }
            call_number = c.value.clone();
        } else if tag_is(c, "MEDI") {
            media_type = c.value.clone();
        }
        i = i + 1;
    }
    proof {
        assert(n.children@.subrange(0, i as int) =~= n.children@);
    }
    RepositoryRef { repository_id: id, call_number, media_type }
}

fn map_source_node(node: &GedcomNode, repos: &Vec<(String, EntityId)>) -> (r: Source)
    ensures
        source_from_node(r, *node, table_view(repos@)),
{
    let ghost t = table_view(repos@);
    let mut title = value_or_text(&node.value, "Untitled source");
    let mut author: Option<String> = None;
    let mut publication_info: Option<String> = None;
    let mut abbreviation: Option<String> = None;
    let mut refs: Vec<RepositoryRef> = Vec::new();
    let ghost init = value_or(node.value.deep_view(), "Untitled source"@);
    let mut i: usize = 0;
    while i < node.children.len()
        invariant
            i <= node.children@.len(),
            t == table_view(repos@),
            title@ == value_or(last_value_of(node.children@.subrange(0, i as int), "TITL"@), init),
            author.deep_view() == last_tagged_value(node.children@.subrange(0, i as int), "AUTH"@),
            publication_info.deep_view() == last_tagged_value(
                node.children@.subrange(0, i as int),
                "PUBL"@,
            ),
            abbreviation.deep_view() == last_tagged_value(node.children@.subrange(0, i as int), "ABBR"@),
            refs@.len() == known_repo_refs(node.children@.subrange(0, i as int), t).len(),
            forall|k: int|
                0 <= k < refs@.len() ==> #[trigger] repo_ref_from(
                    refs@[k],
                    known_repo_refs(node.children@.subrange(0, i as int), t)[k],
                    t,
                ),
        decreases node.children@.len() - i,
    {
        proof {
            assert(node.children@.subrange(0, i + 1).drop_last() =~= node.children@.subrange(
                0,
                i as int,
            ));
            reveal_strlit("TITL");
            reveal_strlit("AUTH");
            reveal_strlit("PUBL");
            reveal_strlit("ABBR");
            reveal_strlit("REPO");
        }
        let child = &node.children[i];
        if tag_is(child, "TITL") {
            proof {
                assert(child.tag@[0] == 'T' && "AUTH"@[0] == 'A' && "PUBL"@[0] == 'P' && "ABBR"@[0]
                    == 'A' && "REPO"@[0] == 'R');
            }
            match &child.value {
                Some(v) => {
                    title = v.clone();
                },
                None => {},
            }
        } else if tag_is(child, "AUTH") {
            proof {
                assert(child.tag@[1] == 'U' && "PUBL"@[0] == 'P' && "ABBR"@[1] == 'B' && "REPO"@[0]
                    == 'R');
            }
            author = child.value.clone();
        } else if tag_is(child, "PUBL") {
            proof {
                assert(child.tag@[0] == 'P' && "ABBR"@[0] == 'A' && "REPO"@[0] == 'R');
            }
            publication_info = child.value.clone();
        } else if tag_is(child, "ABBR") {
            proof {
                assert(child.tag@[0] == 'A' && "REPO"@[0] == 'R');
            }
            abbreviation = child.value.clone();
        } else if tag_is(child, "REPO") {
            match &child.value {
                Some(v) => {
                    match table_get(repos, v.as_str()) {
                        Some(id) => {
                            refs.push(map_repo_ref(child, id));
                        },
                        None => {},
                    }
                },
                None => {},
            }
        }
        i = i + 1;
    }
    proof {
        assert(node.children@.subrange(0, i as int) =~= node.children@);
    }
    let mut raw = RawGedcom::new();
    keep_xref(&node.xref, &mut raw);
    keep_custom_children(node, &mut raw);
    Source {
        id: EntityId::new(),
        title,
        author,
        publication_info,
        abbreviation,
        repository_refs: refs,
        original_xref: node.xref.clone(),
        _raw_gedcom: raw,
    }
}

/// The last child tagged `tag`, if any.
pub open spec fn last_tagged_node(nodes: Seq<GedcomNode>, tag: Seq<char>) -> Option<GedcomNode>
    decreases nodes.len(),
{
    if nodes.len() == 0 {
        None
    } else if nodes.last().tag@ == tag {
        Some(nodes.last())
    } else {
        last_tagged_node(nodes.drop_last(), tag)
    }
}

/// The certainty (`QUAY`) of a citation: its last `QUAY` read as a `u8`.
pub open spec fn quay_of(children: Seq<GedcomNode>) -> Option<u8> {
    match last_tagged_node(children, "QUAY"@) {
        Some(n) => parse_u8_spec(trim(value_or_empty(n.value.deep_view()))),
        None => None,
    }
}

/// The value of the last node of `ns`, or `fallback` when `ns` is empty.
pub open spec fn last_value_or(ns: Seq<GedcomNode>, fallback: Option<Seq<char>>) -> Option<Seq<char>> {
    if ns.len() == 0 {
        fallback
    } else {
        ns.last().value.deep_view()
    }
}

/// The transcription of a citation: the value of the last `TEXT` inside its
/// `DATA` sub-records.
pub open spec fn transcription_of(children: Seq<GedcomNode>) -> Option<Seq<char>>
    decreases children.len(),
{
    if children.len() == 0 {
        None
    } else if children.last().tag@ == "DATA"@ {
        last_value_or(
            nodes_tagged(children.last().children@, "TEXT"@),
            transcription_of(children.drop_last()),
        )
    } else {
        transcription_of(children.drop_last())
    }
}

/// A citation as mapped from a `SOUR` citation (all but its id).
pub open spec fn citation_from_node(c: Citation, node: GedcomNode) -> bool {
    &&& c.volume is None
    &&& c.folio is None
    &&& c.entry is None
    &&& c.date_accessed is None
    &&& c.page.deep_view() == last_tagged_value(node.children@, "PAGE"@)
    &&& c.confidence_level == quay_of(node.children@)
    &&& c.transcription.deep_view() == transcription_of(node.children@)
    &&& keys_unique(raw_entries(c._raw_gedcom))
    &&& raw_entries(c._raw_gedcom) == insert_custom_children(Seq::empty(), node.children@)
}

/// Parses a value, trimmed, as a `u8`.
pub fn parse_u8(value: Option<&str>) -> (r: Option<u8>)
    ensures
        r == parse_u8_spec(trim(
            match value {
                Some(v) => v@,
                None => Seq::empty(),
            },
        )),
{
    let t = match value {
        Some(v) => trimmed(v),
        None => trimmed(""),
    };
    proof {
        reveal_strlit("");
        assert(""@ =~= Seq::<char>::empty());
    }
    let cs = chars_of(t.as_str());
    proof {
        assert(cs@.subrange(0, cs@.len() as int) =~= cs@);
    }
    parse_u8_chars(cs.as_slice(), 0, cs.len())
}

fn read_data_texts(data: &GedcomNode, t: &mut Option<String>)
    ensures
        final(t).deep_view() == last_value_or(nodes_tagged(data.children@, "TEXT"@), old(t).deep_view()),
{
    let mut i: usize = 0;
    proof {
        assert(data.children@.subrange(0, 0) =~= Seq::<GedcomNode>::empty());
    }
    while i < data.children.len()
        invariant
            i <= data.children@.len(),
            t.deep_view() == last_value_or(
                nodes_tagged(data.children@.subrange(0, i as int), "TEXT"@),
                old(t).deep_view(),
            ),
        decreases data.children@.len() - i,
    {
        proof {
            assert(data.children@.subrange(0, i + 1).drop_last() =~= data.children@.subrange(0, i as int));
        }
        if tag_is(&data.children[i], "TEXT") {
            *t = data.children[i].value.clone();
        }
        i = i + 1;
    }
    proof {
        assert(data.children@.subrange(0, i as int) =~= data.children@);
    }
}

fn map_citation_node(node: &GedcomNode, source_id: EntityId) -> (r: Citation)
    ensures
        citation_from_node(r, *node),
        r.source_id == source_id,
{
    let mut page: Option<String> = None;
    let mut confidence_level: Option<u8> = None;
    let mut transcription: Option<String> = None;
    let mut i: usize = 0;
    while i < node.children.len()
        invariant
            i <= node.children@.len(),
            page.deep_view() == last_tagged_value(node.children@.subrange(0, i as int), "PAGE"@),
            confidence_level == quay_of(node.children@.subrange(0, i as int)),
            transcription.deep_view() == transcription_of(node.children@.subrange(0, i as int)),
        decreases node.children@.len() - i,
    {
        proof {
            assert(node.children@.subrange(0, i + 1).drop_last() =~= node.children@.subrange(
                0,
                i as int,
            ));
            reveal_strlit("PAGE");
            reveal_strlit("QUAY");
            reveal_strlit("DATA");
        }
        let child = &node.children[i];
        if tag_is(child, "PAGE") {
            proof {
                assert(child.tag@[0] == 'P' && "QUAY"@[0] == 'Q' && "DATA"@[0] == 'D');
            }
            page = child.value.clone();
        } else if tag_is(child, "QUAY") {
            proof {
                assert(child.tag@[0] == 'Q' && "DATA"@[0] == 'D');
            }
            confidence_level = parse_u8(
                match &child.value {
                    Some(v) => Some(v.as_str()),
                    None => None,
                },
            );
        } else if tag_is(child, "DATA") {
            read_data_texts(child, &mut transcription);
        }
        i = i + 1;
    }
    proof {
        assert(node.children@.subrange(0, i as int) =~= node.children@);
    }
    let mut raw = RawGedcom::new();
    keep_custom_children(node, &mut raw);
    Citation {
        id: EntityId::new(),
        source_id,
        volume: None,
        page,
        folio: None,
        entry: None,
        confidence_level,
        date_accessed: None,
        transcription,
        _raw_gedcom: raw,
    }
}

/// A trimmed source reference that looks like a cross-reference: "@...@".
pub open spec fn is_xref_like(t: Seq<char>) -> bool {
    t.len() > 0 && t[0] == '@' && t.last() == '@'
}

/// The known source that a citation's value refers to, if any.
pub open spec fn existing_source(value: Option<Seq<char>>, t: Seq<(Seq<char>, EntityId)>) -> Option<
    EntityId,
> {
    match value {
        Some(raw) => if is_xref_like(trim(raw)) {
            lookup_last(t, trim(raw))
        } else {
            None
        },
        None => None,
    }
}

/// The title of the source made for a citation that names no known source:
/// its text, or "Unspecified source".
pub open spec fn new_source_title(value: Option<Seq<char>>) -> Seq<char> {
    match value {
        Some(raw) => if !is_xref_like(trim(raw)) && trim(raw).len() > 0 {
            trim(raw)
        } else {
            "Unspecified source"@
        },
        None => "Unspecified source"@,
    }
}

/// A source made for a citation, with only a title.
pub open spec fn created_source(s: Source, title: Seq<char>) -> bool {
    &&& s.title@ == title
    &&& s.author is None
    &&& s.publication_info is None
    &&& s.abbreviation is None
    &&& s.repository_refs@.len() == 0
    &&& s.original_xref is None
    &&& raw_entries(s._raw_gedcom).len() == 0
}

fn resolve_source_id(
    value: &Option<String>,
    table: &Vec<(String, EntityId)>,
    sources: &mut Vec<Source>,
) -> (r: EntityId)
    ensures
        match existing_source(value.deep_view(), table_view(table@)) {
            Some(id) => r == id && final(sources)@ == old(sources)@,
            None => {
                &&& final(sources)@.len() == old(sources)@.len() + 1
                &&& final(sources)@.drop_last() == old(sources)@
                &&& final(sources)@.last().id == r
                &&& created_source(final(sources)@.last(), new_source_title(value.deep_view()))
            },
        },
{
    let title = match value {
        Some(raw) => {
            let t = trimmed(raw.as_str());
            let tc = chars_of(t.as_str());
            let xref_like = tc.len() > 0 && tc[0] == '@' && tc[tc.len() - 1] == '@';
            if xref_like {
                match table_get(table, t.as_str()) {
                    Some(found) => {
                        return found;
                    },
                    None => {},
                }
                str_to_string("Unspecified source")
            } else if tc.len() > 0 {
                t
            } else {
                str_to_string("Unspecified source")
            }
        },
        None => str_to_string("Unspecified source"),
    };
    let source = Source {
        id: EntityId::new(),
        title,
        author: None,
        publication_info: None,
        abbreviation: None,
        repository_refs: Vec::new(),
        original_xref: None,
        _raw_gedcom: RawGedcom::new(),
    };
    let id = source.id;
    let ghost before = sources@;
    sources.push(source);
    proof {
        assert(sources@.drop_last() =~= before);
    }
    id
}

/// A citation attached to a record.
#[derive(Debug, Clone, PartialEq, Eq)]
pub struct EntityCitationRef {
    pub owner_tag: String,
    pub owner_xref: Option<String>,
    pub citation_ref: CitationRef,
}

/// A citation attached to a node inside a record.
#[derive(Debug, Clone, PartialEq, Eq)]
pub struct NodeCitationRef {
    pub root_tag: String,
    pub root_xref: Option<String>,
    pub owner_tag: String,
    pub citation_ref: CitationRef,
}

/// Repositories, sources and citations of a GEDCOM file, with where each
/// citation was attached.
#[derive(Debug, Clone, PartialEq, Eq)]
pub struct SourceChainMapping {
    pub repositories: Vec<Repository>,
    pub sources: Vec<Source>,
    pub citations: Vec<Citation>,
    pub entity_citation_refs: Vec<EntityCitationRef>,
    pub node_citation_refs: Vec<NodeCitationRef>,
}

/// Where a citation stands: the record, the node holding it, and the `SOUR`
/// citation node.
pub type Site = (GedcomNode, GedcomNode, GedcomNode);

/// The citations below `nodes` (children of `holder`, inside record
/// `owner`), in document order; a citation's own sub-records are searched too.
pub open spec fn sites_in(owner: GedcomNode, holder: GedcomNode, nodes: Seq<GedcomNode>) -> Seq<Site>
    decreases nodes,
{
    if nodes.len() == 0 {
        Seq::empty()
    } else {
        let c = nodes[0];
        (if c.tag@ == "SOUR"@ {
            seq![(owner, holder, c)]
        } else {
            Seq::empty()
        }) + sites_in(owner, c, c.children@) + sites_in(owner, holder, nodes.subrange(1, nodes.len() as int))
    }
}

/// What one child `x` of `holder` adds to the citations.
pub open spec fn site_part(owner: GedcomNode, holder: GedcomNode, x: GedcomNode) -> Seq<Site> {
    (if x.tag@ == "SOUR"@ {
        seq![(owner, holder, x)]
    } else {
        Seq::empty()
    }) + sites_in(owner, x, x.children@)
}

pub proof fn lemma_sites_in_push(owner: GedcomNode, holder: GedcomNode, nodes: Seq<GedcomNode>, x: GedcomNode)
    ensures
        sites_in(owner, holder, nodes.push(x)) == sites_in(owner, holder, nodes) + site_part(owner, holder, x),
    decreases nodes.len(),
{
    let p = nodes.push(x);
    if nodes.len() == 0 {
        assert(p.subrange(1, p.len() as int) =~= Seq::<GedcomNode>::empty());
        assert(p[0] == x);
        assert(sites_in(owner, holder, Seq::<GedcomNode>::empty()) == Seq::<Site>::empty());
        assert(sites_in(owner, holder, p) =~= sites_in(owner, holder, nodes) + site_part(owner, holder, x));
    } else {
        let rest = nodes.subrange(1, nodes.len() as int);
        assert(p.subrange(1, p.len() as int) =~= rest.push(x));
        assert(p[0] == nodes[0]);
        lemma_sites_in_push(owner, holder, rest, x);
        assert(sites_in(owner, holder, p) =~= sites_in(owner, holder, nodes) + site_part(owner, holder, x));
    }
}

/// How many of `sites` name no known source (each gets a new source).
pub open spec fn creation_count(sites: Seq<Site>, t: Seq<(Seq<char>, EntityId)>) -> nat
    decreases sites.len(),
{
    if sites.len() == 0 {
        0
    } else {
        creation_count(sites.drop_last(), t) + if existing_source(
            sites.last().2.value.deep_view(),
            t,
        ) is None {
            1nat
        } else {
            0nat
        }
    }
}

pub proof fn lemma_creation_count_append(a: Seq<Site>, b: Seq<Site>, t: Seq<(Seq<char>, EntityId)>)
    ensures
        creation_count(a + b, t) == creation_count(a, t) + creation_count(b, t),
    decreases b.len(),
{
    if b.len() == 0 {
        assert(a + b =~= a);
    } else {
        assert((a + b).drop_last() =~= a + b.drop_last());
        lemma_creation_count_append(a, b.drop_last(), t);
    }
}

/// The citation, the record reference and the node reference made for one
/// site; `slot` is the index its new source gets, if it needs one.
pub open spec fn site_ok(
    site: Site,
    t: Seq<(Seq<char>, EntityId)>,
    c: Citation,
    e: EntityCitationRef,
    n: NodeCitationRef,
    srcs: Seq<Source>,
    slot: int,
) -> bool {
    let v = site.2.value.deep_view();
    &&& citation_from_node(c, site.2)
    &&& match existing_source(v, t) {
        Some(id) => c.source_id == id,
        None => {
            &&& 0 <= slot < srcs.len()
            &&& c.source_id == srcs[slot].id
            &&& created_source(srcs[slot], new_source_title(v))
        },
    }
    &&& e.owner_tag@ == site.0.tag@
    &&& e.owner_xref == site.0.xref
    &&& e.citation_ref.citation_id == c.id
    &&& e.citation_ref.note is None
    &&& n.root_tag@ == site.0.tag@
    &&& n.root_xref == site.0.xref
    &&& n.owner_tag@ == site.1.tag@
    &&& n.citation_ref.citation_id == c.id
    &&& n.citation_ref.note is None
}

/// The items made for a run of sites, new sources numbered from `base`.
pub open spec fn site_items_ok(
    sites: Seq<Site>,
    t: Seq<(Seq<char>, EntityId)>,
    cits: Seq<Citation>,
    ecr: Seq<EntityCitationRef>,
    ncr: Seq<NodeCitationRef>,
    srcs: Seq<Source>,
    base: int,
) -> bool {
    &&& cits.len() == sites.len()
    &&& ecr.len() == sites.len()
    &&& ncr.len() == sites.len()
    &&& forall|i: int|
        0 <= i < sites.len() ==> #[trigger] site_ok(
            sites[i],
            t,
            cits[i],
            ecr[i],
            ncr[i],
            srcs,
            base + creation_count(sites.subrange(0, i), t),
        )
}

pub proof fn lemma_site_items_extend(
    sites: Seq<Site>,
    t: Seq<(Seq<char>, EntityId)>,
    cits: Seq<Citation>,
    ecr: Seq<EntityCitationRef>,
    ncr: Seq<NodeCitationRef>,
    srcs: Seq<Source>,
    srcs2: Seq<Source>,
    base: int,
)
    requires
        site_items_ok(sites, t, cits, ecr, ncr, srcs, base),
        srcs.len() <= srcs2.len(),
        srcs2.subrange(0, srcs.len() as int) == srcs,
    ensures
        site_items_ok(sites, t, cits, ecr, ncr, srcs2, base),
{
    assert forall|i: int| 0 <= i < sites.len() implies #[trigger] site_ok(
        sites[i],
        t,
        cits[i],
        ecr[i],
        ncr[i],
        srcs2,
        base + creation_count(sites.subrange(0, i), t),
    ) by {
        let slot = base + creation_count(sites.subrange(0, i), t);
        assert(site_ok(sites[i], t, cits[i], ecr[i], ncr[i], srcs, slot));
        if existing_source(sites[i].2.value.deep_view(), t) is None {
            assert(srcs2[slot] == srcs2.subrange(0, srcs.len() as int)[slot]);
        }
    }
}

pub proof fn lemma_site_items_concat(
    a: Seq<Site>,
    b: Seq<Site>,
    t: Seq<(Seq<char>, EntityId)>,
    ca: Seq<Citation>,
    cb: Seq<Citation>,
    ea: Seq<EntityCitationRef>,
    eb: Seq<EntityCitationRef>,
    na: Seq<NodeCitationRef>,
    nb: Seq<NodeCitationRef>,
    srcs: Seq<Source>,
    base: int,
)
    requires
        site_items_ok(a, t, ca, ea, na, srcs, base),
        site_items_ok(b, t, cb, eb, nb, srcs, base + creation_count(a, t)),
    ensures
        site_items_ok(a + b, t, ca + cb, ea + eb, na + nb, srcs, base),
{
    let ab = a + b;
    assert forall|i: int| 0 <= i < ab.len() implies #[trigger] site_ok(
        ab[i],
        t,
        (ca + cb)[i],
        (ea + eb)[i],
        (na + nb)[i],
        srcs,
        base + creation_count(ab.subrange(0, i), t),
    ) by {
        if i < a.len() {
            assert(ab.subrange(0, i) =~= a.subrange(0, i));
            assert(site_ok(a[i], t, ca[i], ea[i], na[i], srcs, base + creation_count(a.subrange(0, i), t)));
        } else {
            let j = i - a.len();
            assert(ab.subrange(0, i) =~= a + b.subrange(0, j));
            lemma_creation_count_append(a, b.subrange(0, j), t);
            assert(site_ok(
                b[j],
                t,
                cb[j],
                eb[j],
                nb[j],
                srcs,
                base + creation_count(a, t) + creation_count(b.subrange(0, j), t),
            ));
        }
    }
}

fn collect_citations(
    node: &GedcomNode,
    owner: &GedcomNode,
    table: &Vec<(String, EntityId)>,
    sources: &mut Vec<Source>,
    citations: &mut Vec<Citation>,
    ecr: &mut Vec<EntityCitationRef>,
    ncr: &mut Vec<NodeCitationRef>,
)
    ensures
        final(sources)@.len() == old(sources)@.len() + creation_count(
            sites_in(*owner, *node, node.children@),
            table_view(table@),
        ),
        final(sources)@.subrange(0, old(sources)@.len() as int) == old(sources)@,
        final(citations)@.len() == old(citations)@.len() + sites_in(*owner, *node, node.children@).len(),
        final(ecr)@.len() == old(ecr)@.len() + sites_in(*owner, *node, node.children@).len(),
        final(ncr)@.len() == old(ncr)@.len() + sites_in(*owner, *node, node.children@).len(),
        final(citations)@.subrange(0, old(citations)@.len() as int) == old(citations)@,
        final(ecr)@.subrange(0, old(ecr)@.len() as int) == old(ecr)@,
        final(ncr)@.subrange(0, old(ncr)@.len() as int) == old(ncr)@,
        site_items_ok(
            sites_in(*owner, *node, node.children@),
            table_view(table@),
            final(citations)@.subrange(old(citations)@.len() as int, final(citations)@.len() as int),
            final(ecr)@.subrange(old(ecr)@.len() as int, final(ecr)@.len() as int),
            final(ncr)@.subrange(old(ncr)@.len() as int, final(ncr)@.len() as int),
            final(sources)@,
            old(sources)@.len() as int,
        ),
    decreases node,
{
    let ghost t = table_view(table@);
    let ghost s0 = sources@;
    let ghost c0 = citations@;
    let ghost e0 = ecr@;
    let ghost n0 = ncr@;
    let mut i: usize = 0;
    proof {
        assert(node.children@.subrange(0, 0) =~= Seq::<GedcomNode>::empty());
        assert(sites_in(*owner, *node, Seq::<GedcomNode>::empty()) == Seq::<Site>::empty());
        assert(citations@.subrange(c0.len() as int, citations@.len() as int) =~= Seq::<Citation>::empty());
        assert(ecr@.subrange(e0.len() as int, ecr@.len() as int) =~= Seq::<EntityCitationRef>::empty());
        assert(ncr@.subrange(n0.len() as int, ncr@.len() as int) =~= Seq::<NodeCitationRef>::empty());
        assert(sources@.subrange(0, s0.len() as int) =~= s0);
        assert(citations@.subrange(0, c0.len() as int) =~= c0);
        assert(ecr@.subrange(0, e0.len() as int) =~= e0);
        assert(ncr@.subrange(0, n0.len() as int) =~= n0);
    }
    while i < node.children.len()
        invariant
            i <= node.children@.len(),
            t == table_view(table@),
            ({
                let sites = sites_in(*owner, *node, node.children@.subrange(0, i as int));
                &&& sources@.len() == s0.len() + creation_count(sites, t)
                &&& sources@.subrange(0, s0.len() as int) == s0
                &&& citations@.len() == c0.len() + sites.len()
                &&& ecr@.len() == e0.len() + sites.len()
                &&& ncr@.len() == n0.len() + sites.len()
                &&& citations@.subrange(0, c0.len() as int) == c0
                &&& ecr@.subrange(0, e0.len() as int) == e0
                &&& ncr@.subrange(0, n0.len() as int) == n0
                &&& site_items_ok(
                    sites,
                    t,
                    citations@.subrange(c0.len() as int, citations@.len() as int),
                    ecr@.subrange(e0.len() as int, ecr@.len() as int),
                    ncr@.subrange(n0.len() as int, ncr@.len() as int),
                    sources@,
                    s0.len() as int,
                )
            }),
        decreases node.children@.len() - i,
    {
        let x = &node.children[i];
        let ghost pre_sites = sites_in(*owner, *node, node.children@.subrange(0, i as int));
        let ghost s1 = sources@;
        let ghost c1 = citations@;
        let ghost e1 = ecr@;
        let ghost n1 = ncr@;
        proof {
            assert(node.children@.subrange(0, i + 1) =~= node.children@.subrange(0, i as int).push(*x));
            lemma_sites_in_push(*owner, *node, node.children@.subrange(0, i as int), *x);
        }
        let ghost head: Seq<Site> = if x.tag@ == "SOUR"@ {
            seq![(*owner, *node, *x)]
        } else {
            Seq::empty()
        };
        if tag_is(x, "SOUR") {
            let source_id = resolve_source_id(&x.value, table, sources);
            let citation = map_citation_node(x, source_id);
            let cid = citation.id;
            citations.push(citation);
            ecr.push(
                EntityCitationRef {
                    owner_tag: owner.tag.clone(),
                    owner_xref: owner.xref.clone(),
                    citation_ref: CitationRef { citation_id: cid, note: None },
                },
            );
            ncr.push(
                NodeCitationRef {
                    root_tag: owner.tag.clone(),
                    root_xref: owner.xref.clone(),
                    owner_tag: node.tag.clone(),
                    citation_ref: CitationRef { citation_id: cid, note: None },
                },
            );
            proof {
                let site = (*owner, *node, *x);
                assert(head =~= seq![site]);
                assert(head.subrange(0, 0) =~= Seq::<Site>::empty());
                assert(creation_count(Seq::<Site>::empty(), t) == 0);
                assert(creation_count(head, t) == creation_count(Seq::<Site>::empty(), t) + (if existing_source(x.value.deep_view(), t) is None { 1nat } else { 0nat }));
                assert(head.drop_last() =~= Seq::<Site>::empty());
                assert(site_ok(
                    site,
                    t,
                    citations@.last(),
                    ecr@.last(),
                    ncr@.last(),
                    sources@,
                    s1.len() as int,
                ));
                assert(citations@.subrange(c1.len() as int, citations@.len() as int) =~= seq![citations@.last()]);
                assert(ecr@.subrange(e1.len() as int, ecr@.len() as int) =~= seq![ecr@.last()]);
                assert(ncr@.subrange(n1.len() as int, ncr@.len() as int) =~= seq![ncr@.last()]);
                assert(site_items_ok(
                    head,
                    t,
                    citations@.subrange(c1.len() as int, citations@.len() as int),
                    ecr@.subrange(e1.len() as int, ecr@.len() as int),
                    ncr@.subrange(n1.len() as int, ncr@.len() as int),
                    sources@,
                    s1.len() as int,
                ));
            }
        } else {
            proof {
                assert(head =~= Seq::<Site>::empty());
                assert(citations@.subrange(c1.len() as int, citations@.len() as int) =~= Seq::<Citation>::empty());
                assert(ecr@.subrange(e1.len() as int, ecr@.len() as int) =~= Seq::<EntityCitationRef>::empty());
                assert(ncr@.subrange(n1.len() as int, ncr@.len() as int) =~= Seq::<NodeCitationRef>::empty());
                assert(creation_count(head, t) == 0);
            }
        }
        let ghost s2 = sources@;
        let ghost c2 = citations@;
        let ghost e2 = ecr@;
        let ghost n2 = ncr@;
        collect_citations(x, owner, table, sources, citations, ecr, ncr);
        proof {
            let inner = sites_in(*owner, *x, x.children@);
            let part = site_part(*owner, *node, *x);
            assert(part == head + inner);
            // items of the head, kept after the recursion
            lemma_site_items_extend(
                head,
                t,
                c2.subrange(c1.len() as int, c2.len() as int),
                e2.subrange(e1.len() as int, e2.len() as int),
                n2.subrange(n1.len() as int, n2.len() as int),
                s2,
                sources@,
                s1.len() as int,
            );
            assert(sources@.subrange(0, s2.len() as int) == s2);
            assert(citations@.subrange(c1.len() as int, c2.len() as int) =~= c2.subrange(c1.len() as int, c2.len() as int));
            assert(ecr@.subrange(e1.len() as int, e2.len() as int) =~= e2.subrange(e1.len() as int, e2.len() as int));
            assert(ncr@.subrange(n1.len() as int, n2.len() as int) =~= n2.subrange(n1.len() as int, n2.len() as int));
            lemma_site_items_concat(
                head,
                inner,
                t,
                citations@.subrange(c1.len() as int, c2.len() as int),
                citations@.subrange(c2.len() as int, citations@.len() as int),
                ecr@.subrange(e1.len() as int, e2.len() as int),
                ecr@.subrange(e2.len() as int, ecr@.len() as int),
                ncr@.subrange(n1.len() as int, n2.len() as int),
                ncr@.subrange(n2.len() as int, ncr@.len() as int),
                sources@,
                s1.len() as int,
            );
            assert(citations@.subrange(c1.len() as int, c2.len() as int) + citations@.subrange(c2.len() as int, citations@.len() as int) =~= citations@.subrange(c1.len() as int, citations@.len() as int));
            assert(ecr@.subrange(e1.len() as int, e2.len() as int) + ecr@.subrange(e2.len() as int, ecr@.len() as int) =~= ecr@.subrange(e1.len() as int, ecr@.len() as int));
            assert(ncr@.subrange(n1.len() as int, n2.len() as int) + ncr@.subrange(n2.len() as int, ncr@.len() as int) =~= ncr@.subrange(n1.len() as int, ncr@.len() as int));
            lemma_creation_count_append(head, inner, t);
            // the earlier sites, kept too
            assert(sources@.subrange(0, s1.len() as int) =~= s1) by {
                assert(sources@.subrange(0, s2.len() as int) == s2);
                assert(s2.subrange(0, s1.len() as int) == s1);
            }
            lemma_site_items_extend(
                pre_sites,
                t,
                c1.subrange(c0.len() as int, c1.len() as int),
                e1.subrange(e0.len() as int, e1.len() as int),
                n1.subrange(n0.len() as int, n1.len() as int),
                s1,
                sources@,
                s0.len() as int,
            );
            assert(citations@.subrange(0, c1.len() as int) =~= c1) by {
                assert(citations@.subrange(0, c2.len() as int) == c2);
                assert(c2.subrange(0, c1.len() as int) =~= c1);
            }
            assert(ecr@.subrange(0, e1.len() as int) =~= e1) by {
                assert(ecr@.subrange(0, e2.len() as int) == e2);
                assert(e2.subrange(0, e1.len() as int) =~= e1);
            }
            assert(ncr@.subrange(0, n1.len() as int) =~= n1) by {
                assert(ncr@.subrange(0, n2.len() as int) == n2);
                assert(n2.subrange(0, n1.len() as int) =~= n1);
            }
            assert(citations@.subrange(c0.len() as int, c1.len() as int) =~= c1.subrange(c0.len() as int, c1.len() as int));
            assert(ecr@.subrange(e0.len() as int, e1.len() as int) =~= e1.subrange(e0.len() as int, e1.len() as int));
            assert(ncr@.subrange(n0.len() as int, n1.len() as int) =~= n1.subrange(n0.len() as int, n1.len() as int));
            lemma_site_items_concat(
                pre_sites,
                part,
                t,
                citations@.subrange(c0.len() as int, c1.len() as int),
                citations@.subrange(c1.len() as int, citations@.len() as int),
                ecr@.subrange(e0.len() as int, e1.len() as int),
                ecr@.subrange(e1.len() as int, ecr@.len() as int),
                ncr@.subrange(n0.len() as int, n1.len() as int),
                ncr@.subrange(n1.len() as int, ncr@.len() as int),
                sources@,
                s0.len() as int,
            );
            assert(citations@.subrange(c0.len() as int, c1.len() as int) + citations@.subrange(c1.len() as int, citations@.len() as int) =~= citations@.subrange(c0.len() as int, citations@.len() as int));
            assert(ecr@.subrange(e0.len() as int, e1.len() as int) + ecr@.subrange(e1.len() as int, ecr@.len() as int) =~= ecr@.subrange(e0.len() as int, ecr@.len() as int));
            assert(ncr@.subrange(n0.len() as int, n1.len() as int) + ncr@.subrange(n1.len() as int, ncr@.len() as int) =~= ncr@.subrange(n0.len() as int, ncr@.len() as int));
            lemma_creation_count_append(pre_sites, part, t);
            assert(citations@.subrange(0, c0.len() as int) =~= c0) by {
                assert(citations@.subrange(0, c1.len() as int) =~= c1);
            }
            assert(ecr@.subrange(0, e0.len() as int) =~= e0) by {
                assert(ecr@.subrange(0, e1.len() as int) =~= e1);
            }
            assert(ncr@.subrange(0, n0.len() as int) =~= n0) by {
                assert(ncr@.subrange(0, n1.len() as int) =~= n1);
            }
        }
        i = i + 1;
    }
    proof {
        assert(node.children@.subrange(0, i as int) =~= node.children@);
    }
}

/// The table from the cross-references of `recs` to the matching `ids`.
pub open spec fn id_table(recs: Seq<GedcomNode>, ids: Seq<EntityId>) -> Seq<(Seq<char>, EntityId)>
    decreases recs.len(),
{
    if recs.len() == 0 || ids.len() == 0 {
        Seq::empty()
    } else {
        let p = id_table(recs.drop_last(), ids.drop_last());
        match recs.last().xref {
            Some(x) => p.push((x@, ids.last())),
            None => p,
        }
    }
}

/// The root `SOUR` records that carry a cross-reference.
pub open spec fn sour_records(nodes: Seq<GedcomNode>) -> Seq<GedcomNode>
    decreases nodes.len(),
{
    if nodes.len() == 0 {
        Seq::empty()
    } else if nodes.last().tag@ == "SOUR"@ && nodes.last().xref is Some {
        sour_records(nodes.drop_last()).push(nodes.last())
    } else {
        sour_records(nodes.drop_last())
    }
}

/// The citations of all records but `HEAD` and `TRLR`, record by record.
pub open spec fn chain_sites(nodes: Seq<GedcomNode>) -> Seq<Site>
    decreases nodes.len(),
{
    if nodes.len() == 0 {
        Seq::empty()
    } else {
        let r = nodes.last();
        chain_sites(nodes.drop_last()) + if r.tag@ != "HEAD"@ && r.tag@ != "TRLR"@ {
            sites_in(r, r, r.children@)
        } else {
            Seq::empty()
        }
    }
}

pub open spec fn repository_ids(v: Seq<Repository>) -> Seq<EntityId> {
    v.map_values(|r: Repository| r.id)
}

pub open spec fn source_ids(v: Seq<Source>) -> Seq<EntityId> {
    v.map_values(|s: Source| s.id)
}

/// A mapping of the repositories, sources and citations of a forest.
pub open spec fn source_chain_of(m: SourceChainMapping, nodes: Seq<GedcomNode>) -> bool {
    let repos = nodes_tagged(nodes, "REPO"@);
    let rtable = id_table(repos, repository_ids(m.repositories@));
    let sours = sour_records(nodes);
    let n = sours.len();
    let stable = id_table(sours, source_ids(m.sources@.subrange(0, n as int)));
    let sites = chain_sites(nodes);
    &&& m.repositories@.len() == repos.len()
    &&& forall|k: int|
        0 <= k < repos.len() ==> #[trigger] repository_from_node(m.repositories@[k], repos[k])
    &&& m.sources@.len() == n + creation_count(sites, stable)
    &&& forall|k: int|
        0 <= k < n ==> #[trigger] source_from_node(m.sources@[k], sours[k], rtable)
    &&& site_items_ok(
        sites,
        stable,
        m.citations@,
        m.entity_citation_refs@,
        m.node_citation_refs@,
        m.sources@,
        n as int,
    )
}

/// Maps the repository, source and citation structures of a forest.
pub fn map_source_chain(nodes: &[GedcomNode]) -> (r: SourceChainMapping)
    ensures
        source_chain_of(r, nodes@),
{
    let mut repositories: Vec<Repository> = Vec::new();
    let mut repo_table: Vec<(String, EntityId)> = Vec::new();
    let mut i: usize = 0;
    while i < nodes.len()
        invariant
            i <= nodes@.len(),
            repositories@.len() == nodes_tagged(nodes@.subrange(0, i as int), "REPO"@).len(),
            forall|k: int|
                0 <= k < repositories@.len() ==> #[trigger] repository_from_node(
                    repositories@[k],
                    nodes_tagged(nodes@.subrange(0, i as int), "REPO"@)[k],
                ),
            table_view(repo_table@) == id_table(
                nodes_tagged(nodes@.subrange(0, i as int), "REPO"@),
                repository_ids(repositories@),
            ),
        decreases nodes@.len() - i,
    {
        proof {
            assert(nodes@.subrange(0, i + 1).drop_last() =~= nodes@.subrange(0, i as int));
        }
        if tag_is(&nodes[i], "REPO") {
            let repo = map_repository_node(&nodes[i]);
            let ghost old_repos = repositories@;
            let rid = repo.id;
            match &nodes[i].xref {
                Some(x) => {
                    let ghost before = repo_table@;
                    repo_table.push((x.clone(), rid));
                    proof {
                        assert(table_view(repo_table@) =~= table_view(before).push((x@, rid)));
                    }
                },
                None => {},
            }
            repositories.push(repo);
            proof {
                assert(repository_ids(repositories@).drop_last() =~= repository_ids(old_repos));
                assert(repositories@.drop_last() =~= old_repos);
                let recs = nodes_tagged(nodes@.subrange(0, i + 1), "REPO"@);
                assert(nodes@.subrange(0, i + 1).last() == nodes@[i as int]);
                assert(recs.drop_last() =~= nodes_tagged(nodes@.subrange(0, i as int), "REPO"@));
                assert(recs.last() == nodes@[i as int]);
                assert(repository_ids(repositories@).last() == rid);
            }
        }
        i = i + 1;
    }
    proof {
        assert(nodes@.subrange(0, i as int) =~= nodes@);
    }
    let ghost rtable = table_view(repo_table@);
    let mut sources: Vec<Source> = Vec::new();
    let mut source_table: Vec<(String, EntityId)> = Vec::new();
    let mut i: usize = 0;
    while i < nodes.len()
        invariant
            i <= nodes@.len(),
            rtable == table_view(repo_table@),
            sources@.len() == sour_records(nodes@.subrange(0, i as int)).len(),
            forall|k: int|
                0 <= k < sources@.len() ==> #[trigger] source_from_node(
                    sources@[k],
                    sour_records(nodes@.subrange(0, i as int))[k],
                    rtable,
                ),
            table_view(source_table@) == id_table(
                sour_records(nodes@.subrange(0, i as int)),
                source_ids(sources@),
            ),
        decreases nodes@.len() - i,
    {
        proof {
            assert(nodes@.subrange(0, i + 1).drop_last() =~= nodes@.subrange(0, i as int));
        }
        if tag_is(&nodes[i], "SOUR") {
            match &nodes[i].xref {
                Some(x) => {
                    let source = map_source_node(&nodes[i], &repo_table);
                    let ghost old_sources = sources@;
                    let ghost before = source_table@;
                    source_table.push((x.clone(), source.id));
                    sources.push(source);
                    proof {
                        assert(table_view(source_table@) =~= table_view(before).push(
                            (x@, sources@.last().id),
                        ));
                        assert(source_ids(sources@).drop_last() =~= source_ids(old_sources));
                        let recs = sour_records(nodes@.subrange(0, i + 1));
                        assert(nodes@.subrange(0, i + 1).last() == nodes@[i as int]);
                        assert(recs.drop_last() =~= sour_records(nodes@.subrange(0, i as int)));
                        assert(recs.last() == nodes@[i as int]);
                        assert(source_ids(sources@).last() == sources@.last().id);
                    }
                },
                None => {},
            }
        }
        i = i + 1;
    }
    proof {
        assert(nodes@.subrange(0, i as int) =~= nodes@);
    }
    let ghost n = sources@.len();
    let ghost stable = table_view(source_table@);
    proof {
        assert(sources@.subrange(0, n as int) =~= sources@);
    }
    let mut citations: Vec<Citation> = Vec::new();
    let mut ecr: Vec<EntityCitationRef> = Vec::new();
    let mut ncr: Vec<NodeCitationRef> = Vec::new();
    let mut i: usize = 0;
    proof {
        assert(chain_sites(nodes@.subrange(0, 0)) == Seq::<Site>::empty());
    }
    while i < nodes.len()
        invariant
            i <= nodes@.len(),
            stable == table_view(source_table@),
            sources@.len() >= n,
            forall|k: int|
                0 <= k < n ==> #[trigger] source_from_node(sources@[k], sour_records(nodes@)[k], rtable),
            stable == id_table(sour_records(nodes@), source_ids(sources@.subrange(0, n as int))),
            sources@.len() == n + creation_count(chain_sites(nodes@.subrange(0, i as int)), stable),
            site_items_ok(
                chain_sites(nodes@.subrange(0, i as int)),
                stable,
                citations@,
                ecr@,
                ncr@,
                sources@,
                n as int,
            ),
        decreases nodes@.len() - i,
    {
        let ghost pre = chain_sites(nodes@.subrange(0, i as int));
        proof {
            assert(nodes@.subrange(0, i + 1).drop_last() =~= nodes@.subrange(0, i as int));
        }
        let is_head = tag_is(&nodes[i], "HEAD");
        let is_trlr = tag_is(&nodes[i], "TRLR");
        if !is_head && !is_trlr {
            let ghost s1 = sources@;
            let ghost c1 = citations@;
            let ghost e1 = ecr@;
            let ghost n1 = ncr@;
            collect_citations(&nodes[i], &nodes[i], &source_table, &mut sources, &mut citations, &mut ecr, &mut ncr);
            proof {
                let added = sites_in(nodes@[i as int], nodes@[i as int], nodes@[i as int].children@);
                assert(chain_sites(nodes@.subrange(0, i + 1)) =~= pre + added);
                lemma_site_items_extend(pre, stable, c1, e1, n1, s1, sources@, n as int);
                assert(citations@.subrange(0, c1.len() as int) == c1);
                assert(ecr@.subrange(0, e1.len() as int) == e1);
                assert(ncr@.subrange(0, n1.len() as int) == n1);
                lemma_site_items_concat(
                    pre,
                    added,
                    stable,
                    c1,
                    citations@.subrange(c1.len() as int, citations@.len() as int),
                    e1,
                    ecr@.subrange(e1.len() as int, ecr@.len() as int),
                    n1,
                    ncr@.subrange(n1.len() as int, ncr@.len() as int),
                    sources@,
                    n as int,
                );
                assert(c1 + citations@.subrange(c1.len() as int, citations@.len() as int) =~= citations@);
                assert(e1 + ecr@.subrange(e1.len() as int, ecr@.len() as int) =~= ecr@);
                assert(n1 + ncr@.subrange(n1.len() as int, ncr@.len() as int) =~= ncr@);
                lemma_creation_count_append(pre, added, stable);
                assert(sources@.subrange(0, n as int) =~= s1.subrange(0, n as int)) by {
                    assert(sources@.subrange(0, s1.len() as int) == s1);
                }
                assert forall|k: int| 0 <= k < n implies #[trigger] source_from_node(
                    sources@[k],
                    sour_records(nodes@)[k],
                    rtable,
                ) by {
                    assert(sources@[k] == sources@.subrange(0, s1.len() as int)[k]);
                }
            }
        } else {
            proof {
                assert(chain_sites(nodes@.subrange(0, i + 1)) =~= pre);
            }
        }
        i = i + 1;
    }
    proof {
        assert(nodes@.subrange(0, i as int) =~= nodes@);
    }
    SourceChainMapping {
        repositories,
        sources,
        citations,
        entity_citation_refs: ecr,
        node_citation_refs: ncr,
    }
}

} // verus!
