//! GEDCOM media objects, notes and LDS ordinances to the domain model.
use crate::evidence::{CropRectPct, Media, Note, NoteType};
use crate::gedcom::gramps::{char_vec_views, split_chars, split_on};
use crate::gedcom::custom::{custom_key_of, custom_tag, is_custom_tag, serialize_subtree};
use crate::gedcom::mapping::{
    indi_event_tag_to_type, is_indi_event_tag, insert_custom_children, keep_custom_children, keep_xref, last_tagged_value, nodes_tagged,
    tag_is, textual_date_from, last_value_of, value_or_empty, value_text, xref_entries,
};
use crate::gedcom::tree::GedcomNode;
use crate::lds::{LdsOrdinance, LdsOrdinanceType, LdsStatus};
use crate::raw::{keys_unique, raw_entries, RawGedcom};
use crate::text::{
    chars_of, parse_u8_chars, parse_u8_spec, ascii_lower_text, ascii_upper_text, new_string, push_str, str_eq, str_to_string,
    to_ascii_lower_string, to_ascii_upper_string, trim, trimmed,
};
use crate::types::{DateValue, EntityId};
use vstd::prelude::*;

verus! {

/// The status named by a `STAT` value (surrounding whitespace and case
/// ignored); any other text is kept, in lower case, as a custom status.
pub open spec fn lds_status_matches(s: LdsStatus, value: Option<Seq<char>>) -> bool {
    let t = ascii_upper_text(trim(value_or_empty(value)));
    if t == "BIC"@ {
        s is Bic
    } else if t == "CANCELED"@ || t == "CANCELLED"@ {
        s is Canceled
    } else if t == "CHILD"@ {
        s is Child
    } else if t == "COMPLETED"@ || t == "COM"@ {
        s is Completed
    } else if t == "CLEARED"@ {
        s is Cleared
    } else if t == "DNS"@ {
        s is Dns
    } else if t == "EXCLUDED"@ {
        s is Excluded
    } else if t == "INFANT"@ {
        s is Infant
    } else if t == "INVALID"@ {
        s is Invalid
    } else if t == "NOTNEEDED"@ || t == "NOT_NEEDED"@ {
        s is NotNeeded
    } else if t == "QUALIFIED"@ {
        s is Qualified
    } else if t == "STILLBORN"@ {
        s is Stillborn
    } else if t == "SUBMITTED"@ || t == "SUB"@ {
        s is Submitted
    } else if t == "UNCLEARED"@ {
        s is Uncleared
    } else if t == "IN_PROGRESS"@ || t == "INPROGRESS"@ {
        s is InProgress
    } else if t == "NEEDS_MORE_INFORMATION"@ || t == "NMI"@ {
        s is NeedsMoreInformation
    } else if t == "READY"@ {
        s is Ready
    } else if t == "RESERVED"@ {
        s is Reserved
    } else if t == "PRINTED"@ {
        s is Printed
    } else if t == "SHARED"@ {
        s is Shared
    } else if t == "TEMPLE_DONE"@ || t == "DONE"@ {
        s is TempleDone
    } else {
        s matches LdsStatus::Custom(x) && x@ == ascii_lower_text(t)
    }
}

pub fn map_lds_status(value: Option<&str>) -> (r: LdsStatus)
    ensures
        lds_status_matches(
            r,
            match value {
                Some(v) => Some(v@),
                None => None,
            },
        ),
{
    let t = match value {
        Some(v) => trimmed(v),
        None => trimmed(""),
    };
    proof {
        reveal_strlit("");
        assert(""@ =~= Seq::<char>::empty());
    }
    let u = to_ascii_upper_string(t.as_str());
    if str_eq(u.as_str(), "BIC") {
        LdsStatus::Bic
    } else if str_eq(u.as_str(), "CANCELED") || str_eq(u.as_str(), "CANCELLED") {
        LdsStatus::Canceled
    } else if str_eq(u.as_str(), "CHILD") {
        LdsStatus::Child
    } else if str_eq(u.as_str(), "COMPLETED") || str_eq(u.as_str(), "COM") {
        LdsStatus::Completed
    } else if str_eq(u.as_str(), "CLEARED") {
        LdsStatus::Cleared
    } else if str_eq(u.as_str(), "DNS") {
        LdsStatus::Dns
    } else if str_eq(u.as_str(), "EXCLUDED") {
        LdsStatus::Excluded
    } else if str_eq(u.as_str(), "INFANT") {
        LdsStatus::Infant
    } else if str_eq(u.as_str(), "INVALID") {
        LdsStatus::Invalid
    } else if str_eq(u.as_str(), "NOTNEEDED") || str_eq(u.as_str(), "NOT_NEEDED") {
        LdsStatus::NotNeeded
    } else if str_eq(u.as_str(), "QUALIFIED") {
        LdsStatus::Qualified
    } else if str_eq(u.as_str(), "STILLBORN") {
        LdsStatus::Stillborn
    } else if str_eq(u.as_str(), "SUBMITTED") || str_eq(u.as_str(), "SUB") {
        LdsStatus::Submitted
    } else if str_eq(u.as_str(), "UNCLEARED") {
        LdsStatus::Uncleared
    } else if str_eq(u.as_str(), "IN_PROGRESS") || str_eq(u.as_str(), "INPROGRESS") {
        LdsStatus::InProgress
    } else if str_eq(u.as_str(), "NEEDS_MORE_INFORMATION") || str_eq(u.as_str(), "NMI") {
        LdsStatus::NeedsMoreInformation
    } else if str_eq(u.as_str(), "READY") {
        LdsStatus::Ready
    } else if str_eq(u.as_str(), "RESERVED") {
        LdsStatus::Reserved
    } else if str_eq(u.as_str(), "PRINTED") {
        LdsStatus::Printed
    } else if str_eq(u.as_str(), "SHARED") {
        LdsStatus::Shared
    } else if str_eq(u.as_str(), "TEMPLE_DONE") || str_eq(u.as_str(), "DONE") {
        LdsStatus::TempleDone
    } else {
        LdsStatus::Custom(to_ascii_lower_string(u.as_str()))
    }
}

/// The ordinance type of an LDS ordinance tag.
pub open spec fn lds_type_of(tag: Seq<char>) -> Option<LdsOrdinanceType> {
    if tag == "BAPL"@ {
        Some(LdsOrdinanceType::Baptism)
    } else if tag == "CONL"@ {
        Some(LdsOrdinanceType::Confirmation)
    } else if tag == "INIT"@ {
        Some(LdsOrdinanceType::Initiatory)
    } else if tag == "ENDL"@ {
        Some(LdsOrdinanceType::Endowment)
    } else if tag == "SLGC"@ {
        Some(LdsOrdinanceType::SealingToParents)
    } else if tag == "SLGS"@ {
        Some(LdsOrdinanceType::SealingToSpouse)
    } else {
        None
    }
}

pub fn map_lds_tag_to_type(tag: &str) -> (r: Option<LdsOrdinanceType>)
    ensures
        r == lds_type_of(tag@),
{
    if str_eq(tag, "BAPL") {
        Some(LdsOrdinanceType::Baptism)
    } else if str_eq(tag, "CONL") {
        Some(LdsOrdinanceType::Confirmation)
    } else if str_eq(tag, "INIT") {
        Some(LdsOrdinanceType::Initiatory)
    } else if str_eq(tag, "ENDL") {
        Some(LdsOrdinanceType::Endowment)
    } else if str_eq(tag, "SLGC") {
        Some(LdsOrdinanceType::SealingToParents)
    } else if str_eq(tag, "SLGS") {
        Some(LdsOrdinanceType::SealingToSpouse)
    } else {
        None
    }
}

/// The status of an ordinance record: from its last `STAT`, else the custom
/// status "unknown".
pub open spec fn ordinance_status_from(s: LdsStatus, children: Seq<GedcomNode>) -> bool
    decreases children.len(),
{
    if children.len() == 0 {
        s matches LdsStatus::Custom(x) && x@ == "unknown"@
    } else if children.last().tag@ == "STAT"@ {
        lds_status_matches(s, children.last().value.deep_view())
    } else {
        ordinance_status_from(s, children.drop_last())
    }
}

/// An ordinance as mapped from an LDS ordinance node (all but its id).
pub open spec fn ordinance_from_node(o: LdsOrdinance, node: GedcomNode) -> bool {
    &&& Some(o.ordinance_type) == lds_type_of(node.tag@)
    &&& ordinance_status_from(o.status, node.children@)
    &&& o.temple_code.deep_view() == last_tagged_value(node.children@, "TEMP"@)
    &&& textual_date_from(o.date, last_value_of(node.children@, "DATE"@))
    &&& o.place_ref is None
    &&& o.family_ref is None
    &&& keys_unique(raw_entries(o._raw_gedcom))
    &&& raw_entries(o._raw_gedcom) == insert_custom_children(
        xref_entries(node.xref.deep_view()),
        node.children@,
    )
}

fn map_lds_ordinance_node(node: &GedcomNode, ordinance_type: LdsOrdinanceType) -> (r: LdsOrdinance)
    requires
        Some(ordinance_type) == lds_type_of(node.tag@),
    ensures
        ordinance_from_node(r, *node),
{
    let mut status = LdsStatus::Custom(str_to_string("unknown"));
    let mut temple_code: Option<String> = None;
    let mut date: Option<DateValue> = None;
    let mut i: usize = 0;
    while i < node.children.len()
        invariant
            i <= node.children@.len(),
            ordinance_status_from(status, node.children@.subrange(0, i as int)),
            temple_code.deep_view() == last_tagged_value(node.children@.subrange(0, i as int), "TEMP"@),
            textual_date_from(date, last_value_of(node.children@.subrange(0, i as int), "DATE"@)),
        decreases node.children@.len() - i,
    {
        proof {
            assert(node.children@.subrange(0, i + 1).drop_last() =~= node.children@.subrange(
                0,
                i as int,
            ));
            reveal_strlit("STAT");
            reveal_strlit("TEMP");
            reveal_strlit("DATE");
        }
        let child = &node.children[i];
        if tag_is(child, "STAT") {
            proof {
                assert(child.tag@[0] == 'S' && "TEMP"@[0] == 'T' && "DATE"@[0] == 'D');
            }
            status = map_lds_status(
                match &child.value {
                    Some(v) => Some(v.as_str()),
                    None => None,
                },
            );
        } else if tag_is(child, "TEMP") {
            proof {
                assert(child.tag@[0] == 'T' && "DATE"@[0] == 'D');
            }
            temple_code = child.value.clone();
        } else if tag_is(child, "DATE") {
            match &child.value {
                Some(v) => {
                    date = Some(DateValue::Textual { value: v.clone() });
                },
                None => {},
            }
        }
        i = i + 1;
    }
    proof {
        assert(node.children@.subrange(0, i as int) =~= node.children@);
    }
    let mut raw = RawGedcom::new();
    keep_xref(&node.xref, &mut raw);
    keep_custom_children(node, &mut raw);
    LdsOrdinance {
        id: EntityId::new(),
        ordinance_type,
        status,
        temple_code,
        date,
        place_ref: None,
        family_ref: None,
        _raw_gedcom: raw,
    }
}

/// The LDS ordinance nodes of a forest, in document order (a node before
/// its descendants).
pub open spec fn lds_nodes(nodes: Seq<GedcomNode>) -> Seq<GedcomNode>
    decreases nodes,
{
    if nodes.len() == 0 {
        Seq::empty()
    } else {
        (if lds_type_of(nodes[0].tag@) is Some {
            seq![nodes[0]]
        } else {
            Seq::empty()
        }) + lds_nodes(nodes[0].children@) + lds_nodes(nodes.subrange(1, nodes.len() as int))
    }
}

/// What one node adds to the LDS ordinance nodes of its siblings.
pub open spec fn lds_part(x: GedcomNode) -> Seq<GedcomNode> {
    (if lds_type_of(x.tag@) is Some {
        seq![x]
    } else {
        Seq::empty()
    }) + lds_nodes(x.children@)
}

pub proof fn lemma_lds_nodes_push(nodes: Seq<GedcomNode>, x: GedcomNode)
    ensures
        lds_nodes(nodes.push(x)) == lds_nodes(nodes) + lds_part(x),
    decreases nodes.len(),
{
    let p = nodes.push(x);
    if nodes.len() == 0 {
        assert(p.subrange(1, p.len() as int) =~= Seq::<GedcomNode>::empty());
        assert(p[0] == x);
        assert(lds_nodes(Seq::<GedcomNode>::empty()) == Seq::<GedcomNode>::empty());
        assert(lds_nodes(p) =~= lds_nodes(nodes) + lds_part(x));
    } else {
        let rest = nodes.subrange(1, nodes.len() as int);
        assert(p.subrange(1, p.len() as int) =~= rest.push(x));
        assert(p[0] == nodes[0]);
        lemma_lds_nodes_push(rest, x);
        assert(lds_nodes(p) =~= lds_nodes(nodes) + lds_part(x));
    }
}

fn collect_lds_from_node(node: &GedcomNode, out: &mut Vec<LdsOrdinance>)
    ensures
        final(out)@.len() == old(out)@.len() + lds_part(*node).len(),
        final(out)@.subrange(0, old(out)@.len() as int) == old(out)@,
        forall|k: int|
            0 <= k < lds_part(*node).len() ==> #[trigger] ordinance_from_node(
                final(out)@[old(out)@.len() + k],
                lds_part(*node)[k],
            ),
    decreases node,
{
    let ghost o0 = out@;
    let ghost head: Seq<GedcomNode> = if lds_type_of(node.tag@) is Some {
        seq![*node]
    } else {
        Seq::empty()
    };
    match map_lds_tag_to_type(node.tag.as_str()) {
        Some(t) => {
            out.push(map_lds_ordinance_node(node, t));
        },
        None => {},
    }
    let ghost o1 = out@;
    proof {
        assert(o1.len() == o0.len() + head.len());
        assert(o1.subrange(0, o0.len() as int) =~= o0);
    }
    let mut i: usize = 0;
    proof {
        assert(node.children@.subrange(0, 0) =~= Seq::<GedcomNode>::empty());
        assert(lds_nodes(Seq::<GedcomNode>::empty()) == Seq::<GedcomNode>::empty());
    }
    while i < node.children.len()
        invariant
            i <= node.children@.len(),
            o1.len() == o0.len() + head.len(),
            head == (if lds_type_of(node.tag@) is Some {
                seq![*node]
            } else {
                Seq::<GedcomNode>::empty()
            }),
            forall|k: int| 0 <= k < head.len() ==> #[trigger] ordinance_from_node(o1[o0.len() + k], head[k]),
            o1.subrange(0, o0.len() as int) == o0,
            out@.len() == o1.len() + lds_nodes(node.children@.subrange(0, i as int)).len(),
            out@.subrange(0, o1.len() as int) == o1,
            forall|k: int|
                0 <= k < lds_nodes(node.children@.subrange(0, i as int)).len() ==> #[trigger] ordinance_from_node(
                    out@[o1.len() + k],
                    lds_nodes(node.children@.subrange(0, i as int))[k],
                ),
        decreases node.children@.len() - i,
    {
        let ghost before = out@;
        let ghost pre = node.children@.subrange(0, i as int);
        proof {
            assert(node.children@.subrange(0, i + 1) =~= pre.push(node.children@[i as int]));
            lemma_lds_nodes_push(pre, node.children@[i as int]);
        }
        collect_lds_from_node(&node.children[i], out);
        proof {
            let part = lds_part(node.children@[i as int]);
            assert(out@.subrange(0, o1.len() as int) =~= o1) by {
                assert(out@.subrange(0, before.len() as int) == before);
                assert(before.subrange(0, o1.len() as int) == o1);
            }
            assert forall|k: int| 0 <= k < lds_nodes(pre).len() + part.len() implies #[trigger] ordinance_from_node(
                out@[o1.len() + k],
                (lds_nodes(pre) + part)[k],
            ) by {
                if k < lds_nodes(pre).len() {
                    assert(out@[o1.len() + k] == out@.subrange(0, before.len() as int)[o1.len() + k]);
                    assert(ordinance_from_node(before[o1.len() + k], lds_nodes(pre)[k]));
                } else {
                    let j = k - lds_nodes(pre).len();
                    assert(ordinance_from_node(out@[before.len() + j], part[j]));
                }
            }
        }
        i = i + 1;
    }
    proof {
        assert(node.children@.subrange(0, i as int) =~= node.children@);
        assert(out@.subrange(0, o0.len() as int) =~= o0) by {
            assert(out@.subrange(0, o1.len() as int) == o1);
        }
        assert forall|k: int| 0 <= k < lds_part(*node).len() implies #[trigger] ordinance_from_node(
            out@[o0.len() + k],
            lds_part(*node)[k],
        ) by {
            if k < head.len() {
                assert(out@[o0.len() + k] == out@.subrange(0, o1.len() as int)[o0.len() + k]);
            } else {
                let j = k - head.len();
                assert(ordinance_from_node(out@[o1.len() + j], lds_nodes(node.children@)[j]));
            }
        }
    }
}

/// The media type named by a `FORM` value (in ASCII lower case): the common
/// image and document formats, else the text itself; an empty value keeps
/// `current`.
pub open spec fn mime_for(form: Seq<char>, current: Seq<char>) -> Seq<char> {
    if form == "jpg"@ || form == "jpeg"@ {
        "image/jpeg"@
    } else if form == "png"@ {
        "image/png"@
    } else if form == "tif"@ || form == "tiff"@ {
        "image/tiff"@
    } else if form == "gif"@ {
        "image/gif"@
    } else if form == "pdf"@ {
        "application/pdf"@
    } else if form.len() > 0 {
        form
    } else {
        current
    }
}

/// File path, content hash, media type and caption of a media record.
pub type MediaFields = (Seq<char>, Seq<char>, Seq<char>, Option<Seq<char>>);

pub open spec fn media_step(m: MediaFields, child: GedcomNode) -> MediaFields {
    let v = child.value.deep_view();
    if child.tag@ == "FILE"@ {
        (value_or_empty(v), "unhashed:"@ + value_or_empty(v), m.2, m.3)
    } else if child.tag@ == "FORM"@ {
        (m.0, m.1, mime_for(ascii_lower_text(value_or_empty(v)), m.2), m.3)
    } else if child.tag@ == "TITL"@ {
        (m.0, m.1, m.2, v)
    } else {
        m
    }
}

pub open spec fn media_over(m: MediaFields, children: Seq<GedcomNode>) -> MediaFields
    decreases children.len(),
{
    if children.len() == 0 {
        m
    } else {
        media_step(media_over(m, children.drop_last()), children.last())
    }
}

/// A media object as mapped from an `OBJE` record (all but its id).
pub open spec fn media_from_node(m: Media, node: GedcomNode) -> bool {
    let f = media_over(
        (value_or_empty(node.value.deep_view()), "unhashed"@, "application/octet-stream"@, None),
        node.children@,
    );
    &&& m.file_path@ == f.0
    &&& m.content_hash@ == f.1
    &&& m.mime_type@ == f.2
    &&& m.caption.deep_view() == f.3
    &&& m.thumbnail_path is None
    &&& m.ocr_text is None
    &&& m.dimensions_px is None
    &&& m.physical_dimensions_mm is None
    &&& m.original_xref == node.xref
    &&& keys_unique(raw_entries(m._raw_gedcom))
    &&& raw_entries(m._raw_gedcom) == insert_custom_children(
        xref_entries(node.xref.deep_view()),
        node.children@,
    )
}

fn mime_type_of(form: &String, current: String) -> (r: String)
    ensures
        r@ == mime_for(form@, current@),
{
    if str_eq(form.as_str(), "jpg") || str_eq(form.as_str(), "jpeg") {
        str_to_string("image/jpeg")
    } else if str_eq(form.as_str(), "png") {
        str_to_string("image/png")
    } else if str_eq(form.as_str(), "tif") || str_eq(form.as_str(), "tiff") {
        str_to_string("image/tiff")
    } else if str_eq(form.as_str(), "gif") {
        str_to_string("image/gif")
    } else if str_eq(form.as_str(), "pdf") {
        str_to_string("application/pdf")
    } else if !form.as_str().is_empty() {
        form.clone()
    } else {
        current
    }
}

fn map_obje_node(node: &GedcomNode) -> (r: Media)
    ensures
        media_from_node(r, *node),
{
    let mut file_path = value_text(node);
    let mut content_hash = str_to_string("unhashed");
    let mut mime_type = str_to_string("application/octet-stream");
    let mut caption: Option<String> = None;
    let ghost init: MediaFields = (
        value_or_empty(node.value.deep_view()),
        "unhashed"@,
        "application/octet-stream"@,
        None,
    );
    let mut i: usize = 0;
    while i < node.children.len()
        invariant
            i <= node.children@.len(),
            init == (
                value_or_empty(node.value.deep_view()),
                "unhashed"@,
                "application/octet-stream"@,
                None::<Seq<char>>,
            ),
            ({
                let f = media_over(init, node.children@.subrange(0, i as int));
                &&& file_path@ == f.0
                &&& content_hash@ == f.1
                &&& mime_type@ == f.2
                &&& caption.deep_view() == f.3
            }),
        decreases node.children@.len() - i,
    {
        proof {
            assert(node.children@.subrange(0, i + 1).drop_last() =~= node.children@.subrange(
                0,
                i as int,
            ));
            reveal_strlit("FILE");
            reveal_strlit("FORM");
            reveal_strlit("TITL");
        }
        let child = &node.children[i];
        if tag_is(child, "FILE") {
            proof {
                assert(child.tag@[1] == 'I' && "FORM"@[1] == 'O' && "TITL"@[0] == 'T');
            }
            file_path = value_text(child);
            let mut h = str_to_string("unhashed:");
            push_str(&mut h, file_path.as_str());
            content_hash = h;
        } else if tag_is(child, "FORM") {
            proof {
                assert(child.tag@[0] == 'F' && "TITL"@[0] == 'T');
            }
            let form = to_ascii_lower_string(value_text(child).as_str());
            mime_type = mime_type_of(&form, mime_type);
        } else if tag_is(child, "TITL") {
            caption = child.value.clone();
        }
        i = i + 1;
    }
    proof {
        assert(node.children@.subrange(0, i as int) =~= node.children@);
    }
    let mut raw = RawGedcom::new();
    keep_xref(&node.xref, &mut raw);
    keep_custom_children(node, &mut raw);
    Media {
        id: EntityId::new(),
        file_path,
        content_hash,
        mime_type,
        thumbnail_path: None,
        ocr_text: None,
        dimensions_px: None,
        physical_dimensions_mm: None,
        caption,
        original_xref: node.xref.clone(),
        _raw_gedcom: raw,
    }
}

/// A note as mapped from a `NOTE` record (all but its id).
pub open spec fn note_from_node(n: Note, node: GedcomNode) -> bool {
    &&& n.text@ == value_or_empty(node.value.deep_view())
    &&& n.note_type is General
    &&& n.original_xref == node.xref
    &&& keys_unique(raw_entries(n._raw_gedcom))
    &&& raw_entries(n._raw_gedcom) == insert_custom_children(
        xref_entries(node.xref.deep_view()),
        node.children@,
    )
}

fn map_note_node(node: &GedcomNode) -> (r: Note)
    ensures
        note_from_node(r, *node),
{
    let mut raw = RawGedcom::new();
    keep_xref(&node.xref, &mut raw);
    keep_custom_children(node, &mut raw);
    Note {
        id: EntityId::new(),
        text: value_text(node),
        note_type: NoteType::General,
        original_xref: node.xref.clone(),
        _raw_gedcom: raw,
    }
}

/// A `NOTE` inside an individual record or one of its events: a link to a
/// note record (its xref) or the note's text itself.
#[derive(Debug, Clone, PartialEq, Eq)]
pub struct NoteLink {
    /// The xref of the individual record holding the note.
    pub root_xref: Option<String>,
    /// `INDI` for a note on the individual, else the event's tag.
    pub owner_tag: String,
    /// Whether the note is a link (`@...@`) rather than text.
    pub linked: bool,
    /// The linked xref, or the note's text.
    pub text: String,
}

/// Whether a `NOTE` value is a link to a note record: `@...@`.
pub open spec fn is_note_xref(v: Option<Seq<char>>) -> bool {
    v matches Some(s) && s.len() >= 2 && s[0] == '@' && s.last() == '@'
}

/// `l` is the link of the note `n` found under `owner_tag` in `root`.
pub open spec fn link_from(l: NoteLink, root: GedcomNode, owner_tag: Seq<char>, n: GedcomNode) -> bool {
    &&& l.root_xref.deep_view() == root.xref.deep_view()
    &&& l.owner_tag@ == owner_tag
    &&& l.linked == is_note_xref(n.value.deep_view())
    &&& l.text@ == value_or_empty(n.value.deep_view())
}

/// The `NOTE` children of an event node of `root`.
pub open spec fn event_note_sources(root: GedcomNode, tag: Seq<char>, gs: Seq<GedcomNode>) -> Seq<
    (GedcomNode, Seq<char>, GedcomNode),
>
    decreases gs.len(),
{
    if gs.len() == 0 {
        Seq::empty()
    } else {
        event_note_sources(root, tag, gs.drop_last()) + if gs.last().tag@ == "NOTE"@ {
            seq![(root, tag, gs.last())]
        } else {
            Seq::empty()
        }
    }
}

/// The `NOTE`s of an individual record: its own, and those of its events,
/// in document order.
pub open spec fn indi_note_sources(root: GedcomNode, cs: Seq<GedcomNode>) -> Seq<(GedcomNode, Seq<char>, GedcomNode)>
    decreases cs.len(),
{
    if cs.len() == 0 {
        Seq::empty()
    } else {
        let c = cs.last();
        indi_note_sources(root, cs.drop_last()) + if c.tag@ == "NOTE"@ {
            seq![(root, "INDI"@, c)]
        } else if is_indi_event_tag(c.tag@) {
            event_note_sources(root, c.tag@, c.children@)
        } else {
            Seq::empty()
        }
    }
}

/// The `NOTE`s of the individual records of a forest, in document order.
pub open spec fn note_sources(nodes: Seq<GedcomNode>) -> Seq<(GedcomNode, Seq<char>, GedcomNode)>
    decreases nodes.len(),
{
    if nodes.len() == 0 {
        Seq::empty()
    } else {
        note_sources(nodes.drop_last()) + if nodes.last().tag@ == "INDI"@ {
            indi_note_sources(nodes.last(), nodes.last().children@)
        } else {
            Seq::empty()
        }
    }
}

/// The links `ls` are those of the notes `srcs`, one for one.
pub open spec fn links_from(ls: Seq<NoteLink>, srcs: Seq<(GedcomNode, Seq<char>, GedcomNode)>) -> bool {
    &&& ls.len() == srcs.len()
    &&& forall|k: int| 0 <= k < ls.len() ==> #[trigger] link_from(ls[k], srcs[k].0, srcs[k].1, srcs[k].2)
}

proof fn lemma_links_push(
    ls: Seq<NoteLink>,
    srcs: Seq<(GedcomNode, Seq<char>, GedcomNode)>,
    l: NoteLink,
    src: (GedcomNode, Seq<char>, GedcomNode),
)
    requires
        links_from(ls, srcs),
        link_from(l, src.0, src.1, src.2),
    ensures
        links_from(ls.push(l), srcs + seq![src]),
{
    assert forall|k: int| 0 <= k < ls.push(l).len() implies #[trigger] link_from(
        ls.push(l)[k],
        (srcs + seq![src])[k].0,
        (srcs + seq![src])[k].1,
        (srcs + seq![src])[k].2,
    ) by {
        if k < ls.len() {
            assert(ls.push(l)[k] == ls[k]);
            assert((srcs + seq![src])[k] == srcs[k]);
        }
    }
}

fn note_xref_value(n: &GedcomNode) -> (r: bool)
    ensures
        r == is_note_xref(n.value.deep_view()),
{
    match &n.value {
        Some(v) => {
            let cs = chars_of(v.as_str());
            cs.len() >= 2 && cs[0] == '@' && cs[cs.len() - 1] == '@'
        },
        None => false,
    }
}

fn note_link(root: &GedcomNode, owner: &str, n: &GedcomNode) -> (r: NoteLink)
    ensures
        link_from(r, *root, owner@, *n),
{
    NoteLink {
        root_xref: root.xref.clone(),
        owner_tag: str_to_string(owner),
        linked: note_xref_value(n),
        text: value_text(n),
    }
}

fn push_event_notes(
    out: &mut Vec<NoteLink>,
    root: &GedcomNode,
    ev: &GedcomNode,
    Ghost(srcs): Ghost<Seq<(GedcomNode, Seq<char>, GedcomNode)>>,
)
    requires
        links_from(old(out)@, srcs),
    ensures
        links_from(final(out)@, srcs + event_note_sources(*root, ev.tag@, ev.children@)),
{
    let mut i: usize = 0;
    proof {
        assert(ev.children@.subrange(0, 0) =~= Seq::<GedcomNode>::empty());
        assert(srcs + event_note_sources(*root, ev.tag@, Seq::empty()) =~= srcs);
    }
    while i < ev.children.len()
        invariant
            i <= ev.children@.len(),
            links_from(out@, srcs + event_note_sources(*root, ev.tag@, ev.children@.subrange(0, i as int))),
        decreases ev.children@.len() - i,
    {
        let g = &ev.children[i];
        let ghost pre = srcs + event_note_sources(*root, ev.tag@, ev.children@.subrange(0, i as int));
        proof {
            assert(ev.children@.subrange(0, i + 1).drop_last() =~= ev.children@.subrange(0, i as int));
        }
        if tag_is(g, "NOTE") {
            let l = note_link(root, ev.tag.as_str(), g);
            proof {
                lemma_links_push(out@, pre, l, (*root, ev.tag@, *g));
                assert(pre + seq![(*root, ev.tag@, *g)] =~= srcs + event_note_sources(
                    *root,
                    ev.tag@,
                    ev.children@.subrange(0, i + 1),
                ));
            }
            out.push(l);
        } else {
            proof {
                assert(pre =~= srcs + event_note_sources(*root, ev.tag@, ev.children@.subrange(0, i + 1)));
            }
        }
        i = i + 1;
    }
    proof {
        assert(ev.children@.subrange(0, i as int) =~= ev.children@);
    }
}

fn push_indi_notes(
    out: &mut Vec<NoteLink>,
    root: &GedcomNode,
    Ghost(srcs): Ghost<Seq<(GedcomNode, Seq<char>, GedcomNode)>>,
)
    requires
        links_from(old(out)@, srcs),
    ensures
        links_from(final(out)@, srcs + indi_note_sources(*root, root.children@)),
{
    let mut i: usize = 0;
    proof {
        assert(root.children@.subrange(0, 0) =~= Seq::<GedcomNode>::empty());
        assert(srcs + indi_note_sources(*root, Seq::empty()) =~= srcs);
    }
    while i < root.children.len()
        invariant
            i <= root.children@.len(),
            links_from(out@, srcs + indi_note_sources(*root, root.children@.subrange(0, i as int))),
        decreases root.children@.len() - i,
    {
        let c = &root.children[i];
        let ghost pre = srcs + indi_note_sources(*root, root.children@.subrange(0, i as int));
        proof {
            assert(root.children@.subrange(0, i + 1).drop_last() =~= root.children@.subrange(0, i as int));
            assert(root.children@.subrange(0, i + 1).last() == *c);
        }
        if tag_is(c, "NOTE") {
            let l = note_link(root, "INDI", c);
            proof {
                reveal_strlit("INDI");
                lemma_links_push(out@, pre, l, (*root, "INDI"@, *c));
                assert(pre + seq![(*root, "INDI"@, *c)] =~= srcs + indi_note_sources(
                    *root,
                    root.children@.subrange(0, i + 1),
                ));
            }
            out.push(l);
        } else if indi_event_tag_to_type(c.tag.as_str()).is_some() {
            push_event_notes(out, root, c, Ghost(pre));
            proof {
                assert(pre + event_note_sources(*root, c.tag@, c.children@) =~= srcs + indi_note_sources(
                    *root,
                    root.children@.subrange(0, i + 1),
                ));
            }
        } else {
            proof {
                assert(pre =~= srcs + indi_note_sources(*root, root.children@.subrange(0, i + 1)));
            }
        }
        i = i + 1;
    }
    proof {
        assert(root.children@.subrange(0, i as int) =~= root.children@);
    }
}

/// The note links of the individual records of a forest (see `note_sources`).
pub fn collect_note_links(nodes: &[GedcomNode]) -> (r: Vec<NoteLink>)
    ensures
        links_from(r@, note_sources(nodes@)),
{
    let mut out: Vec<NoteLink> = Vec::new();
    let mut i: usize = 0;
    proof {
        assert(nodes@.subrange(0, 0) =~= Seq::<GedcomNode>::empty());
    }
    while i < nodes.len()
        invariant
            i <= nodes@.len(),
            links_from(out@, note_sources(nodes@.subrange(0, i as int))),
        decreases nodes@.len() - i,
    {
        let ghost pre = note_sources(nodes@.subrange(0, i as int));
        proof {
            assert(nodes@.subrange(0, i + 1).drop_last() =~= nodes@.subrange(0, i as int));
            assert(nodes@.subrange(0, i + 1).last() == nodes@[i as int]);
        }
        if tag_is(&nodes[i], "INDI") {
            push_indi_notes(&mut out, &nodes[i], Ghost(pre));
        } else {
            proof {
                assert(pre =~= note_sources(nodes@.subrange(0, i + 1)));
            }
        }
        i = i + 1;
    }
    proof {
        assert(nodes@.subrange(0, i as int) =~= nodes@);
    }
    out
}

/// An `OBJE` inside an individual or family record or one of its events: a
/// link to a media record or an inline file, with its crop and primary flag.
#[derive(Debug, Clone, PartialEq, Eq)]
pub struct MediaLink {
    /// `INDI` or `FAM`.
    pub root_tag: String,
    /// The xref of the record holding the link.
    pub root_xref: Option<String>,
    /// The record's tag for a link on the record, else the event's tag.
    pub owner_tag: String,
    /// The linked media record's xref (`@...@`), if the link is one.
    pub media_xref: Option<String>,
    /// The file of an inline object (its last `FILE`).
    pub external_path: Option<String>,
    /// The `_CROP` rectangle: four percentages separated by commas.
    pub crop_rect_pct: Option<CropRectPct>,
    /// The `_PRIM` flag: `Y` or `N`.
    pub is_primary: Option<bool>,
}

/// The crop rectangle of a `_CROP` value: four comma-separated numbers, each
/// at most 100.
pub open spec fn crop_of(v: Option<Seq<char>>) -> Option<CropRectPct> {
    match v {
        None => None,
        Some(s) => {
            let p = split_on(s, ',');
            if p.len() != 4 {
                None
            } else {
                match (parse_u8_spec(p[0]), parse_u8_spec(p[1]), parse_u8_spec(p[2]), parse_u8_spec(p[3])) {
                    (Some(a), Some(b), Some(c), Some(d)) => if a <= 100 && b <= 100 && c <= 100 && d <= 100 {
                        Some(CropRectPct { x_pct: a, y_pct: b, width_pct: c, height_pct: d })
                    } else {
                        None
                    },
                    _ => None,
                }
            }
        },
    }
}

/// The primary flag of a `_PRIM` value.
pub open spec fn primary_of(v: Option<Seq<char>>) -> Option<bool> {
    if v == Some(seq!['Y']) {
        Some(true)
    } else if v == Some(seq!['N']) {
        Some(false)
    } else {
        None
    }
}

/// `l` is the link of the object `n` found under `owner_tag` in `root`.
pub open spec fn media_link_from(l: MediaLink, root: GedcomNode, owner_tag: Seq<char>, n: GedcomNode) -> bool {
    &&& l.root_tag@ == root.tag@
    &&& l.root_xref.deep_view() == root.xref.deep_view()
    &&& l.owner_tag@ == owner_tag
    &&& l.media_xref.deep_view() == (if is_note_xref(n.value.deep_view()) {
        n.value.deep_view()
    } else {
        None
    })
    &&& l.external_path.deep_view() == last_value_of(n.children@, "FILE"@)
    &&& l.crop_rect_pct == crop_of(last_value_of(n.children@, "_CROP"@))
    &&& l.is_primary == primary_of(last_value_of(n.children@, "_PRIM"@))
}

/// Whether `tag` names an event of a record tagged `root_tag`.
pub open spec fn is_event_of(root_tag: Seq<char>, tag: Seq<char>) -> bool {
    if root_tag == "INDI"@ {
        is_indi_event_tag(tag)
    } else {
        tag == "MARR"@ || tag == "DIV"@
    }
}

/// The `OBJE` children of an event node of `root`.
pub open spec fn event_media_sources(root: GedcomNode, tag: Seq<char>, gs: Seq<GedcomNode>) -> Seq<
    (GedcomNode, Seq<char>, GedcomNode),
>
    decreases gs.len(),
{
    if gs.len() == 0 {
        Seq::empty()
    } else {
        event_media_sources(root, tag, gs.drop_last()) + if gs.last().tag@ == "OBJE"@ {
            seq![(root, tag, gs.last())]
        } else {
            Seq::empty()
        }
    }
}

/// The `OBJE`s of a record: its own, and those of its events, in order.
pub open spec fn record_media_sources(root: GedcomNode, cs: Seq<GedcomNode>) -> Seq<(GedcomNode, Seq<char>, GedcomNode)>
    decreases cs.len(),
{
    if cs.len() == 0 {
        Seq::empty()
    } else {
        let c = cs.last();
        record_media_sources(root, cs.drop_last()) + if c.tag@ == "OBJE"@ {
            seq![(root, root.tag@, c)]
        } else if is_event_of(root.tag@, c.tag@) {
            event_media_sources(root, c.tag@, c.children@)
        } else {
            Seq::empty()
        }
    }
}

/// The `OBJE`s of the individual and family records of a forest.
pub open spec fn media_sources(nodes: Seq<GedcomNode>) -> Seq<(GedcomNode, Seq<char>, GedcomNode)>
    decreases nodes.len(),
{
    if nodes.len() == 0 {
        Seq::empty()
    } else {
        media_sources(nodes.drop_last()) + if nodes.last().tag@ == "INDI"@ || nodes.last().tag@ == "FAM"@ {
            record_media_sources(nodes.last(), nodes.last().children@)
        } else {
            Seq::empty()
        }
    }
}

/// The media links `ls` are those of the objects `srcs`, one for one.
pub open spec fn media_links_from(ls: Seq<MediaLink>, srcs: Seq<(GedcomNode, Seq<char>, GedcomNode)>) -> bool {
    &&& ls.len() == srcs.len()
    &&& forall|k: int| 0 <= k < ls.len() ==> #[trigger] media_link_from(ls[k], srcs[k].0, srcs[k].1, srcs[k].2)
}

proof fn lemma_media_links_push(
    ls: Seq<MediaLink>,
    srcs: Seq<(GedcomNode, Seq<char>, GedcomNode)>,
    l: MediaLink,
    src: (GedcomNode, Seq<char>, GedcomNode),
)
    requires
        media_links_from(ls, srcs),
        media_link_from(l, src.0, src.1, src.2),
    ensures
        media_links_from(ls.push(l), srcs + seq![src]),
{
    assert forall|k: int| 0 <= k < ls.push(l).len() implies #[trigger] media_link_from(
        ls.push(l)[k],
        (srcs + seq![src])[k].0,
        (srcs + seq![src])[k].1,
        (srcs + seq![src])[k].2,
    ) by {
        if k < ls.len() {
            assert(ls.push(l)[k] == ls[k]);
            assert((srcs + seq![src])[k] == srcs[k]);
        }
    }
}

fn last_value_in(nodes: &Vec<GedcomNode>, tag: &str) -> (r: Option<String>)
    ensures
        r.deep_view() == last_value_of(nodes@, tag@),
{
    let mut j = nodes.len();
    proof {
        assert(nodes@.subrange(0, j as int) =~= nodes@);
    }
    while j > 0
        invariant
            j <= nodes@.len(),
            last_value_of(nodes@, tag@) == last_value_of(nodes@.subrange(0, j as int), tag@),
        decreases j,
    {
        proof {
            assert(nodes@.subrange(0, j as int).drop_last() =~= nodes@.subrange(0, j - 1));
            assert(nodes@.subrange(0, j as int).last() == nodes@[j - 1]);
        }
        let n = &nodes[j - 1];
        if tag_is(n, tag) {
            match &n.value {
                Some(v) => {
                    return Some(v.clone());
                },
                None => {},
            }
        }
        j = j - 1;
    }
    None
}

fn crop_value(v: &Option<String>) -> (r: Option<CropRectPct>)
    ensures
        r == crop_of(v.deep_view()),
{
    match v {
        None => None,
        Some(s) => {
            let cs = chars_of(s.as_str());
            let parts = split_chars(cs.as_slice(), ',');
            if parts.len() != 4 {
                return None;
            }
            let a = parse_u8_chars(parts[0].as_slice(), 0, parts[0].len());
            let b = parse_u8_chars(parts[1].as_slice(), 0, parts[1].len());
            let c = parse_u8_chars(parts[2].as_slice(), 0, parts[2].len());
            let d = parse_u8_chars(parts[3].as_slice(), 0, parts[3].len());
            proof {
                let p = split_on(s@, ',');
                assert(parts@[0]@ == p[0] && parts@[1]@ == p[1] && parts@[2]@ == p[2] && parts@[3]@ == p[3]);
                assert(parts@[0]@.subrange(0, parts@[0]@.len() as int) =~= parts@[0]@);
                assert(parts@[1]@.subrange(0, parts@[1]@.len() as int) =~= parts@[1]@);
                assert(parts@[2]@.subrange(0, parts@[2]@.len() as int) =~= parts@[2]@);
                assert(parts@[3]@.subrange(0, parts@[3]@.len() as int) =~= parts@[3]@);
            }
            match (a, b, c, d) {
                (Some(a), Some(b), Some(c), Some(d)) => {
                    if a <= 100 && b <= 100 && c <= 100 && d <= 100 {
                        Some(CropRectPct { x_pct: a, y_pct: b, width_pct: c, height_pct: d })
                    } else {
                        None
                    }
                },
                _ => None,
            }
        },
    }
}

fn primary_value(v: &Option<String>) -> (r: Option<bool>)
    ensures
        r == primary_of(v.deep_view()),
{
    match v {
        None => None,
        Some(s) => {
            let cs = chars_of(s.as_str());
            if cs.len() == 1 && cs[0] == 'Y' {
                proof {
                    assert(s@ =~= seq!['Y']);
                }
                Some(true)
            } else if cs.len() == 1 && cs[0] == 'N' {
                proof {
                    assert(s@ =~= seq!['N']);
                    assert(s@ != seq!['Y']);
                }
                Some(false)
            } else {
                proof {
                    if s@ == seq!['Y'] {
                        assert(cs@[0] == 'Y');
                    }
                    if s@ == seq!['N'] {
                        assert(cs@[0] == 'N');
                    }
                }
                None
            }
        },
    }
}

fn media_link(root: &GedcomNode, owner: &str, n: &GedcomNode) -> (r: MediaLink)
    ensures
        media_link_from(r, *root, owner@, *n),
{
    let media_xref = if note_xref_value(n) {
        n.value.clone()
    } else {
        None
    };
    let crop = last_value_in(&n.children, "_CROP");
    let prim = last_value_in(&n.children, "_PRIM");
    MediaLink {
        root_tag: root.tag.clone(),
        root_xref: root.xref.clone(),
        owner_tag: str_to_string(owner),
        media_xref,
        external_path: last_value_in(&n.children, "FILE"),
        crop_rect_pct: crop_value(&crop),
        is_primary: primary_value(&prim),
    }
}

fn is_event_child(root: &GedcomNode, c: &GedcomNode) -> (r: bool)
    ensures
        r == is_event_of(root.tag@, c.tag@),
{
    if tag_is(root, "INDI") {
        indi_event_tag_to_type(c.tag.as_str()).is_some()
    } else {
        tag_is(c, "MARR") || tag_is(c, "DIV")
    }
}

fn push_event_media(
    out: &mut Vec<MediaLink>,
    root: &GedcomNode,
    ev: &GedcomNode,
    Ghost(srcs): Ghost<Seq<(GedcomNode, Seq<char>, GedcomNode)>>,
)
    requires
        media_links_from(old(out)@, srcs),
    ensures
        media_links_from(final(out)@, srcs + event_media_sources(*root, ev.tag@, ev.children@)),
{
    let mut i: usize = 0;
    proof {
        assert(srcs + event_media_sources(*root, ev.tag@, Seq::empty()) =~= srcs);
        assert(ev.children@.subrange(0, 0) =~= Seq::<GedcomNode>::empty());
    }
    while i < ev.children.len()
        invariant
            i <= ev.children@.len(),
            media_links_from(out@, srcs + event_media_sources(*root, ev.tag@, ev.children@.subrange(0, i as int))),
        decreases ev.children@.len() - i,
    {
        let g = &ev.children[i];
        let ghost pre = srcs + event_media_sources(*root, ev.tag@, ev.children@.subrange(0, i as int));
        proof {
            assert(ev.children@.subrange(0, i + 1).drop_last() =~= ev.children@.subrange(0, i as int));
        }
        if tag_is(g, "OBJE") {
            let l = media_link(root, ev.tag.as_str(), g);
            proof {
                lemma_media_links_push(out@, pre, l, (*root, ev.tag@, *g));
                assert(pre + seq![(*root, ev.tag@, *g)] =~= srcs + event_media_sources(
                    *root,
                    ev.tag@,
                    ev.children@.subrange(0, i + 1),
                ));
            }
            out.push(l);
        } else {
            proof {
                assert(pre =~= srcs + event_media_sources(*root, ev.tag@, ev.children@.subrange(0, i + 1)));
            }
        }
        i = i + 1;
    }
    proof {
        assert(ev.children@.subrange(0, i as int) =~= ev.children@);
    }
}

fn push_record_media(
    out: &mut Vec<MediaLink>,
    root: &GedcomNode,
    Ghost(srcs): Ghost<Seq<(GedcomNode, Seq<char>, GedcomNode)>>,
)
    requires
        media_links_from(old(out)@, srcs),
    ensures
        media_links_from(final(out)@, srcs + record_media_sources(*root, root.children@)),
{
    let mut i: usize = 0;
    proof {
        assert(srcs + record_media_sources(*root, Seq::empty()) =~= srcs);
        assert(root.children@.subrange(0, 0) =~= Seq::<GedcomNode>::empty());
    }
    while i < root.children.len()
        invariant
            i <= root.children@.len(),
            media_links_from(out@, srcs + record_media_sources(*root, root.children@.subrange(0, i as int))),
        decreases root.children@.len() - i,
    {
        let c = &root.children[i];
        let ghost pre = srcs + record_media_sources(*root, root.children@.subrange(0, i as int));
        proof {
            assert(root.children@.subrange(0, i + 1).drop_last() =~= root.children@.subrange(0, i as int));
            assert(root.children@.subrange(0, i + 1).last() == *c);
        }
        if tag_is(c, "OBJE") {
            let l = media_link(root, root.tag.as_str(), c);
            proof {
                lemma_media_links_push(out@, pre, l, (*root, root.tag@, *c));
                assert(pre + seq![(*root, root.tag@, *c)] =~= srcs + record_media_sources(
                    *root,
                    root.children@.subrange(0, i + 1),
                ));
            }
            out.push(l);
        } else if is_event_child(root, c) {
            push_event_media(out, root, c, Ghost(pre));
            proof {
                assert(pre + event_media_sources(*root, c.tag@, c.children@) =~= srcs + record_media_sources(
                    *root,
                    root.children@.subrange(0, i + 1),
                ));
            }
        } else {
            proof {
                assert(pre =~= srcs + record_media_sources(*root, root.children@.subrange(0, i + 1)));
            }
        }
        i = i + 1;
    }
    proof {
        assert(root.children@.subrange(0, i as int) =~= root.children@);
    }
}

/// The media links of the individual and family records of a forest (see
/// `media_sources`).
pub fn collect_media_links(nodes: &[GedcomNode]) -> (r: Vec<MediaLink>)
    ensures
        media_links_from(r@, media_sources(nodes@)),
{
    let mut out: Vec<MediaLink> = Vec::new();
    let mut i: usize = 0;
    proof {
        assert(nodes@.subrange(0, 0) =~= Seq::<GedcomNode>::empty());
    }
    while i < nodes.len()
        invariant
            i <= nodes@.len(),
            media_links_from(out@, media_sources(nodes@.subrange(0, i as int))),
        decreases nodes@.len() - i,
    {
        let ghost pre = media_sources(nodes@.subrange(0, i as int));
        proof {
            assert(nodes@.subrange(0, i + 1).drop_last() =~= nodes@.subrange(0, i as int));
            assert(nodes@.subrange(0, i + 1).last() == nodes@[i as int]);
        }
        if tag_is(&nodes[i], "INDI") || tag_is(&nodes[i], "FAM") {
            push_record_media(&mut out, &nodes[i], Ghost(pre));
        } else {
            proof {
                assert(pre =~= media_sources(nodes@.subrange(0, i + 1)));
            }
        }
        i = i + 1;
    }
    proof {
        assert(nodes@.subrange(0, i as int) =~= nodes@);
    }
    out
}

/// Media objects, notes, LDS ordinances, and the note and media links of a
/// GEDCOM file.
#[derive(Debug, Clone, PartialEq, Eq)]
pub struct MediaNoteLdsMapping {
    pub media: Vec<Media>,
    pub notes: Vec<Note>,
    pub lds_ordinances: Vec<LdsOrdinance>,
    pub note_links: Vec<NoteLink>,
    pub media_links: Vec<MediaLink>,
}

/// A mapping of the media, notes and LDS ordinances of a forest.
pub open spec fn media_note_lds_of(m: MediaNoteLdsMapping, nodes: Seq<GedcomNode>) -> bool {
    let objs = nodes_tagged(nodes, "OBJE"@);
    let notes = nodes_tagged(nodes, "NOTE"@);
    let lds = lds_nodes(nodes);
    &&& m.media@.len() == objs.len()
    &&& forall|k: int| 0 <= k < objs.len() ==> #[trigger] media_from_node(m.media@[k], objs[k])
    &&& m.notes@.len() == notes.len()
    &&& forall|k: int| 0 <= k < notes.len() ==> #[trigger] note_from_node(m.notes@[k], notes[k])
    &&& m.lds_ordinances@.len() == lds.len()
    &&& forall|k: int| 0 <= k < lds.len() ==> #[trigger] ordinance_from_node(m.lds_ordinances@[k], lds[k])
    &&& links_from(m.note_links@, note_sources(nodes))
    &&& media_links_from(m.media_links@, media_sources(nodes))
}

/// Maps the media objects, notes and LDS ordinance records of a forest.
pub fn map_media_note_lds(nodes: &[GedcomNode]) -> (r: MediaNoteLdsMapping)
    ensures
        media_note_lds_of(r, nodes@),
{
    let mut media: Vec<Media> = Vec::new();
    let mut notes: Vec<Note> = Vec::new();
    let mut lds: Vec<LdsOrdinance> = Vec::new();
    let mut i: usize = 0;
    proof {
        assert(nodes@.subrange(0, 0) =~= Seq::<GedcomNode>::empty());
        assert(lds_nodes(Seq::<GedcomNode>::empty()) == Seq::<GedcomNode>::empty());
    }
    while i < nodes.len()
        invariant
            i <= nodes@.len(),
            media@.len() == nodes_tagged(nodes@.subrange(0, i as int), "OBJE"@).len(),
            forall|k: int|
                0 <= k < media@.len() ==> #[trigger] media_from_node(
                    media@[k],
                    nodes_tagged(nodes@.subrange(0, i as int), "OBJE"@)[k],
                ),
            notes@.len() == nodes_tagged(nodes@.subrange(0, i as int), "NOTE"@).len(),
            forall|k: int|
                0 <= k < notes@.len() ==> #[trigger] note_from_node(
                    notes@[k],
                    nodes_tagged(nodes@.subrange(0, i as int), "NOTE"@)[k],
                ),
            lds@.len() == lds_nodes(nodes@.subrange(0, i as int)).len(),
            forall|k: int|
                0 <= k < lds@.len() ==> #[trigger] ordinance_from_node(
                    lds@[k],
                    lds_nodes(nodes@.subrange(0, i as int))[k],
                ),
        decreases nodes@.len() - i,
    {
        let ghost pre = nodes@.subrange(0, i as int);
        proof {
            assert(nodes@.subrange(0, i + 1).drop_last() =~= pre);
            assert(nodes@.subrange(0, i + 1) =~= pre.push(nodes@[i as int]));
            lemma_lds_nodes_push(pre, nodes@[i as int]);
            reveal_strlit("OBJE");
            reveal_strlit("NOTE");
        }
        let node = &nodes[i];
        if tag_is(node, "OBJE") {
            proof {
                assert(node.tag@[0] == 'O' && "NOTE"@[0] == 'N');
            }
            media.push(map_obje_node(node));
        } else if tag_is(node, "NOTE") {
            notes.push(map_note_node(node));
        }
        let ghost before = lds@;
        collect_lds_from_node(node, &mut lds);
        proof {
            let part = lds_part(nodes@[i as int]);
            assert forall|k: int| 0 <= k < lds_nodes(pre).len() + part.len() implies #[trigger] ordinance_from_node(
                lds@[k],
                (lds_nodes(pre) + part)[k],
            ) by {
                if k < lds_nodes(pre).len() {
                    assert(lds@[k] == lds@.subrange(0, before.len() as int)[k]);
                } else {
                    let j = k - lds_nodes(pre).len();
                    assert(ordinance_from_node(lds@[before.len() + j], part[j]));
                }
            }
        }
        i = i + 1;
    }
    proof {
        assert(nodes@.subrange(0, i as int) =~= nodes@);
    }
    let note_links = collect_note_links(nodes);
    let media_links = collect_media_links(nodes);
    MediaNoteLdsMapping { media, notes, lds_ordinances: lds, note_links, media_links }
}

} // verus!
