//! A GEDCOM import, short of storage: text to lines, lines to a forest, the
//! forest to entities and assertions, and the counts the import reports.
use crate::event::Event;
use crate::gedcom::assertions::{generate_import_assertions, import_assertions, records_match, ImportedAssertionRecord};
use crate::gedcom::mapping::{
    family_mapping_of, indi_event_from, indi_event_sources, map_family_nodes, map_indi_nodes_to_events,
    map_indi_nodes_to_persons, nodes_tagged, person_from_node, FamilyMapping,
};
use crate::gedcom::records::{map_media_note_lds, media_note_lds_of, MediaNoteLdsMapping};
use crate::gedcom::sources::{map_source_chain, source_chain_of, SourceChainMapping};
use crate::gedcom::tokenizer::{lines_view, tokenize_gedcom, tokenize_spec, GedcomTokenizerError, LineView};
use crate::gedcom::tree::{
    bad_line, build_gedcom_tree, flatten, levels_ok, nesting_message, well_nested, GedcomNode, GedcomTreeError,
};
use crate::person::Person;
use crate::evidence::{Citation, Media, Note, Repository, Source};
use crate::family::{Family, Relationship};
use crate::lds::LdsOrdinance;
use crate::raw::{raw_entries, RawGedcom};
use crate::text::{chars_of, decimal, push_decimal, push_str, str_to_string};
use vstd::prelude::*;

verus! {

impl GedcomTokenizerError {
    /// "line N: message".
    pub fn to_text(&self) -> (r: String)
        ensures
            r@ == "line "@ + decimal(self.line_number as nat) + ": "@ + self.message@,
    {
        let mut out = str_to_string("line ");
        push_decimal(&mut out, self.line_number as u64);
        push_str(&mut out, ": ");
        push_str(&mut out, self.message.as_str());
        out
    }
}

impl GedcomTreeError {
    /// "line index N: message".
    pub fn to_text(&self) -> (r: String)
        ensures
            r@ == "line index "@ + decimal(self.line_index as nat) + ": "@ + self.message@,
    {
        let mut out = str_to_string("line index ");
        push_decimal(&mut out, self.line_index as u64);
        push_str(&mut out, ": ");
        push_str(&mut out, self.message.as_str());
        out
    }
}

/// Why an import failed. Storage and serialization failures carry the
/// message of the underlying error.
#[derive(Debug, Clone, PartialEq, Eq)]
pub enum GedcomImportError {
    Tokenizer(GedcomTokenizerError),
    Tree(GedcomTreeError),
    Serialization(String),
    Migration(String),
    Sqlite(String),
}

impl GedcomImportError {
    /// The message of the failure, naming the stage that failed.
    pub fn to_text(&self) -> (r: String)
        ensures
            r@ == match *self {
                GedcomImportError::Tokenizer(e) => "tokenize failed: "@ + "line "@ + decimal(
                    e.line_number as nat,
                ) + ": "@ + e.message@,
                GedcomImportError::Tree(e) => "tree build failed: "@ + "line index "@ + decimal(
                    e.line_index as nat,
                ) + ": "@ + e.message@,
                GedcomImportError::Serialization(m) => "serialization failed: "@ + m@,
                GedcomImportError::Migration(m) => "migration failed: "@ + m@,
                GedcomImportError::Sqlite(m) => "sqlite failed: "@ + m@,
            },
    {
        match self {
            GedcomImportError::Tokenizer(e) => {
                let mut out = str_to_string("tokenize failed: ");
                let t = e.to_text();
                push_str(&mut out, t.as_str());
                proof {
                    assert(out@ =~= "tokenize failed: "@ + ("line "@ + decimal(e.line_number as nat)
                        + ": "@ + e.message@));
                    assert(out@ =~= "tokenize failed: "@ + "line "@ + decimal(e.line_number as nat)
                        + ": "@ + e.message@);
                }
                out
            },
            GedcomImportError::Tree(e) => {
                let mut out = str_to_string("tree build failed: ");
                let t = e.to_text();
                push_str(&mut out, t.as_str());
                proof {
                    assert(out@ =~= "tree build failed: "@ + "line index "@ + decimal(
                        e.line_index as nat,
                    ) + ": "@ + e.message@);
                }
                out
            },
            GedcomImportError::Serialization(m) => {
                let mut out = str_to_string("serialization failed: ");
                push_str(&mut out, m.as_str());
                out
            },
            GedcomImportError::Migration(m) => {
                let mut out = str_to_string("migration failed: ");
                push_str(&mut out, m.as_str());
                out
            },
            GedcomImportError::Sqlite(m) => {
                let mut out = str_to_string("sqlite failed: ");
                push_str(&mut out, m.as_str());
                out
            },
        }
    }
}

impl From<GedcomTokenizerError> for GedcomImportError {
    fn from(value: GedcomTokenizerError) -> Self {
        GedcomImportError::Tokenizer(value)
    }
}

impl From<GedcomTreeError> for GedcomImportError {
    fn from(value: GedcomTreeError) -> Self {
        GedcomImportError::Tree(value)
    }
}

impl vstd::std_specs::convert::FromSpecImpl<GedcomTokenizerError> for GedcomImportError {
    open spec fn obeys_from_spec() -> bool {
        true
    }

    open spec fn from_spec(v: GedcomTokenizerError) -> Self {
        GedcomImportError::Tokenizer(v)
    }
}

impl vstd::std_specs::convert::FromSpecImpl<GedcomTreeError> for GedcomImportError {
    open spec fn obeys_from_spec() -> bool {
        true
    }

    open spec fn from_spec(v: GedcomTreeError) -> Self {
        GedcomImportError::Tree(v)
    }
}

/// Whether a raw-GEDCOM key keeps a vendor subtree: it starts with "CUSTOM_".
pub open spec fn is_custom_entry_key(k: Seq<char>) -> bool {
    k.len() >= 7 && k.subrange(0, 7) == "CUSTOM_"@
}

/// A key under which a vendor ("_"-prefixed) subtree is kept: "CUSTOM_"
/// and the vendor tag (kept change records are not counted).
pub open spec fn is_vendor_entry_key(k: Seq<char>) -> bool {
    k.len() >= 8 && k.subrange(0, 8) == "CUSTOM__"@
}

/// How many vendor subtrees a raw-GEDCOM map keeps.
pub open spec fn custom_key_count(entries: Seq<(Seq<char>, Seq<char>)>) -> nat
    decreases entries.len(),
{
    if entries.len() == 0 {
        0
    } else {
        custom_key_count(entries.drop_last()) + if is_vendor_entry_key(entries.last().0) {
            1nat
        } else {
            0nat
        }
    }
}

pub fn is_custom_key(k: &String) -> (r: bool)
    ensures
        r == is_custom_entry_key(k@),
{
    let cs = chars_of(k.as_str());
    let prefix = ['C', 'U', 'S', 'T', 'O', 'M', '_'];
    proof {
        reveal_strlit("CUSTOM_");
        assert(prefix@ =~= "CUSTOM_"@);
    }
    if cs.len() < 7 {
        return false;
    }
    let mut i: usize = 0;
    while i < 7
        invariant
            i <= 7,
            cs@.len() >= 7,
            cs@ == k@,
            prefix@ == "CUSTOM_"@,
            forall|j: int| 0 <= j < i ==> cs@[j] == prefix@[j],
        decreases 7 - i,
    {
        if cs[i] != prefix[i] {
            proof {
                assert(k@.subrange(0, 7)[i as int] != "CUSTOM_"@[i as int]);
            }
            return false;
        }
        i = i + 1;
    }
    proof {
        assert(k@.subrange(0, 7) =~= "CUSTOM_"@);
    }
    true
}

pub fn is_vendor_key(k: &String) -> (r: bool)
    ensures
        r == is_vendor_entry_key(k@),
{
    proof {
        reveal_strlit("CUSTOM_");
        reveal_strlit("CUSTOM__");
        assert("CUSTOM__"@.subrange(0, 7) =~= "CUSTOM_"@);
        if k@.len() >= 8 {
            assert(k@.subrange(0, 8).subrange(0, 7) =~= k@.subrange(0, 7));
            assert(k@.subrange(0, 8)[7] == k@[7]);
            if k@.subrange(0, 7) == "CUSTOM_"@ && k@[7] == '_' {
                assert(k@.subrange(0, 8) =~= "CUSTOM__"@);
            }
        }
    }
    if !is_custom_key(k) {
        return false;
    }
    let cs = chars_of(k.as_str());
    cs.len() >= 8 && cs[7] == '_'
}

/// Adds the number of vendor subtrees kept in `raw` to `acc`, stopping at
/// the largest `usize`.
fn add_custom_count(acc: usize, raw: &RawGedcom) -> (r: usize)
    ensures
        r == if acc + custom_key_count(raw_entries(*raw)) > usize::MAX {
            usize::MAX as int
        } else {
            acc + custom_key_count(raw_entries(*raw))
        },
{
    let mut total = acc;
    let mut i: usize = 0;
    while i < raw.entries.len()
        invariant
            i <= raw.entries@.len(),
            total == if acc + custom_key_count(raw_entries(*raw).subrange(0, i as int)) > usize::MAX {
                usize::MAX as int
            } else {
                acc + custom_key_count(raw_entries(*raw).subrange(0, i as int))
            },
        decreases raw.entries@.len() - i,
    {
        proof {
            assert(raw_entries(*raw).subrange(0, i + 1).drop_last() =~= raw_entries(*raw).subrange(0, i as int));
            assert(raw_entries(*raw)[i as int].0 == raw.entries@[i as int].0@);
        }
        if is_vendor_key(&raw.entries[i].0) {
            total = total.saturating_add(1);
        }
        i = i + 1;
    }
    proof {
        assert(raw_entries(*raw).subrange(0, i as int) =~= raw_entries(*raw));
    }
    total
}

/// The sum of `f` over `items`.
pub open spec fn sum_over<T>(items: Seq<T>, f: spec_fn(T) -> nat) -> nat
    decreases items.len(),
{
    if items.len() == 0 {
        0
    } else {
        sum_over(items.drop_last(), f) + f(items.last())
    }
}

/// `x`, or the largest `usize` when it does not fit.
pub open spec fn capped(x: int) -> int {
    if x > usize::MAX {
        usize::MAX as int
    } else {
        x
    }
}

pub open spec fn persons_custom_counts() -> spec_fn(Person) -> nat {
    |x: Person| custom_key_count(raw_entries(x._raw_gedcom))
}

fn add_persons_counts(acc: usize, items: &[Person]) -> (r: usize)
    ensures
        r == capped(acc + sum_over(items@, persons_custom_counts())),
{
    let ghost f = persons_custom_counts();
    let mut total = acc;
    let mut i: usize = 0;
    while i < items.len()
        invariant
            i <= items@.len(),
            f == persons_custom_counts(),
            total == capped(acc + sum_over(items@.subrange(0, i as int), f)),
        decreases items@.len() - i,
    {
        proof {
            assert(items@.subrange(0, i + 1).drop_last() =~= items@.subrange(0, i as int));
        }
        total = add_custom_count(total, &items[i]._raw_gedcom);
        i = i + 1;
    }
    proof {
        assert(items@.subrange(0, i as int) =~= items@);
    }
    total
}

pub open spec fn families_custom_counts() -> spec_fn(Family) -> nat {
    |x: Family| custom_key_count(raw_entries(x._raw_gedcom))
}

fn add_families_counts(acc: usize, items: &[Family]) -> (r: usize)
    ensures
        r == capped(acc + sum_over(items@, families_custom_counts())),
{
    let ghost f = families_custom_counts();
    let mut total = acc;
    let mut i: usize = 0;
    while i < items.len()
        invariant
            i <= items@.len(),
            f == families_custom_counts(),
            total == capped(acc + sum_over(items@.subrange(0, i as int), f)),
        decreases items@.len() - i,
    {
        proof {
            assert(items@.subrange(0, i + 1).drop_last() =~= items@.subrange(0, i as int));
        }
        total = add_custom_count(total, &items[i]._raw_gedcom);
        i = i + 1;
    }
    proof {
        assert(items@.subrange(0, i as int) =~= items@);
    }
    total
}

pub open spec fn relationships_custom_counts() -> spec_fn(Relationship) -> nat {
    |x: Relationship| custom_key_count(raw_entries(x._raw_gedcom))
}

fn add_relationships_counts(acc: usize, items: &[Relationship]) -> (r: usize)
    ensures
        r == capped(acc + sum_over(items@, relationships_custom_counts())),
{
    let ghost f = relationships_custom_counts();
    let mut total = acc;
    let mut i: usize = 0;
    while i < items.len()
        invariant
            i <= items@.len(),
            f == relationships_custom_counts(),
            total == capped(acc + sum_over(items@.subrange(0, i as int), f)),
        decreases items@.len() - i,
    {
        proof {
            assert(items@.subrange(0, i + 1).drop_last() =~= items@.subrange(0, i as int));
        }
        total = add_custom_count(total, &items[i]._raw_gedcom);
        i = i + 1;
    }
    proof {
        assert(items@.subrange(0, i as int) =~= items@);
    }
    total
}

pub open spec fn events_custom_counts() -> spec_fn(Event) -> nat {
    |x: Event| custom_key_count(raw_entries(x._raw_gedcom))
}

fn add_events_counts(acc: usize, items: &[Event]) -> (r: usize)
    ensures
        r == capped(acc + sum_over(items@, events_custom_counts())),
{
    let ghost f = events_custom_counts();
    let mut total = acc;
    let mut i: usize = 0;
    while i < items.len()
        invariant
            i <= items@.len(),
            f == events_custom_counts(),
            total == capped(acc + sum_over(items@.subrange(0, i as int), f)),
        decreases items@.len() - i,
    {
        proof {
            assert(items@.subrange(0, i + 1).drop_last() =~= items@.subrange(0, i as int));
        }
        total = add_custom_count(total, &items[i]._raw_gedcom);
        i = i + 1;
    }
    proof {
        assert(items@.subrange(0, i as int) =~= items@);
    }
    total
}

pub open spec fn sources_custom_counts() -> spec_fn(Source) -> nat {
    |x: Source| custom_key_count(raw_entries(x._raw_gedcom))
}

fn add_sources_counts(acc: usize, items: &[Source]) -> (r: usize)
    ensures
        r == capped(acc + sum_over(items@, sources_custom_counts())),
{
    let ghost f = sources_custom_counts();
    let mut total = acc;
    let mut i: usize = 0;
    while i < items.len()
        invariant
            i <= items@.len(),
            f == sources_custom_counts(),
            total == capped(acc + sum_over(items@.subrange(0, i as int), f)),
        decreases items@.len() - i,
    {
        proof {
            assert(items@.subrange(0, i + 1).drop_last() =~= items@.subrange(0, i as int));
        }
        total = add_custom_count(total, &items[i]._raw_gedcom);
        i = i + 1;
    }
    proof {
        assert(items@.subrange(0, i as int) =~= items@);
    }
    total
}

pub open spec fn citations_custom_counts() -> spec_fn(Citation) -> nat {
    |x: Citation| custom_key_count(raw_entries(x._raw_gedcom))
}

fn add_citations_counts(acc: usize, items: &[Citation]) -> (r: usize)
    ensures
        r == capped(acc + sum_over(items@, citations_custom_counts())),
{
    let ghost f = citations_custom_counts();
    let mut total = acc;
    let mut i: usize = 0;
    while i < items.len()
        invariant
            i <= items@.len(),
            f == citations_custom_counts(),
            total == capped(acc + sum_over(items@.subrange(0, i as int), f)),
        decreases items@.len() - i,
    {
        proof {
            assert(items@.subrange(0, i + 1).drop_last() =~= items@.subrange(0, i as int));
        }
        total = add_custom_count(total, &items[i]._raw_gedcom);
        i = i + 1;
    }
    proof {
        assert(items@.subrange(0, i as int) =~= items@);
    }
    total
}

pub open spec fn repositories_custom_counts() -> spec_fn(Repository) -> nat {
    |x: Repository| custom_key_count(raw_entries(x._raw_gedcom))
}

fn add_repositories_counts(acc: usize, items: &[Repository]) -> (r: usize)
    ensures
        r == capped(acc + sum_over(items@, repositories_custom_counts())),
{
    let ghost f = repositories_custom_counts();
    let mut total = acc;
    let mut i: usize = 0;
    while i < items.len()
        invariant
            i <= items@.len(),
            f == repositories_custom_counts(),
            total == capped(acc + sum_over(items@.subrange(0, i as int), f)),
        decreases items@.len() - i,
    {
        proof {
            assert(items@.subrange(0, i + 1).drop_last() =~= items@.subrange(0, i as int));
        }
        total = add_custom_count(total, &items[i]._raw_gedcom);
        i = i + 1;
    }
    proof {
        assert(items@.subrange(0, i as int) =~= items@);
    }
    total
}

pub open spec fn media_custom_counts() -> spec_fn(Media) -> nat {
    |x: Media| custom_key_count(raw_entries(x._raw_gedcom))
}

fn add_media_counts(acc: usize, items: &[Media]) -> (r: usize)
    ensures
        r == capped(acc + sum_over(items@, media_custom_counts())),
{
    let ghost f = media_custom_counts();
    let mut total = acc;
    let mut i: usize = 0;
    while i < items.len()
        invariant
            i <= items@.len(),
            f == media_custom_counts(),
            total == capped(acc + sum_over(items@.subrange(0, i as int), f)),
        decreases items@.len() - i,
    {
        proof {
            assert(items@.subrange(0, i + 1).drop_last() =~= items@.subrange(0, i as int));
        }
        total = add_custom_count(total, &items[i]._raw_gedcom);
        i = i + 1;
    }
    proof {
        assert(items@.subrange(0, i as int) =~= items@);
    }
    total
}

pub open spec fn notes_custom_counts() -> spec_fn(Note) -> nat {
    |x: Note| custom_key_count(raw_entries(x._raw_gedcom))
}

fn add_notes_counts(acc: usize, items: &[Note]) -> (r: usize)
    ensures
        r == capped(acc + sum_over(items@, notes_custom_counts())),
{
    let ghost f = notes_custom_counts();
    let mut total = acc;
    let mut i: usize = 0;
    while i < items.len()
        invariant
            i <= items@.len(),
            f == notes_custom_counts(),
            total == capped(acc + sum_over(items@.subrange(0, i as int), f)),
        decreases items@.len() - i,
    {
        proof {
            assert(items@.subrange(0, i + 1).drop_last() =~= items@.subrange(0, i as int));
        }
        total = add_custom_count(total, &items[i]._raw_gedcom);
        i = i + 1;
    }
    proof {
        assert(items@.subrange(0, i as int) =~= items@);
    }
    total
}

pub open spec fn ordinances_custom_counts() -> spec_fn(LdsOrdinance) -> nat {
    |x: LdsOrdinance| custom_key_count(raw_entries(x._raw_gedcom))
}

fn add_ordinances_counts(acc: usize, items: &[LdsOrdinance]) -> (r: usize)
    ensures
        r == capped(acc + sum_over(items@, ordinances_custom_counts())),
{
    let ghost f = ordinances_custom_counts();
    let mut total = acc;
    let mut i: usize = 0;
    while i < items.len()
        invariant
            i <= items@.len(),
            f == ordinances_custom_counts(),
            total == capped(acc + sum_over(items@.subrange(0, i as int), f)),
        decreases items@.len() - i,
    {
        proof {
            assert(items@.subrange(0, i + 1).drop_last() =~= items@.subrange(0, i as int));
        }
        total = add_custom_count(total, &items[i]._raw_gedcom);
        i = i + 1;
    }
    proof {
        assert(items@.subrange(0, i as int) =~= items@);
    }
    total
}

/// How many vendor subtrees all the mapped entities keep, in all.
pub open spec fn unknown_tag_total(
    persons: Seq<Person>,
    fm: FamilyMapping,
    sm: SourceChainMapping,
    mm: MediaNoteLdsMapping,
    person_events: Seq<Event>,
) -> nat {
    sum_over(persons, persons_custom_counts()) + sum_over(fm.families@, families_custom_counts())
        + sum_over(fm.relationships@, relationships_custom_counts()) + sum_over(
        fm.events@,
        events_custom_counts(),
    ) + sum_over(person_events, events_custom_counts()) + sum_over(
        sm.sources@,
        sources_custom_counts(),
    ) + sum_over(sm.citations@, citations_custom_counts()) + sum_over(
        sm.repositories@,
        repositories_custom_counts(),
    ) + sum_over(mm.media@, media_custom_counts()) + sum_over(mm.notes@, notes_custom_counts())
        + sum_over(mm.lds_ordinances@, ordinances_custom_counts())
}

/// Counts the vendor subtrees kept by all mapped entities (the largest
/// `usize` if there are more).
pub fn count_unknown_tags(
    persons: &[Person],
    family_mapping: &FamilyMapping,
    source_mapping: &SourceChainMapping,
    media_note_lds_mapping: &MediaNoteLdsMapping,
    person_events: &[Event],
) -> (r: usize)
    ensures
        r == capped(
            unknown_tag_total(
                persons@,
                *family_mapping,
                *source_mapping,
                *media_note_lds_mapping,
                person_events@,
            ) as int,
        ),
{
    let mut total = add_persons_counts(0, persons);
    total = add_families_counts(total, family_mapping.families.as_slice());
    total = add_relationships_counts(total, family_mapping.relationships.as_slice());
    total = add_events_counts(total, family_mapping.events.as_slice());
    total = add_events_counts(total, person_events);
    total = add_sources_counts(total, source_mapping.sources.as_slice());
    total = add_citations_counts(total, source_mapping.citations.as_slice());
    total = add_repositories_counts(total, source_mapping.repositories.as_slice());
    total = add_media_counts(total, media_note_lds_mapping.media.as_slice());
    total = add_notes_counts(total, media_note_lds_mapping.notes.as_slice());
    total = add_ordinances_counts(total, media_note_lds_mapping.lds_ordinances.as_slice());
    total
}

/// What an import created: entity counts by kind (in key order), assertions,
/// and vendor subtrees kept.
#[derive(Debug, Clone, PartialEq, Eq)]
pub struct GedcomImportReport {
    pub entities_created_by_type: Vec<(String, usize)>,
    pub assertions_created: usize,
    pub unknown_tags_preserved: usize,
}

/// Everything an import stores: the forest read, the entities mapped from
/// it, the assertions about them, and the count of vendor subtrees kept.
pub struct GedcomImport {
    pub roots: Vec<GedcomNode>,
    pub persons: Vec<Person>,
    pub person_events: Vec<Event>,
    pub family_mapping: FamilyMapping,
    pub source_mapping: SourceChainMapping,
    pub media_note_lds_mapping: MediaNoteLdsMapping,
    pub assertions: Vec<ImportedAssertionRecord>,
    pub unknown_tags_preserved: usize,
}

/// The entities, assertions and counts of an import of the forest `roots`.
pub open spec fn import_of(imp: GedcomImport, job: Seq<char>) -> bool {
    let roots = imp.roots@;
    &&& imp.persons@.len() == nodes_tagged(roots, "INDI"@).len()
    &&& forall|i: int|
        0 <= i < imp.persons@.len() ==> #[trigger] person_from_node(
            imp.persons@[i],
            nodes_tagged(roots, "INDI"@)[i],
        )
    &&& imp.person_events@.len() == indi_event_sources(roots).len()
    &&& forall|i: int|
        0 <= i < imp.person_events@.len() ==> #[trigger] indi_event_from(
            imp.person_events@[i],
            roots[indi_event_sources(roots)[i].0],
            indi_event_sources(roots)[i].1,
        )
    &&& source_chain_of(imp.source_mapping, roots)
    &&& family_mapping_of(imp.family_mapping, nodes_tagged(roots, "FAM"@))
    &&& media_note_lds_of(imp.media_note_lds_mapping, roots)
    &&& records_match(
        imp.assertions@,
        import_assertions(
            imp.persons@,
            imp.family_mapping,
            imp.source_mapping,
            imp.media_note_lds_mapping,
            imp.person_events@,
        ),
        job,
    )
    &&& imp.unknown_tags_preserved == capped(
        unknown_tag_total(
            imp.persons@,
            imp.family_mapping,
            imp.source_mapping,
            imp.media_note_lds_mapping,
            imp.person_events@,
        ) as int,
    )
}

/// The error for the first badly nested line of `ls`.
pub open spec fn tree_error_of(ls: Seq<LineView>, e: GedcomTreeError) -> bool {
    &&& e.line_index < ls.len()
    &&& bad_line(ls, e.line_index as int)
    &&& forall|j: int| 0 <= j < e.line_index ==> !bad_line(ls, j)
    &&& e.message@ == nesting_message(ls, e.line_index as int)
}

/// Reads a GEDCOM text and maps it to everything an import stores (see
/// `import_of`): tokenizing or tree-building failures are reported as such.
pub fn prepare_gedcom_import(import_job_id: &str, input: &str) -> (r: Result<GedcomImport, GedcomImportError>)
    ensures
        match r {
            Ok(imp) => {
                &&& tokenize_spec(input@) == Ok::<Seq<LineView>, (int, Seq<char>)>(flatten(imp.roots@))
                &&& well_nested(flatten(imp.roots@))
                &&& levels_ok(imp.roots@, 0)
                &&& import_of(imp, import_job_id@)
            },
            Err(GedcomImportError::Tokenizer(e)) => tokenize_spec(input@) == Err::<Seq<LineView>, (int, Seq<char>)>(
                (e.line_number as int, e.message@),
            ),
            Err(GedcomImportError::Tree(e)) => tokenize_spec(input@) matches Ok(ls) && tree_error_of(ls, e),
            Err(_) => false,
        },
{
    let lines = match tokenize_gedcom(input) {
        Ok(l) => l,
        Err(e) => {
            return Err(GedcomImportError::Tokenizer(e));
        },
    };
    let roots = match build_gedcom_tree(&lines) {
        Ok(r) => r,
        Err(e) => {
            return Err(GedcomImportError::Tree(e));
        },
    };
    let n_lines = lines.len();
    proof {
        assert(lines_view(lines@).len() == lines@.len());
        assert(flatten(roots@).len() == n_lines);
    }
    let persons = map_indi_nodes_to_persons(roots.as_slice());
    let person_events = map_indi_nodes_to_events(roots.as_slice());
    let source_mapping = map_source_chain(roots.as_slice());
    let family_mapping = map_family_nodes(roots.as_slice());
    let media_note_lds_mapping = map_media_note_lds(roots.as_slice());
    let assertions = generate_import_assertions(
        import_job_id,
        persons.as_slice(),
        &family_mapping,
        &source_mapping,
        &media_note_lds_mapping,
        person_events.as_slice(),
    );
    let unknown_tags_preserved = count_unknown_tags(
        persons.as_slice(),
        &family_mapping,
        &source_mapping,
        &media_note_lds_mapping,
        person_events.as_slice(),
    );
    Ok(
        GedcomImport {
            roots,
            persons,
            person_events,
            family_mapping,
            source_mapping,
            media_note_lds_mapping,
            assertions,
            unknown_tags_preserved,
        },
    )
}

/// The entity counts by kind, in key order, as an import reports them.
pub open spec fn entity_counts(imp: GedcomImport) -> Seq<(Seq<char>, int)> {
    seq![
        ("citation"@, imp.source_mapping.citations@.len() as int),
        ("event"@, capped((imp.family_mapping.events@.len() + imp.person_events@.len()) as int)),
        ("family"@, imp.family_mapping.families@.len() as int),
        ("lds_ordinance"@, imp.media_note_lds_mapping.lds_ordinances@.len() as int),
        ("media"@, imp.media_note_lds_mapping.media@.len() as int),
        ("note"@, imp.media_note_lds_mapping.notes@.len() as int),
        ("person"@, imp.persons@.len() as int),
        ("relationship"@, imp.family_mapping.relationships@.len() as int),
        ("repository"@, imp.source_mapping.repositories@.len() as int),
        ("source"@, imp.source_mapping.sources@.len() as int),
    ]
}

/// The report of a stored import.
pub fn import_report(imp: &GedcomImport) -> (r: GedcomImportReport)
    ensures
        r.entities_created_by_type@.len() == 10,
        forall|i: int|
            0 <= i < 10 ==> (#[trigger] r.entities_created_by_type@[i]).0@ == entity_counts(*imp)[i].0
                && r.entities_created_by_type@[i].1 == entity_counts(*imp)[i].1,
        r.assertions_created == imp.assertions@.len(),
        r.unknown_tags_preserved == imp.unknown_tags_preserved,
{
    let mut v: Vec<(String, usize)> = Vec::new();
    v.push((str_to_string("citation"), imp.source_mapping.citations.len()));
    v.push(
        (
            str_to_string("event"),
            imp.family_mapping.events.len().saturating_add(imp.person_events.len()),
        ),
    );
    v.push((str_to_string("family"), imp.family_mapping.families.len()));
    v.push((str_to_string("lds_ordinance"), imp.media_note_lds_mapping.lds_ordinances.len()));
    v.push((str_to_string("media"), imp.media_note_lds_mapping.media.len()));
    v.push((str_to_string("note"), imp.media_note_lds_mapping.notes.len()));
    v.push((str_to_string("person"), imp.persons.len()));
    v.push((str_to_string("relationship"), imp.family_mapping.relationships.len()));
    v.push((str_to_string("repository"), imp.source_mapping.repositories.len()));
    v.push((str_to_string("source"), imp.source_mapping.sources.len()));
    GedcomImportReport {
        entities_created_by_type: v,
        assertions_created: imp.assertions.len(),
        unknown_tags_preserved: imp.unknown_tags_preserved,
    }
}

} // verus!
