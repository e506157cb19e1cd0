//! Domain entities back to GEDCOM nodes, with the kept vendor subtrees put
//! back in place.
use crate::event::{is_custom_event, Event, EventRole, EventType};
use crate::gedcom::custom::is_custom_tag;
use crate::gedcom::import::is_custom_entry_key;
use crate::gedcom::mapping::{
    find_char, indi_event_type_ok, is_indi_event_tag, lemma_rfind_char_bounds, rfind_char, rfind_char_in,
};
use crate::gedcom::serialize::{head_lines, render_gedcom_file, render_lines, trailer_line};
use crate::gedcom::tokenizer::{lines_view, tokenize_gedcom, tokenize_spec, GedcomLine, LineView};
use crate::search::{preserved_or_generated_xref, xref_of};
use crate::gedcom::tree::{
    build_gedcom_tree, flatten, flatten_views, lemma_forest_unique, lemma_views_of, lemma_views_of_map, lemma_views_of_push,
    levels_ok, levels_ok_views, view_of, views_of, well_nested, GedcomNode, NodeView,
};
use crate::raw::{keys_unique, raw_entries, RawGedcom};
use crate::text::{
    text_before, text_less,
    chars_of, decimal, digit_part, digits_value, is_digit, lemma_digits_value_monotone, new_string,
    push_char, push_decimal, push_str, str_eq, str_to_string, string_of_range,
};
use crate::evidence::{Media, Note, Repository, RepositoryRef, Source};
use crate::family::{ChildLink, Family, LineageType};
use crate::person::{joined_surnames, NameType, Person, PersonName};
use crate::types::{uuid_simple_string, uuid_simple_text, DateValue, EntityId, FuzzyDate, Gender};
use vstd::prelude::*;

verus! {

/// What `str::parse::<usize>` gives: an optional `+`, then one or more
/// decimal digits whose value fits in `usize`.
pub open spec fn parse_usize_spec(s: Seq<char>) -> Option<nat> {
    let d = digit_part(s);
    if d.len() > 0 && (forall|i: int| 0 <= i < d.len() ==> is_digit(d[i])) && digits_value(d)
        <= usize::MAX {
        Some(digits_value(d) as nat)
    } else {
        None
    }
}

/// The numeric suffix of a raw-GEDCOM key (after its last '_'), or the
/// largest `usize` when there is none.
pub open spec fn key_suffix(key: Seq<char>) -> nat {
    let j = rfind_char(key, '_');
    if j < 0 {
        usize::MAX as nat
    } else {
        match parse_usize_spec(key.subrange(j + 1, key.len() as int)) {
            Some(n) => n,
            None => usize::MAX as nat,
        }
    }
}

/// The order in which kept subtrees are put back: by numeric suffix, then
/// by key.
pub open spec fn entry_before(a: (Seq<char>, Seq<char>), b: (Seq<char>, Seq<char>)) -> bool {
    key_suffix(a.0) < key_suffix(b.0) || (key_suffix(a.0) == key_suffix(b.0) && text_less(a.0, b.0))
}

/// Parses `s[lo..hi]` as `str::parse::<usize>` does.
fn parse_usize_chars(s: &[char], lo: usize, hi: usize) -> (r: Option<usize>)
    requires
        lo <= hi <= s@.len(),
    ensures
        match r {
            Some(v) => parse_usize_spec(s@.subrange(lo as int, hi as int)) == Some(v as nat),
            None => parse_usize_spec(s@.subrange(lo as int, hi as int)) is None,
        },
{
    let ghost t = s@.subrange(lo as int, hi as int);
    let start: usize = if lo < hi && s[lo] == '+' {
        lo + 1
    } else {
        lo
    };
    let ghost d = s@.subrange(start as int, hi as int);
    proof {
        if lo < hi && s@[lo as int] == '+' {
            assert(t.drop_first() =~= d);
        } else {
            assert(t =~= d);
        }
    }
    if start >= hi {
        return None;
    }
    let mut value: u128 = 0;
    let mut i = start;
    while i < hi
        invariant
            lo <= start <= i <= hi <= s@.len(),
            d == s@.subrange(start as int, hi as int),
            t == s@.subrange(lo as int, hi as int),
            d.len() > 0,
            digit_part(t) == d,
            forall|k: int| start <= k < i ==> is_digit(s@[k]),
            value as int == digits_value(s@.subrange(start as int, i as int)),
            value <= usize::MAX,
        decreases hi - i,
    {
        let c = s[i];
        if !('0' <= c && c <= '9') {
            proof {
                assert(!is_digit(d[i - start]));
            }
            return None;
        }
        let digit = (c as u32) - ('0' as u32);
        proof {
            let a = s@.subrange(start as int, i + 1);
            assert(a.drop_last() =~= s@.subrange(start as int, i as int));
            assert(a.last() == c);
        }
        value = value * 10 + digit as u128;
        i = i + 1;
        if value > usize::MAX as u128 {
            proof {
                let pre = s@.subrange(start as int, i as int);
                if forall|k: int| #![trigger d[k]] 0 <= k < d.len() ==> is_digit(d[k]) {
                    lemma_digits_value_monotone(d, i - start);
                    assert(d.subrange(0, i - start) =~= pre);
                }
            }
            return None;
        }
    }
    proof {
        assert(s@.subrange(start as int, i as int) =~= d);
        assert forall|k: int| 0 <= k < d.len() implies is_digit(d[k]) by {
            assert(d[k] == s@[start + k]);
        }
    }
    Some(value as usize)
}

/// The numeric suffix of a key (see `key_suffix`).
fn suffix_of(key: &String) -> (r: usize)
    ensures
        r as nat == key_suffix(key@),
{
    let cs = chars_of(key.as_str());
    let n = cs.len();
    match rfind_char_in(cs.as_slice(), '_') {
        Some(j) => match parse_usize_chars(cs.as_slice(), j + 1, cs.len()) {
            Some(n) => n,
            None => usize::MAX,
        },
        None => usize::MAX,
    }
}

/// Whether the kept subtree under `a` goes back before the one under `b`.
fn entry_goes_before(a: &(String, String), b: &(String, String)) -> (r: bool)
    ensures
        r == entry_before((a.0@, a.1@), (b.0@, b.1@)),
{
    let sa = suffix_of(&a.0);
    let sb = suffix_of(&b.0);
    sa < sb || (sa == sb && text_before(&a.0, &b.0))
}

/// `s` with `x` inserted after the last entry that goes before it.
pub open spec fn insert_ordered(s: Seq<(Seq<char>, Seq<char>)>, x: (Seq<char>, Seq<char>)) -> Seq<
    (Seq<char>, Seq<char>),
>
    decreases s.len(),
{
    if s.len() == 0 {
        seq![x]
    } else if entry_before(s.last(), x) {
        s.push(x)
    } else {
        insert_ordered(s.drop_last(), x).push(s.last())
    }
}

/// The kept-subtree entries in the order they are put back (each entry in
/// turn inserted into the run sorted so far).
pub open spec fn ordered_entries(s: Seq<(Seq<char>, Seq<char>)>) -> Seq<(Seq<char>, Seq<char>)>
    decreases s.len(),
{
    if s.len() == 0 {
        Seq::empty()
    } else {
        insert_ordered(ordered_entries(s.drop_last()), s.last())
    }
}

/// The entries whose key keeps a vendor subtree, in order.
pub open spec fn custom_entries(s: Seq<(Seq<char>, Seq<char>)>) -> Seq<(Seq<char>, Seq<char>)>
    decreases s.len(),
{
    if s.len() == 0 {
        Seq::empty()
    } else if is_custom_entry_key(s.last().0) {
        custom_entries(s.drop_last()).push(s.last())
    } else {
        custom_entries(s.drop_last())
    }
}

pub open spec fn pair_views(v: Seq<(String, String)>) -> Seq<(Seq<char>, Seq<char>)> {
    v.map_values(|e: (String, String)| (e.0@, e.1@))
}

fn insert_entry(v: &mut Vec<(String, String)>, x: (String, String))
    ensures
        pair_views(final(v)@) == insert_ordered(pair_views(old(v)@), (x.0@, x.1@)),
{
    let ghost xv = (x.0@, x.1@);
    let ghost s = pair_views(v@);
    let mut j = v.len();
    proof {
        assert(s.subrange(0, j as int) =~= s);
        assert(s.subrange(j as int, s.len() as int) =~= Seq::<(Seq<char>, Seq<char>)>::empty());
    }
    while j > 0 && !entry_goes_before(&v[j - 1], &x)
        invariant
            j <= v@.len(),
            s == pair_views(v@),
            xv == (x.0@, x.1@),
            insert_ordered(s, xv) == insert_ordered(s.subrange(0, j as int), xv) + s.subrange(
                j as int,
                s.len() as int,
            ),
        decreases j,
    {
        proof {
            let pre = s.subrange(0, j as int);
            assert(pre.drop_last() =~= s.subrange(0, j - 1));
            assert(pre.last() == s[j - 1]);
            assert(s.subrange(j - 1, s.len() as int) =~= seq![s[j - 1]] + s.subrange(j as int, s.len() as int));
            assert(insert_ordered(pre, xv) == insert_ordered(s.subrange(0, j - 1), xv).push(s[j - 1]));
            assert(insert_ordered(s.subrange(0, j - 1), xv).push(s[j - 1]) + s.subrange(j as int, s.len() as int)
                =~= insert_ordered(s.subrange(0, j - 1), xv) + s.subrange(j - 1, s.len() as int));
        }
        j = j - 1;
    }
    proof {
        let pre = s.subrange(0, j as int);
        if j > 0 {
            assert(pre.drop_last() =~= s.subrange(0, j - 1));
            assert(pre.last() == s[j - 1]);
            assert(insert_ordered(pre, xv) == pre.push(xv));
        } else {
            assert(insert_ordered(pre, xv) == seq![xv]);
        }
    }
    v.insert(j, x);
    proof {
        assert(pair_views(v@) =~= s.subrange(0, j as int).push(xv) + s.subrange(j as int, s.len() as int));
    }
}

/// The kept-subtree entries of `raw`, in the order they are put back.
fn ordered_custom_entries(raw: &RawGedcom) -> (r: Vec<(String, String)>)
    ensures
        pair_views(r@) == ordered_entries(custom_entries(raw_entries(*raw))),
{
    let ghost all = raw_entries(*raw);
    let mut out: Vec<(String, String)> = Vec::new();
    let mut i: usize = 0;
    proof {
        assert(pair_views(out@) =~= Seq::<(Seq<char>, Seq<char>)>::empty());
        assert(all.subrange(0, 0) =~= Seq::<(Seq<char>, Seq<char>)>::empty());
    }
    while i < raw.entries.len()
        invariant
            i <= raw.entries@.len(),
            all == raw_entries(*raw),
            pair_views(out@) == ordered_entries(custom_entries(all.subrange(0, i as int))),
        decreases raw.entries@.len() - i,
    {
        proof {
            assert(all.subrange(0, i + 1).drop_last() =~= all.subrange(0, i as int));
            assert(all.subrange(0, i + 1).last() == all[i as int]);
            assert(all[i as int] == (raw.entries@[i as int].0@, raw.entries@[i as int].1@));
        }
        let e = &raw.entries[i];
        if crate::gedcom::import::is_custom_key(&e.0) {
            let pair = (e.0.clone(), e.1.clone());
            insert_entry(&mut out, pair);
            proof {
                let c = custom_entries(all.subrange(0, i + 1));
                assert(c.drop_last() == custom_entries(all.subrange(0, i as int)));
            }
        }
        i = i + 1;
    }
    proof {
        assert(all.subrange(0, i as int) =~= all);
    }
    out
}

/// The forest whose lines are `lines`, roots at level 0 (unique when it
/// exists: `lemma_forest_unique`).
pub open spec fn forest_of(lines: Seq<LineView>) -> Seq<NodeView> {
    choose|vs: Seq<NodeView>| flatten_views(vs) == lines && levels_ok_views(vs, 0)
}

pub proof fn lemma_forest_of(roots: Seq<GedcomNode>)
    requires
        levels_ok(roots, 0),
    ensures
        forest_of(flatten(roots)) == views_of(roots),
{
    lemma_views_of(roots, 0);
    let w = views_of(roots);
    assert(flatten_views(w) == flatten(roots) && levels_ok_views(w, 0));
    let c = forest_of(flatten(roots));
    assert(flatten_views(c) == flatten(roots) && levels_ok_views(c, 0));
    lemma_forest_unique(c, w, 0);
}

/// The lowest level among `lines` (0 for none).
pub open spec fn min_level(lines: Seq<LineView>) -> u8
    decreases lines.len(),
{
    if lines.len() == 0 {
        0
    } else if lines.len() == 1 {
        lines[0].0
    } else if lines.last().0 < min_level(lines.drop_last()) {
        lines.last().0
    } else {
        min_level(lines.drop_last())
    }
}

/// The lines with `b` taken off each level.
pub open spec fn lowered(lines: Seq<LineView>, b: u8) -> Seq<LineView> {
    lines.map_values(|l: LineView| ((l.0 - b) as u8, l.1, l.2, l.3))
}

/// `a + b`, or 255 when it does not fit.
pub open spec fn sat_add(a: u8, b: u8) -> u8 {
    if a + b > 255 {
        255
    } else {
        (a + b) as u8
    }
}

/// The forest with `b` added to every level.
pub open spec fn raise_views(vs: Seq<NodeView>, b: u8) -> Seq<NodeView>
    decreases vs,
{
    if vs.len() == 0 {
        Seq::empty()
    } else {
        seq![
            NodeView {
                level: sat_add(vs[0].level, b),
                xref: vs[0].xref,
                tag: vs[0].tag,
                value: vs[0].value,
                children: raise_views(vs[0].children, b),
            },
        ] + raise_views(vs.subrange(1, vs.len() as int), b)
    }
}

pub proof fn lemma_raise_views_push(vs: Seq<NodeView>, x: NodeView, b: u8)
    ensures
        raise_views(vs.push(x), b) == raise_views(vs, b) + raise_views(seq![x], b),
    decreases vs.len(),
{
    let p = vs.push(x);
    if vs.len() == 0 {
        assert(p =~= seq![x]);
        assert(raise_views(Seq::<NodeView>::empty(), b) == Seq::<NodeView>::empty());
        assert(raise_views(vs, b) + raise_views(seq![x], b) =~= raise_views(seq![x], b));
    } else {
        let rest = vs.subrange(1, vs.len() as int);
        assert(p.subrange(1, p.len() as int) =~= rest.push(x));
        assert(p[0] == vs[0]);
        lemma_raise_views_push(rest, x, b);
        assert(raise_views(p, b) =~= raise_views(vs, b) + raise_views(seq![x], b));
    }
}

/// The subtrees kept as `text`: its lines, read as a forest rooted at their
/// lowest level; none when the text does not read as a well-nested forest.
pub open spec fn deserialized(text: Seq<char>) -> Seq<NodeView> {
    match tokenize_spec(text) {
        Err(_) => Seq::empty(),
        Ok(lines) => if lines.len() == 0 {
            Seq::empty()
        } else {
            let b = min_level(lines);
            let norm = lowered(lines, b);
            if well_nested(norm) {
                raise_views(forest_of(norm), b)
            } else {
                Seq::empty()
            }
        },
    }
}

fn raise_node(n: &GedcomNode, b: u8) -> (r: GedcomNode)
    ensures
        seq![view_of(r)] == raise_views(seq![view_of(*n)], b),
    decreases n,
{
    let mut children: Vec<GedcomNode> = Vec::new();
    let mut i: usize = 0;
    proof {
        assert(n.children@.subrange(0, 0) =~= Seq::<GedcomNode>::empty());
        assert(views_of(Seq::<GedcomNode>::empty()) == Seq::<NodeView>::empty());
        assert(raise_views(Seq::<NodeView>::empty(), b) == Seq::<NodeView>::empty());
    }
    while i < n.children.len()
        invariant
            i <= n.children@.len(),
            views_of(children@) == raise_views(views_of(n.children@.subrange(0, i as int)), b),
        decreases n.children@.len() - i,
    {
        let c = raise_node(&n.children[i], b);
        proof {
            let pre = n.children@.subrange(0, i as int);
            assert(n.children@.subrange(0, i + 1) =~= pre.push(n.children@[i as int]));
            lemma_views_of_push(pre, n.children@[i as int]);
            lemma_views_of_push(children@, c);
            lemma_raise_views_push(views_of(pre), view_of(n.children@[i as int]), b);
        }
        children.push(c);
        i = i + 1;
    }
    proof {
        assert(n.children@.subrange(0, i as int) =~= n.children@);
    }
    let level = if n.level as u16 + b as u16 > 255 {
        255
    } else {
        n.level + b
    };
    let r = GedcomNode {
        level,
        xref: n.xref.clone(),
        tag: n.tag.clone(),
        value: n.value.clone(),
        children,
    };
    proof {
        let v = seq![view_of(*n)];
        assert(v.subrange(1, v.len() as int) =~= Seq::<NodeView>::empty());
        assert(raise_views(Seq::<NodeView>::empty(), b) == Seq::<NodeView>::empty());
        assert(raise_views(v, b) =~= seq![view_of(r)]);
    }
    r
}

/// Reads kept subtree text back into nodes (see `deserialized`).
fn deserialize_serialized_subtrees(serialized: &str) -> (r: Vec<GedcomNode>)
    ensures
        views_of(r@) == deserialized(serialized@),
{
    let lines = match tokenize_gedcom(serialized) {
        Ok(l) => l,
        Err(_) => {
            return Vec::new();
        },
    };
    if lines.len() == 0 {
        proof {
            assert(lines_view(lines@).len() == 0);
        }
        return Vec::new();
    }
    let ghost lv = lines_view(lines@);
    let mut base = lines[0].level;
    let mut i: usize = 1;
    proof {
        assert(lv.subrange(0, 1).len() == 1);
        assert(min_level(lv.subrange(0, 1)) == lv[0].0);
    }
    while i < lines.len()
        invariant
            1 <= i <= lines@.len(),
            lv == lines_view(lines@),
            base == min_level(lv.subrange(0, i as int)),
            forall|k: int| 0 <= k < i ==> base <= lv[k].0,
        decreases lines@.len() - i,
    {
        proof {
            assert(lv.subrange(0, i + 1).drop_last() =~= lv.subrange(0, i as int));
            assert(lv.subrange(0, i + 1).last() == lv[i as int]);
            assert(lv[i as int].0 == lines@[i as int].level);
        }
        if lines[i].level < base {
            base = lines[i].level;
        }
        i = i + 1;
    }
    proof {
        assert(lv.subrange(0, i as int) =~= lv);
    }
    let mut normalized: Vec<GedcomLine> = Vec::new();
    let mut k: usize = 0;
    while k < lines.len()
        invariant
            k <= lines@.len(),
            lv == lines_view(lines@),
            base == min_level(lv),
            forall|m: int| 0 <= m < lines@.len() ==> base <= lv[m].0,
            lines_view(normalized@) == lowered(lv, base).subrange(0, k as int),
        decreases lines@.len() - k,
    {
        proof {
            assert(lv[k as int].0 == lines@[k as int].level);
        }
        let l = &lines[k];
        let ghost before = normalized@;
        normalized.push(
            GedcomLine { level: l.level - base, xref: l.xref.clone(), tag: l.tag.clone(), value: l.value.clone() },
        );
        proof {
            assert(lines_view(normalized@) =~= lines_view(before).push(lowered(lv, base)[k as int]));
            assert(lowered(lv, base).subrange(0, k + 1) =~= lowered(lv, base).subrange(0, k as int).push(
                lowered(lv, base)[k as int],
            ));
        }
        k = k + 1;
    }
    proof {
        assert(lowered(lv, base).subrange(0, k as int) =~= lowered(lv, base));
    }
    let roots = match build_gedcom_tree(&normalized) {
        Ok(r) => r,
        Err(_) => {
            return Vec::new();
        },
    };
    proof {
        lemma_forest_of(roots@);
    }
    let mut out: Vec<GedcomNode> = Vec::new();
    let mut j: usize = 0;
    proof {
        assert(roots@.subrange(0, 0) =~= Seq::<GedcomNode>::empty());
        assert(views_of(Seq::<GedcomNode>::empty()) == Seq::<NodeView>::empty());
        assert(raise_views(Seq::<NodeView>::empty(), base) == Seq::<NodeView>::empty());
    }
    while j < roots.len()
        invariant
            j <= roots@.len(),
            views_of(out@) == raise_views(views_of(roots@.subrange(0, j as int)), base),
        decreases roots@.len() - j,
    {
        let c = raise_node(&roots[j], base);
        proof {
            let pre = roots@.subrange(0, j as int);
            assert(roots@.subrange(0, j + 1) =~= pre.push(roots@[j as int]));
            lemma_views_of_push(pre, roots@[j as int]);
            lemma_views_of_push(out@, c);
            lemma_raise_views_push(views_of(pre), view_of(roots@[j as int]), base);
        }
        out.push(c);
        j = j + 1;
    }
    proof {
        assert(roots@.subrange(0, j as int) =~= roots@);
    }
    out
}

/// Searching backwards from position `k`, the path to the last node at
/// `target` level (a node's descendants before the node itself); with
/// `prefer`, vendor nodes are passed over.
pub open spec fn find_from(vs: Seq<NodeView>, k: int, target: u8, prefer: bool) -> Option<Seq<int>>
    decreases vs, k,
{
    if k <= 0 || k > vs.len() {
        None
    } else {
        let idx = k - 1;
        match find_from(vs[idx].children, vs[idx].children.len() as int, target, prefer) {
            Some(p) => Some(seq![idx] + p),
            None => if vs[idx].level == target && (!prefer || !is_custom_tag(vs[idx].tag)) {
                Some(seq![idx])
            } else {
                find_from(vs, idx, target, prefer)
            },
        }
    }
}

/// The path to the last node at `target` level in a forest.
pub open spec fn find_last_path(vs: Seq<NodeView>, target: u8, prefer: bool) -> Option<Seq<int>> {
    find_from(vs, vs.len() as int, target, prefer)
}

/// Whether `path` leads to a node of the forest.
pub open spec fn valid_path(vs: Seq<NodeView>, path: Seq<int>) -> bool
    decreases path.len(),
{
    &&& path.len() > 0
    &&& 0 <= path[0] < vs.len()
    &&& (path.len() == 1 || valid_path(vs[path[0]].children, path.drop_first()))
}

pub proof fn lemma_find_from_valid(vs: Seq<NodeView>, k: int, target: u8, prefer: bool)
    ensures
        find_from(vs, k, target, prefer) matches Some(p) ==> valid_path(vs, p),
    decreases vs, k,
{
    if 0 < k <= vs.len() {
        let idx = k - 1;
        lemma_find_from_valid(vs[idx].children, vs[idx].children.len() as int, target, prefer);
        lemma_find_from_valid(vs, idx, target, prefer);
        match find_from(vs[idx].children, vs[idx].children.len() as int, target, prefer) {
            Some(p) => {
                assert((seq![idx] + p).drop_first() =~= p);
            },
            None => {},
        }
    }
}

/// The forest with `sub` added as the last child of the node at `path`.
pub open spec fn insert_at(vs: Seq<NodeView>, path: Seq<int>, sub: NodeView) -> Seq<NodeView>
    decreases path.len(),
{
    if path.len() == 0 {
        vs
    } else {
        let i = path[0];
        let n = vs[i];
        let children = if path.len() == 1 {
            n.children.push(sub)
        } else {
            insert_at(n.children, path.drop_first(), sub)
        };
        vs.update(i, NodeView { children, ..n })
    }
}

/// Where a kept subtree goes back among the children of a node at
/// `parent_level`: at the end when it sits one level below the node;
/// otherwise under the last node one level above it (non-vendor nodes
/// first), or at the end when there is none.
pub open spec fn insert_subtree_views(vs: Seq<NodeView>, parent_level: u8, sub: NodeView) -> Seq<NodeView> {
    if sub.level <= sat_add(parent_level, 1) {
        vs.push(sub)
    } else {
        let t = (sub.level - 1) as u8;
        match find_last_path(vs, t, true) {
            Some(p) => insert_at(vs, p, sub),
            None => match find_last_path(vs, t, false) {
                Some(p) => insert_at(vs, p, sub),
                None => vs.push(sub),
            },
        }
    }
}

pub open spec fn usize_path(p: Seq<usize>) -> Seq<int> {
    p.map_values(|x: usize| x as int)
}

fn find_path(nodes: &Vec<GedcomNode>, target: u8, prefer: bool) -> (r: Option<Vec<usize>>)
    ensures
        match r {
            Some(p) => find_last_path(views_of(nodes@), target, prefer) == Some(usize_path(p@)),
            None => find_last_path(views_of(nodes@), target, prefer) is None,
        },
    decreases nodes@,
{
    let ghost vs = views_of(nodes@);
    proof {
        lemma_views_of_map(nodes@);
    }
    let mut k = nodes.len();
    while k > 0
        invariant
            k <= nodes@.len(),
            vs == views_of(nodes@),
            vs == nodes@.map_values(|n: GedcomNode| view_of(n)),
            find_last_path(vs, target, prefer) == find_from(vs, k as int, target, prefer),
        decreases k,
    {
        let idx = k - 1;
        proof {
            assert(vs[idx as int] == view_of(nodes@[idx as int]));
            assert(decreases_to!(nodes@ => nodes@[idx as int]));
        }
        match find_path(&nodes[idx].children, target, prefer) {
            Some(sub) => {
                let mut p: Vec<usize> = Vec::new();
                p.push(idx);
                let mut j: usize = 0;
                while j < sub.len()
                    invariant
                        j <= sub@.len(),
                        p@ == seq![idx] + sub@.subrange(0, j as int),
                    decreases sub@.len() - j,
                {
                    p.push(sub[j]);
                    proof {
                        assert(sub@.subrange(0, j + 1) =~= sub@.subrange(0, j as int).push(sub@[j as int]));
                    }
                    j = j + 1;
                }
                proof {
                    assert(sub@.subrange(0, j as int) =~= sub@);
                    assert(usize_path(p@) =~= seq![idx as int] + usize_path(sub@));
                }
                return Some(p);
            },
            None => {},
        }
        let custom = crate::gedcom::custom::custom_tag(nodes[idx].tag.as_str());
        if nodes[idx].level == target && (!prefer || !custom) {
            let mut p: Vec<usize> = Vec::new();
            p.push(idx);
            proof {
                assert(usize_path(p@) =~= seq![idx as int]);
            }
            return Some(p);
        }
        k = idx;
    }
    None
}

/// Adds `sub` as the last child of the node at `path`.
fn insert_at_path(nodes: &mut Vec<GedcomNode>, path: &[usize], sub: GedcomNode)
    requires
        valid_path(views_of(old(nodes)@), usize_path(path@)),
    ensures
        views_of(final(nodes)@) == insert_at(views_of(old(nodes)@), usize_path(path@), view_of(sub)),
    decreases path@.len(),
{
    proof {
        lemma_views_of_map(old(nodes)@);
    }
    let ghost vs = views_of(nodes@);
    let ghost sv = view_of(sub);
    let i = path[0];
    let node = nodes.remove(i);
    let GedcomNode { level, xref, tag, value, mut children } = node;
    let ghost nv = view_of(node);
    proof {
        assert(vs[i as int] == nv);
        lemma_views_of_map(children@);
    }
    if path.len() == 1 {
        children.push(sub);
        proof {
            lemma_views_of_push(node.children@, sub);
        }
    } else {
        let rest = vstd::slice::slice_subrange(path, 1, path.len());
        proof {
            assert(usize_path(rest@) =~= usize_path(path@).drop_first());
        }
        insert_at_path(&mut children, rest, sub);
    }
    let rebuilt = GedcomNode { level, xref, tag, value, children };
    nodes.insert(i, rebuilt);
    proof {
        lemma_views_of_map(nodes@);
        let newc = if path@.len() == 1 {
            nv.children.push(sv)
        } else {
            insert_at(nv.children, usize_path(path@).drop_first(), sv)
        };
        assert(view_of(rebuilt) == NodeView { children: newc, ..nv });
        assert(views_of(nodes@) =~= vs.update(i as int, NodeView { children: newc, ..nv }));
    }
}

fn insert_subtree(children: &mut Vec<GedcomNode>, parent_level: u8, subtree: GedcomNode)
    ensures
        views_of(final(children)@) == insert_subtree_views(views_of(old(children)@), parent_level, view_of(subtree)),
{
    let ghost vs = views_of(children@);
    let bound: u8 = if parent_level == 255 {
        255
    } else {
        parent_level + 1
    };
    if subtree.level <= bound {
        let ghost sv = view_of(subtree);
        proof {
            lemma_views_of_push(children@, subtree);
        }
        children.push(subtree);
        return;
    }
    let target = subtree.level - 1;
    let found = match find_path(children, target, true) {
        Some(p) => Some(p),
        None => find_path(children, target, false),
    };
    match found {
        Some(p) => {
            proof {
                lemma_find_from_valid(vs, vs.len() as int, target, true);
                lemma_find_from_valid(vs, vs.len() as int, target, false);
            }
            insert_at_path(children, p.as_slice(), subtree);
        },
        None => {
            proof {
                lemma_views_of_push(children@, subtree);
            }
            children.push(subtree);
        },
    }
}

/// The forest after putting back each subtree of `subs` in turn.
pub open spec fn insert_all(vs: Seq<NodeView>, parent_level: u8, subs: Seq<NodeView>) -> Seq<NodeView>
    decreases subs.len(),
{
    if subs.len() == 0 {
        vs
    } else {
        insert_subtree_views(insert_all(vs, parent_level, subs.drop_last()), parent_level, subs.last())
    }
}

/// The forest after putting back the subtrees kept under each entry in turn.
pub open spec fn append_entries(vs: Seq<NodeView>, parent_level: u8, entries: Seq<(Seq<char>, Seq<char>)>) -> Seq<
    NodeView,
>
    decreases entries.len(),
{
    if entries.len() == 0 {
        vs
    } else {
        insert_all(append_entries(vs, parent_level, entries.drop_last()), parent_level, deserialized(entries.last().1))
    }
}

/// The children of a node at `parent_level` after putting back the vendor
/// subtrees kept in `raw`, in key order (numeric suffix, then key).
pub open spec fn with_raw_subtrees(vs: Seq<NodeView>, parent_level: u8, raw: RawGedcom) -> Seq<NodeView> {
    append_entries(vs, parent_level, ordered_entries(custom_entries(raw_entries(raw))))
}

fn append_raw_gedcom_subtrees(children: &mut Vec<GedcomNode>, parent_level: u8, raw: &RawGedcom)
    ensures
        views_of(final(children)@) == with_raw_subtrees(views_of(old(children)@), parent_level, *raw),
{
    let entries = ordered_custom_entries(raw);
    let ghost ev = pair_views(entries@);
    let ghost v0 = views_of(children@);
    let mut i: usize = 0;
    proof {
        assert(ev.subrange(0, 0) =~= Seq::<(Seq<char>, Seq<char>)>::empty());
    }
    while i < entries.len()
        invariant
            i <= entries@.len(),
            ev == pair_views(entries@),
            views_of(children@) == append_entries(v0, parent_level, ev.subrange(0, i as int)),
        decreases entries@.len() - i,
    {
        let subs = deserialize_serialized_subtrees(entries[i].1.as_str());
        let ghost sv = views_of(subs@);
        let ghost before = views_of(children@);
        proof {
            lemma_views_of_map(subs@);
        }
        let mut j: usize = 0;
        let mut rest = subs;
        let mut taken: Vec<GedcomNode> = Vec::new();
        proof {
            assert(sv.subrange(0, 0) =~= Seq::<NodeView>::empty());
        }
        while j < rest.len()
            invariant
                j <= rest@.len(),
                sv == rest@.map_values(|n: GedcomNode| view_of(n)),
                views_of(children@) == insert_all(before, parent_level, sv.subrange(0, j as int)),
            decreases rest@.len() - j,
        {
            let sub = clone_subtree(&rest[j]);
            insert_subtree(children, parent_level, sub);
            proof {
                assert(sv.subrange(0, j + 1).drop_last() =~= sv.subrange(0, j as int));
                assert(sv.subrange(0, j + 1).last() == sv[j as int]);
            }
            j = j + 1;
        }
        proof {
            assert(sv.subrange(0, j as int) =~= sv);
            assert(ev.subrange(0, i + 1).drop_last() =~= ev.subrange(0, i as int));
            assert(ev.subrange(0, i + 1).last() == ev[i as int]);
            assert(ev[i as int].1 == entries@[i as int].1@);
        }
        i = i + 1;
    }
    proof {
        assert(ev.subrange(0, i as int) =~= ev);
    }
}

fn clone_subtree(n: &GedcomNode) -> (r: GedcomNode)
    ensures
        view_of(r) == view_of(*n),
{
    let c = raise_node(n, 0);
    proof {
        lemma_raise_zero(seq![view_of(*n)]);
    }
    c
}

pub proof fn lemma_raise_zero(vs: Seq<NodeView>)
    ensures
        raise_views(vs, 0) == vs,
    decreases vs,
{
    if vs.len() > 0 {
        lemma_raise_zero(vs[0].children);
        lemma_raise_zero(vs.subrange(1, vs.len() as int));
        assert(raise_views(vs, 0) =~= vs) by {
            assert(raise_views(vs, 0)[0] == vs[0]);
            assert forall|i: int| 1 <= i < vs.len() implies raise_views(vs, 0)[i] == vs[i] by {
                assert(raise_views(vs, 0)[i] == raise_views(vs.subrange(1, vs.len() as int), 0)[i - 1]);
            }
        }
    }
}

/// The individual event tag under which an event type is exported.
pub open spec fn indi_tag_of(t: EventType) -> Option<Seq<char>> {
    match t {
        EventType::Birth => Some("BIRT"@),
        EventType::Death => Some("DEAT"@),
        EventType::Burial => Some("BURI"@),
        EventType::Baptism => Some("BAPM"@),
        EventType::Census => Some("CENS"@),
        EventType::Emigration => Some("EMIG"@),
        EventType::Immigration => Some("IMMI"@),
        EventType::Naturalization => Some("NATU"@),
        EventType::Probate => Some("PROB"@),
        EventType::Will => Some("WILL"@),
        EventType::Graduation => Some("GRAD"@),
        EventType::Retirement => Some("RETI"@),
        EventType::Occupation => Some("OCCU"@),
        EventType::Residence => Some("RESI"@),
        EventType::Custom(val) => {
            if val@ == "christening"@ {
                Some("CHR"@)
            } else if val@ == "cremation"@ {
                Some("CREM"@)
            } else if val@ == "adoption"@ {
                Some("ADOP"@)
            } else if val@ == "confirmation"@ {
                Some("CONF"@)
            } else if val@ == "bar_mitzvah"@ {
                Some("BARM"@)
            } else if val@ == "bas_mitzvah"@ {
                Some("BASM"@)
            } else if val@ == "blessing"@ {
                Some("BLES"@)
            } else if val@ == "adult_christening"@ {
                Some("CHRA"@)
            } else if val@ == "first_communion"@ {
                Some("FCOM"@)
            } else if val@ == "ordination"@ {
                Some("ORDN"@)
            } else if val@ == "caste"@ {
                Some("CAST"@)
            } else if val@ == "physical_description"@ {
                Some("DSCR"@)
            } else if val@ == "education"@ {
                Some("EDUC"@)
            } else if val@ == "id_number"@ {
                Some("IDNO"@)
            } else if val@ == "nationality"@ {
                Some("NATI"@)
            } else if val@ == "num_children"@ {
                Some("NCHI"@)
            } else if val@ == "num_marriages"@ {
                Some("NMR"@)
            } else if val@ == "possession"@ {
                Some("PROP"@)
            } else if val@ == "religion"@ {
                Some("RELI"@)
            } else if val@ == "social_security"@ {
                Some("SSN"@)
            } else if val@ == "title"@ {
                Some("TITL"@)
            } else if val@ == "general_event"@ {
                Some("EVEN"@)
            } else {
                None
            }
        },
        _ => None,
    }
}

fn event_type_to_indi_tag(t: &EventType) -> (r: Option<&'static str>)
    ensures
        match r {
            Some(s) => indi_tag_of(*t) == Some(s@),
            None => indi_tag_of(*t) is None,
        },
{
    match t {
        EventType::Birth => Some("BIRT"),
        EventType::Death => Some("DEAT"),
        EventType::Burial => Some("BURI"),
        EventType::Baptism => Some("BAPM"),
        EventType::Census => Some("CENS"),
        EventType::Emigration => Some("EMIG"),
        EventType::Immigration => Some("IMMI"),
        EventType::Naturalization => Some("NATU"),
        EventType::Probate => Some("PROB"),
        EventType::Will => Some("WILL"),
        EventType::Graduation => Some("GRAD"),
        EventType::Retirement => Some("RETI"),
        EventType::Occupation => Some("OCCU"),
        EventType::Residence => Some("RESI"),
        EventType::Custom(val) => {
            if str_eq(val.as_str(), "christening") {
                Some("CHR")
            } else if str_eq(val.as_str(), "cremation") {
                Some("CREM")
            } else if str_eq(val.as_str(), "adoption") {
                Some("ADOP")
            } else if str_eq(val.as_str(), "confirmation") {
                Some("CONF")
            } else if str_eq(val.as_str(), "bar_mitzvah") {
                Some("BARM")
            } else if str_eq(val.as_str(), "bas_mitzvah") {
                Some("BASM")
            } else if str_eq(val.as_str(), "blessing") {
                Some("BLES")
            } else if str_eq(val.as_str(), "adult_christening") {
                Some("CHRA")
            } else if str_eq(val.as_str(), "first_communion") {
                Some("FCOM")
            } else if str_eq(val.as_str(), "ordination") {
                Some("ORDN")
            } else if str_eq(val.as_str(), "caste") {
                Some("CAST")
            } else if str_eq(val.as_str(), "physical_description") {
                Some("DSCR")
            } else if str_eq(val.as_str(), "education") {
                Some("EDUC")
            } else if str_eq(val.as_str(), "id_number") {
                Some("IDNO")
            } else if str_eq(val.as_str(), "nationality") {
                Some("NATI")
            } else if str_eq(val.as_str(), "num_children") {
                Some("NCHI")
            } else if str_eq(val.as_str(), "num_marriages") {
                Some("NMR")
            } else if str_eq(val.as_str(), "possession") {
                Some("PROP")
            } else if str_eq(val.as_str(), "religion") {
                Some("RELI")
            } else if str_eq(val.as_str(), "social_security") {
                Some("SSN")
            } else if str_eq(val.as_str(), "title") {
                Some("TITL")
            } else if str_eq(val.as_str(), "general_event") {
                Some("EVEN")
            } else {
                None
            }
        },
        _ => None,
    }
}

/// The family event tag under which an event type is exported.
pub open spec fn fam_tag_of(t: EventType) -> Option<Seq<char>> {
    if t is Marriage {
        Some("MARR"@)
    } else if is_custom_event(t, "divorce"@) {
        Some("DIV"@)
    } else {
        None
    }
}

fn event_type_to_fam_tag(t: &EventType) -> (r: Option<&'static str>)
    ensures
        match r {
            Some(s) => fam_tag_of(*t) == Some(s@),
            None => fam_tag_of(*t) is None,
        },
{
    match t {
        EventType::Marriage => Some("MARR"),
        EventType::Custom(v) => if str_eq(v.as_str(), "divorce") {
            Some("DIV")
        } else {
            None
        },
        _ => None,
    }
}

/// The `TYPE` written for a name: none for a birth name, the type in upper
/// case for the others, a custom type as it is.
pub open spec fn name_type_text(t: NameType) -> Option<Seq<char>> {
    match t {
        NameType::Birth => None,
        NameType::Married => Some("MARRIED"@),
        NameType::Aka => Some("AKA"@),
        NameType::Immigrant => Some("IMMIGRANT"@),
        NameType::Religious => Some("RELIGIOUS"@),
        NameType::Custom(c) => Some(c@),
    }
}

fn name_type_string(t: &NameType) -> (r: Option<String>)
    ensures
        r.deep_view() == name_type_text(*t),
{
    match t {
        NameType::Birth => None,
        NameType::Married => Some(str_to_string("MARRIED")),
        NameType::Aka => Some(str_to_string("AKA")),
        NameType::Immigrant => Some(str_to_string("IMMIGRANT")),
        NameType::Religious => Some(str_to_string("RELIGIOUS")),
        NameType::Custom(c) => Some(c.clone()),
    }
}

/// A node form without cross-reference.
pub open spec fn nv(level: u8, tag: Seq<char>, value: Option<Seq<char>>, children: Seq<NodeView>) -> NodeView {
    NodeView { level, xref: None, tag, value, children }
}

/// Builds a node without cross-reference.
fn mk_node(level: u8, tag: &str, value: Option<String>, children: Vec<GedcomNode>) -> (r: GedcomNode)
    ensures
        view_of(r) == nv(level, tag@, value.deep_view(), views_of(children@)),
{
    GedcomNode { level, xref: None, tag: str_to_string(tag), value, children }
}

/// The decimal text of an integer, with '-' when negative (`Display`).
pub open spec fn int_text(i: int) -> Seq<char> {
    if i < 0 {
        seq!['-'] + decimal((-i) as nat)
    } else {
        decimal(i as nat)
    }
}

fn push_int(out: &mut String, i: i32)
    ensures
        final(out)@ == old(out)@ + int_text(i as int),
{
    if i < 0 {
        push_char(out, '-');
        let m: i64 = -(i as i64);
        push_decimal(out, m as u64);
        proof {
            assert(old(out)@.push('-') + decimal((-i) as nat) =~= old(out)@ + int_text(i as int));
        }
    } else {
        push_decimal(out, i as u64);
    }
}

/// The three-letter GEDCOM abbreviation of month `m` (1 to 12).
pub open spec fn month_abbr(m: int) -> Seq<char> {
    seq!["JAN"@, "FEB"@, "MAR"@, "APR"@, "MAY"@, "JUN"@, "JUL"@, "AUG"@, "SEP"@, "OCT"@, "NOV"@, "DEC"@][m - 1]
}

fn month_abbr_of(m: u8) -> (r: &'static str)
    requires
        1 <= m <= 12,
    ensures
        r@ == month_abbr(m as int),
{
    let months = ["JAN", "FEB", "MAR", "APR", "MAY", "JUN", "JUL", "AUG", "SEP", "OCT", "NOV", "DEC"];
    proof {
        assert(months@.map_values(|s: &str| s@) =~= seq!["JAN"@, "FEB"@, "MAR"@, "APR"@, "MAY"@, "JUN"@, "JUL"@, "AUG"@, "SEP"@, "OCT"@, "NOV"@, "DEC"@]);
    }
    let r = months[(m - 1) as usize];
    proof {
        assert(months@.map_values(|s: &str| s@)[m - 1] == r@);
    }
    r
}

/// A fuzzy date whose month, when given, names a month.
pub open spec fn month_ok(d: FuzzyDate) -> bool {
    d.month matches Some(m) ==> 1 <= m <= 12
}

/// Whether a date value can be written as GEDCOM text: its months name months.
pub open spec fn gedcom_date_ok(d: DateValue) -> bool {
    match d {
        DateValue::Exact { date, .. } => month_ok(date),
        DateValue::Range { from, to, .. } => month_ok(from) && month_ok(to),
        DateValue::Before { date, .. } => month_ok(date),
        DateValue::After { date, .. } => month_ok(date),
        DateValue::About { date, .. } => month_ok(date),
        DateValue::Tolerance { date, .. } => month_ok(date),
        _ => true,
    }
}

/// A fuzzy date as GEDCOM text: "D MON YYYY", "MON YYYY" or "YYYY".
pub open spec fn fuzzy_date_text(d: FuzzyDate) -> Seq<char> {
    match (d.month, d.day) {
        (Some(m), Some(day)) => decimal(day as nat) + seq![' '] + month_abbr(m as int) + seq![' ']
            + int_text(d.year as int),
        (Some(m), None) => month_abbr(m as int) + seq![' '] + int_text(d.year as int),
        _ => int_text(d.year as int),
    }
}

/// A date value as a GEDCOM `DATE` value.
pub open spec fn date_text(d: DateValue) -> Seq<char> {
    match d {
        DateValue::Textual { value } => value@,
        DateValue::Exact { date, .. } => fuzzy_date_text(date),
        DateValue::Before { date, .. } => "BEF "@ + fuzzy_date_text(date),
        DateValue::After { date, .. } => "AFT "@ + fuzzy_date_text(date),
        DateValue::About { date, .. } => "ABT "@ + fuzzy_date_text(date),
        DateValue::Range { from, to, .. } => "BET "@ + fuzzy_date_text(from) + " AND "@ + fuzzy_date_text(to),
        DateValue::Tolerance { date, .. } => fuzzy_date_text(date),
        DateValue::Quarter { year, quarter } => seq!['Q'] + decimal(quarter as nat) + seq![' '] + int_text(
            year as int,
        ),
    }
}

fn push_fuzzy_date(out: &mut String, d: &FuzzyDate)
    requires
        month_ok(*d),
    ensures
        final(out)@ == old(out)@ + fuzzy_date_text(*d),
{
    match (d.month, d.day) {
        (Some(m), Some(day)) => {
            push_decimal(out, day as u64);
            push_char(out, ' ');
            push_str(out, month_abbr_of(m));
            push_char(out, ' ');
            push_int(out, d.year);
            proof {
                assert(out@ =~= old(out)@ + fuzzy_date_text(*d));
            }
        },
        (Some(m), None) => {
            push_str(out, month_abbr_of(m));
            push_char(out, ' ');
            push_int(out, d.year);
            proof {
                assert(out@ =~= old(out)@ + fuzzy_date_text(*d));
            }
        },
        _ => {
            push_int(out, d.year);
        },
    }
}

/// Formats a date value as a GEDCOM `DATE` value (see `date_text`).
pub fn date_value_to_gedcom_string(date: &DateValue) -> (r: String)
    requires
        gedcom_date_ok(*date),
    ensures
        r@ == date_text(*date),
{
    let mut out = new_string();
    match date {
        DateValue::Textual { value } => {
            return value.clone();
        },
        DateValue::Exact { date, .. } => {
            push_fuzzy_date(&mut out, date);
        },
        DateValue::Before { date, .. } => {
            push_str(&mut out, "BEF ");
            push_fuzzy_date(&mut out, date);
        },
        DateValue::After { date, .. } => {
            push_str(&mut out, "AFT ");
            push_fuzzy_date(&mut out, date);
        },
        DateValue::About { date, .. } => {
            push_str(&mut out, "ABT ");
            push_fuzzy_date(&mut out, date);
        },
        DateValue::Range { from, to, .. } => {
            push_str(&mut out, "BET ");
            push_fuzzy_date(&mut out, from);
            push_str(&mut out, " AND ");
            push_fuzzy_date(&mut out, to);
        },
        DateValue::Tolerance { date, .. } => {
            push_fuzzy_date(&mut out, date);
        },
        DateValue::Quarter { year, quarter } => {
            push_char(&mut out, 'Q');
            push_decimal(&mut out, *quarter as u64);
            push_char(&mut out, ' ');
            push_int(&mut out, *year);
        },
    }
    proof {
        assert(out@ =~= date_text(*date));
    }
    out
}

/// The `NAME` node of a name: value "given /surnames/" (just the given names
/// without surnames), with `GIVN`, `SURN`, `NPFX` and `NSFX` when present.
pub open spec fn name_view(n: PersonName) -> NodeView {
    let joined = joined_surnames(n.surnames@);
    let has_surnames = n.surnames@.len() > 0;
    let children = (if n.given_names@.len() > 0 {
        seq![nv(2, "GIVN"@, Some(n.given_names@), Seq::empty())]
    } else {
        Seq::empty()
    }) + (if has_surnames {
        seq![nv(2, "SURN"@, Some(joined), Seq::empty())]
    } else {
        Seq::empty()
    }) + (match n.prefix {
        Some(p) => seq![nv(2, "NPFX"@, Some(p@), Seq::empty())],
        None => Seq::empty(),
    }) + (match n.suffix {
        Some(x) => seq![nv(2, "NSFX"@, Some(x@), Seq::empty())],
        None => Seq::empty(),
    }) + (match name_type_text(n.name_type) {
        Some(t) => seq![nv(2, "TYPE"@, Some(t), Seq::empty())],
        None => Seq::empty(),
    });
    let value = if has_surnames {
        n.given_names@ + " /"@ + joined + "/"@
    } else {
        n.given_names@
    };
    nv(1, "NAME"@, Some(value), children)
}

fn joined_surnames_of(n: &PersonName) -> (r: String)
    ensures
        r@ == joined_surnames(n.surnames@),
{
    let mut key = new_string();
    let mut i: usize = 0;
    while i < n.surnames.len()
        invariant
            i <= n.surnames@.len(),
            key@ == joined_surnames(n.surnames@.subrange(0, i as int)),
        decreases n.surnames@.len() - i,
    {
        if i > 0 {
            push_char(&mut key, ' ');
        }
        push_str(&mut key, n.surnames[i].value.as_str());
        proof {
            let t = n.surnames@.subrange(0, i + 1);
            assert(t.drop_last() =~= n.surnames@.subrange(0, i as int));
            if i == 0 {
                assert(n.surnames@.subrange(0, 0) =~= Seq::<crate::person::Surname>::empty());
            }
        }
        i = i + 1;
    }
    proof {
        assert(n.surnames@.subrange(0, i as int) =~= n.surnames@);
    }
    key
}

/// Appends a node to `children`, tracking the forms.
fn push_node(children: &mut Vec<GedcomNode>, n: GedcomNode)
    ensures
        views_of(final(children)@) == views_of(old(children)@).push(view_of(n)),
{
    proof {
        lemma_views_of_push(children@, n);
    }
    children.push(n);
}

pub fn person_name_to_name_node(name: &PersonName) -> (r: GedcomNode)
    ensures
        view_of(r) == name_view(*name),
{
    let mut children: Vec<GedcomNode> = Vec::new();
    let ghost mut cv: Seq<NodeView> = Seq::empty();
    proof {
        assert(views_of(children@) == cv);
    }
    if !name.given_names.as_str().is_empty() {
        push_node(&mut children, mk_node(2, "GIVN", Some(name.given_names.clone()), Vec::new()));
        proof {
            cv = cv.push(nv(2, "GIVN"@, Some(name.given_names@), Seq::empty()));
        }
    }
    let ghost c1 = cv;
    let joined = joined_surnames_of(name);
    if name.surnames.len() > 0 {
        push_node(&mut children, mk_node(2, "SURN", Some(joined.clone()), Vec::new()));
        proof {
            cv = cv.push(nv(2, "SURN"@, Some(joined@), Seq::empty()));
        }
    }
    let ghost c2 = cv;
    match &name.prefix {
        Some(p) => {
            push_node(&mut children, mk_node(2, "NPFX", Some(p.clone()), Vec::new()));
            proof {
                cv = cv.push(nv(2, "NPFX"@, Some(p@), Seq::empty()));
            }
        },
        None => {},
    }
    let ghost c3 = cv;
    match &name.suffix {
        Some(x) => {
            push_node(&mut children, mk_node(2, "NSFX", Some(x.clone()), Vec::new()));
            proof {
                cv = cv.push(nv(2, "NSFX"@, Some(x@), Seq::empty()));
            }
        },
        None => {},
    }
    let ghost c4 = cv;
    match name_type_string(&name.name_type) {
        Some(t) => {
            let ghost tv = t@;
            push_node(&mut children, mk_node(2, "TYPE", Some(t), Vec::new()));
            proof {
                cv = cv.push(nv(2, "TYPE"@, Some(tv), Seq::empty()));
            }
        },
        None => {},
    }
    let value = if name.surnames.len() > 0 {
        let mut v = name.given_names.clone();
        push_str(&mut v, " /");
        push_str(&mut v, joined.as_str());
        push_str(&mut v, "/");
        v
    } else {
        name.given_names.clone()
    };
    let r = mk_node(1, "NAME", Some(value), children);
    proof {
        assert(views_of(children@) =~= name_view(*name).children);
    }
    r
}

/// Whether `id` takes part in `e` as a principal.
pub open spec fn is_principal(e: Event, id: EntityId) -> bool {
    exists|i: int|
        0 <= i < e.participants@.len() && (#[trigger] e.participants@[i]).person_id == id
            && e.participants@[i].role is Principal
}

fn principal_in(e: &Event, id: EntityId) -> (r: bool)
    ensures
        r == is_principal(*e, id),
{
    let mut i: usize = 0;
    while i < e.participants.len()
        invariant
            i <= e.participants@.len(),
            forall|j: int|
                0 <= j < i ==> !((#[trigger] e.participants@[j]).person_id == id
                    && e.participants@[j].role is Principal),
        decreases e.participants@.len() - i,
    {
        let p = &e.participants[i];
        let principal = match p.role {
            EventRole::Principal => true,
            _ => false,
        };
        if p.person_id == id && principal {
            return true;
        }
        i = i + 1;
    }
    false
}

/// The place of an event: its description after "place: ", if it starts so.
pub open spec fn place_of(desc: Option<String>) -> Option<Seq<char>> {
    match desc {
        Some(s) => if s@.len() >= 7 && s@.subrange(0, 7) == "place: "@ {
            Some(s@.subrange(7, s@.len() as int))
        } else {
            None
        },
        None => None,
    }
}

fn place_text(desc: &Option<String>) -> (r: Option<String>)
    ensures
        r.deep_view() == place_of(*desc),
{
    match desc {
        Some(s) => {
            let cs = chars_of(s.as_str());
            let prefix = ['p', 'l', 'a', 'c', 'e', ':', ' '];
            proof {
                reveal_strlit("place: ");
                assert(prefix@ =~= "place: "@);
            }
            if cs.len() < 7 {
                return None;
            }
            let mut i: usize = 0;
            while i < 7
                invariant
                    i <= 7,
                    cs@.len() >= 7,
                    cs@ == s@,
                    *desc == Some(*s),
                    prefix@ == "place: "@,
                    forall|j: int| 0 <= j < i ==> cs@[j] == prefix@[j],
                decreases 7 - i,
            {
                if cs[i] != prefix[i] {
                    proof {
                        assert(s@.subrange(0, 7)[i as int] != "place: "@[i as int]);
                        assert(s@.subrange(0, 7) != "place: "@);
                    }
                    return None;
                }
                i = i + 1;
            }
            proof {
                assert(s@.subrange(0, 7) =~= "place: "@);
            }
            Some(string_of_range(cs.as_slice(), 7, cs.len()))
        },
        None => None,
    }
}

/// The `DATE` and `PLAC` nodes of an exported event.
pub open spec fn event_detail_nodes(e: Event) -> Seq<NodeView> {
    (match e.date {
        Some(d) => seq![nv(2, "DATE"@, Some(date_text(d)), Seq::empty())],
        None => Seq::empty(),
    }) + (match place_of(e.description) {
        Some(p) => seq![nv(2, "PLAC"@, Some(p), Seq::empty())],
        None => Seq::empty(),
    })
}

/// Whether an event's date, if it has one, can be written as GEDCOM text.
pub open spec fn event_date_ok(e: Event) -> bool {
    e.date matches Some(d) ==> gedcom_date_ok(d)
}

fn event_details(e: &Event) -> (r: Vec<GedcomNode>)
    requires
        event_date_ok(*e),
    ensures
        views_of(r@) == event_detail_nodes(*e),
{
    let mut children: Vec<GedcomNode> = Vec::new();
    let ghost mut cv: Seq<NodeView> = Seq::empty();
    proof {
        assert(views_of(children@) == cv);
    }
    match &e.date {
        Some(d) => {
            push_node(&mut children, mk_node(2, "DATE", Some(date_value_to_gedcom_string(d)), Vec::new()));
            proof {
                cv = cv.push(nv(2, "DATE"@, Some(date_text(*d)), Seq::empty()));
            }
        },
        None => {},
    }
    match place_text(&e.description) {
        Some(p) => {
            let ghost pv = p@;
            push_node(&mut children, mk_node(2, "PLAC", Some(p), Vec::new()));
            proof {
                cv = cv.push(nv(2, "PLAC"@, Some(pv), Seq::empty()));
            }
        },
        None => {},
    }
    proof {
        assert(cv =~= event_detail_nodes(*e));
    }
    children
}

/// The event nodes of a person: each event in which the person is a
/// principal and whose type has an individual tag, in order.
pub open spec fn person_event_nodes(events: Seq<Event>, id: EntityId) -> Seq<NodeView>
    decreases events.len(),
{
    if events.len() == 0 {
        Seq::empty()
    } else {
        let p = person_event_nodes(events.drop_last(), id);
        let e = events.last();
        match indi_tag_of(e.event_type) {
            Some(tag) => if is_principal(e, id) {
                p.push(nv(1, tag, None, event_detail_nodes(e)))
            } else {
                p
            },
            None => p,
        }
    }
}

/// Whether the events exported for person `id` have writable dates.
pub open spec fn person_events_exportable(events: Seq<Event>, id: EntityId) -> bool {
    forall|i: int|
        0 <= i < events.len() && is_principal(events[i], id) && indi_tag_of(events[i].event_type) is Some
            ==> #[trigger] event_date_ok(events[i])
}

/// The `SEX` node of a known gender.
pub open spec fn sex_nodes(g: Gender) -> Seq<NodeView> {
    match g {
        Gender::Male => seq![nv(1, "SEX"@, Some("M"@), Seq::empty())],
        Gender::Female => seq![nv(1, "SEX"@, Some("F"@), Seq::empty())],
        Gender::Unknown => Seq::empty(),
        Gender::Custom(v) => seq![nv(1, "SEX"@, Some(v@), Seq::empty())],
    }
}

/// Whether living persons are redacted on export.
#[derive(Debug, Clone, Copy, PartialEq, Eq, Structural)]
pub enum ExportPrivacyPolicy {
    /// Export everything.
    Off,
    RedactLiving,
}

impl Default for ExportPrivacyPolicy {
    fn default() -> (r: Self)
        ensures
            r is Off,
    {
        ExportPrivacyPolicy::Off
    }
}

impl ExportPrivacyPolicy {
    pub fn redact_living(self) -> (r: bool)
        ensures
            r == (self is RedactLiving),
    {
        match self {
            ExportPrivacyPolicy::RedactLiving => true,
            ExportPrivacyPolicy::Off => false,
        }
    }
}

/// The children of a person's `INDI` record: its names (or a single
/// "Living" name when redacted) with its kept vendor subtrees, its gender,
/// then (unless redacted) its events.
pub open spec fn indi_children(p: Person, events: Seq<Event>, redact: bool) -> Seq<NodeView> {
    let names = if redact {
        seq![nv(1, "NAME"@, Some("Living"@), Seq::empty())]
    } else {
        with_raw_subtrees(p.names@.map_values(|n: PersonName| name_view(n)), 0, p._raw_gedcom)
    };
    names + sex_nodes(p.gender) + if redact {
        Seq::empty()
    } else {
        person_event_nodes(events, p.id)
    }
}

/// A record form at level 0.
pub open spec fn record_view(xref: Seq<char>, tag: Seq<char>, value: Option<Seq<char>>, children: Seq<NodeView>) -> NodeView {
    NodeView { level: 0, xref: Some(xref), tag, value, children }
}

/// Converts a person to a GEDCOM `INDI` record (see `indi_children`); a
/// private person is not exported.
pub fn person_to_indi_node_with_policy(
    person: &Person,
    events: &[Event],
    xref: &str,
    privacy_policy: ExportPrivacyPolicy,
) -> (r: Option<GedcomNode>)
    requires
        !person.private && !(privacy_policy is RedactLiving && person.living) ==> person_events_exportable(
            events@,
            person.id,
        ),
    ensures
        person.private ==> r is None,
        !person.private ==> (r matches Some(n) && view_of(n) == record_view(
            xref@,
            "INDI"@,
            None,
            indi_children(*person, events@, privacy_policy is RedactLiving && person.living),
        )),
{
    if person.private {
        return None;
    }
    let redact = privacy_policy.redact_living() && person.living;
    let mut children: Vec<GedcomNode> = Vec::new();
    if redact {
        push_node(&mut children, mk_node(1, "NAME", Some(str_to_string("Living")), Vec::new()));
        proof {
            assert(views_of(Seq::<GedcomNode>::empty()) == Seq::<NodeView>::empty());
            assert(views_of(children@) =~= seq![nv(1, "NAME"@, Some("Living"@), Seq::empty())]);
        }
    } else {
        let mut i: usize = 0;
        proof {
            assert(views_of(children@) =~= person.names@.subrange(0, 0).map_values(|n: PersonName| name_view(n)));
        }
        while i < person.names.len()
            invariant
                i <= person.names@.len(),
                views_of(children@) == person.names@.subrange(0, i as int).map_values(
                    |n: PersonName| name_view(n),
                ),
            decreases person.names@.len() - i,
        {
            push_node(&mut children, person_name_to_name_node(&person.names[i]));
            proof {
                assert(person.names@.subrange(0, i + 1).map_values(|n: PersonName| name_view(n))
                    =~= person.names@.subrange(0, i as int).map_values(|n: PersonName| name_view(n)).push(
                    name_view(person.names@[i as int]),
                ));
            }
            i = i + 1;
        }
        proof {
            assert(person.names@.subrange(0, i as int) =~= person.names@);
        }
        append_raw_gedcom_subtrees(&mut children, 0, &person._raw_gedcom);
    }
    let ghost c1 = views_of(children@);
    match &person.gender {
        Gender::Male => {
            push_node(&mut children, mk_node(1, "SEX", Some(str_to_string("M")), Vec::new()));
        },
        Gender::Female => {
            push_node(&mut children, mk_node(1, "SEX", Some(str_to_string("F")), Vec::new()));
        },
        Gender::Unknown => {},
        Gender::Custom(v) => {
            push_node(&mut children, mk_node(1, "SEX", Some(v.clone()), Vec::new()));
        },
    }
    proof {
        assert(views_of(children@) =~= c1 + sex_nodes(person.gender));
    }
    let ghost c2 = views_of(children@);
    if !redact {
        let mut k: usize = 0;
        proof {
            assert(events@.subrange(0, 0) =~= Seq::<Event>::empty());
            assert(c2 + person_event_nodes(Seq::<Event>::empty(), person.id) =~= c2);
        }
        while k < events.len()
            invariant
                k <= events@.len(),
                person_events_exportable(events@, person.id),
                views_of(children@) == c2 + person_event_nodes(events@.subrange(0, k as int), person.id),
            decreases events@.len() - k,
        {
            let e = &events[k];
            proof {
                assert(events@.subrange(0, k + 1).drop_last() =~= events@.subrange(0, k as int));
                assert(events@.subrange(0, k + 1).last() == events@[k as int]);
            }
            match event_type_to_indi_tag(&e.event_type) {
                Some(tag) => {
                    if principal_in(e, person.id) {
                        proof {
                            assert(event_date_ok(events@[k as int]));
                        }
                        let details = event_details(e);
                        push_node(&mut children, mk_node(1, tag, None, details));
                    }
                },
                None => {},
            }
            k = k + 1;
        }
        proof {
            assert(events@.subrange(0, k as int) =~= events@);
        }
    } else {
        proof {
            assert(c2 + Seq::<NodeView>::empty() =~= c2);
        }
    }
    let r = GedcomNode {
        level: 0,
        xref: Some(str_to_string(xref)),
        tag: str_to_string("INDI"),
        value: None,
        children,
    };
    Some(r)
}

/// Converts a person to a GEDCOM `INDI` record without redaction.
pub fn person_to_indi_node(person: &Person, events: &[Event], xref: &str) -> (r: GedcomNode)
    requires
        !person.private,
        person_events_exportable(events@, person.id),
    ensures
        view_of(r) == record_view(xref@, "INDI"@, None, indi_children(*person, events@, false)),
{
    match person_to_indi_node_with_policy(person, events, xref, ExportPrivacyPolicy::Off) {
        Some(n) => n,
        None => {
            proof {
                assert(false);
            }
            mk_node(0, "INDI", None, Vec::new())
        },
    }
}

/// The cross-reference under which an entity id is written: "@" + prefix +
/// the id's 32 hex digits + "@".
pub open spec fn id_xref(prefix: char, id: EntityId) -> Seq<char> {
    seq!['@', prefix] + uuid_simple_text(id.0) + seq!['@']
}

fn id_xref_text(prefix: char, id: EntityId) -> (r: String)
    ensures
        r@ == id_xref(prefix, id),
{
    let mut out = new_string();
    push_char(&mut out, '@');
    push_char(&mut out, prefix);
    let hex = uuid_simple_string(id.0);
    push_str(&mut out, hex.as_str());
    push_char(&mut out, '@');
    proof {
        assert(out@ =~= id_xref(prefix, id));
    }
    out
}

/// The `PEDI` value of a lineage; none for a biological child.
pub open spec fn pedi_value(t: LineageType) -> Option<Seq<char>> {
    match t {
        LineageType::Biological => None,
        LineageType::Adopted => Some("ADOPTED"@),
        LineageType::Foster => Some("FOSTER"@),
        LineageType::Step => Some("STEP"@),
        LineageType::Unknown => Some("UNKNOWN"@),
        LineageType::Custom(v) => Some(v@),
    }
}

/// The `CHIL` node of a child link.
pub open spec fn chil_view(c: ChildLink) -> NodeView {
    nv(
        1,
        "CHIL"@,
        Some(id_xref('I', c.child_id)),
        match pedi_value(c.lineage_type) {
            Some(v) => seq![nv(2, "PEDI"@, Some(v), Seq::empty())],
            None => Seq::empty(),
        },
    )
}

fn child_link_node(c: &ChildLink) -> (r: GedcomNode)
    ensures
        view_of(r) == chil_view(*c),
{
    let pedi: Option<String> = match &c.lineage_type {
        LineageType::Biological => None,
        LineageType::Adopted => Some(str_to_string("ADOPTED")),
        LineageType::Foster => Some(str_to_string("FOSTER")),
        LineageType::Step => Some(str_to_string("STEP")),
        LineageType::Unknown => Some(str_to_string("UNKNOWN")),
        LineageType::Custom(v) => Some(v.clone()),
    };
    let mut children: Vec<GedcomNode> = Vec::new();
    match pedi {
        Some(v) => {
            let ghost vv = v@;
            push_node(&mut children, mk_node(2, "PEDI", Some(v), Vec::new()));
            proof {
                assert(views_of(Seq::<GedcomNode>::empty()) == Seq::<NodeView>::empty());
                assert(views_of(children@) =~= seq![nv(2, "PEDI"@, Some(vv), Seq::empty())]);
            }
        },
        None => {
            proof {
                assert(views_of(children@) =~= Seq::<NodeView>::empty());
            }
        },
    }
    mk_node(1, "CHIL", Some(id_xref_text('I', c.child_id)), children)
}

/// Whether `id` takes part in `e`, in any role.
pub open spec fn takes_part(e: Event, id: EntityId) -> bool {
    exists|i: int| 0 <= i < e.participants@.len() && (#[trigger] e.participants@[i]).person_id == id
}

pub fn takes_part_in(e: &Event, id: EntityId) -> (r: bool)
    ensures
        r == takes_part(*e, id),
{
    let mut i: usize = 0;
    while i < e.participants.len()
        invariant
            i <= e.participants@.len(),
            forall|j: int| 0 <= j < i ==> (#[trigger] e.participants@[j]).person_id != id,
        decreases e.participants@.len() - i,
    {
        if e.participants[i].person_id == id {
            return true;
        }
        i = i + 1;
    }
    false
}

/// Whether an event belongs to a family: every known partner takes part in
/// it (and at least one partner is known).
pub open spec fn family_event_of(e: Event, f: Family) -> bool {
    match (f.partner1_id, f.partner2_id) {
        (Some(a), Some(b)) => takes_part(e, a) && takes_part(e, b),
        (Some(a), None) => takes_part(e, a),
        (None, Some(b)) => takes_part(e, b),
        (None, None) => false,
    }
}

/// The event nodes of a family: each of its events whose type has a family
/// tag, in order.
pub open spec fn family_event_nodes(events: Seq<Event>, f: Family) -> Seq<NodeView>
    decreases events.len(),
{
    if events.len() == 0 {
        Seq::empty()
    } else {
        let p = family_event_nodes(events.drop_last(), f);
        let e = events.last();
        if family_event_of(e, f) {
            match fam_tag_of(e.event_type) {
                Some(tag) => p.push(nv(1, tag, None, event_detail_nodes(e))),
                None => p,
            }
        } else {
            p
        }
    }
}

/// Whether the events exported for a family have writable dates.
pub open spec fn family_events_exportable(events: Seq<Event>, f: Family) -> bool {
    forall|i: int|
        0 <= i < events.len() && family_event_of(events[i], f) && fam_tag_of(events[i].event_type) is Some
            ==> #[trigger] event_date_ok(events[i])
}

/// The children of a family's `FAM` record: partners, child links and
/// events, with its kept vendor subtrees put back.
pub open spec fn fam_children(f: Family, events: Seq<Event>) -> Seq<NodeView> {
    with_raw_subtrees(
        (match f.partner1_id {
            Some(a) => seq![nv(1, "HUSB"@, Some(id_xref('I', a)), Seq::empty())],
            None => Seq::empty(),
        }) + (match f.partner2_id {
            Some(b) => seq![nv(1, "WIFE"@, Some(id_xref('I', b)), Seq::empty())],
            None => Seq::empty(),
        }) + f.child_links@.map_values(|c: ChildLink| chil_view(c)) + family_event_nodes(events, f),
        0,
        f._raw_gedcom,
    )
}

/// Converts a family to a GEDCOM `FAM` record (see `fam_children`).
pub fn family_to_fam_node(family: &Family, events: &[Event], xref: &str) -> (r: GedcomNode)
    requires
        family_events_exportable(events@, *family),
    ensures
        view_of(r) == record_view(xref@, "FAM"@, None, fam_children(*family, events@)),
{
    let mut children: Vec<GedcomNode> = Vec::new();
    let ghost mut cv: Seq<NodeView> = Seq::empty();
    proof {
        assert(views_of(children@) == cv);
    }
    match family.partner1_id {
        Some(a) => {
            push_node(&mut children, mk_node(1, "HUSB", Some(id_xref_text('I', a)), Vec::new()));
            proof {
                cv = cv.push(nv(1, "HUSB"@, Some(id_xref('I', a)), Seq::empty()));
            }
        },
        None => {},
    }
    match family.partner2_id {
        Some(b) => {
            push_node(&mut children, mk_node(1, "WIFE", Some(id_xref_text('I', b)), Vec::new()));
            proof {
                cv = cv.push(nv(1, "WIFE"@, Some(id_xref('I', b)), Seq::empty()));
            }
        },
        None => {},
    }
    let ghost head = cv;
    let mut i: usize = 0;
    proof {
        assert(head + family.child_links@.subrange(0, 0).map_values(|c: ChildLink| chil_view(c)) =~= cv);
    }
    while i < family.child_links.len()
        invariant
            i <= family.child_links@.len(),
            views_of(children@) == head + family.child_links@.subrange(0, i as int).map_values(
                |c: ChildLink| chil_view(c),
            ),
        decreases family.child_links@.len() - i,
    {
        push_node(&mut children, child_link_node(&family.child_links[i]));
        proof {
            assert(family.child_links@.subrange(0, i + 1).map_values(|c: ChildLink| chil_view(c))
                =~= family.child_links@.subrange(0, i as int).map_values(|c: ChildLink| chil_view(c)).push(
                chil_view(family.child_links@[i as int]),
            ));
        }
        i = i + 1;
    }
    proof {
        assert(family.child_links@.subrange(0, i as int) =~= family.child_links@);
    }
    let ghost c2 = views_of(children@);
    let mut k: usize = 0;
    proof {
        assert(events@.subrange(0, 0) =~= Seq::<Event>::empty());
        assert(c2 + family_event_nodes(Seq::<Event>::empty(), *family) =~= c2);
    }
    while k < events.len()
        invariant
            k <= events@.len(),
            family_events_exportable(events@, *family),
            views_of(children@) == c2 + family_event_nodes(events@.subrange(0, k as int), *family),
        decreases events@.len() - k,
    {
        let e = &events[k];
        proof {
            assert(events@.subrange(0, k + 1).drop_last() =~= events@.subrange(0, k as int));
            assert(events@.subrange(0, k + 1).last() == events@[k as int]);
        }
        let belongs = match (family.partner1_id, family.partner2_id) {
            (Some(a), Some(b)) => takes_part_in(e, a) && takes_part_in(e, b),
            (Some(a), None) => takes_part_in(e, a),
            (None, Some(b)) => takes_part_in(e, b),
            (None, None) => false,
        };
        if belongs {
            match event_type_to_fam_tag(&e.event_type) {
                Some(tag) => {
                    proof {
                        assert(event_date_ok(events@[k as int]));
                    }
                    let details = event_details(e);
                    push_node(&mut children, mk_node(1, tag, None, details));
                },
                None => {},
            }
        }
        k = k + 1;
    }
    proof {
        assert(events@.subrange(0, k as int) =~= events@);
        assert(head =~= (match family.partner1_id {
            Some(a) => seq![nv(1, "HUSB"@, Some(id_xref('I', a)), Seq::empty())],
            None => Seq::<NodeView>::empty(),
        }) + (match family.partner2_id {
            Some(b) => seq![nv(1, "WIFE"@, Some(id_xref('I', b)), Seq::empty())],
            None => Seq::<NodeView>::empty(),
        }));
    }
    append_raw_gedcom_subtrees(&mut children, 0, &family._raw_gedcom);
    GedcomNode {
        level: 0,
        xref: Some(str_to_string(xref)),
        tag: str_to_string("FAM"),
        value: None,
        children,
    }
}

/// The `REPO` reference node of a repository reference.
pub open spec fn repo_ref_view(r: RepositoryRef) -> NodeView {
    nv(
        1,
        "REPO"@,
        Some(id_xref('R', r.repository_id)),
        (match r.call_number {
            Some(c) => seq![nv(2, "CALN"@, Some(c@), Seq::empty())],
            None => Seq::empty(),
        }) + (match r.media_type {
            Some(m) => if m@.len() > 0 {
                seq![nv(2, "MEDI"@, Some(m@), Seq::empty())]
            } else {
                Seq::empty()
            },
            None => Seq::empty(),
        }),
    )
}

fn repo_ref_node(r: &RepositoryRef) -> (res: GedcomNode)
    ensures
        view_of(res) == repo_ref_view(*r),
{
    let mut children: Vec<GedcomNode> = Vec::new();
    let ghost mut cv: Seq<NodeView> = Seq::empty();
    proof {
        assert(views_of(children@) == cv);
    }
    match &r.call_number {
        Some(c) => {
            push_node(&mut children, mk_node(2, "CALN", Some(c.clone()), Vec::new()));
            proof {
                cv = cv.push(nv(2, "CALN"@, Some(c@), Seq::empty()));
            }
        },
        None => {},
    }
    match &r.media_type {
        Some(m) => {
            if !m.as_str().is_empty() {
                push_node(&mut children, mk_node(2, "MEDI", Some(m.clone()), Vec::new()));
                proof {
                    cv = cv.push(nv(2, "MEDI"@, Some(m@), Seq::empty()));
                }
            }
        },
        None => {},
    }
    proof {
        assert(cv =~= repo_ref_view(*r).children);
    }
    mk_node(1, "REPO", Some(id_xref_text('R', r.repository_id)), children)
}

/// A leaf at level 1 for an optional value.
pub open spec fn opt_leaf(tag: Seq<char>, v: Option<String>) -> Seq<NodeView> {
    match v {
        Some(x) => seq![nv(1, tag, Some(x@), Seq::empty())],
        None => Seq::empty(),
    }
}

/// A leaf at level 1 for a value, when it is not empty.
pub open spec fn text_leaf(tag: Seq<char>, v: String) -> Seq<NodeView> {
    if v@.len() > 0 {
        seq![nv(1, tag, Some(v@), Seq::empty())]
    } else {
        Seq::empty()
    }
}

fn push_opt_leaf(children: &mut Vec<GedcomNode>, tag: &str, v: &Option<String>)
    ensures
        views_of(final(children)@) == views_of(old(children)@) + opt_leaf(tag@, *v),
{
    match v {
        Some(x) => {
            push_node(children, mk_node(1, tag, Some(x.clone()), Vec::new()));
        },
        None => {
            proof {
                assert(views_of(children@) + Seq::<NodeView>::empty() =~= views_of(children@));
            }
        },
    }
}

fn push_text_leaf(children: &mut Vec<GedcomNode>, tag: &str, v: &String)
    ensures
        views_of(final(children)@) == views_of(old(children)@) + text_leaf(tag@, *v),
{
    if !v.as_str().is_empty() {
        push_node(children, mk_node(1, tag, Some(v.clone()), Vec::new()));
    } else {
        proof {
            assert(views_of(children@) + Seq::<NodeView>::empty() =~= views_of(children@));
        }
    }
}

/// The children of a source's `SOUR` record.
pub open spec fn sour_children(s: Source) -> Seq<NodeView> {
    with_raw_subtrees(
        text_leaf("TITL"@, s.title) + opt_leaf("AUTH"@, s.author) + opt_leaf("PUBL"@, s.publication_info)
            + opt_leaf("ABBR"@, s.abbreviation) + s.repository_refs@.map_values(
            |r: RepositoryRef| repo_ref_view(r),
        ),
        0,
        s._raw_gedcom,
    )
}

/// Converts a source to a GEDCOM `SOUR` record (see `sour_children`).
pub fn source_to_sour_node(source: &Source, xref: &str) -> (r: GedcomNode)
    ensures
        view_of(r) == record_view(xref@, "SOUR"@, None, sour_children(*source)),
{
    let mut children: Vec<GedcomNode> = Vec::new();
    proof {
        assert(views_of(children@) == Seq::<NodeView>::empty());
    }
    push_text_leaf(&mut children, "TITL", &source.title);
    push_opt_leaf(&mut children, "AUTH", &source.author);
    push_opt_leaf(&mut children, "PUBL", &source.publication_info);
    push_opt_leaf(&mut children, "ABBR", &source.abbreviation);
    let ghost head = views_of(children@);
    let mut i: usize = 0;
    proof {
        assert(head + source.repository_refs@.subrange(0, 0).map_values(|r: RepositoryRef| repo_ref_view(r)) =~= head);
    }
    while i < source.repository_refs.len()
        invariant
            i <= source.repository_refs@.len(),
            views_of(children@) == head + source.repository_refs@.subrange(0, i as int).map_values(
                |r: RepositoryRef| repo_ref_view(r),
            ),
        decreases source.repository_refs@.len() - i,
    {
        push_node(&mut children, repo_ref_node(&source.repository_refs[i]));
        proof {
            assert(source.repository_refs@.subrange(0, i + 1).map_values(|r: RepositoryRef| repo_ref_view(r))
                =~= source.repository_refs@.subrange(0, i as int).map_values(|r: RepositoryRef| repo_ref_view(r)).push(
                repo_ref_view(source.repository_refs@[i as int]),
            ));
        }
        i = i + 1;
    }
    proof {
        assert(source.repository_refs@.subrange(0, i as int) =~= source.repository_refs@);
        assert(head =~= text_leaf("TITL"@, source.title) + opt_leaf("AUTH"@, source.author) + opt_leaf(
            "PUBL"@,
            source.publication_info,
        ) + opt_leaf("ABBR"@, source.abbreviation));
    }
    append_raw_gedcom_subtrees(&mut children, 0, &source._raw_gedcom);
    GedcomNode {
        level: 0,
        xref: Some(str_to_string(xref)),
        tag: str_to_string("SOUR"),
        value: None,
        children,
    }
}

/// The children of a repository's `REPO` record.
pub open spec fn repo_children(r: Repository) -> Seq<NodeView> {
    with_raw_subtrees(
        text_leaf("NAME"@, r.name) + opt_leaf("ADDR"@, r.address) + r.urls@.map_values(
            |u: String| nv(1, "WWW"@, Some(u@), Seq::empty()),
        ),
        0,
        r._raw_gedcom,
    )
}

/// Converts a repository to a GEDCOM `REPO` record (see `repo_children`).
pub fn repository_to_repo_node(repository: &Repository, xref: &str) -> (r: GedcomNode)
    ensures
        view_of(r) == record_view(xref@, "REPO"@, None, repo_children(*repository)),
{
    let mut children: Vec<GedcomNode> = Vec::new();
    proof {
        assert(views_of(children@) == Seq::<NodeView>::empty());
    }
    push_text_leaf(&mut children, "NAME", &repository.name);
    push_opt_leaf(&mut children, "ADDR", &repository.address);
    let ghost head = views_of(children@);
    let mut i: usize = 0;
    proof {
        assert(head + repository.urls@.subrange(0, 0).map_values(|u: String| nv(1, "WWW"@, Some(u@), Seq::empty())) =~= head);
    }
    while i < repository.urls.len()
        invariant
            i <= repository.urls@.len(),
            views_of(children@) == head + repository.urls@.subrange(0, i as int).map_values(
                |u: String| nv(1, "WWW"@, Some(u@), Seq::empty()),
            ),
        decreases repository.urls@.len() - i,
    {
        push_node(&mut children, mk_node(1, "WWW", Some(repository.urls[i].clone()), Vec::new()));
        proof {
            assert(repository.urls@.subrange(0, i + 1).map_values(|u: String| nv(1, "WWW"@, Some(u@), Seq::empty()))
                =~= repository.urls@.subrange(0, i as int).map_values(|u: String| nv(1, "WWW"@, Some(u@), Seq::empty())).push(
                nv(1, "WWW"@, Some(repository.urls@[i as int]@), Seq::empty()),
            ));
        }
        i = i + 1;
    }
    proof {
        assert(repository.urls@.subrange(0, i as int) =~= repository.urls@);
    }
    append_raw_gedcom_subtrees(&mut children, 0, &repository._raw_gedcom);
    GedcomNode {
        level: 0,
        xref: Some(str_to_string(xref)),
        tag: str_to_string("REPO"),
        value: None,
        children,
    }
}

/// Converts a note to a GEDCOM `NOTE` record: its text as value, its kept
/// vendor subtrees as children.
pub fn note_to_note_node(note: &Note, xref: &str) -> (r: GedcomNode)
    ensures
        view_of(r) == record_view(
            xref@,
            "NOTE"@,
            Some(note.text@),
            with_raw_subtrees(Seq::empty(), 0, note._raw_gedcom),
        ),
{
    let mut children: Vec<GedcomNode> = Vec::new();
    proof {
        assert(views_of(children@) == Seq::<NodeView>::empty());
    }
    append_raw_gedcom_subtrees(&mut children, 0, &note._raw_gedcom);
    GedcomNode {
        level: 0,
        xref: Some(str_to_string(xref)),
        tag: str_to_string("NOTE"),
        value: Some(note.text.clone()),
        children,
    }
}

/// The children of a media object's `OBJE` record.
pub open spec fn obje_children(m: Media) -> Seq<NodeView> {
    with_raw_subtrees(text_leaf("FILE"@, m.file_path) + text_leaf("MEDI"@, m.mime_type), 0, m._raw_gedcom)
}

/// Converts a media object to a GEDCOM `OBJE` record (see `obje_children`).
pub fn media_to_obje_node(media: &Media, xref: &str) -> (r: GedcomNode)
    ensures
        view_of(r) == record_view(xref@, "OBJE"@, None, obje_children(*media)),
{
    let mut children: Vec<GedcomNode> = Vec::new();
    proof {
        assert(views_of(children@) == Seq::<NodeView>::empty());
    }
    push_text_leaf(&mut children, "FILE", &media.file_path);
    push_text_leaf(&mut children, "MEDI", &media.mime_type);
    proof {
        assert(views_of(children@) =~= text_leaf("FILE"@, media.file_path) + text_leaf("MEDI"@, media.mime_type));
    }
    append_raw_gedcom_subtrees(&mut children, 0, &media._raw_gedcom);
    GedcomNode {
        level: 0,
        xref: Some(str_to_string(xref)),
        tag: str_to_string("OBJE"),
        value: None,
        children,
    }
}

/// An event is written under the individual event tag that records its
/// type in GEDCOM 5.5.1: the tag's meaning is the type's name (BIRT for a
/// birth, EMIG for an emigration, IMMI for an immigration, ...), for every
/// type that has a tag.
pub proof fn law_indi_tag_meaning(t: EventType)
    requires
        indi_tag_of(t) is Some,
    ensures
        crate::gedcom::mapping::gedcom_tag_meaning(indi_tag_of(t)->0) == Some(crate::event::event_type_name(t)),
{
    law_indi_event_tag_round_trip(t);
    crate::gedcom::mapping::law_indi_event_tag_meaning(t, indi_tag_of(t)->0);
}

/// An individual event written with its tag reads back as the same event
/// type: every event type that has an individual tag is mapped back to
/// itself from that tag.
pub proof fn law_indi_event_tag_round_trip(t: EventType)
    requires
        indi_tag_of(t) is Some,
    ensures
        is_indi_event_tag(indi_tag_of(t)->0),
        indi_event_type_ok(t, indi_tag_of(t)->0),
{
    reveal_strlit("BIRT");
    reveal_strlit("DEAT");
    reveal_strlit("BURI");
    reveal_strlit("CHR");
    reveal_strlit("CREM");
    reveal_strlit("ADOP");
    reveal_strlit("BAPM");
    reveal_strlit("BARM");
    reveal_strlit("BASM");
    reveal_strlit("BLES");
    reveal_strlit("CHRA");
    reveal_strlit("CONF");
    reveal_strlit("FCOM");
    reveal_strlit("ORDN");
    reveal_strlit("CENS");
    reveal_strlit("EMIG");
    reveal_strlit("IMMI");
    reveal_strlit("NATU");
    reveal_strlit("PROB");
    reveal_strlit("WILL");
    reveal_strlit("GRAD");
    reveal_strlit("RETI");
    reveal_strlit("OCCU");
    reveal_strlit("RESI");
    reveal_strlit("CAST");
    reveal_strlit("DSCR");
    reveal_strlit("EDUC");
    reveal_strlit("IDNO");
    reveal_strlit("NATI");
    reveal_strlit("NCHI");
    reveal_strlit("NMR");
    reveal_strlit("PROP");
    reveal_strlit("RELI");
    reveal_strlit("SSN");
    reveal_strlit("TITL");
    reveal_strlit("EVEN");
    assert("BIRT"@.len() == 4 && "BIRT"@[0] == 'B' && "BIRT"@[1] == 'I' && "BIRT"@[2] == 'R' && "BIRT"@[3] == 'T');
    assert("DEAT"@.len() == 4 && "DEAT"@[0] == 'D' && "DEAT"@[1] == 'E' && "DEAT"@[2] == 'A' && "DEAT"@[3] == 'T');
    assert("BURI"@.len() == 4 && "BURI"@[0] == 'B' && "BURI"@[1] == 'U' && "BURI"@[2] == 'R' && "BURI"@[3] == 'I');
    assert("CHR"@.len() == 3 && "CHR"@[0] == 'C' && "CHR"@[1] == 'H' && "CHR"@[2] == 'R');
    assert("CREM"@.len() == 4 && "CREM"@[0] == 'C' && "CREM"@[1] == 'R' && "CREM"@[2] == 'E' && "CREM"@[3] == 'M');
    assert("ADOP"@.len() == 4 && "ADOP"@[0] == 'A' && "ADOP"@[1] == 'D' && "ADOP"@[2] == 'O' && "ADOP"@[3] == 'P');
    assert("BAPM"@.len() == 4 && "BAPM"@[0] == 'B' && "BAPM"@[1] == 'A' && "BAPM"@[2] == 'P' && "BAPM"@[3] == 'M');
    assert("BARM"@.len() == 4 && "BARM"@[0] == 'B' && "BARM"@[1] == 'A' && "BARM"@[2] == 'R' && "BARM"@[3] == 'M');
    assert("BASM"@.len() == 4 && "BASM"@[0] == 'B' && "BASM"@[1] == 'A' && "BASM"@[2] == 'S' && "BASM"@[3] == 'M');
    assert("BLES"@.len() == 4 && "BLES"@[0] == 'B' && "BLES"@[1] == 'L' && "BLES"@[2] == 'E' && "BLES"@[3] == 'S');
    assert("CHRA"@.len() == 4 && "CHRA"@[0] == 'C' && "CHRA"@[1] == 'H' && "CHRA"@[2] == 'R' && "CHRA"@[3] == 'A');
    assert("CONF"@.len() == 4 && "CONF"@[0] == 'C' && "CONF"@[1] == 'O' && "CONF"@[2] == 'N' && "CONF"@[3] == 'F');
    assert("FCOM"@.len() == 4 && "FCOM"@[0] == 'F' && "FCOM"@[1] == 'C' && "FCOM"@[2] == 'O' && "FCOM"@[3] == 'M');
    assert("ORDN"@.len() == 4 && "ORDN"@[0] == 'O' && "ORDN"@[1] == 'R' && "ORDN"@[2] == 'D' && "ORDN"@[3] == 'N');
    assert("CENS"@.len() == 4 && "CENS"@[0] == 'C' && "CENS"@[1] == 'E' && "CENS"@[2] == 'N' && "CENS"@[3] == 'S');
    assert("EMIG"@.len() == 4 && "EMIG"@[0] == 'E' && "EMIG"@[1] == 'M' && "EMIG"@[2] == 'I' && "EMIG"@[3] == 'G');
    assert("IMMI"@.len() == 4 && "IMMI"@[0] == 'I' && "IMMI"@[1] == 'M' && "IMMI"@[2] == 'M' && "IMMI"@[3] == 'I');
    assert("NATU"@.len() == 4 && "NATU"@[0] == 'N' && "NATU"@[1] == 'A' && "NATU"@[2] == 'T' && "NATU"@[3] == 'U');
    assert("PROB"@.len() == 4 && "PROB"@[0] == 'P' && "PROB"@[1] == 'R' && "PROB"@[2] == 'O' && "PROB"@[3] == 'B');
    assert("WILL"@.len() == 4 && "WILL"@[0] == 'W' && "WILL"@[1] == 'I' && "WILL"@[2] == 'L' && "WILL"@[3] == 'L');
    assert("GRAD"@.len() == 4 && "GRAD"@[0] == 'G' && "GRAD"@[1] == 'R' && "GRAD"@[2] == 'A' && "GRAD"@[3] == 'D');
    assert("RETI"@.len() == 4 && "RETI"@[0] == 'R' && "RETI"@[1] == 'E' && "RETI"@[2] == 'T' && "RETI"@[3] == 'I');
    assert("OCCU"@.len() == 4 && "OCCU"@[0] == 'O' && "OCCU"@[1] == 'C' && "OCCU"@[2] == 'C' && "OCCU"@[3] == 'U');
    assert("RESI"@.len() == 4 && "RESI"@[0] == 'R' && "RESI"@[1] == 'E' && "RESI"@[2] == 'S' && "RESI"@[3] == 'I');
    assert("CAST"@.len() == 4 && "CAST"@[0] == 'C' && "CAST"@[1] == 'A' && "CAST"@[2] == 'S' && "CAST"@[3] == 'T');
    assert("DSCR"@.len() == 4 && "DSCR"@[0] == 'D' && "DSCR"@[1] == 'S' && "DSCR"@[2] == 'C' && "DSCR"@[3] == 'R');
    assert("EDUC"@.len() == 4 && "EDUC"@[0] == 'E' && "EDUC"@[1] == 'D' && "EDUC"@[2] == 'U' && "EDUC"@[3] == 'C');
    assert("IDNO"@.len() == 4 && "IDNO"@[0] == 'I' && "IDNO"@[1] == 'D' && "IDNO"@[2] == 'N' && "IDNO"@[3] == 'O');
    assert("NATI"@.len() == 4 && "NATI"@[0] == 'N' && "NATI"@[1] == 'A' && "NATI"@[2] == 'T' && "NATI"@[3] == 'I');
    assert("NCHI"@.len() == 4 && "NCHI"@[0] == 'N' && "NCHI"@[1] == 'C' && "NCHI"@[2] == 'H' && "NCHI"@[3] == 'I');
    assert("NMR"@.len() == 3 && "NMR"@[0] == 'N' && "NMR"@[1] == 'M' && "NMR"@[2] == 'R');
    assert("PROP"@.len() == 4 && "PROP"@[0] == 'P' && "PROP"@[1] == 'R' && "PROP"@[2] == 'O' && "PROP"@[3] == 'P');
    assert("RELI"@.len() == 4 && "RELI"@[0] == 'R' && "RELI"@[1] == 'E' && "RELI"@[2] == 'L' && "RELI"@[3] == 'I');
    assert("SSN"@.len() == 3 && "SSN"@[0] == 'S' && "SSN"@[1] == 'S' && "SSN"@[2] == 'N');
    assert("TITL"@.len() == 4 && "TITL"@[0] == 'T' && "TITL"@[1] == 'I' && "TITL"@[2] == 'T' && "TITL"@[3] == 'L');
    assert("EVEN"@.len() == 4 && "EVEN"@[0] == 'E' && "EVEN"@[1] == 'V' && "EVEN"@[2] == 'E' && "EVEN"@[3] == 'N');
}

/// The `INDI` record of the `i`-th person, none for a private person.
pub open spec fn person_record(p: Person, i: int, events: Seq<Event>, policy: ExportPrivacyPolicy) -> Seq<NodeView> {
    if p.private {
        Seq::empty()
    } else {
        seq![
            record_view(
                xref_of(p.original_xref.deep_view(), 'I', i as nat),
                "INDI"@,
                None,
                indi_children(p, events, policy is RedactLiving && p.living),
            ),
        ]
    }
}

/// The `INDI` records of the persons, in order, private persons left out.
pub open spec fn person_records(ps: Seq<Person>, events: Seq<Event>, policy: ExportPrivacyPolicy) -> Seq<NodeView>
    decreases ps.len(),
{
    if ps.len() == 0 {
        Seq::empty()
    } else {
        person_records(ps.drop_last(), events, policy) + person_record(ps.last(), ps.len() - 1, events, policy)
    }
}

/// The `FAM` records of the families, in order.
pub open spec fn family_records(fs: Seq<Family>, events: Seq<Event>) -> Seq<NodeView>
    decreases fs.len(),
{
    if fs.len() == 0 {
        Seq::empty()
    } else {
        family_records(fs.drop_last(), events).push(
            record_view(
                xref_of(fs.last().original_xref.deep_view(), 'F', (fs.len() - 1) as nat),
                "FAM"@,
                None,
                fam_children(fs.last(), events),
            ),
        )
    }
}

/// The `SOUR` records of the sources, in order.
pub open spec fn source_records(ss: Seq<Source>) -> Seq<NodeView>
    decreases ss.len(),
{
    if ss.len() == 0 {
        Seq::empty()
    } else {
        source_records(ss.drop_last()).push(
            record_view(
                xref_of(ss.last().original_xref.deep_view(), 'S', (ss.len() - 1) as nat),
                "SOUR"@,
                None,
                sour_children(ss.last()),
            ),
        )
    }
}

/// The `REPO` records of the repositories, in order.
pub open spec fn repository_records(rs: Seq<Repository>) -> Seq<NodeView>
    decreases rs.len(),
{
    if rs.len() == 0 {
        Seq::empty()
    } else {
        repository_records(rs.drop_last()).push(
            record_view(
                xref_of(rs.last().original_xref.deep_view(), 'R', (rs.len() - 1) as nat),
                "REPO"@,
                None,
                repo_children(rs.last()),
            ),
        )
    }
}

/// The `NOTE` records of the notes, in order.
pub open spec fn note_records(ns: Seq<Note>) -> Seq<NodeView>
    decreases ns.len(),
{
    if ns.len() == 0 {
        Seq::empty()
    } else {
        note_records(ns.drop_last()).push(
            record_view(
                xref_of(ns.last().original_xref.deep_view(), 'N', (ns.len() - 1) as nat),
                "NOTE"@,
                Some(ns.last().text@),
                with_raw_subtrees(Seq::empty(), 0, ns.last()._raw_gedcom),
            ),
        )
    }
}

/// The `OBJE` records of the media, in order.
pub open spec fn media_records(ms: Seq<Media>) -> Seq<NodeView>
    decreases ms.len(),
{
    if ms.len() == 0 {
        Seq::empty()
    } else {
        media_records(ms.drop_last()).push(
            record_view(
                xref_of(ms.last().original_xref.deep_view(), 'O', (ms.len() - 1) as nat),
                "OBJE"@,
                None,
                obje_children(ms.last()),
            ),
        )
    }
}

/// The records of an exported document, in the order persons, families,
/// sources, repositories, notes, media; each keeps its preserved xref or gets
/// the kind's letter and its position (from 1) in its list.
pub open spec fn export_records(
    persons: Seq<Person>,
    families: Seq<Family>,
    sources: Seq<Source>,
    repositories: Seq<Repository>,
    notes: Seq<Note>,
    media: Seq<Media>,
    events: Seq<Event>,
    policy: ExportPrivacyPolicy,
) -> Seq<NodeView> {
    person_records(persons, events, policy) + family_records(families, events) + source_records(sources)
        + repository_records(repositories) + note_records(notes) + media_records(media)
}

fn xref_for(original: &Option<String>, prefix: char, index: usize) -> (r: String)
    requires
        index < usize::MAX,
    ensures
        r@ == xref_of(original.deep_view(), prefix, index as nat),
{
    match original {
        Some(x) => preserved_or_generated_xref(Some(x.as_str()), prefix, index),
        None => preserved_or_generated_xref(None, prefix, index),
    }
}

proof fn lemma_push_view(nodes: Seq<GedcomNode>, x: GedcomNode, pre: Seq<NodeView>)
    requires
        views_of(nodes) == pre,
    ensures
        views_of(nodes.push(x)) == pre.push(view_of(x)),
{
    lemma_views_of_push(nodes, x);
}

/// A whole GEDCOM document of the given records (see `export_records`):
/// header, records, trailer.
pub fn export_gedcom_document(
    persons: &[Person],
    families: &[Family],
    sources: &[Source],
    repositories: &[Repository],
    notes: &[Note],
    media: &[Media],
    events: &[Event],
    policy: ExportPrivacyPolicy,
) -> (r: String)
    requires
        forall|i: int|
            0 <= i < persons@.len() && !persons@[i].private && !(policy is RedactLiving && persons@[i].living)
                ==> person_events_exportable(events@, #[trigger] persons@[i].id),
        forall|i: int| 0 <= i < families@.len() ==> family_events_exportable(events@, #[trigger] families@[i]),
    ensures
        r@ == render_lines(
            head_lines() + flatten_views(
                export_records(
                    persons@,
                    families@,
                    sources@,
                    repositories@,
                    notes@,
                    media@,
                    events@,
                    policy,
                ),
            ) + seq![trailer_line()],
        ),
{
    let mut nodes: Vec<GedcomNode> = Vec::new();
    let mut i: usize = 0;
    proof {
        assert(views_of(nodes@) =~= Seq::<NodeView>::empty());
        assert(persons@.subrange(0, 0) =~= Seq::<Person>::empty());
    }
    while i < persons.len()
        invariant
            i <= persons@.len(),
            views_of(nodes@) == person_records(persons@.subrange(0, i as int), events@, policy),
            forall|k: int|
                0 <= k < persons@.len() && !persons@[k].private && !(policy is RedactLiving && persons@[k].living)
                    ==> person_events_exportable(events@, #[trigger] persons@[k].id),
        decreases persons@.len() - i,
    {
        let p = &persons[i];
        let ghost pre = views_of(nodes@);
        proof {
            assert(persons@.subrange(0, i + 1).drop_last() =~= persons@.subrange(0, i as int));
            assert(persons@.subrange(0, i + 1).last() == persons@[i as int]);
        }
        let xref = xref_for(&p.original_xref, 'I', i);
        match person_to_indi_node_with_policy(p, events, xref.as_str(), policy) {
            Some(n) => {
                proof {
                    lemma_push_view(nodes@, n, pre);
                }
                nodes.push(n);
                proof {
                    assert(views_of(nodes@) =~= pre + person_record(*p, i as int, events@, policy));
                }
            },
            None => {
                proof {
                    assert(pre + person_record(*p, i as int, events@, policy) =~= pre);
                }
            },
        }
        i = i + 1;
    }
    proof {
        assert(persons@.subrange(0, i as int) =~= persons@);
    }
    let ghost base1 = views_of(nodes@);
    let mut j: usize = 0;
    while j < families.len()
        invariant
            j <= families@.len(),
            views_of(nodes@) == base1 + family_records(families@.subrange(0, j as int), events@),
            forall|k: int| 0 <= k < families@.len() ==> family_events_exportable(events@, #[trigger] families@[k]),
        decreases families@.len() - j,
    {
        proof {
            assert(families@.subrange(0, j + 1).drop_last() =~= families@.subrange(0, j as int));
            assert(families@.subrange(0, j + 1).last() == families@[j as int]);
            assert(family_events_exportable(events@, families@[j as int]));
        }
        let xref = xref_for(&families[j].original_xref, 'F', j);
        let n = family_to_fam_node(&families[j], events, xref.as_str());
        proof {
            lemma_push_view(nodes@, n, views_of(nodes@));
        }
        nodes.push(n);
        j = j + 1;
    }
    proof {
        assert(families@.subrange(0, j as int) =~= families@);
    }
    let ghost base2 = views_of(nodes@);
    let mut k: usize = 0;
    while k < sources.len()
        invariant
            k <= sources@.len(),
            views_of(nodes@) == base2 + source_records(sources@.subrange(0, k as int)),
        decreases sources@.len() - k,
    {
        proof {
            assert(sources@.subrange(0, k + 1).drop_last() =~= sources@.subrange(0, k as int));
            assert(sources@.subrange(0, k + 1).last() == sources@[k as int]);
        }
        let xref = xref_for(&sources[k].original_xref, 'S', k);
        let n = source_to_sour_node(&sources[k], xref.as_str());
        proof {
            lemma_push_view(nodes@, n, views_of(nodes@));
        }
        nodes.push(n);
        k = k + 1;
    }
    proof {
        assert(sources@.subrange(0, k as int) =~= sources@);
    }
    let ghost base3 = views_of(nodes@);
    let mut m: usize = 0;
    while m < repositories.len()
        invariant
            m <= repositories@.len(),
            views_of(nodes@) == base3 + repository_records(repositories@.subrange(0, m as int)),
        decreases repositories@.len() - m,
    {
        proof {
            assert(repositories@.subrange(0, m + 1).drop_last() =~= repositories@.subrange(0, m as int));
            assert(repositories@.subrange(0, m + 1).last() == repositories@[m as int]);
        }
        let xref = xref_for(&repositories[m].original_xref, 'R', m);
        let n = repository_to_repo_node(&repositories[m], xref.as_str());
        proof {
            lemma_push_view(nodes@, n, views_of(nodes@));
        }
        nodes.push(n);
        m = m + 1;
    }
    proof {
        assert(repositories@.subrange(0, m as int) =~= repositories@);
    }
    let ghost base4 = views_of(nodes@);
    let mut q: usize = 0;
    while q < notes.len()
        invariant
            q <= notes@.len(),
            views_of(nodes@) == base4 + note_records(notes@.subrange(0, q as int)),
        decreases notes@.len() - q,
    {
        proof {
            assert(notes@.subrange(0, q + 1).drop_last() =~= notes@.subrange(0, q as int));
            assert(notes@.subrange(0, q + 1).last() == notes@[q as int]);
        }
        let xref = xref_for(&notes[q].original_xref, 'N', q);
        let n = note_to_note_node(&notes[q], xref.as_str());
        proof {
            lemma_push_view(nodes@, n, views_of(nodes@));
        }
        nodes.push(n);
        q = q + 1;
    }
    proof {
        assert(notes@.subrange(0, q as int) =~= notes@);
    }
    let ghost base5 = views_of(nodes@);
    let mut t: usize = 0;
    while t < media.len()
        invariant
            t <= media@.len(),
            views_of(nodes@) == base5 + media_records(media@.subrange(0, t as int)),
        decreases media@.len() - t,
    {
        proof {
            assert(media@.subrange(0, t + 1).drop_last() =~= media@.subrange(0, t as int));
            assert(media@.subrange(0, t + 1).last() == media@[t as int]);
        }
        let xref = xref_for(&media[t].original_xref, 'O', t);
        let n = media_to_obje_node(&media[t], xref.as_str());
        proof {
            lemma_push_view(nodes@, n, views_of(nodes@));
        }
        nodes.push(n);
        t = t + 1;
    }
    proof {
        assert(media@.subrange(0, t as int) =~= media@);
        lemma_views_of(nodes@, 0);
        assert(views_of(nodes@) =~= export_records(
            persons@,
            families@,
            sources@,
            repositories@,
            notes@,
            media@,
            events@,
            policy,
        ));
    }
    render_gedcom_file(nodes.as_slice())
}

} // verus!
