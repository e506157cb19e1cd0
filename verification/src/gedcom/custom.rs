//! Vendor-specific ("_"-prefixed) GEDCOM subtrees: finding them, and keeping
//! them as plain text so that export can put them back.
use crate::gedcom::tokenizer::LineView;
use crate::gedcom::tree::{flatten, lemma_flatten_push, node_head, GedcomNode};
use crate::raw::{keys_unique, raw_entries, raw_insert, RawGedcom};
use crate::text::{decimal, new_string, push_char, push_decimal, push_str, str_starts_with_char, str_to_string};
use vstd::prelude::*;

verus! {

/// A tag of a vendor extension: it starts with an underscore.
pub open spec fn is_custom_tag(tag: Seq<char>) -> bool {
    tag.len() > 0 && tag[0] == '_'
}

pub fn custom_tag(tag: &str) -> (r: bool)
    ensures
        r == is_custom_tag(tag@),
{
    str_starts_with_char(tag, '_')
}

/// The raw-GEDCOM key under which a custom child is kept: "CUSTOM_" + tag.
pub open spec fn custom_key(tag: Seq<char>) -> Seq<char> {
    "CUSTOM_"@ + tag
}

pub fn custom_key_of(tag: &str) -> (r: String)
    ensures
        r@ == custom_key(tag@),
{
    let mut key = str_to_string("CUSTOM_");
    push_str(&mut key, tag);
    key
}

/// One line of a kept subtree: "level [xref] tag [value]" and a newline.
pub open spec fn head_text(h: LineView) -> Seq<char> {
    decimal(h.0 as nat) + (match h.1 {
        Some(x) => seq![' '] + x,
        None => Seq::empty(),
    }) + seq![' '] + h.2 + (match h.3 {
        Some(v) => seq![' '] + v,
        None => Seq::empty(),
    }) + seq!['\n']
}

/// The text of a run of lines.
pub open spec fn lines_text(lines: Seq<LineView>) -> Seq<char>
    decreases lines.len(),
{
    if lines.len() == 0 {
        Seq::empty()
    } else {
        lines_text(lines.drop_last()) + head_text(lines.last())
    }
}

/// The kept text of a subtree: the node's line, then its descendants' lines
/// in document order.
pub open spec fn subtree_text(n: GedcomNode) -> Seq<char> {
    lines_text(flatten(seq![n]))
}

pub proof fn lemma_lines_text_append(a: Seq<LineView>, b: Seq<LineView>)
    ensures
        lines_text(a + b) == lines_text(a) + lines_text(b),
    decreases b.len(),
{
    if b.len() == 0 {
        assert(a + b =~= a);
        assert(lines_text(a) + Seq::<char>::empty() =~= lines_text(a));
    } else {
        assert((a + b).drop_last() =~= a + b.drop_last());
        lemma_lines_text_append(a, b.drop_last());
        assert(lines_text(a) + lines_text(b.drop_last()) + head_text(b.last()) =~= lines_text(a)
            + lines_text(b));
    }
}

proof fn lemma_flatten_single(n: GedcomNode)
    ensures
        flatten(seq![n]) == seq![node_head(n)] + flatten(n.children@),
{
    lemma_flatten_push(Seq::<GedcomNode>::empty(), n);
    assert(Seq::<GedcomNode>::empty().push(n) =~= seq![n]);
    assert(flatten(Seq::<GedcomNode>::empty()) == Seq::<LineView>::empty());
    assert(Seq::<LineView>::empty() + seq![node_head(n)] + flatten(n.children@) =~= seq![node_head(n)]
        + flatten(n.children@));
}

fn write_head(out: &mut String, node: &GedcomNode)
    ensures
        final(out)@ == old(out)@ + head_text(node_head(*node)),
{
    push_decimal(out, node.level as u64);
    let ghost a = out@;
    match &node.xref {
        Some(x) => {
            push_char(out, ' ');
            push_str(out, x.as_str());
        },
        None => {},
    }
    let ghost b = out@;
    push_char(out, ' ');
    push_str(out, node.tag.as_str());
    let ghost c = out@;
    match &node.value {
        Some(v) => {
            push_char(out, ' ');
            push_str(out, v.as_str());
        },
        None => {},
    }
    push_char(out, '\n');
    proof {
        let h = node_head(*node);
        assert(a == old(out)@ + decimal(node.level as nat));
        assert(b == a + (match h.1 {
            Some(x) => seq![' '] + x,
            None => Seq::empty(),
        }));
        assert(c == b + seq![' '] + h.2);
        assert(out@ =~= old(out)@ + head_text(h));
    }
}

fn write_subtree(out: &mut String, node: &GedcomNode)
    ensures
        final(out)@ == old(out)@ + subtree_text(*node),
    decreases node,
{
    write_head(out, node);
    let ghost start = out@;
    let mut i: usize = 0;
    while i < node.children.len()
        invariant
            i <= node.children@.len(),
            out@ == start + lines_text(flatten(node.children@.subrange(0, i as int))),
        decreases node.children@.len() - i,
    {
        let ghost before = out@;
        write_subtree(out, &node.children[i]);
        proof {
            let c = node.children@[i as int];
            let pre = node.children@.subrange(0, i as int);
            assert(node.children@.subrange(0, i + 1) =~= pre.push(c));
            lemma_flatten_push(pre, c);
            lemma_flatten_single(c);
            assert(flatten(pre.push(c)) =~= flatten(pre) + flatten(seq![c]));
            lemma_lines_text_append(flatten(pre), flatten(seq![c]));
        }
        i = i + 1;
    }
    proof {
        assert(node.children@.subrange(0, i as int) =~= node.children@);
        lemma_flatten_single(*node);
        lemma_lines_text_append(seq![node_head(*node)], flatten(node.children@));
        assert(seq![node_head(*node)].drop_last() =~= Seq::<LineView>::empty());
        assert(lines_text(Seq::<LineView>::empty()) == Seq::<char>::empty());
        assert(lines_text(seq![node_head(*node)]) =~= head_text(node_head(*node)));
    }
}

/// The kept text of a subtree (see `subtree_text`).
pub fn serialize_subtree(node: &GedcomNode) -> (r: String)
    ensures
        r@ == subtree_text(*node),
{
    let mut out = new_string();
    write_subtree(&mut out, node);
    out
}

/// The vendor subtrees below a forest, in document order: a custom node is
/// taken whole, any other node is searched through.
pub open spec fn custom_subtrees(nodes: Seq<GedcomNode>) -> Seq<GedcomNode>
    decreases nodes,
{
    if nodes.len() == 0 {
        Seq::empty()
    } else {
        (if is_custom_tag(nodes[0].tag@) {
            seq![nodes[0]]
        } else {
            custom_subtrees(nodes[0].children@)
        }) + custom_subtrees(nodes.subrange(1, nodes.len() as int))
    }
}

/// What one node adds to the vendor subtrees of its siblings.
pub open spec fn custom_part(x: GedcomNode) -> Seq<GedcomNode> {
    if is_custom_tag(x.tag@) {
        seq![x]
    } else {
        custom_subtrees(x.children@)
    }
}

pub proof fn lemma_custom_subtrees_push(nodes: Seq<GedcomNode>, x: GedcomNode)
    ensures
        custom_subtrees(nodes.push(x)) == custom_subtrees(nodes) + custom_part(x),
    decreases nodes.len(),
{
    let p = nodes.push(x);
    if nodes.len() == 0 {
        assert(p.subrange(1, p.len() as int) =~= Seq::<GedcomNode>::empty());
        assert(p[0] == x);
        assert(custom_subtrees(Seq::<GedcomNode>::empty()) == Seq::<GedcomNode>::empty());
        assert(custom_subtrees(p) =~= custom_subtrees(nodes) + custom_part(x));
    } else {
        let rest = nodes.subrange(1, nodes.len() as int);
        assert(p.subrange(1, p.len() as int) =~= rest.push(x));
        assert(p[0] == nodes[0]);
        lemma_custom_subtrees_push(rest, x);
        assert(custom_subtrees(p) =~= custom_subtrees(nodes) + custom_part(x));
    }
}

pub proof fn lemma_custom_subtrees_len(nodes: Seq<GedcomNode>)
    ensures
        custom_subtrees(nodes).len() <= flatten(nodes).len(),
    decreases nodes,
{
    if nodes.len() > 0 {
        lemma_custom_subtrees_len(nodes[0].children@);
        lemma_custom_subtrees_len(nodes.subrange(1, nodes.len() as int));
    }
}

pub proof fn lemma_custom_prefix_len(nodes: Seq<GedcomNode>, i: int)
    requires
        0 <= i <= nodes.len(),
    ensures
        custom_subtrees(nodes.subrange(0, i)).len() <= custom_subtrees(nodes).len(),
    decreases nodes.len() - i,
{
    if i < nodes.len() {
        lemma_custom_prefix_len(nodes, i + 1);
        assert(nodes.subrange(0, i + 1) =~= nodes.subrange(0, i).push(nodes[i]));
        lemma_custom_subtrees_push(nodes.subrange(0, i), nodes[i]);
    } else {
        assert(nodes.subrange(0, i) =~= nodes);
    }
}

/// The key under which the `idx`-th vendor subtree of a record is kept:
/// "CUSTOM_" + tag + "_" + idx.
pub open spec fn numbered_custom_key(tag: Seq<char>, idx: nat) -> Seq<char> {
    "CUSTOM_"@ + tag + seq!['_'] + decimal(idx)
}

/// The entries after keeping each subtree of `subs` under its numbered key,
/// numbering from `start`.
pub open spec fn insert_customs(
    entries: Seq<(Seq<char>, Seq<char>)>,
    subs: Seq<GedcomNode>,
    start: nat,
) -> Seq<(Seq<char>, Seq<char>)>
    decreases subs.len(),
{
    if subs.len() == 0 {
        entries
    } else {
        raw_insert(
            insert_customs(entries, subs.drop_last(), start),
            numbered_custom_key(subs.last().tag@, (start + subs.len() - 1) as nat),
            subtree_text(subs.last()),
        )
    }
}

pub proof fn lemma_insert_customs_append(
    entries: Seq<(Seq<char>, Seq<char>)>,
    a: Seq<GedcomNode>,
    b: Seq<GedcomNode>,
    start: nat,
)
    ensures
        insert_customs(entries, a + b, start) == insert_customs(
            insert_customs(entries, a, start),
            b,
            start + a.len(),
        ),
    decreases b.len(),
{
    if b.len() == 0 {
        assert(a + b =~= a);
    } else {
        assert((a + b).drop_last() =~= a + b.drop_last());
        lemma_insert_customs_append(entries, a, b.drop_last(), start);
    }
}

/// Keeps the vendor subtrees below `node`, numbered from `*count`.
pub(crate) fn gather_customs(node: &GedcomNode, raw: &mut RawGedcom, count: &mut usize)
    requires
        keys_unique(raw_entries(*old(raw))),
        *old(count) + custom_subtrees(node.children@).len() <= usize::MAX,
    ensures
        keys_unique(raw_entries(*final(raw))),
        raw_entries(*final(raw)) == insert_customs(
            raw_entries(*old(raw)),
            custom_subtrees(node.children@),
            *old(count) as nat,
        ),
        *final(count) == *old(count) + custom_subtrees(node.children@).len(),
    decreases node,
{
    let ghost e0 = raw_entries(*raw);
    let ghost c0 = *count as nat;
    let mut i: usize = 0;
    proof {
        assert(node.children@.subrange(0, 0) =~= Seq::<GedcomNode>::empty());
        assert(custom_subtrees(Seq::<GedcomNode>::empty()) == Seq::<GedcomNode>::empty());
    }
    while i < node.children.len()
        invariant
            i <= node.children@.len(),
            keys_unique(raw_entries(*raw)),
            c0 + custom_subtrees(node.children@).len() <= usize::MAX,
            raw_entries(*raw) == insert_customs(
                e0,
                custom_subtrees(node.children@.subrange(0, i as int)),
                c0,
            ),
            *count == c0 + custom_subtrees(node.children@.subrange(0, i as int)).len(),
        decreases node.children@.len() - i,
    {
        let child = &node.children[i];
        let ghost pre = node.children@.subrange(0, i as int);
        proof {
            assert(node.children@.subrange(0, i + 1) =~= pre.push(*child));
            lemma_custom_subtrees_push(pre, *child);
            lemma_custom_prefix_len(node.children@, i + 1);
            lemma_insert_customs_append(e0, custom_subtrees(pre), custom_part(*child), c0);
        }
        if custom_tag(child.tag.as_str()) {
            let mut key = custom_key_of(child.tag.as_str());
            push_char(&mut key, '_');
            push_decimal(&mut key, *count as u64);
            let text = serialize_subtree(child);
            proof {
                assert(key@ =~= numbered_custom_key(child.tag@, *count as nat));
                let one = seq![*child];
                assert(one.drop_last() =~= Seq::<GedcomNode>::empty());
                assert(insert_customs(raw_entries(*raw), Seq::<GedcomNode>::empty(), *count as nat)
                    == raw_entries(*raw));
            }
            raw.insert(key, text);
            *count = *count + 1;
        } else {
            gather_customs(child, raw, count);
        }
        i = i + 1;
    }
    proof {
        assert(node.children@.subrange(0, i as int) =~= node.children@);
    }
}

/// Keeps every vendor subtree below `node` in `raw`, numbered from 0 in
/// document order.
pub fn keep_custom_subtrees(node: &GedcomNode, raw: &mut RawGedcom)
    requires
        keys_unique(raw_entries(*old(raw))),
        flatten(node.children@).len() <= usize::MAX,
    ensures
        keys_unique(raw_entries(*final(raw))),
        raw_entries(*final(raw)) == insert_customs(
            raw_entries(*old(raw)),
            custom_subtrees(node.children@),
            0,
        ),
{
    let mut count: usize = 0;
    proof {
        lemma_custom_subtrees_len(node.children@);
    }
    gather_customs(node, raw, &mut count);
}

} // verus!
