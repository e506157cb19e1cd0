//! Logical lines to a forest of GEDCOM nodes.
use crate::gedcom::tokenizer::{lines_view, GedcomLine, LineView};
use crate::text::{decimal, new_string, push_decimal, push_str};
use vstd::prelude::*;

verus! {

/// A GEDCOM record or sub-record with its nested children.
#[derive(Debug)]
pub struct GedcomNode {
    pub level: u8,
    pub xref: Option<String>,
    pub tag: String,
    pub value: Option<String>,
    pub children: Vec<GedcomNode>,
}

/// A copy of a node with all its descendants.
pub fn clone_node(n: &GedcomNode) -> (r: GedcomNode)
    ensures
        node_head(r) == node_head(*n),
        flatten(r.children@) == flatten(n.children@),
        levels_ok(r.children@, n.level + 1) == levels_ok(n.children@, n.level + 1),
    decreases n,
{
    let mut children: Vec<GedcomNode> = Vec::new();
    let mut i: usize = 0;
    while i < n.children.len()
        invariant
            i <= n.children@.len(),
            flatten(children@) == flatten(n.children@.subrange(0, i as int)),
            levels_ok(children@, n.level + 1) == levels_ok(n.children@.subrange(0, i as int), n.level + 1),
        decreases n.children@.len() - i,
    {
        let c = clone_node(&n.children[i]);
        proof {
            lemma_flatten_push(children@, c);
            lemma_flatten_push(n.children@.subrange(0, i as int), n.children@[i as int]);
            assert(n.children@.subrange(0, i + 1) =~= n.children@.subrange(0, i as int).push(n.children@[i as int]));
        }
        children.push(c);
        i = i + 1;
    }
    proof {
        assert(n.children@.subrange(0, i as int) =~= n.children@);
    }
    GedcomNode {
        level: n.level,
        xref: n.xref.clone(),
        tag: n.tag.clone(),
        value: n.value.clone(),
        children,
    }
}

impl Clone for GedcomNode {
    fn clone(&self) -> Self {
        clone_node(self)
    }
}

#[derive(Debug, Clone, PartialEq, Eq)]
pub struct GedcomTreeError {
    pub line_index: usize,
    pub message: String,
}

/// The line that a node stands for: `(level, xref, tag, value)`.
pub open spec fn node_head(n: GedcomNode) -> LineView {
    (n.level, n.xref.deep_view(), n.tag@, n.value.deep_view())
}

/// Lines of a forest in document order (each node, then its children).
pub open spec fn flatten(nodes: Seq<GedcomNode>) -> Seq<LineView>
    decreases nodes,
{
    if nodes.len() == 0 {
        Seq::empty()
    } else {
        seq![node_head(nodes[0])] + flatten(nodes[0].children@) + flatten(
            nodes.subrange(1, nodes.len() as int),
        )
    }
}

/// Every node of the forest sits at `level`, and its children one level deeper.
pub open spec fn levels_ok(nodes: Seq<GedcomNode>, level: int) -> bool
    decreases nodes,
{
    if nodes.len() == 0 {
        true
    } else {
        &&& nodes[0].level == level
        &&& levels_ok(nodes[0].children@, level + 1)
        &&& levels_ok(nodes.subrange(1, nodes.len() as int), level)
    }
}

/// Whether line `i` breaks the nesting: the first line is not at level 0,
/// or a line sits more than one level below the line before it.
pub open spec fn bad_line(lines: Seq<LineView>, i: int) -> bool {
    if i == 0 {
        lines[0].0 != 0
    } else {
        lines[i].0 > lines[i - 1].0 + 1
    }
}

/// Whether lines form a well-nested GEDCOM document.
pub open spec fn well_nested(lines: Seq<LineView>) -> bool {
    forall|i: int| 0 <= i < lines.len() ==> !bad_line(lines, i)
}

/// The error for the first badly nested line `i`.
pub open spec fn nesting_message(lines: Seq<LineView>, i: int) -> Seq<char> {
    if i == 0 {
        "first node must be level 0"@
    } else {
        "invalid level jump from "@ + decimal(lines[i - 1].0 as nat) + " to "@ + decimal(
            lines[i].0 as nat,
        )
    }
}

pub proof fn lemma_flatten_push(nodes: Seq<GedcomNode>, x: GedcomNode)
    ensures
        flatten(nodes.push(x)) == flatten(nodes) + seq![node_head(x)] + flatten(x.children@),
        forall|l: int| #[trigger] levels_ok(nodes.push(x), l) == (levels_ok(nodes, l) && x.level == l
            && levels_ok(x.children@, l + 1)),
    decreases nodes.len(),
{
    let p = nodes.push(x);
    if nodes.len() == 0 {
        assert(p.subrange(1, p.len() as int) =~= Seq::<GedcomNode>::empty());
        assert(p[0] == x);
        assert(flatten(Seq::<GedcomNode>::empty()) == Seq::<LineView>::empty());
        assert(flatten(p) =~= flatten(nodes) + seq![node_head(x)] + flatten(x.children@));
        assert forall|l: int| #[trigger] levels_ok(nodes.push(x), l) == (levels_ok(nodes, l) && x.level == l
            && levels_ok(x.children@, l + 1)) by {
            assert(levels_ok(Seq::<GedcomNode>::empty(), l));
            assert(levels_ok(nodes, l));
        }
    } else {
        let rest = nodes.subrange(1, nodes.len() as int);
        assert(p.subrange(1, p.len() as int) =~= rest.push(x));
        assert(p[0] == nodes[0]);
        lemma_flatten_push(rest, x);
        assert(flatten(p) =~= flatten(nodes) + seq![node_head(x)] + flatten(x.children@));
        assert forall|l: int| #[trigger] levels_ok(nodes.push(x), l) == (levels_ok(nodes, l) && x.level == l
            && levels_ok(x.children@, l + 1)) by {
            assert(levels_ok(rest.push(x), l) == (levels_ok(rest, l) && x.level == l && levels_ok(x.children@, l + 1)));
        }
    }
}

fn node_of_line(line: &GedcomLine) -> (r: GedcomNode)
    ensures
        node_head(r) == line@,
        r.children@.len() == 0,
{
    GedcomNode {
        level: line.level,
        xref: line.xref.clone(),
        tag: line.tag.clone(),
        value: line.value.clone(),
        children: Vec::new(),
    }
}

/// Builds the run of sibling nodes at `level` that starts at `pos`, with
/// their descendants; returns them and the index of the first line not taken.
fn build_level(lines: &Vec<GedcomLine>, pos: usize, level: u8) -> (r: (Vec<GedcomNode>, usize))
    requires
        pos <= lines@.len(),
        well_nested(lines_view(lines@)),
        pos > 0,
        pos < lines@.len() ==> lines@[pos as int].level <= level,
    ensures
        pos <= r.1 <= lines@.len(),
        r.1 < lines@.len() ==> lines@[r.1 as int].level < level,
        flatten(r.0@) == lines_view(lines@).subrange(pos as int, r.1 as int),
        levels_ok(r.0@, level as int),
    decreases lines@.len() - pos, 0int,
{
    let ghost lv = lines_view(lines@);
    let mut nodes: Vec<GedcomNode> = Vec::new();
    let mut p = pos;
    proof {
        assert(lv.subrange(pos as int, pos as int) =~= Seq::<LineView>::empty());
    }
    while p < lines.len() && lines[p].level == level
        invariant
            pos <= p <= lines@.len(),
            pos > 0,
            lv == lines_view(lines@),
            well_nested(lv),
            p < lines@.len() ==> lines@[p as int].level <= level,
            flatten(nodes@) == lv.subrange(pos as int, p as int),
            levels_ok(nodes@, level as int),
        decreases lines@.len() - p,
    {
        let mut node = node_of_line(&lines[p]);
        let q = p + 1;
        proof {
            if q < lines@.len() {
                assert(!bad_line(lv, q as int));
            }
        }
        let (children, next) = if level < 255 {
            build_level(lines, q, level + 1)
        } else {
            proof {
                assert(lv.subrange(q as int, q as int) =~= Seq::<LineView>::empty());
            }
            (Vec::new(), q)
        };
        node.children = children;
        proof {
            lemma_flatten_push(nodes@, node);
            assert(lv[p as int] == lines@[p as int]@);
            assert(lv.subrange(pos as int, next as int) =~= lv.subrange(pos as int, p as int)
                + seq![lv[p as int]] + lv.subrange(q as int, next as int));
        }
        nodes.push(node);
        p = next;
    }
    (nodes, p)
}

fn tree_error(line_index: usize, message: String) -> (r: GedcomTreeError)
    ensures
        r.line_index == line_index,
        r.message@ == message@,
{
    GedcomTreeError { line_index, message }
}

/// Build hierarchical GEDCOM node trees from flat, levelled GEDCOM lines.
///
/// Returns root-level nodes (level 0). Each node contains its recursively nested
/// children according to GEDCOM level semantics: on success the forest lists
/// exactly the given lines in order, roots at level 0 and every child one
/// level below its parent. The first badly nested line is reported.
pub fn build_gedcom_tree(lines: &Vec<GedcomLine>) -> (r: Result<Vec<GedcomNode>, GedcomTreeError>)
    ensures
        match r {
            Ok(roots) => {
                &&& well_nested(lines_view(lines@))
                &&& flatten(roots@) == lines_view(lines@)
                &&& levels_ok(roots@, 0)
            },
            Err(e) => {
                &&& e.line_index < lines@.len()
                &&& bad_line(lines_view(lines@), e.line_index as int)
                &&& forall|j: int| 0 <= j < e.line_index ==> !bad_line(lines_view(lines@), j)
                &&& e.message@ == nesting_message(lines_view(lines@), e.line_index as int)
            },
        },
{
    let ghost lv = lines_view(lines@);
    let n = lines.len();
    let mut i: usize = 0;
    while i < n
        invariant
            n == lines@.len(),
            lv == lines_view(lines@),
            i <= n,
            forall|j: int| 0 <= j < i ==> !bad_line(lv, j),
        decreases n - i,
    {
        if i == 0 {
            if lines[0].level != 0 {
                let mut msg = new_string();
                push_str(&mut msg, "first node must be level 0");
                proof {
                    assert(Seq::<char>::empty() + "first node must be level 0"@ =~= "first node must be level 0"@);
                }
                return Err(tree_error(0, msg));
            }
        } else if lines[i].level as u16 > lines[i - 1].level as u16 + 1 {
            let mut msg = new_string();
            push_str(&mut msg, "invalid level jump from ");
            push_decimal(&mut msg, lines[i - 1].level as u64);
            push_str(&mut msg, " to ");
            push_decimal(&mut msg, lines[i].level as u64);
            proof {
                assert(msg@ =~= nesting_message(lv, i as int));
            }
            return Err(tree_error(i, msg));
        }
        i = i + 1;
    }
    if n == 0 {
        proof {
            assert(flatten(Seq::<GedcomNode>::empty()) =~= lv);
        }
        return Ok(Vec::new());
    }
    let mut roots: Vec<GedcomNode> = Vec::new();
    let first = node_of_line(&lines[0]);
    let mut node = first;
    proof {
        assert(!bad_line(lv, 0));
        assert(lv[0].0 == lines@[0].level);
        if 1 < n {
            assert(!bad_line(lv, 1));
            assert(lv[1].0 == lines@[1].level);
        }
        assert(levels_ok(roots@, 0));
    }
    let (children, next) = build_level(lines, 1, 1);
    node.children = children;
    proof {
        lemma_flatten_push(roots@, node);
        assert(lv.subrange(0, next as int) =~= seq![lv[0]] + lv.subrange(1, next as int));
    }
    roots.push(node);
    let mut p = next;
    while p < n
        invariant
            n == lines@.len(),
            lv == lines_view(lines@),
            well_nested(lv),
            1 <= p <= n,
            p < n ==> lines@[p as int].level == 0,
            flatten(roots@) == lv.subrange(0, p as int),
            levels_ok(roots@, 0),
        decreases n - p,
    {
        let mut node = node_of_line(&lines[p]);
        let q = p + 1;
        proof {
            if q < n {
                assert(!bad_line(lv, q as int));
                assert(lv[q as int].0 == lines@[q as int].level);
                assert(lv[p as int].0 == lines@[p as int].level);
            }
        }
        let (children, next) = build_level(lines, q, 1);
        node.children = children;
        proof {
            lemma_flatten_push(roots@, node);
            assert(lv[p as int] == lines@[p as int]@);
            assert(lv.subrange(0, next as int) =~= lv.subrange(0, p as int) + seq![lv[p as int]]
                + lv.subrange(q as int, next as int));
        }
        roots.push(node);
        p = next;
    }
    proof {
        assert(lv.subrange(0, n as int) =~= lv);
    }
    Ok(roots)
}

/// The mathematical form of a node: its line and the forms of its children.
pub struct NodeView {
    pub level: u8,
    pub xref: Option<Seq<char>>,
    pub tag: Seq<char>,
    pub value: Option<Seq<char>>,
    pub children: Seq<NodeView>,
}

/// The line of a node form.
pub open spec fn view_head(v: NodeView) -> LineView {
    (v.level, v.xref, v.tag, v.value)
}

/// The forms of a forest.
pub open spec fn views_of(nodes: Seq<GedcomNode>) -> Seq<NodeView>
    decreases nodes,
{
    if nodes.len() == 0 {
        Seq::empty()
    } else {
        seq![
            NodeView {
                level: nodes[0].level,
                xref: nodes[0].xref.deep_view(),
                tag: nodes[0].tag@,
                value: nodes[0].value.deep_view(),
                children: views_of(nodes[0].children@),
            },
        ] + views_of(nodes.subrange(1, nodes.len() as int))
    }
}

/// The form of one node.
pub open spec fn view_of(n: GedcomNode) -> NodeView {
    NodeView {
        level: n.level,
        xref: n.xref.deep_view(),
        tag: n.tag@,
        value: n.value.deep_view(),
        children: views_of(n.children@),
    }
}

/// Lines of a forest of node forms, in document order.
pub open spec fn flatten_views(vs: Seq<NodeView>) -> Seq<LineView>
    decreases vs,
{
    if vs.len() == 0 {
        Seq::empty()
    } else {
        seq![view_head(vs[0])] + flatten_views(vs[0].children) + flatten_views(
            vs.subrange(1, vs.len() as int),
        )
    }
}

/// Every form of the forest sits at `level`, its children one level deeper.
pub open spec fn levels_ok_views(vs: Seq<NodeView>, level: int) -> bool
    decreases vs,
{
    if vs.len() == 0 {
        true
    } else {
        &&& vs[0].level == level
        &&& levels_ok_views(vs[0].children, level + 1)
        &&& levels_ok_views(vs.subrange(1, vs.len() as int), level)
    }
}

pub proof fn lemma_views_of(nodes: Seq<GedcomNode>, level: int)
    ensures
        flatten_views(views_of(nodes)) == flatten(nodes),
        levels_ok_views(views_of(nodes), level) == levels_ok(nodes, level),
        views_of(nodes).len() == nodes.len(),
    decreases nodes,
{
    if nodes.len() > 0 {
        let rest = nodes.subrange(1, nodes.len() as int);
        lemma_views_of(nodes[0].children@, level + 1);
        lemma_views_of(rest, level);
        let v = views_of(nodes);
        assert(v[0].children == views_of(nodes[0].children@));
        assert(v.subrange(1, v.len() as int) =~= views_of(rest));
    }
}

pub proof fn lemma_views_of_push(nodes: Seq<GedcomNode>, x: GedcomNode)
    ensures
        views_of(nodes.push(x)) == views_of(nodes).push(view_of(x)),
    decreases nodes.len(),
{
    let p = nodes.push(x);
    if nodes.len() == 0 {
        assert(p.subrange(1, p.len() as int) =~= Seq::<GedcomNode>::empty());
        assert(p[0] == x);
        assert(views_of(Seq::<GedcomNode>::empty()) == Seq::<NodeView>::empty());
        assert(views_of(p) =~= views_of(nodes).push(view_of(x)));
    } else {
        let rest = nodes.subrange(1, nodes.len() as int);
        assert(p.subrange(1, p.len() as int) =~= rest.push(x));
        assert(p[0] == nodes[0]);
        lemma_views_of_push(rest, x);
        assert(views_of(p) =~= views_of(nodes).push(view_of(x)));
    }
}

/// All lines of a forest at `level` sit at `level` or deeper; its first line
/// sits at `level`.
pub proof fn lemma_levels_bound(vs: Seq<NodeView>, level: int)
    requires
        levels_ok_views(vs, level),
    ensures
        forall|i: int| 0 <= i < flatten_views(vs).len() ==> flatten_views(vs)[i].0 >= level,
        vs.len() > 0 ==> flatten_views(vs).len() > 0 && flatten_views(vs)[0].0 == level,
        vs.len() == 0 ==> flatten_views(vs).len() == 0,
    decreases vs,
{
    if vs.len() > 0 {
        let rest = vs.subrange(1, vs.len() as int);
        lemma_levels_bound(vs[0].children, level + 1);
        lemma_levels_bound(rest, level);
        let f = flatten_views(vs);
        let c = flatten_views(vs[0].children);
        let r = flatten_views(rest);
        assert(f =~= seq![view_head(vs[0])] + c + r);
        assert forall|i: int| 0 <= i < f.len() implies f[i].0 >= level by {
            if i == 0 {
            } else if i < 1 + c.len() {
                assert(f[i] == c[i - 1]);
            } else {
                assert(f[i] == r[i - 1 - c.len()]);
            }
        }
    }
}

/// A forest is determined by its lines and its level.
pub proof fn lemma_forest_unique(a: Seq<NodeView>, b: Seq<NodeView>, level: int)
    requires
        flatten_views(a) == flatten_views(b),
        levels_ok_views(a, level),
        levels_ok_views(b, level),
    ensures
        a == b,
    decreases flatten_views(a).len(),
{
    lemma_levels_bound(a, level);
    lemma_levels_bound(b, level);
    if a.len() == 0 || b.len() == 0 {
        assert(a.len() == 0 && b.len() == 0);
        assert(a =~= b);
    } else {
        let lines = flatten_views(a);
        let ca = flatten_views(a[0].children);
        let cb = flatten_views(b[0].children);
        let ra = a.subrange(1, a.len() as int);
        let rb = b.subrange(1, b.len() as int);
        assert(lines =~= seq![view_head(a[0])] + ca + flatten_views(ra));
        assert(lines =~= seq![view_head(b[0])] + cb + flatten_views(rb));
        lemma_levels_bound(a[0].children, level + 1);
        lemma_levels_bound(b[0].children, level + 1);
        lemma_levels_bound(ra, level);
        lemma_levels_bound(rb, level);
        // the first root's block ends where a line at `level` starts, or at the end
        assert(ca.len() == cb.len()) by {
            if ca.len() < cb.len() {
                // line 1 + ca.len() starts the rest of `a` (at `level`) but is a child line of `b`
                assert(lines[1 + ca.len() as int] == flatten_views(ra)[0]);
                assert(lines[1 + ca.len() as int] == cb[ca.len() as int]);
            } else if cb.len() < ca.len() {
                assert(lines[1 + cb.len() as int] == flatten_views(rb)[0]);
                assert(lines[1 + cb.len() as int] == ca[cb.len() as int]);
            }
        }
        assert(ca =~= lines.subrange(1, 1 + ca.len() as int));
        assert(cb =~= lines.subrange(1, 1 + cb.len() as int));
        lemma_forest_unique(a[0].children, b[0].children, level + 1);
        assert(flatten_views(ra) =~= lines.subrange(1 + ca.len() as int, lines.len() as int));
        assert(flatten_views(rb) =~= lines.subrange(1 + cb.len() as int, lines.len() as int));
        lemma_forest_unique(ra, rb, level);
        assert(a[0] == b[0]);
        assert(a =~= b) by {
            assert forall|i: int| 0 <= i < a.len() implies a[i] == b[i] by {
                if i > 0 {
                    assert(a[i] == ra[i - 1]);
                    assert(b[i] == rb[i - 1]);
                }
            }
        }
    }
}

pub proof fn lemma_views_of_map(nodes: Seq<GedcomNode>)
    ensures
        views_of(nodes) == nodes.map_values(|n: GedcomNode| view_of(n)),
    decreases nodes.len(),
{
    if nodes.len() > 0 {
        let rest = nodes.subrange(1, nodes.len() as int);
        lemma_views_of_map(rest);
        assert(views_of(nodes) =~= nodes.map_values(|n: GedcomNode| view_of(n)));
    } else {
        assert(views_of(nodes) =~= nodes.map_values(|n: GedcomNode| view_of(n)));
    }
}


/// In the lines of a well-levelled forest, no line sits more than one level
/// below the line before it.
pub proof fn lemma_flatten_steps(vs: Seq<NodeView>, level: int)
    requires
        levels_ok_views(vs, level),
    ensures
        forall|i: int|
            0 < i < flatten_views(vs).len() ==> #[trigger] flatten_views(vs)[i].0 <= flatten_views(vs)[i - 1].0 + 1,
    decreases flatten_views(vs).len(),
{
    lemma_levels_bound(vs, level);
    if vs.len() > 0 {
        let f = flatten_views(vs);
        let c = flatten_views(vs[0].children);
        let rest = vs.subrange(1, vs.len() as int);
        let r = flatten_views(rest);
        assert(f =~= seq![view_head(vs[0])] + c + r);
        lemma_levels_bound(vs[0].children, level + 1);
        lemma_levels_bound(rest, level);
        lemma_flatten_steps(vs[0].children, level + 1);
        lemma_flatten_steps(rest, level);
        assert forall|i: int| 0 < i < f.len() implies #[trigger] f[i].0 <= f[i - 1].0 + 1 by {
            if i < 1 + c.len() {
                assert(f[i] == c[i - 1]);
                if i > 1 {
                    assert(f[i - 1] == c[i - 2]);
                    assert(c[i - 1].0 <= c[i - 2].0 + 1);
                }
            } else if i == 1 + c.len() {
                assert(f[i] == r[0]);
                if c.len() > 0 {
                    assert(f[i - 1] == c[c.len() - 1]);
                }
            } else {
                assert(f[i] == r[i - 1 - c.len()]);
                assert(f[i - 1] == r[i - 2 - c.len()]);
                assert(r[i - 1 - c.len()].0 <= r[i - 2 - c.len()].0 + 1);
            }
        }
    }
}

/// The lines of a forest whose roots sit at level 0 and whose children sit
/// one level below their parents are well nested (so a tree can be built
/// from them), and that forest is the only one with those lines: building a
/// tree from a forest's lines gives the forest back.
pub proof fn law_forest_lines_round_trip(roots: Seq<GedcomNode>, built: Seq<GedcomNode>)
    requires
        levels_ok(roots, 0),
        levels_ok(built, 0),
        flatten(built) == flatten(roots),
    ensures
        well_nested(flatten(roots)),
        views_of(built) == views_of(roots),
{
    lemma_views_of(roots, 0);
    lemma_views_of(built, 0);
    let vs = views_of(roots);
    lemma_levels_bound(vs, 0);
    lemma_flatten_steps(vs, 0);
    let f = flatten(roots);
    assert forall|i: int| 0 <= i < f.len() implies !bad_line(f, i) by {
        if i > 0 {
            assert(f[i].0 <= f[i - 1].0 + 1);
        }
    }
    lemma_forest_unique(views_of(built), vs, 0);
}

} // verus!
