//! Kinship relationship calculator.
//!
//! Given a shortest path between two persons in the family tree, compute the
//! canonical kinship name (e.g., "2nd cousin 1 removed", "uncle", "sibling").
use crate::text::{decimal, new_string, push_decimal, push_str, str_eq, str_to_string};
use crate::types::EntityId;
use vstd::prelude::*;

verus! {

/// Result of kinship calculation between two persons.
#[derive(Debug, Clone, PartialEq, Eq)]
pub struct KinshipResult {
    /// Canonical kinship name (e.g., "parent", "2nd cousin 1 removed")
    pub kinship_name: String,
    /// The labels along the path (e.g., ["parent", "sibling"])
    pub path_labels: Vec<String>,
    /// The most recent common ancestor, if found
    pub common_ancestor_id: Option<EntityId>,
}

/// A step in a shortest path between two persons.
#[derive(Debug, Clone, PartialEq, Eq)]
pub struct PathStep {
    /// Direction of relationship ("up", "down", "sibling"; anything else is lateral)
    pub direction: String,
    /// Label of relationship (e.g., "parent", "child", "spouse")
    pub label: String,
    /// The person at this step
    pub person_id: EntityId,
}

/// Generations counted along a path: steps up, steps down, the last person
/// reached going up, and whether the walk has turned downward.
pub struct Trace {
    pub up: nat,
    pub down: nat,
    pub mrca: Option<EntityId>,
    pub descending: bool,
}

/// One step of the walk. Going up after having turned down restarts the
/// downward count; a sibling step counts as the turn (up one, then down).
pub open spec fn trace_step(t: Trace, step: PathStep) -> Trace {
    if step.direction@ == "up"@ {
        Trace {
            up: t.up + 1,
            down: if t.descending { 0 } else { t.down },
            mrca: Some(step.person_id),
            descending: false,
        }
    } else if step.direction@ == "down"@ {
        Trace { up: t.up, down: t.down + 1, mrca: t.mrca, descending: true }
    } else if step.direction@ == "sibling"@ {
        if t.descending {
            Trace { up: t.up, down: t.down + 1, mrca: t.mrca, descending: true }
        } else {
            Trace { up: t.up + 1, down: t.down, mrca: Some(step.person_id), descending: true }
        }
    } else {
        t
    }
}

/// The walk over all steps of a path.
pub open spec fn trace_path(path: Seq<PathStep>) -> Trace
    decreases path.len(),
{
    if path.len() == 0 {
        Trace { up: 0, down: 0, mrca: None, descending: false }
    } else {
        trace_step(trace_path(path.drop_last()), path.last())
    }
}

/// "great-" repeated `n` times.
pub open spec fn greats(n: nat) -> Seq<char>
    decreases n,
{
    if n == 0 {
        Seq::empty()
    } else {
        greats((n - 1) as nat) + "great-"@
    }
}

/// "1st cousin", "2nd cousin", "3rd cousin", then "<n>th cousin".
pub open spec fn cousin_degree_name(degree: nat) -> Seq<char> {
    if degree == 0 {
        "1st cousin"@
    } else if degree == 1 {
        "2nd cousin"@
    } else if degree == 2 {
        "3rd cousin"@
    } else {
        decimal(degree + 1) + "th cousin"@
    }
}

/// The canonical kinship name for a walk of `up` generations up and `down`
/// generations down.
pub open spec fn kinship_name_for(up: nat, down: nat) -> Seq<char> {
    if up == 0 && down == 1 {
        "child"@
    } else if up == 1 && down == 0 {
        "parent"@
    } else if up == 0 && down == 2 {
        "grandchild"@
    } else if up == 2 && down == 0 {
        "grandparent"@
    } else if up == 0 && down >= 3 {
        greats((down - 2) as nat) + "grandchild"@
    } else if up >= 3 && down == 0 {
        greats((up - 2) as nat) + "grandparent"@
    } else if up == 1 && down == 1 {
        "sibling"@
    } else if up == 2 && down == 1 {
        "uncle"@
    } else if up == 2 && down == 2 {
        "cousin"@
    } else if up == 1 && down == 2 {
        "niece_or_nephew"@
    } else if up == 0 && down == 0 {
        "same_person"@
    } else {
        let low: nat = if up < down { up } else { down };
        let degree: nat = if low >= 1 { (low - 1) as nat } else { 0 };
        let removed: nat = if up >= down { (up - down) as nat } else { (down - up) as nat };
        let side = if up < down { "niece_or_nephew"@ } else { "aunt_or_uncle"@ };
        if degree == 0 {
            if removed == 1 {
                side
            } else if removed > 1 {
                greats((removed - 1) as nat) + side
            } else {
                "relative"@
            }
        } else if removed == 0 {
            cousin_degree_name(degree)
        } else {
            cousin_degree_name(degree) + " "@ + decimal(removed) + " removed"@
        }
    }
}

/// Lineal names mirror each other: going `n` generations down names the
/// same degree as going `n` generations up, with "child" where the other
/// has "parent" (child and parent, grandchild and grandparent,
/// great-grandchild and great-grandparent, ...).
pub proof fn law_lineal_names_mirror(n: nat)
    requires
        n >= 1,
    ensures
        exists|prefix: Seq<char>|
            kinship_name_for(n, 0) == prefix + "parent"@ && kinship_name_for(0, n) == prefix + "child"@,
{
    reveal_strlit("parent");
    reveal_strlit("child");
    reveal_strlit("grandparent");
    reveal_strlit("grandchild");
    reveal_strlit("grand");
    if n == 1 {
        let e = Seq::<char>::empty();
        assert(e + "parent"@ =~= "parent"@);
        assert(e + "child"@ =~= "child"@);
        assert(kinship_name_for(n, 0) == e + "parent"@ && kinship_name_for(0, n) == e + "child"@);
    } else if n == 2 {
        assert("grand"@ + "parent"@ =~= "grandparent"@);
        assert("grand"@ + "child"@ =~= "grandchild"@);
        assert(kinship_name_for(n, 0) == "grand"@ + "parent"@ && kinship_name_for(0, n) == "grand"@ + "child"@);
    } else {
        let g = greats((n - 2) as nat) + "grand"@;
        assert(greats((n - 2) as nat) + "grandparent"@ =~= g + "parent"@);
        assert(greats((n - 2) as nat) + "grandchild"@ =~= g + "child"@);
        assert(kinship_name_for(n, 0) == g + "parent"@ && kinship_name_for(0, n) == g + "child"@);
    }
}

/// Collateral names one generation apart mirror each other: with `n` (at
/// least 3) generations up and one down the name is an aunt or uncle of the
/// same degree as the niece or nephew named by one up and `n` down
/// ("great-aunt_or_uncle" and "great-niece_or_nephew", ...).
pub proof fn law_collateral_names_mirror(n: nat)
    requires
        n >= 3,
    ensures
        exists|prefix: Seq<char>|
            kinship_name_for(n, 1) == prefix + "aunt_or_uncle"@ && kinship_name_for(1, n) == prefix
                + "niece_or_nephew"@,
{
    let g = greats((n - 2) as nat);
    assert(kinship_name_for(n, 1) == g + "aunt_or_uncle"@ && kinship_name_for(1, n) == g + "niece_or_nephew"@);
}

/// Cousin names do not depend on which side is the longer: with at least
/// two generations up and two down, swapping the counts keeps the name.
pub proof fn law_cousin_names_symmetric(up: nat, down: nat)
    requires
        up >= 2,
        down >= 2,
    ensures
        kinship_name_for(up, down) == kinship_name_for(down, up),
{
}

/// A path that names the person themself: empty, or a single "self" step.
pub open spec fn is_self_path(path: Seq<PathStep>) -> bool {
    path.len() == 0 || (path.len() == 1 && path[0].label@ == "self"@)
}

/// The kinship name of a path.
pub open spec fn kinship_of(path: Seq<PathStep>) -> Seq<char> {
    if is_self_path(path) {
        "self"@
    } else {
        kinship_name_for(trace_path(path).up, trace_path(path).down)
    }
}

/// The common ancestor reported for a path.
pub open spec fn common_ancestor_of(path: Seq<PathStep>) -> Option<EntityId> {
    if is_self_path(path) {
        if path.len() == 0 {
            None
        } else {
            Some(path[0].person_id)
        }
    } else {
        trace_path(path).mrca
    }
}

fn push_greats(out: &mut String, n: usize)
    ensures
        final(out)@ == old(out)@ + greats(n as nat),
{
    let mut i: usize = 0;
    while i < n
        invariant
            i <= n,
            out@ == old(out)@ + greats(i as nat),
        decreases n - i,
    {
        push_str(out, "great-");
        proof {
            assert(greats((i + 1) as nat) == greats(i as nat) + "great-"@);
            assert(old(out)@ + greats(i as nat) + "great-"@ =~= old(out)@ + greats((i + 1) as nat));
        }
        i = i + 1;
    }
}

fn push_cousin_degree(out: &mut String, degree: usize)
    requires
        degree < usize::MAX,
    ensures
        final(out)@ == old(out)@ + cousin_degree_name(degree as nat),
{
    if degree == 0 {
        push_str(out, "1st cousin");
    } else if degree == 1 {
        push_str(out, "2nd cousin");
    } else if degree == 2 {
        push_str(out, "3rd cousin");
    } else {
        push_decimal(out, degree as u64 + 1);
        push_str(out, "th cousin");
        proof {
            assert(old(out)@ + decimal((degree + 1) as nat) + "th cousin"@ =~= old(out)@ + (decimal(
                (degree + 1) as nat,
            ) + "th cousin"@));
        }
    }
}

/// The kinship name for `up` generations up and `down` down.
fn name_for_counts(up: usize, down: usize) -> (r: String)
    ensures
        r@ == kinship_name_for(up as nat, down as nat),
{
    if up == 0 && down == 1 {
        str_to_string("child")
    } else if up == 1 && down == 0 {
        str_to_string("parent")
    } else if up == 0 && down == 2 {
        str_to_string("grandchild")
    } else if up == 2 && down == 0 {
        str_to_string("grandparent")
    } else if up == 0 && down >= 3 {
        let mut s = new_string();
        push_greats(&mut s, down - 2);
        push_str(&mut s, "grandchild");
        s
    } else if up >= 3 && down == 0 {
        let mut s = new_string();
        push_greats(&mut s, up - 2);
        push_str(&mut s, "grandparent");
        s
    } else if up == 1 && down == 1 {
        str_to_string("sibling")
    } else if up == 2 && down == 1 {
        str_to_string("uncle")
    } else if up == 2 && down == 2 {
        str_to_string("cousin")
    } else if up == 1 && down == 2 {
        str_to_string("niece_or_nephew")
    } else if up == 0 && down == 0 {
        str_to_string("same_person")
    } else {
        let low: usize = if up < down { up } else { down };
        let degree: usize = if low >= 1 { low - 1 } else { 0 };
        let removed: usize = if up >= down { up - down } else { down - up };
        let side: &str = if up < down { "niece_or_nephew" } else { "aunt_or_uncle" };
        if degree == 0 {
            if removed == 1 {
                str_to_string(side)
            } else if removed > 1 {
                let mut s = new_string();
                push_greats(&mut s, removed - 1);
                push_str(&mut s, side);
                s
            } else {
                str_to_string("relative")
            }
        } else {
            let mut s = new_string();
            push_cousin_degree(&mut s, degree);
            if removed != 0 {
                push_str(&mut s, " ");
                push_decimal(&mut s, removed as u64);
                push_str(&mut s, " removed");
                proof {
                    assert(cousin_degree_name(degree as nat) + " "@ + decimal(removed as nat)
                        + " removed"@ =~= Seq::<char>::empty() + cousin_degree_name(degree as nat)
                        + " "@ + decimal(removed as nat) + " removed"@);
                }
            }
            s
        }
    }
}

/// Trace upward and downward generations along a path.
///
/// Returns (up_count, down_count, mrca_id).
fn trace_generations(path: &[PathStep]) -> (r: (usize, usize, Option<EntityId>))
    ensures
        r.0 as nat == trace_path(path@).up,
        r.1 as nat == trace_path(path@).down,
        r.2 == trace_path(path@).mrca,
        r.0 + r.1 <= path@.len(),
{
    let mut up_count: usize = 0;
    let mut down_count: usize = 0;
    let mut mrca_id: Option<EntityId> = None;
    let mut descending = false;
    let mut i: usize = 0;
    while i < path.len()
        invariant
            i <= path@.len(),
            up_count + down_count <= i,
            ({
                let t = trace_path(path@.subrange(0, i as int));
                &&& t.up == up_count as nat
                &&& t.down == down_count as nat
                &&& t.mrca == mrca_id
                &&& t.descending == descending
            }),
        decreases path@.len() - i,
    {
        let step = &path[i];
        proof {
            assert(path@.subrange(0, i + 1).drop_last() =~= path@.subrange(0, i as int));
        }
        if str_eq(step.direction.as_str(), "up") {
            if descending {
                descending = false;
                down_count = 0;
            }
            up_count = up_count + 1;
            mrca_id = Some(step.person_id);
        } else if str_eq(step.direction.as_str(), "down") {
            descending = true;
            down_count = down_count + 1;
        } else if str_eq(step.direction.as_str(), "sibling") {
            if !descending {
                up_count = up_count + 1;
                mrca_id = Some(step.person_id);
                descending = true;
            } else {
                down_count = down_count + 1;
            }
        }
        i = i + 1;
    }
    proof {
        assert(path@.subrange(0, i as int) =~= path@);
    }
    (up_count, down_count, mrca_id)
}

/// Compute the kinship name from a path of relationship steps: count the
/// generations up to the most recent common ancestor and down to the target,
/// then name the pair of counts.
pub fn compute_kinship(path: &[PathStep]) -> (r: KinshipResult)
    ensures
        r.kinship_name@ == kinship_of(path@),
        r.common_ancestor_id == common_ancestor_of(path@),
        r.path_labels@.len() == path@.len(),
        forall|i: int| 0 <= i < path@.len() ==> #[trigger] r.path_labels@[i] == path@[i].label,
{
    let mut labels: Vec<String> = Vec::new();
    let mut i: usize = 0;
    while i < path.len()
        invariant
            i <= path@.len(),
            labels@.len() == i,
            forall|j: int| 0 <= j < i ==> #[trigger] labels@[j] == path@[j].label,
        decreases path@.len() - i,
    {
        labels.push(path[i].label.clone());
        i = i + 1;
    }
    if path.len() == 0 || (path.len() == 1 && str_eq(path[0].label.as_str(), "self")) {
        let first = if path.len() == 0 {
            None
        } else {
            Some(path[0].person_id)
        };
        return KinshipResult {
            kinship_name: str_to_string("self"),
            path_labels: labels,
            common_ancestor_id: first,
        };
    }
    let (up_count, down_count, mrca_id) = trace_generations(path);
    KinshipResult {
        kinship_name: name_for_counts(up_count, down_count),
        path_labels: labels,
        common_ancestor_id: mrca_id,
    }
}


/// A lateral step: one that goes neither up, down nor to a sibling (a
/// spouse, say).
pub open spec fn is_lateral(step: PathStep) -> bool {
    step.direction@ != "up"@ && step.direction@ != "down"@ && step.direction@ != "sibling"@
}

/// A lateral step at the end of a path changes neither the kinship name nor
/// the common ancestor.
pub proof fn law_lateral_step_is_neutral(path: Seq<PathStep>, step: PathStep)
    requires
        !is_self_path(path),
        is_lateral(step),
    ensures
        kinship_of(path.push(step)) == kinship_of(path),
        common_ancestor_of(path.push(step)) == common_ancestor_of(path),
{
    assert(path.push(step).drop_last() =~= path);
}

} // verus!
