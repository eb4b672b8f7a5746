//! The structural half of building a pane grid from the group layout under
//! a visibility filter: which clusters and subtrees are shown, which splits
//! keep a divider, and which model edge each divider addresses. A group
//! with no visible tab drops out like a hidden leaf, a split with one
//! hidden side gives the other side the whole region, and a fully hidden
//! cluster drops out. Every divider's target addresses the unfiltered
//! model, so a divider drag on a filtered grid writes through to the right
//! edge. The pixel geometry of each divider is the caller's.

use vstd::prelude::*;

use crate::pane_groups::{
    reported, Axis, Branch, BuiltNode, EdgeTarget, GroupId, GroupLayout, StructureNode, Tab,
};

verus! {

/// A shown subtree: a visible group, or a split whose two sides both show,
/// with the model edge its divider addresses.
#[derive(Debug)]
pub enum PlannedNode<S> {
    Leaf(GroupId),
    Split { axis: Axis, sizing: S, target: EdgeTarget, a: Box<PlannedNode<S>>, b: Box<PlannedNode<S>> },
}

/// Whether any leaf of `node` is visible.
pub open spec fn any_visible<S>(node: StructureNode<S>, vis: Seq<GroupId>) -> bool
    decreases node,
{
    match node {
        StructureNode::Leaf(g) => vis.contains(g),
        StructureNode::Split { axis, sizing, a, b } => any_visible(*a, vis) || any_visible(*b, vis),
    }
}

/// `r` is what building `node` (at `path` of cluster `cluster`) shows:
/// nothing where no leaf is visible, the visible side alone where only one
/// side shows, and a split addressing `cluster` and `path` where both do.
pub open spec fn plan_matches<S>(
    node: StructureNode<S>,
    cluster: usize,
    path: Seq<Branch>,
    vis: Seq<GroupId>,
    r: Option<PlannedNode<S>>,
) -> bool
    decreases node,
{
    match node {
        StructureNode::Leaf(g) => if vis.contains(g) {
            r == Some(PlannedNode::<S>::Leaf(g))
        } else {
            r is None
        },
        StructureNode::Split { axis, sizing, a, b } => {
            let va = any_visible(*a, vis);
            let vb = any_visible(*b, vis);
            if !va && !vb {
                r is None
            } else if va && !vb {
                plan_matches(*a, cluster, path.push(Branch::A), vis, r)
            } else if !va && vb {
                plan_matches(*b, cluster, path.push(Branch::B), vis, r)
            } else {
                &&& r matches Some(PlannedNode::Split { axis: ax, sizing: sz, target, a: pa, b: pb })
                &&& ax == axis
                &&& sz == sizing
                &&& target matches EdgeTarget::Node { cluster: c, path: p }
                &&& c == cluster
                &&& p@ == path
                &&& plan_matches(*a, cluster, path.push(Branch::A), vis, Some(*pa))
                &&& plan_matches(*b, cluster, path.push(Branch::B), vis, Some(*pb))
            }
        },
    }
}

fn is_visible(visible: &[GroupId], g: GroupId) -> (r: bool)
    ensures
        r == visible@.contains(g),
{
    let mut i: usize = 0;
    while i < visible.len()
        invariant
            i <= visible@.len(),
            forall|j: int| 0 <= j < i ==> visible@[j] != g,
        decreases visible@.len() - i,
    {
        if visible[i] == g {
            return true;
        }
        i += 1;
    }
    false
}

fn subtree_visible<S>(node: &StructureNode<S>, visible: &[GroupId]) -> (r: bool)
    ensures
        r == any_visible(*node, visible@),
    decreases node,
{
    match node {
        StructureNode::Leaf(g) => is_visible(visible, *g),
        StructureNode::Split { a, b, .. } => subtree_visible(a, visible) || subtree_visible(b, visible),
    }
}

fn copy_path(path: &Vec<Branch>) -> (r: Vec<Branch>)
    ensures
        r@ == path@,
{
    let mut out: Vec<Branch> = Vec::new();
    let mut i: usize = 0;
    while i < path.len()
        invariant
            i <= path@.len(),
            out@ == path@.take(i as int),
        decreases path@.len() - i,
    {
        out.push(path[i]);
        proof {
            assert(out@ =~= path@.take(i + 1));
        }
        i += 1;
    }
    proof {
        assert(path@.take(path@.len() as int) =~= path@);
    }
    out
}

fn plan_node<S: Copy>(node: &StructureNode<S>, cluster: usize, path: &mut Vec<Branch>, visible: &[GroupId]) -> (r:
    Option<PlannedNode<S>>)
    ensures
        plan_matches(*node, cluster, old(path)@, visible@, r),
        final(path)@ == old(path)@,
    decreases node,
{
    match node {
        StructureNode::Leaf(g) => {
            if is_visible(visible, *g) {
                Some(PlannedNode::Leaf(*g))
            } else {
                None
            }
        },
        StructureNode::Split { axis, sizing, a, b } => {
            let va = subtree_visible(a, visible);
            let vb = subtree_visible(b, visible);
            if !va && !vb {
                None
            } else if va && !vb {
                path.push(Branch::A);
                let built = plan_node(a, cluster, path, visible);
                path.pop();
                proof {
                    assert(path@ =~= old(path)@);
                }
                built
            } else if !va && vb {
                path.push(Branch::B);
                let built = plan_node(b, cluster, path, visible);
                path.pop();
                proof {
                    assert(path@ =~= old(path)@);
                }
                built
            } else {
                let target = EdgeTarget::Node { cluster, path: copy_path(path) };
                path.push(Branch::A);
                let built_a = plan_node(a, cluster, path, visible);
                path.pop();
                proof {
                    assert(path@ =~= old(path)@);
                }
                path.push(Branch::B);
                let built_b = plan_node(b, cluster, path, visible);
                path.pop();
                proof {
                    assert(path@ =~= old(path)@);
                }
                match (built_a, built_b) {
                    (Some(pa), Some(pb)) => Some(
                        PlannedNode::Split { axis: *axis, sizing: *sizing, target, a: Box::new(pa), b: Box::new(pb) },
                    ),
                    (built_a, built_b) => {
                        proof {
                            lemma_visible_plans(**a, cluster, old(path)@.push(Branch::A), visible@, built_a);
                            lemma_visible_plans(**b, cluster, old(path)@.push(Branch::B), visible@, built_b);
                        }
                        None
                    },
                }
            }
        },
    }
}

proof fn lemma_visible_plans<S>(
    node: StructureNode<S>,
    cluster: usize,
    path: Seq<Branch>,
    vis: Seq<GroupId>,
    r: Option<PlannedNode<S>>,
)
    requires
        plan_matches(node, cluster, path, vis, r),
    ensures
        r is Some <==> any_visible(node, vis),
    decreases node,
{
    match node {
        StructureNode::Leaf(g) => {},
        StructureNode::Split { axis, sizing, a, b } => {
            let va = any_visible(*a, vis);
            let vb = any_visible(*b, vis);
            if va && !vb {
                lemma_visible_plans(*a, cluster, path.push(Branch::A), vis, r);
            } else if !va && vb {
                lemma_visible_plans(*b, cluster, path.push(Branch::B), vis, r);
            }
        },
    }
}

/// The indices of the clusters among the first `n` with a visible leaf.
pub open spec fn visible_clusters<W, S>(forest: Seq<(W, StructureNode<S>)>, vis: Seq<GroupId>, n: int) -> Seq<usize>
    decreases n,
{
    if n <= 0 {
        Seq::empty()
    } else if any_visible(forest[n - 1].1, vis) {
        visible_clusters(forest, vis, n - 1).push((n - 1) as usize)
    } else {
        visible_clusters(forest, vis, n - 1)
    }
}

proof fn lemma_nothing_shown_prefix<W, S>(forest: Seq<(W, StructureNode<S>)>, vis: Seq<GroupId>, n: int)
    requires
        0 <= n <= forest.len(),
    ensures
        visible_clusters(forest, vis, n).len() == 0 <==> forall|i: int| 0 <= i < n ==> !any_visible(
            #[trigger] forest[i].1,
            vis,
        ),
    decreases n,
{
    if n > 0 {
        lemma_nothing_shown_prefix(forest, vis, n - 1);
    }
}

proof fn lemma_hidden_node<S>(node: StructureNode<S>, vis: Seq<GroupId>)
    requires
        vis.len() == 0,
    ensures
        !any_visible(node, vis),
    decreases node,
{
    match node {
        StructureNode::Leaf(_) => {},
        StructureNode::Split { a, b, .. } => {
            lemma_hidden_node(*a, vis);
            lemma_hidden_node(*b, vis);
        },
    }
}

/// A filtered build shows nothing exactly when no cluster has a visible
/// leaf — in particular when no group passes the filter at all. (Planning
/// reads the model and never changes it: selections, strips and structure
/// stay as they were whatever the outcome.)
pub proof fn lemma_nothing_shown<W, S>(forest: Seq<(W, StructureNode<S>)>, vis: Seq<GroupId>)
    ensures
        visible_clusters(forest, vis, forest.len() as int).len() == 0 <==> forall|i: int|
            0 <= i < forest.len() ==> !any_visible(#[trigger] forest[i].1, vis),
        vis.len() == 0 ==> visible_clusters(forest, vis, forest.len() as int).len() == 0,
{
    lemma_nothing_shown_prefix(forest, vis, forest.len() as int);
    if vis.len() == 0 {
        assert forall|i: int| 0 <= i < forest.len() implies !any_visible(#[trigger] forest[i].1, vis) by {
            lemma_hidden_node(forest[i].1, vis);
        }
    }
}

/// What each shown cluster shows, in model order: one entry per cluster
/// with a visible leaf, carrying the cluster's index.
pub fn plan_clusters<W, S: Copy>(forest: &[(W, StructureNode<S>)], visible: &[GroupId]) -> (r: Vec<
    (usize, PlannedNode<S>),
>)
    ensures
        r@.len() == visible_clusters(forest@, visible@, forest@.len() as int).len(),
        forall|j: int|
            0 <= j < r@.len() ==> {
                let i = visible_clusters(forest@, visible@, forest@.len() as int)[j];
                &&& (#[trigger] r@[j]).0 == i
                &&& plan_matches(forest@[i as int].1, i, Seq::empty(), visible@, Some(r@[j].1))
            },
        clusters_planned(forest@, visible@, forest@.len() as int, r@),
{
    let mut out: Vec<(usize, PlannedNode<S>)> = Vec::new();
    let mut i: usize = 0;
    while i < forest.len()
        invariant
            i <= forest@.len(),
            out@.len() == visible_clusters(forest@, visible@, i as int).len(),
            forall|j: int|
                0 <= j < out@.len() ==> {
                    let k = visible_clusters(forest@, visible@, i as int)[j];
                    &&& (#[trigger] out@[j]).0 == k
                    &&& plan_matches(forest@[k as int].1, k, Seq::empty(), visible@, Some(out@[j].1))
                },
        decreases forest@.len() - i,
    {
        let mut path: Vec<Branch> = Vec::new();
        proof {
            assert(path@ =~= Seq::<Branch>::empty());
        }
        let planned = plan_node(&forest[i].1, i, &mut path, visible);
        proof {
            lemma_visible_plans(forest@[i as int].1, i, Seq::empty(), visible@, planned);
        }
        match planned {
            Some(p) => {
                out.push((i, p));
            },
            None => {},
        }
        i += 1;
    }
    out
}

/// The groups shown under the filter `vis`.
pub open spec fn shown(vis: Seq<GroupId>) -> spec_fn(GroupId) -> bool {
    |g: GroupId| vis.contains(g)
}

/// The leaves of a shown subtree, depth-first.
pub open spec fn planned_leaves<S>(p: PlannedNode<S>) -> Seq<GroupId>
    decreases p,
{
    match p {
        PlannedNode::Leaf(g) => seq![g],
        PlannedNode::Split { a, b, .. } => planned_leaves(*a) + planned_leaves(*b),
    }
}

/// Every divider of a shown subtree addresses a split of the unfiltered
/// structure `root` of cluster `cluster`.
pub open spec fn targets_splits<S>(p: PlannedNode<S>, root: StructureNode<S>, cluster: usize) -> bool
    decreases p,
{
    match p {
        PlannedNode::Leaf(_) => true,
        PlannedNode::Split { target, a, b, .. } => {
            &&& target matches EdgeTarget::Node { cluster: c, path: q }
            &&& c == cluster
            &&& root.spec_node_at(q@) matches Some(StructureNode::Split { .. })
            &&& targets_splits(*a, root, cluster)
            &&& targets_splits(*b, root, cluster)
        },
    }
}

/// The leaves of every cluster, cluster by cluster, depth-first.
pub open spec fn forest_node_leaves<W, S>(forest: Seq<(W, StructureNode<S>)>) -> Seq<GroupId>
    decreases forest.len(),
{
    if forest.len() == 0 {
        Seq::empty()
    } else {
        forest_node_leaves(forest.drop_last()) + forest.last().1.leaves()
    }
}

/// The leaves of every shown cluster, in order.
pub open spec fn plans_leaves<S>(plans: Seq<(usize, PlannedNode<S>)>) -> Seq<GroupId>
    decreases plans.len(),
{
    if plans.len() == 0 {
        Seq::empty()
    } else {
        plans_leaves(plans.drop_last()) + planned_leaves(plans.last().1)
    }
}

/// `plans` is what planning the first `n` clusters of `forest` under `vis`
/// gives: one entry per cluster with a visible leaf, in order.
pub open spec fn clusters_planned<W, S>(
    forest: Seq<(W, StructureNode<S>)>,
    vis: Seq<GroupId>,
    n: int,
    plans: Seq<(usize, PlannedNode<S>)>,
) -> bool {
    &&& plans.len() == visible_clusters(forest, vis, n).len()
    &&& forall|j: int|
        0 <= j < plans.len() ==> {
            let i = visible_clusters(forest, vis, n)[j];
            &&& (#[trigger] plans[j]).0 == i
            &&& plan_matches(forest[i as int].1, i, Seq::empty(), vis, Some(plans[j].1))
        }
}

proof fn lemma_node_at_step<S>(root: StructureNode<S>, path: Seq<Branch>, side: Branch)
    requires
        root.spec_node_at(path) matches Some(StructureNode::Split { .. }),
    ensures
        root.spec_node_at(path.push(side)) == match root.spec_node_at(path) {
            Some(StructureNode::Split { a, b, .. }) => match side {
                Branch::A => Some(*a),
                Branch::B => Some(*b),
            },
            _ => None,
        },
    decreases path.len(),
{
    if path.len() == 0 {
        assert(path.push(side).drop_first() =~= Seq::<Branch>::empty());
        assert(path.push(side)[0] == side);
        match root {
            StructureNode::Split { a, b, .. } => {
                assert(a.spec_node_at(Seq::empty()) == Some(*a));
                assert(b.spec_node_at(Seq::empty()) == Some(*b));
            },
            StructureNode::Leaf(_) => {},
        }
    } else {
        assert(path.push(side)[0] == path[0]);
        match root {
            StructureNode::Split { a, b, .. } => {
                assert(path.push(side).drop_first() =~= path.drop_first().push(side));
                match path[0] {
                    Branch::A => lemma_node_at_step(*a, path.drop_first(), side),
                    Branch::B => lemma_node_at_step(*b, path.drop_first(), side),
                }
            },
            StructureNode::Leaf(_) => {},
        }
    }
}

proof fn lemma_hidden_leaves<S>(node: StructureNode<S>, vis: Seq<GroupId>)
    requires
        !any_visible(node, vis),
    ensures
        node.leaves().filter(shown(vis)) == Seq::<GroupId>::empty(),
    decreases node,
{
    match node {
        StructureNode::Leaf(g) => {
            reveal_with_fuel(Seq::filter, 2);
            assert(seq![g].drop_last() =~= Seq::<GroupId>::empty());
            assert(node.leaves().filter(shown(vis)) =~= Seq::<GroupId>::empty());
        },
        StructureNode::Split { a, b, .. } => {
            lemma_hidden_leaves(*a, vis);
            lemma_hidden_leaves(*b, vis);
            Seq::filter_distributes_over_add(a.leaves(), b.leaves(), shown(vis));
            assert(node.leaves().filter(shown(vis)) =~= Seq::<GroupId>::empty());
        },
    }
}

proof fn lemma_plan_law<S>(
    root: StructureNode<S>,
    node: StructureNode<S>,
    cluster: usize,
    path: Seq<Branch>,
    vis: Seq<GroupId>,
    p: PlannedNode<S>,
)
    requires
        root.spec_node_at(path) == Some(node),
        plan_matches(node, cluster, path, vis, Some(p)),
    ensures
        planned_leaves(p) == node.leaves().filter(shown(vis)),
        targets_splits(p, root, cluster),
    decreases node,
{
    match node {
        StructureNode::Leaf(g) => {
            reveal_with_fuel(Seq::filter, 2);
            assert(seq![g].drop_last() =~= Seq::<GroupId>::empty());
            assert(node.leaves().filter(shown(vis)) =~= seq![g]);
        },
        StructureNode::Split { axis, sizing, a, b } => {
            lemma_node_at_step(root, path, Branch::A);
            lemma_node_at_step(root, path, Branch::B);
            Seq::filter_distributes_over_add(a.leaves(), b.leaves(), shown(vis));
            let va = any_visible(*a, vis);
            let vb = any_visible(*b, vis);
            if va && !vb {
                lemma_plan_law(root, *a, cluster, path.push(Branch::A), vis, p);
                lemma_hidden_leaves(*b, vis);
                assert(node.leaves().filter(shown(vis)) =~= a.leaves().filter(shown(vis)));
            } else if !va && vb {
                lemma_plan_law(root, *b, cluster, path.push(Branch::B), vis, p);
                lemma_hidden_leaves(*a, vis);
                assert(node.leaves().filter(shown(vis)) =~= b.leaves().filter(shown(vis)));
            } else {
                match p {
                    PlannedNode::Split { a: pa, b: pb, .. } => {
                        lemma_plan_law(root, *a, cluster, path.push(Branch::A), vis, *pa);
                        lemma_plan_law(root, *b, cluster, path.push(Branch::B), vis, *pb);
                    },
                    PlannedNode::Leaf(_) => {},
                }
            }
        },
    }
}

proof fn lemma_clusters_planned_prefix<W, S>(
    forest: Seq<(W, StructureNode<S>)>,
    vis: Seq<GroupId>,
    n: int,
    plans: Seq<(usize, PlannedNode<S>)>,
)
    requires
        0 <= n <= forest.len(),
        forest.len() <= usize::MAX,
        clusters_planned(forest, vis, n, plans),
    ensures
        plans_leaves(plans) == forest_node_leaves(forest.take(n)).filter(shown(vis)),
        forall|j: int|
            0 <= j < plans.len() ==> (#[trigger] plans[j]).0 < n && targets_splits(
                plans[j].1,
                forest[plans[j].0 as int].1,
                plans[j].0,
            ),
    decreases n,
{
    let pred = shown(vis);
    if n == 0 {
        reveal(Seq::filter);
        assert(forest.take(0) =~= Seq::<(W, StructureNode<S>)>::empty());
        assert(forest_node_leaves(forest.take(0)) =~= Seq::<GroupId>::empty());
    } else {
        let node = forest[n - 1].1;
        let prev = visible_clusters(forest, vis, n - 1);
        assert(forest.take(n).drop_last() =~= forest.take(n - 1));
        Seq::filter_distributes_over_add(forest_node_leaves(forest.take(n - 1)), node.leaves(), pred);
        lemma_visible_clusters_bound(forest, vis, n - 1);
        if any_visible(node, vis) {
            assert(visible_clusters(forest, vis, n) == prev.push((n - 1) as usize));
            assert(plans.len() == prev.len() + 1);
            let rest = plans.drop_last();
            assert forall|j: int| 0 <= j < rest.len() implies {
                let i = prev[j];
                &&& (#[trigger] rest[j]).0 == i
                &&& plan_matches(forest[i as int].1, i, Seq::empty(), vis, Some(rest[j].1))
            } by {
                assert(rest[j] == plans[j]);
                assert(visible_clusters(forest, vis, n)[j] == prev[j]);
            }
            lemma_clusters_planned_prefix(forest, vis, n - 1, rest);
            let last = plans[plans.len() - 1];
            assert(visible_clusters(forest, vis, n)[plans.len() - 1] == (n - 1) as usize);
            assert(last.0 == (n - 1) as usize);
            assert(plan_matches(forest[n - 1].1, last.0, Seq::empty(), vis, Some(last.1)));
            assert(plans.drop_last().push(last) =~= plans);
            lemma_plan_law(node, node, last.0, Seq::empty(), vis, last.1);
            assert forall|j: int| 0 <= j < plans.len() implies (#[trigger] plans[j]).0 < n && targets_splits(
                plans[j].1,
                forest[plans[j].0 as int].1,
                plans[j].0,
            ) by {
                if j < rest.len() {
                    assert(rest[j] == plans[j]);
                }
            }
        } else {
            lemma_clusters_planned_prefix(forest, vis, n - 1, plans);
            lemma_hidden_leaves(node, vis);
            assert(forest_node_leaves(forest.take(n)).filter(pred) =~= forest_node_leaves(forest.take(n - 1)).filter(
                pred,
            ));
        }
    }
}

proof fn lemma_visible_clusters_bound<W, S>(forest: Seq<(W, StructureNode<S>)>, vis: Seq<GroupId>, n: int)
    requires
        0 <= n <= usize::MAX + 1,
    ensures
        forall|j: int|
            0 <= j < visible_clusters(forest, vis, n).len() ==> #[trigger] visible_clusters(forest, vis, n)[j] < n,
    decreases n,
{
    if n > 0 {
        lemma_visible_clusters_bound(forest, vis, n - 1);
        let prev = visible_clusters(forest, vis, n - 1);
        let v = visible_clusters(forest, vis, n);
        if any_visible(forest[n - 1].1, vis) {
            assert(v == prev.push((n - 1) as usize));
            assert forall|j: int| 0 <= j < v.len() implies #[trigger] v[j] < n by {
                if j < prev.len() {
                    assert(v[j] == prev[j]);
                }
            }
        } else {
            assert(v == prev);
        }
    }
}

/// What a filtered build shows, as one law: the shown clusters come in
/// model order, and their leaves, read in order, are exactly the model's
/// groups, depth-first, that pass the filter; nothing is shown exactly
/// when no group passes; and every divider addresses a real split of the
/// unfiltered model in its own cluster (a top-level divider addresses the
/// shown cluster it follows). Planning reads the model and never changes it.
pub proof fn lemma_filtered_build<W, S>(
    forest: Seq<(W, StructureNode<S>)>,
    vis: Seq<GroupId>,
    plans: Seq<(usize, PlannedNode<S>)>,
)
    requires
        forest.len() <= usize::MAX,
        clusters_planned(forest, vis, forest.len() as int, plans),
    ensures
        plans_leaves(plans) == forest_node_leaves(forest).filter(shown(vis)),
        plans.len() == 0 <==> forall|i: int| 0 <= i < forest.len() ==> !any_visible(#[trigger] forest[i].1, vis),
        forall|j: int|
            0 <= j < plans.len() ==> (#[trigger] plans[j]).0 < forest.len() && targets_splits(
                plans[j].1,
                forest[plans[j].0 as int].1,
                plans[j].0,
            ),
        forall|i: int, j: int| 0 <= i < j < plans.len() ==> (#[trigger] plans[i]).0 < (#[trigger] plans[j]).0,
{
    lemma_clusters_planned_prefix(forest, vis, forest.len() as int, plans);
    assert(forest.take(forest.len() as int) =~= forest);
    lemma_nothing_shown(forest, vis);
    lemma_visible_clusters_increasing(forest, vis, forest.len() as int);
}

/// Two plans show the same thing: the same leaves and splits, with the
/// same axes and sizings, and dividers addressing the same model edges.
pub open spec fn same_plan<S>(p: PlannedNode<S>, q: PlannedNode<S>) -> bool
    decreases p,
{
    match (p, q) {
        (PlannedNode::Leaf(g), PlannedNode::Leaf(h)) => g == h,
        (
            PlannedNode::Split { axis: x1, sizing: s1, target: t1, a: a1, b: b1 },
            PlannedNode::Split { axis: x2, sizing: s2, target: t2, a: a2, b: b2 },
        ) => {
            &&& x1 == x2
            &&& s1 == s2
            &&& same_target(t1, t2)
            &&& same_plan(*a1, *a2)
            &&& same_plan(*b1, *b2)
        },
        _ => false,
    }
}

proof fn lemma_plan_unique<S>(
    node: StructureNode<S>,
    cluster: usize,
    path: Seq<Branch>,
    vis: Seq<GroupId>,
    p: PlannedNode<S>,
    q: PlannedNode<S>,
)
    requires
        plan_matches(node, cluster, path, vis, Some(p)),
        plan_matches(node, cluster, path, vis, Some(q)),
    ensures
        same_plan(p, q),
    decreases node,
{
    match node {
        StructureNode::Leaf(_) => {},
        StructureNode::Split { a, b, .. } => {
            let va = any_visible(*a, vis);
            let vb = any_visible(*b, vis);
            if va && !vb {
                lemma_plan_unique(*a, cluster, path.push(Branch::A), vis, p, q);
            } else if !va && vb {
                lemma_plan_unique(*b, cluster, path.push(Branch::B), vis, p, q);
            } else if va && vb {
                match (p, q) {
                    (PlannedNode::Split { a: pa, b: pb, .. }, PlannedNode::Split { a: qa, b: qb, .. }) => {
                        lemma_plan_unique(*a, cluster, path.push(Branch::A), vis, *pa, *qa);
                        lemma_plan_unique(*b, cluster, path.push(Branch::B), vis, *pb, *qb);
                    },
                    _ => {},
                }
            }
        },
    }
}

/// Building is deterministic: two plans of the same structure under the
/// same filter show the same clusters, each the same way.
pub proof fn lemma_plans_deterministic<W, S>(
    forest: Seq<(W, StructureNode<S>)>,
    vis: Seq<GroupId>,
    first: Seq<(usize, PlannedNode<S>)>,
    second: Seq<(usize, PlannedNode<S>)>,
)
    requires
        clusters_planned(forest, vis, forest.len() as int, first),
        clusters_planned(forest, vis, forest.len() as int, second),
    ensures
        first.len() == second.len(),
        forall|j: int|
            0 <= j < first.len() ==> (#[trigger] first[j]).0 == second[j].0 && same_plan(first[j].1, second[j].1),
{
    assert forall|j: int| 0 <= j < first.len() implies (#[trigger] first[j]).0 == second[j].0 && same_plan(
        first[j].1,
        second[j].1,
    ) by {
        let i = visible_clusters(forest, vis, forest.len() as int)[j];
        assert(first[j].0 == i);
        assert(second[j].0 == i);
        lemma_plan_unique(forest[i as int].1, i, Seq::empty(), vis, first[j].1, second[j].1);
    }
}

proof fn lemma_visible_clusters_increasing<W, S>(forest: Seq<(W, StructureNode<S>)>, vis: Seq<GroupId>, n: int)
    requires
        0 <= n <= usize::MAX + 1,
    ensures
        forall|i: int, j: int|
            0 <= i < j < visible_clusters(forest, vis, n).len() ==> #[trigger] visible_clusters(forest, vis, n)[i]
                < #[trigger] visible_clusters(forest, vis, n)[j],
    decreases n,
{
    if n > 0 {
        lemma_visible_clusters_increasing(forest, vis, n - 1);
        lemma_visible_clusters_bound(forest, vis, n - 1);
        let prev = visible_clusters(forest, vis, n - 1);
        let v = visible_clusters(forest, vis, n);
        if any_visible(forest[n - 1].1, vis) {
            assert(v == prev.push((n - 1) as usize));
            assert forall|i: int, j: int| 0 <= i < j < v.len() implies #[trigger] v[i] < #[trigger] v[j] by {
                assert(v[i] == prev[i]);
                if j < prev.len() {
                    assert(v[j] == prev[j]);
                }
            }
        } else {
            assert(v == prev);
        }
    }
}

/// The mirror of a shown subtree.
pub open spec fn mirror_matches<S>(p: PlannedNode<S>, m: BuiltNode) -> bool
    decreases p,
{
    match p {
        PlannedNode::Leaf(g) => m is Leaf,
        PlannedNode::Split { axis, sizing, target, a, b } => {
            &&& m matches BuiltNode::Split { target: t, a: ma, b: mb }
            &&& same_target(t, target)
            &&& mirror_matches(*a, *ma)
            &&& mirror_matches(*b, *mb)
        },
    }
}

/// Two edge targets address the same model edge.
pub open spec fn same_target(x: EdgeTarget, y: EdgeTarget) -> bool {
    match (x, y) {
        (EdgeTarget::TopLevel(i), EdgeTarget::TopLevel(j)) => i == j,
        (EdgeTarget::Node { cluster: c1, path: p1 }, EdgeTarget::Node { cluster: c2, path: p2 }) => c1 == c2 && p1@
            == p2@,
        _ => false,
    }
}

/// The mirror of the whole grid from `k` on: one cluster shows alone;
/// more fold right-associated under top-level dividers that address the
/// first of them.
pub open spec fn fold_matches<S>(plans: Seq<(usize, PlannedNode<S>)>, k: int, m: BuiltNode) -> bool
    decreases plans.len() - k,
{
    if k < 0 || k >= plans.len() {
        false
    } else if k == plans.len() - 1 {
        mirror_matches(plans[k].1, m)
    } else {
        &&& m matches BuiltNode::Split { target: t, a: ma, b: mb }
        &&& t == EdgeTarget::TopLevel(plans[k].0)
        &&& mirror_matches(plans[k].1, *ma)
        &&& fold_matches(plans, k + 1, *mb)
    }
}

fn copy_target(t: &EdgeTarget) -> (r: EdgeTarget)
    ensures
        same_target(r, *t),
{
    match t {
        EdgeTarget::TopLevel(i) => EdgeTarget::TopLevel(*i),
        EdgeTarget::Node { cluster, path } => EdgeTarget::Node { cluster: *cluster, path: copy_path(path) },
    }
}

fn mirror_of<S>(p: &PlannedNode<S>) -> (r: BuiltNode)
    ensures
        mirror_matches(*p, r),
    decreases p,
{
    match p {
        PlannedNode::Leaf(_) => BuiltNode::Leaf,
        PlannedNode::Split { target, a, b, .. } => BuiltNode::Split {
            target: copy_target(target),
            a: Box::new(mirror_of(a)),
            b: Box::new(mirror_of(b)),
        },
    }
}

fn fold_from<S>(plans: &[(usize, PlannedNode<S>)], k: usize) -> (r: BuiltNode)
    requires
        k < plans@.len(),
    ensures
        fold_matches(plans@, k as int, r),
    decreases plans@.len() - k,
{
    if k == plans.len() - 1 {
        mirror_of(&plans[k].1)
    } else {
        let rest = fold_from(plans, k + 1);
        BuiltNode::Split { target: EdgeTarget::TopLevel(plans[k].0), a: Box::new(mirror_of(&plans[k].1)), b: Box::new(rest) }
    }
}

/// The structural mirror of the built grid, for mapping its dividers back
/// to model edges; nothing when no cluster shows.
pub fn built_mirror<S>(plans: &[(usize, PlannedNode<S>)]) -> (r: Option<BuiltNode>)
    ensures
        plans@.len() == 0 <==> r is None,
        r matches Some(m) ==> fold_matches(plans@, 0, m),
{
    if plans.len() == 0 {
        None
    } else {
        Some(fold_from(plans, 0))
    }
}

/// Whether `r` is drawn from `all` in order: `r[j]` is `all[idx[j]]`, at
/// strictly increasing positions.
pub open spec fn picks_in_order<A>(r: Seq<A>, all: Seq<A>, idx: Seq<int>) -> bool {
    &&& idx.len() == r.len()
    &&& forall|j: int| 0 <= j < r.len() ==> 0 <= #[trigger] idx[j] < all.len() && all[idx[j]] == r[j]
    &&& forall|i: int, j: int| 0 <= i < j < r.len() ==> idx[i] < idx[j]
}

impl<T: Copy + PartialEq, S, W> GroupLayout<T, S, W> {
    /// The groups with a tab that passes the filter, depth-first; a group
    /// left out shows none of its tabs.
    pub fn visible_groups<F: Fn(&Tab<T>) -> bool>(&self, visible: &F) -> (r: Vec<GroupId>)
        requires
            self.wf(),
            forall|t: &Tab<T>| #[trigger] visible.requires((t,)),
        ensures
            forall|g: GroupId|
                #[trigger] r@.contains(g) ==> self.content().contains_key(g) && exists|k: int|
                    0 <= k < self.content()[g].tabs.len() && reported(visible, #[trigger] self.content()[g].tabs[k], true),
            forall|g: GroupId|
                self.content().contains_key(g) && !(#[trigger] r@.contains(g)) ==> forall|k: int|
                    0 <= k < self.content()[g].tabs.len() ==> reported(visible, #[trigger] self.content()[g].tabs[k], false),
            exists|idx: Seq<int>| #[trigger] picks_in_order(r@, self.leaves(), idx),
    {
        let all = self.groups_depth_first();
        let ghost mut idx: Seq<int> = Seq::empty();
        let mut out: Vec<GroupId> = Vec::new();
        let mut i: usize = 0;
        while i < all.len()
            invariant
                self.wf(),
                all@ == self.leaves(),
                i <= all@.len(),
                idx.len() == out@.len(),
                forall|j: int| 0 <= j < out@.len() ==> 0 <= #[trigger] idx[j] < i && all@[idx[j]] == out@[j],
                forall|a: int, b: int| 0 <= a < b < out@.len() ==> idx[a] < idx[b],
                forall|t: &Tab<T>| #[trigger] visible.requires((t,)),
                forall|g: GroupId|
                    #[trigger] out@.contains(g) ==> self.content().contains_key(g) && exists|k: int|
                        0 <= k < self.content()[g].tabs.len() && reported(visible, #[trigger] self.content()[g].tabs[k], true),
                forall|g: GroupId|
                    all@.take(i as int).contains(g) && !(#[trigger] out@.contains(g)) ==> forall|k: int|
                        0 <= k < self.content()[g].tabs.len() ==> reported(visible, #[trigger] self.content()[g].tabs[k], false),
            decreases all@.len() - i,
        {
            let g = all[i];
            proof {
                self.lemma_leaves_are_groups(g);
                assert(all@.contains(g));
            }
            let shown = self.effective_selected(g, visible);
            let ghost before = out@;
            if shown.is_some() {
                out.push(g);
                proof {
                    idx = idx.push(i as int);
                    let tabs = self.content()[g].tabs;
                    let sel = crate::pane_groups::view_index_of(self.content()[g], self.content()[g].selected);
                    let k = choose|k: int| #[trigger] crate::pane_groups::rendered_fallback(visible, tabs, sel, k) && tabs[k].tab_id() == shown->0;
                    assert(reported(visible, tabs[k], true));
                    assert forall|x: GroupId| #[trigger] out@.contains(x) implies self.content().contains_key(x) && exists|k: int|
                        0 <= k < self.content()[x].tabs.len() && reported(visible, #[trigger] self.content()[x].tabs[k], true) by {
                        if x != g {
                            let j = choose|j: int| 0 <= j < out@.len() && out@[j] == x;
                            assert(before[j] == x);
                            assert(before.contains(x));
                        } else {
                            assert(reported(visible, self.content()[x].tabs[k], true));
                        }
                    }
                }
            }
            proof {
                assert forall|x: GroupId| all@.take(i + 1).contains(x) && !(#[trigger] out@.contains(x)) implies forall|k: int|
                    0 <= k < self.content()[x].tabs.len() ==> reported(visible, #[trigger] self.content()[x].tabs[k], false) by {
                    let t = all@.take(i + 1);
                    let j = choose|j: int| 0 <= j < t.len() && #[trigger] t[j] == x;
                    if j < i {
                        assert(all@.take(i as int)[j] == x);
                        assert(!before.contains(x)) by {
                            if before.contains(x) {
                                let m = choose|m: int| 0 <= m < before.len() && before[m] == x;
                                if shown.is_some() {
                                    assert(out@[m] == x);
                                } else {
                                    assert(out@[m] == x);
                                }
                            }
                        }
                    } else {
                        assert(x == g);
                        if shown.is_some() {
                            assert(out@[out@.len() - 1] == g);
                        }
                    }
                }
            }
            i += 1;
        }
        proof {
            assert forall|g: GroupId| self.content().contains_key(g) && !(#[trigger] out@.contains(g)) implies forall|k: int|
                0 <= k < self.content()[g].tabs.len() ==> reported(visible, #[trigger] self.content()[g].tabs[k], false) by {
                self.lemma_leaves_are_groups(g);
                assert(all@.take(all@.len() as int) =~= all@);
            }
            assert(picks_in_order(out@, self.leaves(), idx));
        }
        out
    }
}

} // verus!
