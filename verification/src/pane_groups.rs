//! The tab-group pane layout model: every physical pane slot is a validated
//! non-empty *group* of tabs rather than a single value.
//!
//! A window's layout is an ordered list of clusters, each holding a split
//! tree whose leaves carry a stable [`GroupId`]. A group's content (its tab
//! strip and durable selection) lives beside the tree, keyed by that id, so
//! tab-level operations never walk or reshape the tree.
//!
//! The split tree carries each split's sizing (`S`) and each cluster's share
//! of the window (`W`) verbatim: the model never computes with them. Ids are
//! minted by the caller from one process-wide counter; the model only
//! requires a freshly minted group id to be absent from it.
//!
//! Invariants ([`GroupLayout::wf`]):
//! - a group is never empty and its selection is a member of its strip;
//! - tree leaves and group contents hold the same ids, each exactly once;
//! - every tab id, and every live binding, occurs exactly once in a model.

use vstd::prelude::*;

verus! {

// ----------------------------------------------------------------------
// Identities
// ----------------------------------------------------------------------

/// The stable identity of one physical pane slot (one tab strip).
#[derive(Debug, Clone, Copy, PartialEq, Eq, Structural, PartialOrd, Ord, Hash)]
pub struct GroupId(u64);

impl GroupId {
    /// Stable ids count from 1.
    #[verifier::type_invariant]
    closed spec fn positive(self) -> bool {
        self.0 >= 1
    }

    /// Wrap a freshly minted stable id (see [`IdMint`]).
    pub fn new(raw: u64) -> (r: Self)
        requires
            raw >= 1,
        ensures
            r.raw() == raw,
    {
        GroupId(raw)
    }

    pub closed spec fn raw(self) -> u64 {
        self.0
    }

    /// The raw stable id, never 0.
    pub fn as_u64(self) -> (r: u64)
        ensures
            r == self.raw(),
            r >= 1,
    {
        proof {
            use_type_invariant(&self);
        }
        self.0
    }
}

/// The stable identity of one workspace pane (one tab).
#[derive(Debug, Clone, Copy, PartialEq, Eq, Structural, PartialOrd, Ord, Hash)]
pub struct TabId(u64);

impl TabId {
    /// Stable ids count from 1.
    #[verifier::type_invariant]
    closed spec fn positive(self) -> bool {
        self.0 >= 1
    }

    /// Wrap a freshly minted stable id (see [`IdMint`]).
    pub fn new(raw: u64) -> (r: Self)
        requires
            raw >= 1,
        ensures
            r.raw() == raw,
    {
        TabId(raw)
    }

    pub closed spec fn raw(self) -> u64 {
        self.0
    }

    /// The raw stable id, never 0.
    pub fn as_u64(self) -> (r: u64)
        ensures
            r == self.raw(),
            r >= 1,
    {
        proof {
            use_type_invariant(&self);
        }
        self.0
    }
}

/// The source of stable ids: each id it hands out is handed out once, in
/// rising order from 1, so ids never collide within the mint's reach (a
/// process holds one).
#[derive(Debug)]
pub struct IdMint {
    next: u64,
}

impl IdMint {
    #[verifier::type_invariant]
    closed spec fn counting_from_one(self) -> bool {
        self.next >= 1
    }

    /// The raw id the next mint hands out.
    pub closed spec fn next_raw(self) -> u64 {
        self.next
    }

    /// A mint that has handed out nothing: its first id is 1.
    pub fn new() -> (r: Self)
        ensures
            r.next_raw() == 1,
    {
        IdMint { next: 1 }
    }

    /// The raw id the next mint hands out.
    pub fn peek(&self) -> (r: u64)
        ensures
            r == self.next_raw(),
            r >= 1,
    {
        proof {
            use_type_invariant(self);
        }
        self.next
    }

    /// A fresh group id: above every id handed out before.
    pub fn mint_group(&mut self) -> (r: GroupId)
        requires
            old(self).next_raw() < u64::MAX,
        ensures
            r.raw() == old(self).next_raw(),
            final(self).next_raw() == old(self).next_raw() + 1,
    {
        proof {
            use_type_invariant(&*self);
        }
        let raw = self.next;
        self.next = raw + 1;
        GroupId::new(raw)
    }

    /// A fresh tab id: above every id handed out before.
    pub fn mint_tab(&mut self) -> (r: TabId)
        requires
            old(self).next_raw() < u64::MAX,
        ensures
            r.raw() == old(self).next_raw(),
            final(self).next_raw() == old(self).next_raw() + 1,
    {
        proof {
            use_type_invariant(&*self);
        }
        let raw = self.next;
        self.next = raw + 1;
        TabId::new(raw)
    }

    /// Reserve the next `n` raw ids as one block: returns the first, and the
    /// mint goes on past the block.
    pub fn reserve(&mut self, n: u64) -> (r: u64)
        requires
            old(self).next_raw() + n <= u64::MAX,
        ensures
            r == old(self).next_raw(),
            r >= 1,
            final(self).next_raw() == old(self).next_raw() + n,
    {
        proof {
            use_type_invariant(&*self);
        }
        let first = self.next;
        self.next = first + n;
        first
    }
}

/// Ids minted in turn from one mint never collide, whatever their kinds:
/// every mint operation leaves the mint's next number at or above where it
/// was, so a number handed out from a later state (`later_raw`, a group id,
/// a tab id or the first of a reserved block) lies above one handed out
/// before it (`earlier_raw`).
pub proof fn lemma_minted_in_turn(
    earlier_raw: u64,
    after_earlier: IdMint,
    before_later: IdMint,
    later_raw: u64,
)
    requires
        after_earlier.next_raw() == earlier_raw + 1,
        before_later.next_raw() >= after_earlier.next_raw(),
        later_raw == before_later.next_raw(),
    ensures
        earlier_raw < later_raw,
{
}

pub proof fn lemma_group_id_raw_injective(a: GroupId, b: GroupId)
    ensures
        a.raw() == b.raw() <==> a == b,
{
}

pub proof fn lemma_tab_id_raw_injective(a: TabId, b: TabId)
    ensures
        a.raw() == b.raw() <==> a == b,
{
}

/// One tab: a stable id plus an optional live binding (`T` is the pane
/// reference type). Deliberately neither `Copy` nor `Clone`: a tab is either
/// in the caller's hand or hosted in exactly one model.
#[derive(Debug)]
pub struct Tab<T> {
    id: TabId,
    binding: Option<T>,
}

impl<T> Tab<T> {
    pub closed spec fn tab_id(self) -> TabId {
        self.id
    }

    pub closed spec fn tab_binding(self) -> Option<T> {
        self.binding
    }

    /// A new tab, carrying the freshly minted `id`, bound to a live pane.
    pub fn bound(id: TabId, binding: T) -> (r: Self)
        ensures
            r.tab_id() == id,
            r.tab_binding() == Some(binding),
    {
        Tab { id, binding: Some(binding) }
    }

    /// A new placeholder tab, carrying the freshly minted `id`, awaiting
    /// materialization.
    pub fn placeholder(id: TabId) -> (r: Self)
        ensures
            r.tab_id() == id,
            r.tab_binding() == None::<T>,
    {
        Tab { id, binding: None }
    }

    pub fn id(&self) -> (r: TabId)
        ensures
            r == self.tab_id(),
    {
        self.id
    }

    pub fn binding(&self) -> (r: Option<&T>)
        ensures
            r == match self.tab_binding() {
                Some(b) => Some(&b),
                None => None::<&T>,
            },
    {
        match &self.binding {
            Some(b) => Some(b),
            None => None,
        }
    }
}

// ----------------------------------------------------------------------
// Tree vocabulary
// ----------------------------------------------------------------------

/// A split's orientation (the divider runs along the named axis).
#[derive(Debug, Clone, Copy, PartialEq, Eq, Structural)]
pub enum Axis {
    Horizontal,
    Vertical,
}

/// A branch selector into a split node.
#[derive(Debug, Clone, Copy, PartialEq, Eq, Structural)]
pub enum Branch {
    A,
    B,
}

/// Which model edge a built divider corresponds to: `TopLevel(i)` is the
/// divider between cluster `i` and the fold of the clusters after it;
/// `Node` addresses a split inside one cluster.
#[derive(Debug, Clone, PartialEq, Eq)]
pub enum EdgeTarget {
    TopLevel(usize),
    Node { cluster: usize, path: Vec<Branch> },
}

/// The structural mirror of a built grid: same shape, each split annotated
/// with its [`EdgeTarget`].
#[derive(Debug)]
pub enum BuiltNode {
    Leaf,
    Split { target: EdgeTarget, a: Box<BuiltNode>, b: Box<BuiltNode> },
}

/// One subtree of a cluster: a group slot, or a split of two subtrees.
#[derive(Debug)]
pub enum StructureNode<S> {
    Leaf(GroupId),
    Split { axis: Axis, sizing: S, a: Box<StructureNode<S>>, b: Box<StructureNode<S>> },
}

/// One top-level cluster: a subtree plus its share of the window.
#[derive(Debug)]
pub struct Cluster<S, W> {
    pub weight: W,
    pub root: StructureNode<S>,
}

/// What removing a leaf left of a subtree: nothing (the subtree *was* the
/// leaf), or the subtree with the leaf removed (`true`) or untouched.
pub enum Removal<S> {
    Gone,
    Kept(StructureNode<S>, bool),
}

impl<S> StructureNode<S> {
    /// The group ids of the leaves, depth-first.
    pub open spec fn leaves(self) -> Seq<GroupId>
        decreases self,
    {
        match self {
            StructureNode::Leaf(g) => seq![g],
            StructureNode::Split { a, b, .. } => a.leaves() + b.leaves(),
        }
    }

    /// The subtree with the first leaf `reference` replaced by a split of
    /// it and `new` (`new` first when `new_first`); `false` when no leaf
    /// matched, with the subtree untouched.
    pub open spec fn spec_split_leaf(
        self,
        reference: GroupId,
        axis: Axis,
        new_first: bool,
        sizing: S,
        new: GroupId,
    ) -> (Self, bool)
        decreases self,
    {
        match self {
            StructureNode::Leaf(g) => if g == reference {
                let (a, b) = if new_first {
                    (StructureNode::Leaf(new), StructureNode::Leaf(g))
                } else {
                    (StructureNode::Leaf(g), StructureNode::Leaf(new))
                };
                (StructureNode::Split { axis, sizing, a: Box::new(a), b: Box::new(b) }, true)
            } else {
                (self, false)
            },
            StructureNode::Split { axis: ax, sizing: sz, a, b } => {
                let (na, fa) = a.spec_split_leaf(reference, axis, new_first, sizing, new);
                if fa {
                    (StructureNode::Split { axis: ax, sizing: sz, a: Box::new(na), b }, true)
                } else {
                    let (nb, fb) = b.spec_split_leaf(reference, axis, new_first, sizing, new);
                    (StructureNode::Split { axis: ax, sizing: sz, a, b: Box::new(nb) }, fb)
                }
            },
        }
    }

    /// The subtree with the first leaf `group` removed, its parent split
    /// collapsing into the sibling.
    pub open spec fn spec_remove(self, group: GroupId) -> Removal<S>
        decreases self,
    {
        match self {
            StructureNode::Leaf(g) => if g == group {
                Removal::Gone
            } else {
                Removal::Kept(self, false)
            },
            StructureNode::Split { axis, sizing, a, b } => match a.spec_remove(group) {
                Removal::Gone => Removal::Kept(*b, true),
                Removal::Kept(na, true) => Removal::Kept(
                    StructureNode::Split { axis, sizing, a: Box::new(na), b },
                    true,
                ),
                Removal::Kept(_, false) => match b.spec_remove(group) {
                    Removal::Gone => Removal::Kept(*a, true),
                    Removal::Kept(nb, fb) => Removal::Kept(
                        StructureNode::Split { axis, sizing, a, b: Box::new(nb) },
                        fb,
                    ),
                },
            },
        }
    }

    /// The branch path to the first leaf `group`, if any.
    pub open spec fn spec_find_path(self, group: GroupId) -> Option<Seq<Branch>>
        decreases self,
    {
        match self {
            StructureNode::Leaf(g) => if g == group {
                Some(Seq::empty())
            } else {
                None
            },
            StructureNode::Split { a, b, .. } => match a.spec_find_path(group) {
                Some(p) => Some(seq![Branch::A] + p),
                None => match b.spec_find_path(group) {
                    Some(p) => Some(seq![Branch::B] + p),
                    None => None,
                },
            },
        }
    }

    /// The subtree at `path`, if the path stays inside the tree.
    pub open spec fn spec_node_at(self, path: Seq<Branch>) -> Option<Self>
        decreases path.len(),
    {
        if path.len() == 0 {
            Some(self)
        } else {
            match self {
                StructureNode::Leaf(_) => None,
                StructureNode::Split { a, b, .. } => match path[0] {
                    Branch::A => a.spec_node_at(path.drop_first()),
                    Branch::B => b.spec_node_at(path.drop_first()),
                },
            }
        }
    }

    /// The subtree with the sizing of the split at `path` replaced; `false`
    /// (untouched) when `path` does not address a split.
    pub open spec fn spec_set_sizing(self, path: Seq<Branch>, sizing: S) -> (Self, bool)
        decreases path.len(),
    {
        match self {
            StructureNode::Leaf(_) => (self, false),
            StructureNode::Split { axis, sizing: old, a, b } => if path.len() == 0 {
                (StructureNode::Split { axis, sizing, a, b }, true)
            } else {
                match path[0] {
                    Branch::A => {
                        let (na, f) = a.spec_set_sizing(path.drop_first(), sizing);
                        (StructureNode::Split { axis, sizing: old, a: Box::new(na), b }, f)
                    },
                    Branch::B => {
                        let (nb, f) = b.spec_set_sizing(path.drop_first(), sizing);
                        (StructureNode::Split { axis, sizing: old, a, b: Box::new(nb) }, f)
                    },
                }
            },
        }
    }
}

pub proof fn lemma_leaves_nonempty<S>(node: StructureNode<S>)
    ensures
        node.leaves().len() > 0,
    decreases node,
{
    match node {
        StructureNode::Leaf(_) => {},
        StructureNode::Split { a, b, .. } => {
            lemma_leaves_nonempty(*a);
        },
    }
}

/// A concatenation is duplicate-free exactly when both parts are and they
/// share no element.
pub proof fn lemma_concat_no_dup<A>(x: Seq<A>, y: Seq<A>)
    ensures
        (x + y).no_duplicates() <==> (x.no_duplicates() && y.no_duplicates() && x.disjoint(y)),
{
    if (x + y).no_duplicates() {
        assert forall|i: int, j: int| 0 <= i < x.len() && 0 <= j < x.len() && i != j implies x[i]
            != x[j] by {
            assert((x + y)[i] == x[i]);
            assert((x + y)[j] == x[j]);
        }
        assert forall|i: int, j: int| 0 <= i < y.len() && 0 <= j < y.len() && i != j implies y[i]
            != y[j] by {
            assert((x + y)[x.len() + i] == y[i]);
            assert((x + y)[x.len() + j] == y[j]);
        }
        assert forall|i: int, j: int| 0 <= i < x.len() && 0 <= j < y.len() implies x[i] != y[j] by {
            assert((x + y)[i] == x[i]);
            assert((x + y)[x.len() + j] == y[j]);
        }
    }
    if x.no_duplicates() && y.no_duplicates() && x.disjoint(y) {
        vstd::seq_lib::lemma_no_dup_in_concat(x, y);
    }
}

/// Two sequences share no element exactly when no element of one is
/// contained in the other.
pub proof fn lemma_disjoint_contains<A>(x: Seq<A>, y: Seq<A>)
    ensures
        x.disjoint(y) <==> (forall|v: A| x.contains(v) ==> !y.contains(v)),
{
    if x.disjoint(y) {
        assert forall|v: A| x.contains(v) implies !y.contains(v) by {
            let i = choose|i: int| 0 <= i < x.len() && x[i] == v;
            if y.contains(v) {
                let j = choose|j: int| 0 <= j < y.len() && y[j] == v;
                assert(x[i] != y[j]);
            }
        }
    }
    if forall|v: A| x.contains(v) ==> !y.contains(v) {
        assert forall|i: int, j: int| 0 <= i < x.len() && 0 <= j < y.len() implies x[i] != y[j] by {
            assert(x.contains(x[i]));
            assert(y.contains(y[j]));
        }
    }
}

pub proof fn lemma_concat_contains<A>(x: Seq<A>, y: Seq<A>, v: A)
    ensures
        (x + y).contains(v) <==> (x.contains(v) || y.contains(v)),
{
    if x.contains(v) {
        let i = choose|i: int| 0 <= i < x.len() && x[i] == v;
        assert((x + y)[i] == v);
    }
    if y.contains(v) {
        let i = choose|i: int| 0 <= i < y.len() && y[i] == v;
        assert((x + y)[x.len() + i] == v);
    }
    if (x + y).contains(v) {
        let i = choose|i: int| 0 <= i < (x + y).len() && (x + y)[i] == v;
        if i < x.len() {
            assert(x[i] == v);
        } else {
            assert(y[i - x.len()] == v);
        }
    }
}

/// Splitting a leaf adds exactly the new id beside the reference.
pub proof fn lemma_split_leaf_leaves<S>(
    node: StructureNode<S>,
    reference: GroupId,
    axis: Axis,
    new_first: bool,
    sizing: S,
    new: GroupId,
)
    ensures
        ({
            let (n, found) = node.spec_split_leaf(reference, axis, new_first, sizing, new);
            &&& found <==> node.leaves().contains(reference)
            &&& !found ==> n == node
            &&& found ==> (forall|x: GroupId|
                n.leaves().contains(x) <==> (node.leaves().contains(x) || x == new))
            &&& found ==> n.leaves().len() == node.leaves().len() + 1
            &&& (found && node.leaves().no_duplicates() && !node.leaves().contains(new))
                ==> n.leaves().no_duplicates()
        }),
    decreases node,
{
    let (n, found) = node.spec_split_leaf(reference, axis, new_first, sizing, new);
    match node {
        StructureNode::Leaf(g) => {
            if g == reference {
                assert(StructureNode::<S>::Leaf(new).leaves() == seq![new]);
                assert(StructureNode::<S>::Leaf(g).leaves() == seq![g]);
                if new_first {
                    assert(n.leaves() =~= seq![new, g]);
                } else {
                    assert(n.leaves() =~= seq![g, new]);
                }
                assert(n.leaves().contains(n.leaves()[0]));
                assert(n.leaves().contains(n.leaves()[1]));
            }
            assert(node.leaves() =~= seq![g]);
            if node.leaves().contains(reference) {
                assert(node.leaves()[0] == reference);
            }
        },
        StructureNode::Split { axis: ax, sizing: sz, a, b } => {
            lemma_split_leaf_leaves(*a, reference, axis, new_first, sizing, new);
            lemma_split_leaf_leaves(*b, reference, axis, new_first, sizing, new);
            let (na, fa) = a.spec_split_leaf(reference, axis, new_first, sizing, new);
            let (nb, fb) = b.spec_split_leaf(reference, axis, new_first, sizing, new);
            lemma_concat_contains(a.leaves(), b.leaves(), reference);
            lemma_concat_contains(a.leaves(), b.leaves(), new);
            lemma_concat_no_dup(a.leaves(), b.leaves());
            lemma_disjoint_contains(a.leaves(), b.leaves());
            if fa {
                assert(n.leaves() == na.leaves() + b.leaves());
                lemma_concat_no_dup(na.leaves(), b.leaves());
                lemma_disjoint_contains(na.leaves(), b.leaves());
                assert forall|x: GroupId| n.leaves().contains(x) <==> (node.leaves().contains(x)
                    || x == new) by {
                    lemma_concat_contains(na.leaves(), b.leaves(), x);
                    lemma_concat_contains(a.leaves(), b.leaves(), x);
                }
            } else {
                assert(n.leaves() == a.leaves() + nb.leaves());
                lemma_concat_no_dup(a.leaves(), nb.leaves());
                lemma_disjoint_contains(a.leaves(), nb.leaves());
                assert forall|x: GroupId| fb implies n.leaves().contains(x) <==> (
                node.leaves().contains(x) || x == new) by {
                    lemma_concat_contains(a.leaves(), nb.leaves(), x);
                    lemma_concat_contains(a.leaves(), b.leaves(), x);
                }
            }
        },
    }
}

/// Removing a leaf drops exactly that id, collapsing its parent split.
pub proof fn lemma_remove_leaves<S>(node: StructureNode<S>, group: GroupId)
    ensures
        match node.spec_remove(group) {
            Removal::Gone => node == StructureNode::<S>::Leaf(group) && node.leaves() == seq![group],
            Removal::Kept(n, found) => {
                &&& found <==> node.leaves().contains(group)
                &&& !found ==> n == node
                &&& (found && node.leaves().no_duplicates()) ==> {
                    &&& forall|x: GroupId|
                        n.leaves().contains(x) <==> (node.leaves().contains(x) && x != group)
                    &&& n.leaves().no_duplicates()
                    &&& n.leaves().len() + 1 == node.leaves().len()
                }
            },
        },
    decreases node,
{
    match node {
        StructureNode::Leaf(g) => {
            assert(node.leaves() =~= seq![g]);
            if node.leaves().contains(group) {
                assert(node.leaves()[0] == group);
            }
        },
        StructureNode::Split { axis, sizing, a, b } => {
            lemma_remove_leaves(*a, group);
            lemma_remove_leaves(*b, group);
            lemma_concat_contains(a.leaves(), b.leaves(), group);
            lemma_concat_no_dup(a.leaves(), b.leaves());
            lemma_disjoint_contains(a.leaves(), b.leaves());
            assert(node.leaves() == a.leaves() + b.leaves());
            match a.spec_remove(group) {
                Removal::Gone => {
                    assert(a.leaves().contains(group)) by {
                        assert(a.leaves()[0] == group);
                    }
                    assert forall|x: GroupId| node.leaves().no_duplicates() implies b.leaves().contains(x) <==> (node.leaves().contains(x)
                        && x != group) by {
                        lemma_concat_contains(a.leaves(), b.leaves(), x);
                        if a.leaves().contains(x) {
                            let i = choose|i: int| 0 <= i < a.leaves().len() && a.leaves()[i] == x;
                            assert(a.leaves().len() == 1);
                        }
                    }
                },
                Removal::Kept(na, true) => {
                    let n = StructureNode::Split { axis, sizing, a: Box::new(na), b };
                    assert(n.leaves() == na.leaves() + b.leaves());
                    lemma_concat_no_dup(na.leaves(), b.leaves());
                    lemma_disjoint_contains(na.leaves(), b.leaves());
                    assert forall|x: GroupId| node.leaves().no_duplicates() implies n.leaves().contains(x) <==> (node.leaves().contains(x)
                        && x != group) by {
                        lemma_concat_contains(na.leaves(), b.leaves(), x);
                        lemma_concat_contains(a.leaves(), b.leaves(), x);
                    }
                },
                Removal::Kept(_, false) => {
                    match b.spec_remove(group) {
                        Removal::Gone => {
                            assert(b.leaves().contains(group)) by {
                                assert(b.leaves()[0] == group);
                            }
                            assert forall|x: GroupId| node.leaves().no_duplicates() implies a.leaves().contains(x) <==> (
                            node.leaves().contains(x) && x != group) by {
                                lemma_concat_contains(a.leaves(), b.leaves(), x);
                                if b.leaves().contains(x) {
                                    let i = choose|i: int|
                                        0 <= i < b.leaves().len() && b.leaves()[i] == x;
                                    assert(b.leaves().len() == 1);
                                }
                            }
                        },
                        Removal::Kept(nb, fb) => {
                            let n = StructureNode::Split { axis, sizing, a, b: Box::new(nb) };
                            assert(n.leaves() == a.leaves() + nb.leaves());
                            lemma_concat_no_dup(a.leaves(), nb.leaves());
                            lemma_disjoint_contains(a.leaves(), nb.leaves());
                            assert forall|x: GroupId| fb && node.leaves().no_duplicates() implies n.leaves().contains(x) <==> (
                            node.leaves().contains(x) && x != group) by {
                                lemma_concat_contains(a.leaves(), nb.leaves(), x);
                                lemma_concat_contains(a.leaves(), b.leaves(), x);
                            }
                        },
                    }
                },
            }
        },
    }
}

/// Replace the first leaf `reference` with a split of it and `new`.
fn split_leaf<S: Copy>(
    node: StructureNode<S>,
    reference: GroupId,
    axis: Axis,
    new_first: bool,
    sizing: S,
    new: GroupId,
) -> (r: (StructureNode<S>, bool))
    ensures
        r == node.spec_split_leaf(reference, axis, new_first, sizing, new),
    decreases node,
{
    match node {
        StructureNode::Leaf(g) => {
            if g == reference {
                let (a, b) = if new_first {
                    (StructureNode::Leaf(new), StructureNode::Leaf(g))
                } else {
                    (StructureNode::Leaf(g), StructureNode::Leaf(new))
                };
                (StructureNode::Split { axis, sizing, a: Box::new(a), b: Box::new(b) }, true)
            } else {
                (StructureNode::Leaf(g), false)
            }
        },
        StructureNode::Split { axis: ax, sizing: sz, a, b } => {
            let (na, fa) = split_leaf(*a, reference, axis, new_first, sizing, new);
            if fa {
                (StructureNode::Split { axis: ax, sizing: sz, a: Box::new(na), b }, true)
            } else {
                proof {
                    lemma_split_leaf_leaves(*a, reference, axis, new_first, sizing, new);
                }
                let (nb, fb) = split_leaf(*b, reference, axis, new_first, sizing, new);
                (StructureNode::Split { axis: ax, sizing: sz, a: Box::new(na), b: Box::new(nb) }, fb)
            }
        },
    }
}

/// Remove the first leaf `group`, collapsing its parent split.
fn remove_leaf<S>(node: StructureNode<S>, group: GroupId) -> (r: Removal<S>)
    ensures
        r == node.spec_remove(group),
    decreases node,
{
    match node {
        StructureNode::Leaf(g) => {
            if g == group {
                Removal::Gone
            } else {
                Removal::Kept(StructureNode::Leaf(g), false)
            }
        },
        StructureNode::Split { axis, sizing, a, b } => {
            match remove_leaf(*a, group) {
                Removal::Gone => Removal::Kept(*b, true),
                Removal::Kept(na, true) => Removal::Kept(
                    StructureNode::Split { axis, sizing, a: Box::new(na), b },
                    true,
                ),
                Removal::Kept(na, false) => {
                    proof {
                        lemma_remove_leaves(*a, group);
                    }
                    match remove_leaf(*b, group) {
                        Removal::Gone => Removal::Kept(na, true),
                        Removal::Kept(nb, fb) => Removal::Kept(
                            StructureNode::Split { axis, sizing, a: Box::new(na), b: Box::new(nb) },
                            fb,
                        ),
                    }
                },
            }
        },
    }
}

// ----------------------------------------------------------------------
// The model
// ----------------------------------------------------------------------

/// One group's content as contracts see it: the strip, in display order,
/// and the durable selection.
pub struct GroupView<T> {
    pub tabs: Seq<Tab<T>>,
    pub selected: TabId,
}

/// One group's content: the tab strip and the durable selection (stored by
/// id, so reordering the strip never disturbs it).
#[derive(Debug)]
struct Group<T> {
    id: GroupId,
    tabs: Vec<Tab<T>>,
    selected: TabId,
}

impl<T> Group<T> {
    closed spec fn view(self) -> GroupView<T> {
        GroupView { tabs: self.tabs@, selected: self.selected }
    }
}

/// The group ids of a cluster list's leaves, cluster by cluster,
/// depth-first.
pub open spec fn forest_leaves<S, W>(clusters: Seq<Cluster<S, W>>) -> Seq<GroupId> {
    clusters.map_values(|c: Cluster<S, W>| c.root.leaves()).flatten()
}

/// Whether the strip hosts a tab with id `tab`.
pub open spec fn view_hosts<T>(group: GroupView<T>, tab: TabId) -> bool {
    exists|k: int| 0 <= k < group.tabs.len() && group.tabs[k].tab_id() == tab
}

/// The slot of `tab` in a strip that hosts it.
pub open spec fn view_index_of<T>(group: GroupView<T>, tab: TabId) -> int {
    choose|k: int| 0 <= k < group.tabs.len() && group.tabs[k].tab_id() == tab
}

/// The strip with the tab at `from` moved to final position `to`.
pub open spec fn moved<A>(tabs: Seq<A>, from: int, to: int) -> Seq<A> {
    tabs.remove(from).insert(to, tabs[from])
}

/// The cluster list with the first leaf `group` removed: its parent split
/// collapses into the sibling, and a cluster whose last group leaves is
/// dropped.
pub open spec fn forest_remove<S, W>(clusters: Seq<Cluster<S, W>>, group: GroupId) -> Seq<Cluster<S, W>>
    decreases clusters.len(),
{
    if clusters.len() == 0 {
        clusters
    } else {
        match clusters[0].root.spec_remove(group) {
            Removal::Gone => clusters.drop_first(),
            Removal::Kept(n, true) => seq![Cluster { weight: clusters[0].weight, root: n }]
                + clusters.drop_first(),
            Removal::Kept(_, false) => seq![clusters[0]] + forest_remove(clusters.drop_first(), group),
        }
    }
}

/// The cluster list with the first leaf `reference` split beside a new
/// leaf `new`.
pub open spec fn forest_split<S, W>(
    clusters: Seq<Cluster<S, W>>,
    reference: GroupId,
    axis: Axis,
    new_first: bool,
    sizing: S,
    new: GroupId,
) -> Seq<Cluster<S, W>>
    decreases clusters.len(),
{
    if clusters.len() == 0 {
        clusters
    } else {
        let (n, found) = clusters[0].root.spec_split_leaf(reference, axis, new_first, sizing, new);
        if found {
            seq![Cluster { weight: clusters[0].weight, root: n }] + clusters.drop_first()
        } else {
            seq![clusters[0]] + forest_split(clusters.drop_first(), reference, axis, new_first, sizing, new)
        }
    }
}

/// The whole window's group layout model.
#[derive(Debug)]
pub struct GroupLayout<T, S, W> {
    clusters: Vec<Cluster<S, W>>,
    /// Group content; each group's id is one tree leaf.
    groups: Vec<Group<T>>,
}

closed spec fn group_index<T>(gs: Seq<Group<T>>, g: GroupId) -> int {
    choose|i: int| 0 <= i < gs.len() && gs[i].id == g
}

closed spec fn content_of<T>(gs: Seq<Group<T>>) -> Map<GroupId, GroupView<T>> {
    Map::new(
        |g: GroupId| exists|i: int| 0 <= i < gs.len() && gs[i].id == g,
        |g: GroupId| gs[group_index(gs, g)].view(),
    )
}

closed spec fn distinct_ids<T>(gs: Seq<Group<T>>) -> bool {
    forall|i: int, j: int| 0 <= i < gs.len() && 0 <= j < gs.len() && i != j ==> gs[i].id != gs[j].id
}

proof fn lemma_content_index<T>(gs: Seq<Group<T>>, i: int)
    requires
        distinct_ids(gs),
        0 <= i < gs.len(),
    ensures
        group_index(gs, gs[i].id) == i,
        content_of(gs).contains_key(gs[i].id),
        content_of(gs)[gs[i].id] == gs[i].view(),
{
    let w = gs[i].id;
    assert(0 <= i && i < gs.len() && gs[i].id == w);
    assert(exists|j: int| 0 <= j && j < gs.len() && gs[j].id == w);
}

proof fn lemma_content_update<T>(gs: Seq<Group<T>>, i: int, x: Group<T>)
    requires
        distinct_ids(gs),
        0 <= i < gs.len(),
        x.id == gs[i].id,
    ensures
        distinct_ids(gs.update(i, x)),
        content_of(gs.update(i, x)) =~= content_of(gs).insert(x.id, x.view()),
{
    let ns = gs.update(i, x);
    assert forall|g: GroupId| content_of(ns).contains_key(g) <==> content_of(gs).insert(x.id, x.view()).contains_key(g) by {
        if exists|j: int| 0 <= j < gs.len() && gs[j].id == g {
            let j = choose|j: int| 0 <= j < gs.len() && gs[j].id == g;
            assert(ns[j].id == g);
        }
        if exists|j: int| 0 <= j < ns.len() && ns[j].id == g {
            let j = choose|j: int| 0 <= j < ns.len() && ns[j].id == g;
            assert(gs[j].id == g);
        }
    }
    assert forall|g: GroupId| #[trigger] content_of(ns).contains_key(g) implies content_of(ns)[g]
        == content_of(gs).insert(x.id, x.view())[g] by {
        let j = choose|j: int| 0 <= j < ns.len() && ns[j].id == g;
        lemma_content_index(ns, j);
        if j != i {
            lemma_content_index(gs, j);
        }
    }
}

proof fn lemma_content_push<T>(gs: Seq<Group<T>>, x: Group<T>)
    requires
        distinct_ids(gs),
        !content_of(gs).contains_key(x.id),
    ensures
        distinct_ids(gs.push(x)),
        content_of(gs.push(x)) =~= content_of(gs).insert(x.id, x.view()),
{
    let ns = gs.push(x);
    assert forall|j: int| 0 <= j < gs.len() implies gs[j].id != x.id by {
        if gs[j].id == x.id {
            assert(content_of(gs).contains_key(x.id));
        }
    }
    assert forall|g: GroupId| content_of(ns).contains_key(g) <==> content_of(gs).insert(x.id, x.view()).contains_key(g) by {
        if exists|j: int| 0 <= j < gs.len() && gs[j].id == g {
            let j = choose|j: int| 0 <= j < gs.len() && gs[j].id == g;
            assert(ns[j].id == g);
        }
        if g == x.id {
            assert(ns[gs.len() as int].id == g);
        }
        if exists|j: int| 0 <= j < ns.len() && ns[j].id == g {
            let j = choose|j: int| 0 <= j < ns.len() && ns[j].id == g;
            if j < gs.len() {
                assert(gs[j].id == g);
            }
        }
    }
    assert forall|g: GroupId| #[trigger] content_of(ns).contains_key(g) implies content_of(ns)[g]
        == content_of(gs).insert(x.id, x.view())[g] by {
        let j = choose|j: int| 0 <= j < ns.len() && ns[j].id == g;
        lemma_content_index(ns, j);
        if j < gs.len() {
            lemma_content_index(gs, j);
        }
    }
}

proof fn lemma_content_remove<T>(gs: Seq<Group<T>>, i: int)
    requires
        distinct_ids(gs),
        0 <= i < gs.len(),
    ensures
        distinct_ids(gs.remove(i)),
        content_of(gs.remove(i)) =~= content_of(gs).remove(gs[i].id),
{
    let ns = gs.remove(i);
    assert forall|a: int, b: int| 0 <= a < ns.len() && 0 <= b < ns.len() && a != b implies ns[a].id
        != ns[b].id by {
        let a2 = if a < i { a } else { a + 1 };
        let b2 = if b < i { b } else { b + 1 };
        assert(ns[a] == gs[a2]);
        assert(ns[b] == gs[b2]);
    }
    assert forall|g: GroupId| content_of(ns).contains_key(g) <==> content_of(gs).remove(gs[i].id).contains_key(g) by {
        if exists|j: int| 0 <= j < gs.len() && gs[j].id == g && g != gs[i].id {
            let j = choose|j: int| 0 <= j < gs.len() && gs[j].id == g && g != gs[i].id;
            if j < i {
                assert(ns[j].id == g);
            } else {
                assert(ns[j - 1].id == g);
            }
        }
        if exists|j: int| 0 <= j < ns.len() && ns[j].id == g {
            let j = choose|j: int| 0 <= j < ns.len() && ns[j].id == g;
            let j2 = if j < i { j } else { j + 1 };
            assert(gs[j2].id == g);
        }
    }
    assert forall|g: GroupId| #[trigger] content_of(ns).contains_key(g) implies content_of(ns)[g]
        == content_of(gs).remove(gs[i].id)[g] by {
        let j = choose|j: int| 0 <= j < ns.len() && ns[j].id == g;
        lemma_content_index(ns, j);
        let j2 = if j < i { j } else { j + 1 };
        assert(ns[j] == gs[j2]);
        lemma_content_index(gs, j2);
    }
}

impl<T, S, W> GroupLayout<T, S, W> {
    /// The split forest, cluster by cluster.
    pub closed spec fn clusters_view(self) -> Seq<Cluster<S, W>> {
        self.clusters@
    }

    /// Each group's content, keyed by the id its tree leaf carries.
    pub closed spec fn content(self) -> Map<GroupId, GroupView<T>> {
        content_of(self.groups@)
    }

    /// Every group id, cluster by cluster, depth-first.
    pub open spec fn leaves(self) -> Seq<GroupId> {
        forest_leaves(self.clusters_view())
    }

    /// Whether some group hosts a tab with id `tab`.
    pub open spec fn hosts_tab(self, tab: TabId) -> bool {
        exists|g: GroupId| self.content().contains_key(g) && view_hosts(self.content()[g], tab)
    }

    /// The group hosting `tab`.
    pub open spec fn owner(self, tab: TabId) -> GroupId {
        choose|g: GroupId| self.content().contains_key(g) && view_hosts(self.content()[g], tab)
    }

    /// Whether some hosted tab is bound to `binding`.
    pub open spec fn hosts_binding(self, binding: T) -> bool {
        exists|g: GroupId, k: int|
            self.content().contains_key(g) && 0 <= k < self.content()[g].tabs.len()
                && self.content()[g].tabs[k].tab_binding() == Some(binding)
    }

    /// Whether `tab` may enter the model as a new occurrence: neither its id
    /// nor its binding is hosted yet.
    pub open spec fn admissible(self, tab: Tab<T>) -> bool {
        &&& !self.hosts_tab(tab.tab_id())
        &&& tab.tab_binding() matches Some(b) ==> !self.hosts_binding(b)
    }

    /// The model invariants.
    pub closed spec fn wf(self) -> bool {
        let gs = self.groups@;
        &&& distinct_ids(gs)
        &&& strips_ok(gs)
        &&& ids_unique(gs)
        &&& bindings_unique(gs)
        &&& self.leaves().no_duplicates()
        &&& forall|g: GroupId| self.leaves().contains(g) <==> exists|i: int| 0 <= i < gs.len() && gs[i].id == g
    }
}

closed spec fn slot_ok<T>(gs: Seq<Group<T>>, i: int, k: int) -> bool {
    0 <= i < gs.len() && 0 <= k < gs[i].tabs@.len()
}

/// Every strip is non-empty and selects one of its own tabs.
closed spec fn strips_ok<T>(gs: Seq<Group<T>>) -> bool {
    &&& forall|i: int| 0 <= i < gs.len() ==> #[trigger] gs[i].tabs@.len() > 0
    &&& forall|i: int| 0 <= i < gs.len() ==> view_hosts(#[trigger] gs[i].view(), gs[i].selected)
}

/// Every tab id occurs exactly once across all strips.
closed spec fn ids_unique<T>(gs: Seq<Group<T>>) -> bool {
    forall|i1: int, k1: int, i2: int, k2: int|
        slot_ok(gs, i1, k1) && slot_ok(gs, i2, k2) && (i1 != i2 || k1 != k2)
            ==> #[trigger] gs[i1].tabs@[k1].tab_id() != #[trigger] gs[i2].tabs@[k2].tab_id()
}

/// Every live binding occurs exactly once across all strips.
closed spec fn bindings_unique<T>(gs: Seq<Group<T>>) -> bool {
    forall|i1: int, k1: int, i2: int, k2: int|
        slot_ok(gs, i1, k1) && slot_ok(gs, i2, k2) && (i1 != i2 || k1 != k2)
            && (#[trigger] gs[i1].tabs@[k1].tab_binding()) is Some
            ==> gs[i1].tabs@[k1].tab_binding() != #[trigger] gs[i2].tabs@[k2].tab_binding()
}

/// Uniqueness carries over to strips rebuilt from old slots (`m`, injective)
/// plus at most one `fresh` slot whose id and binding the old strips lack.
proof fn lemma_transfer_unique<T>(
    old: Seq<Group<T>>,
    new: Seq<Group<T>>,
    m: spec_fn(int, int) -> (int, int),
    fresh: Option<(int, int)>,
)
    requires
        ids_unique(old),
        bindings_unique(old),
        forall|i: int, k: int|
            slot_ok(new, i, k) && fresh != Some((i, k)) ==> {
                let (oi, ok) = #[trigger] m(i, k);
                &&& slot_ok(old, oi, ok)
                &&& new[i].tabs@[k] == old[oi].tabs@[ok]
            },
        forall|i1: int, k1: int, i2: int, k2: int|
            slot_ok(new, i1, k1) && slot_ok(new, i2, k2) && (i1 != i2 || k1 != k2) && fresh != Some(
                (i1, k1),
            ) && fresh != Some((i2, k2)) ==> #[trigger] m(i1, k1) != #[trigger] m(i2, k2),
        fresh matches Some((fi, fk)) ==> {
            &&& slot_ok(new, fi, fk)
            &&& forall|i: int, k: int|
                slot_ok(old, i, k) ==> old[i].tabs@[k].tab_id() != new[fi].tabs@[fk].tab_id()
            &&& forall|i: int, k: int|
                slot_ok(old, i, k) && new[fi].tabs@[fk].tab_binding() is Some
                    ==> old[i].tabs@[k].tab_binding() != new[fi].tabs@[fk].tab_binding()
        },
    ensures
        ids_unique(new),
        bindings_unique(new),
{
    assert forall|i1: int, k1: int, i2: int, k2: int|
        slot_ok(new, i1, k1) && slot_ok(new, i2, k2) && (i1 != i2 || k1 != k2) implies
        #[trigger] new[i1].tabs@[k1].tab_id() != #[trigger] new[i2].tabs@[k2].tab_id() by {
        if fresh == Some((i1, k1)) {
            let (o2, p2) = m(i2, k2);
            assert(slot_ok(old, o2, p2));
        } else if fresh == Some((i2, k2)) {
            let (o1, p1) = m(i1, k1);
            assert(slot_ok(old, o1, p1));
        } else {
            let (o1, p1) = m(i1, k1);
            let (o2, p2) = m(i2, k2);
            assert(m(i1, k1) != m(i2, k2));
            assert(slot_ok(old, o1, p1) && slot_ok(old, o2, p2));
            assert(old[o1].tabs@[p1].tab_id() != old[o2].tabs@[p2].tab_id());
        }
    }
    assert forall|i1: int, k1: int, i2: int, k2: int|
        slot_ok(new, i1, k1) && slot_ok(new, i2, k2) && (i1 != i2 || k1 != k2)
            && (#[trigger] new[i1].tabs@[k1].tab_binding()) is Some implies
        new[i1].tabs@[k1].tab_binding() != #[trigger] new[i2].tabs@[k2].tab_binding() by {
        if fresh == Some((i1, k1)) {
            let (o2, p2) = m(i2, k2);
            assert(slot_ok(old, o2, p2));
        } else if fresh == Some((i2, k2)) {
            let (o1, p1) = m(i1, k1);
            assert(slot_ok(old, o1, p1));
        } else {
            let (o1, p1) = m(i1, k1);
            let (o2, p2) = m(i2, k2);
            assert(m(i1, k1) != m(i2, k2));
            assert(slot_ok(old, o1, p1) && slot_ok(old, o2, p2));
            assert(old[o1].tabs@[p1].tab_binding() != old[o2].tabs@[p2].tab_binding());
        }
    }
}

/// Spec equality of two values, for types whose `==` is plain value
/// equality.
pub(crate) fn same_binding<T: PartialEq>(x: &T, y: &T) -> (r: bool)
    requires
        vstd::laws_eq::obeys_concrete_eq::<T>(),
    ensures
        r == (*x == *y),
{
    proof {
        reveal(vstd::laws_eq::obeys_concrete_eq);
    }
    *x == *y
}

impl<T: PartialEq, S, W> GroupLayout<T, S, W> {
    /// A hosted tab's owner and slot, read through the content map.
    proof fn lemma_locate(self, i: int, k: int)
        requires
            self.wf(),
            0 <= i < self.groups@.len(),
            0 <= k < self.groups@[i].tabs@.len(),
        ensures
            self.hosts_tab(self.groups@[i].tabs@[k].tab_id()),
            self.owner(self.groups@[i].tabs@[k].tab_id()) == self.groups@[i].id,
            self.content().contains_key(self.groups@[i].id),
            self.content()[self.groups@[i].id] == self.groups@[i].view(),
            view_index_of(self.content()[self.groups@[i].id], self.groups@[i].tabs@[k].tab_id()) == k,
    {
        let gs = self.groups@;
        let t = gs[i].tabs@[k].tab_id();
        lemma_content_index(gs, i);
        assert(view_hosts(self.content()[gs[i].id], t));
        let g = self.owner(t);
        let j = choose|j: int| 0 <= j < gs.len() && gs[j].id == g;
        lemma_content_index(gs, j);
        let k2 = choose|k2: int| 0 <= k2 < gs[j].tabs@.len() && gs[j].tabs@[k2].tab_id() == t;
        assert(slot_ok(gs, i, k) && slot_ok(gs, j, k2));
        assert(j == i && k2 == k);
        let k3 = view_index_of(self.content()[gs[i].id], t);
        assert(slot_ok(gs, i, k3));
        assert(gs[i].tabs@[k3].tab_id() == t);
    }

    /// An id no strip carries is not hosted.
    proof fn lemma_not_hosted(self, t: TabId)
        requires
            self.wf(),
            forall|i: int, k: int|
                0 <= i < self.groups@.len() && 0 <= k < self.groups@[i].tabs@.len()
                    ==> self.groups@[i].tabs@[k].tab_id() != t,
        ensures
            !self.hosts_tab(t),
    {
        let gs = self.groups@;
        if self.hosts_tab(t) {
            let g = self.owner(t);
            let j = choose|j: int| 0 <= j < gs.len() && gs[j].id == g;
            lemma_content_index(gs, j);
            let k = choose|k: int| 0 <= k < gs[j].tabs@.len() && gs[j].tabs@[k].tab_id() == t;
            assert(gs[j].tabs@[k].tab_id() == t);
        }
    }

    /// Whether a binding is hosted, read at the strips.
    proof fn lemma_hosts_binding(self, b: T)
        requires
            self.wf(),
        ensures
            self.hosts_binding(b) <==> exists|i: int, k: int|
                0 <= i < self.groups@.len() && 0 <= k < self.groups@[i].tabs@.len()
                    && self.groups@[i].tabs@[k].tab_binding() == Some(b),
    {
        let gs = self.groups@;
        if self.hosts_binding(b) {
            let (g, k) = choose|g: GroupId, k: int|
                self.content().contains_key(g) && 0 <= k < self.content()[g].tabs.len()
                    && self.content()[g].tabs[k].tab_binding() == Some(b);
            let j = choose|j: int| 0 <= j < gs.len() && gs[j].id == g;
            lemma_content_index(gs, j);
            assert(gs[j].tabs@[k].tab_binding() == Some(b));
        }
        if exists|i: int, k: int|
            0 <= i < self.groups@.len() && 0 <= k < self.groups@[i].tabs@.len()
                && self.groups@[i].tabs@[k].tab_binding() == Some(b) {
            let (i, k) = choose|i: int, k: int|
                0 <= i < self.groups@.len() && 0 <= k < self.groups@[i].tabs@.len()
                    && self.groups@[i].tabs@[k].tab_binding() == Some(b);
            lemma_content_index(gs, i);
            assert(self.content()[gs[i].id].tabs[k].tab_binding() == Some(b));
        }
    }

    /// The index of the group with id `g`.
    fn find_group(&self, g: GroupId) -> (r: Option<usize>)
        requires
            self.wf(),
        ensures
            match r {
                Some(i) => i < self.groups@.len() && self.groups@[i as int].id == g,
                None => !self.content().contains_key(g),
            },
            self.content().contains_key(g) <==> r is Some,
    {
        let mut i: usize = 0;
        while i < self.groups.len()
            invariant
                self.wf(),
                i <= self.groups@.len(),
                forall|j: int| 0 <= j < i ==> self.groups@[j].id != g,
            decreases self.groups@.len() - i,
        {
            if self.groups[i].id == g {
                proof {
                    lemma_content_index(self.groups@, i as int);
                }
                return Some(i);
            }
            i += 1;
        }
        None
    }

    /// The (group index, slot) of the tab with id `t`.
    fn find_tab(&self, t: TabId) -> (r: Option<(usize, usize)>)
        requires
            self.wf(),
        ensures
            match r {
                Some((i, k)) => {
                    &&& i < self.groups@.len()
                    &&& k < self.groups@[i as int].tabs@.len()
                    &&& self.groups@[i as int].tabs@[k as int].tab_id() == t
                },
                None => !self.hosts_tab(t),
            },
            self.hosts_tab(t) <==> r is Some,
    {
        let mut i: usize = 0;
        while i < self.groups.len()
            invariant
                self.wf(),
                i <= self.groups@.len(),
                forall|a: int, k: int|
                    0 <= a < i && 0 <= k < self.groups@[a].tabs@.len()
                        ==> self.groups@[a].tabs@[k].tab_id() != t,
            decreases self.groups@.len() - i,
        {
            let mut k: usize = 0;
            while k < self.groups[i].tabs.len()
                invariant
                    self.wf(),
                    i < self.groups@.len(),
                    k <= self.groups@[i as int].tabs@.len(),
                    forall|b: int| 0 <= b < k ==> self.groups@[i as int].tabs@[b].tab_id() != t,
                decreases self.groups@[i as int].tabs@.len() - k,
            {
                if self.groups[i].tabs[k].id == t {
                    proof {
                        self.lemma_locate(i as int, k as int);
                    }
                    return Some((i, k));
                }
                k += 1;
            }
            i += 1;
        }
        proof {
            self.lemma_not_hosted(t);
        }
        None
    }

    /// Whether a hosted tab other than `except` is bound to `binding`.
    fn binding_taken(&self, binding: &T, except: Option<TabId>) -> (r: bool)
        requires
            self.wf(),
            vstd::laws_eq::obeys_concrete_eq::<T>(),
        ensures
            r == exists|i: int, k: int|
                slot_ok(self.groups@, i, k) && self.groups@[i].tabs@[k].tab_binding() == Some(*binding)
                    && Some(self.groups@[i].tabs@[k].tab_id()) != except,
    {
        let mut i: usize = 0;
        while i < self.groups.len()
            invariant
                self.wf(),
                i <= self.groups@.len(),
                vstd::laws_eq::obeys_concrete_eq::<T>(),
                forall|a: int, k: int|
                    slot_ok(self.groups@, a, k) && a < i ==> !(self.groups@[a].tabs@[k].tab_binding()
                        == Some(*binding) && Some(self.groups@[a].tabs@[k].tab_id()) != except),
            decreases self.groups@.len() - i,
        {
            let mut k: usize = 0;
            while k < self.groups[i].tabs.len()
                invariant
                    self.wf(),
                    vstd::laws_eq::obeys_concrete_eq::<T>(),
                    i < self.groups@.len(),
                    k <= self.groups@[i as int].tabs@.len(),
                    forall|a: int, k: int|
                        slot_ok(self.groups@, a, k) && a < i ==> !(
                        self.groups@[a].tabs@[k].tab_binding() == Some(*binding) && Some(
                            self.groups@[a].tabs@[k].tab_id(),
                        ) != except),
                    forall|b: int|
                        0 <= b < k ==> !(self.groups@[i as int].tabs@[b].tab_binding() == Some(
                            *binding,
                        ) && Some(self.groups@[i as int].tabs@[b].tab_id()) != except),
                decreases self.groups@[i as int].tabs@.len() - k,
            {
                let tab = &self.groups[i].tabs[k];
                if let Some(b) = &tab.binding {
                    if same_binding(b, binding) && Some(tab.id) != except {
                        proof {
                            assert(slot_ok(self.groups@, i as int, k as int));
                        }
                        return true;
                    }
                }
                k += 1;
            }
            i += 1;
        }
        false
    }

    /// Whether `tab` may enter the model as a new occurrence.
    fn is_admissible(&self, tab: &Tab<T>) -> (r: bool)
        requires
            self.wf(),
            vstd::laws_eq::obeys_concrete_eq::<T>(),
        ensures
            r == self.admissible(*tab),
    {
        if self.find_tab(tab.id).is_some() {
            return false;
        }
        proof {
            if tab.tab_binding() is Some {
                self.lemma_hosts_binding(tab.tab_binding()->0);
            }
        }
        match &tab.binding {
            Some(b) => !self.binding_taken(b, None),
            None => true,
        }
    }
}

impl<T, S, W> Default for GroupLayout<T, S, W> {
    /// An empty model.
    fn default() -> (r: Self)
        ensures
            r.wf(),
            r.content() == Map::<GroupId, GroupView<T>>::empty(),
            r.clusters_view() == Seq::<Cluster<S, W>>::empty(),
    {
        let r = GroupLayout { clusters: Vec::new(), groups: Vec::new() };
        proof {
            assert(r.content() =~= Map::<GroupId, GroupView<T>>::empty());
            assert(r.leaves() =~= Seq::<GroupId>::empty());
        }
        r
    }
}

impl<T: Copy + PartialEq, S, W> GroupLayout<T, S, W> {
    /// An empty model (the window renders its empty connect state).
    pub fn new() -> (r: Self)
        ensures
            r.wf(),
            r.content() == Map::<GroupId, GroupView<T>>::empty(),
            r.clusters_view() == Seq::<Cluster<S, W>>::empty(),
    {
        let r = GroupLayout { clusters: Vec::new(), groups: Vec::new() };
        proof {
            assert(r.content() =~= Map::<GroupId, GroupView<T>>::empty());
            assert(r.leaves() =~= Seq::<GroupId>::empty());
        }
        r
    }

    pub fn is_empty(&self) -> (r: bool)
        ensures
            r == (self.clusters_view().len() == 0),
    {
        self.clusters.len() == 0
    }

    pub fn contains_group(&self, group: GroupId) -> (r: bool)
        requires
            self.wf(),
        ensures
            r == self.content().contains_key(group),
    {
        self.find_group(group).is_some()
    }

    /// Whether `tab` is hosted anywhere in this model.
    pub fn contains_tab(&self, tab: TabId) -> (r: bool)
        requires
            self.wf(),
        ensures
            r == self.hosts_tab(tab),
    {
        self.find_tab(tab).is_some()
    }

    /// Whether any tab in this model is bound to `binding`.
    pub fn contains_binding(&self, binding: T) -> (r: bool)
        requires
            self.wf(),
            vstd::laws_eq::obeys_concrete_eq::<T>(),
        ensures
            r == self.hosts_binding(binding),
    {
        proof {
            self.lemma_hosts_binding(binding);
        }
        self.binding_taken(&binding, None)
    }

    /// The group hosting `tab`.
    pub fn group_of(&self, tab: TabId) -> (r: Option<GroupId>)
        requires
            self.wf(),
        ensures
            r == if self.hosts_tab(tab) {
                Some(self.owner(tab))
            } else {
                None
            },
    {
        match self.find_tab(tab) {
            Some((i, k)) => {
                proof {
                    self.lemma_locate(i as int, k as int);
                }
                Some(self.groups[i].id)
            },
            None => None,
        }
    }

    /// The group's durably selected tab.
    pub fn selected(&self, group: GroupId) -> (r: Option<TabId>)
        requires
            self.wf(),
        ensures
            r == if self.content().contains_key(group) {
                Some(self.content()[group].selected)
            } else {
                None
            },
    {
        match self.find_group(group) {
            Some(i) => {
                proof {
                    lemma_content_index(self.groups@, i as int);
                }
                Some(self.groups[i].selected)
            },
            None => None,
        }
    }

    /// The group's tab strip, in display order.
    pub fn tabs(&self, group: GroupId) -> (r: Option<&[Tab<T>]>)
        requires
            self.wf(),
        ensures
            match r {
                Some(tabs) => self.content().contains_key(group) && tabs@ == self.content()[group].tabs,
                None => !self.content().contains_key(group),
            },
    {
        match self.find_group(group) {
            Some(i) => {
                proof {
                    lemma_content_index(self.groups@, i as int);
                }
                Some(self.groups[i].tabs.as_slice())
            },
            None => None,
        }
    }

    /// One tab by id.
    pub fn tab(&self, tab: TabId) -> (r: Option<&Tab<T>>)
        requires
            self.wf(),
        ensures
            match r {
                Some(t) => self.hosts_tab(tab) && *t == self.tab_of(tab) && t.tab_id() == tab,
                None => !self.hosts_tab(tab),
            },
    {
        match self.find_tab(tab) {
            Some((i, k)) => {
                proof {
                    self.lemma_locate(i as int, k as int);
                    self.lemma_owner_slot(tab);
                }
                Some(&self.groups[i].tabs[k])
            },
            None => None,
        }
    }

    /// Every group id, cluster by cluster, depth-first — the deterministic
    /// model order.
    pub fn groups_depth_first(&self) -> (r: Vec<GroupId>)
        ensures
            r@ == self.leaves(),
    {
        let mut out: Vec<GroupId> = Vec::new();
        let mut i: usize = 0;
        while i < self.clusters.len()
            invariant
                i <= self.clusters@.len(),
                out@ == forest_leaves(self.clusters@.take(i as int)),
            decreases self.clusters@.len() - i,
        {
            collect_into(&self.clusters[i].root, &mut out);
            proof {
                let cs = self.clusters@;
                assert(cs.take(i + 1) == cs.take(i as int).push(cs[i as int]));
                let f = |c: Cluster<S, W>| c.root.leaves();
                assert(cs.take(i + 1).map_values(f) == cs.take(i as int).map_values(f).push(
                    cs[i as int].root.leaves(),
                ));
                cs.take(i as int).map_values(f).lemma_flatten_push(cs[i as int].root.leaves());
            }
            i += 1;
        }
        proof {
            assert(self.clusters@.take(self.clusters@.len() as int) == self.clusters@);
        }
        out
    }
}

/// Append the subtree's leaves, depth-first.
fn collect_into<S>(node: &StructureNode<S>, out: &mut Vec<GroupId>)
    ensures
        final(out)@ == old(out)@ + node.leaves(),
    decreases node,
{
    match node {
        StructureNode::Leaf(g) => {
            out.push(*g);
            proof {
                assert(node.leaves() == seq![*g]);
            }
        },
        StructureNode::Split { a, b, .. } => {
            collect_into(a, out);
            collect_into(b, out);
            proof {
                assert(node.leaves() == a.leaves() + b.leaves());
            }
        },
    }
}

/// Slot `k` of strip `i` after tab `from` moved to final position `to`
/// came from this old slot.
spec fn moved_source(k: int, from: int, to: int) -> int {
    if k == to {
        from
    } else {
        let r = if k < to { k } else { k - 1 };
        if r < from { r } else { r + 1 }
    }
}

/// Old slot `p` lands here after tab `from` moved to final position `to`.
spec fn moved_target(p: int, from: int, to: int) -> int {
    if p == from {
        to
    } else {
        let r = if p < from { p } else { p - 1 };
        if r < to { r } else { r + 1 }
    }
}

proof fn lemma_moved<A>(tabs: Seq<A>, from: int, to: int)
    requires
        0 <= from < tabs.len(),
        0 <= to < tabs.len(),
    ensures
        moved(tabs, from, to).len() == tabs.len(),
        forall|k: int| 0 <= k < tabs.len() ==> 0 <= #[trigger] moved_source(k, from, to) < tabs.len()
            && moved(tabs, from, to)[k] == tabs[moved_source(k, from, to)],
        forall|p: int| 0 <= p < tabs.len() ==> 0 <= #[trigger] moved_target(p, from, to) < tabs.len()
            && moved(tabs, from, to)[moved_target(p, from, to)] == tabs[p],
        forall|k1: int, k2: int|
            0 <= k1 < tabs.len() && 0 <= k2 < tabs.len() && k1 != k2 ==> #[trigger] moved_source(k1, from, to)
                != #[trigger] moved_source(k2, from, to),
{
}

/// The strip with slots `x` and `y` exchanged.
pub open spec fn swapped<A>(tabs: Seq<A>, x: int, y: int) -> Seq<A> {
    tabs.update(x, tabs[y]).update(y, tabs[x])
}

/// The selection after two tabs exchanged slots: it follows the slot.
pub open spec fn flip_selection(selected: TabId, a: TabId, b: TabId) -> TabId {
    if selected == a {
        b
    } else if selected == b {
        a
    } else {
        selected
    }
}

impl<T: PartialEq, S, W> GroupLayout<T, S, W> {
    /// The content after tabs `a` and `b` exchange their exact strip slots;
    /// each group's selection follows the slot.
    pub open spec fn content_after_swap(self, a: TabId, b: TabId) -> Map<GroupId, GroupView<T>> {
        let oa = self.owner(a);
        let ob = self.owner(b);
        let va = self.content()[oa];
        let vb = self.content()[ob];
        let sa = self.slot_of(a);
        let sb = self.slot_of(b);
        if oa == ob {
            self.content().insert(oa, GroupView { tabs: swapped(va.tabs, sa, sb), selected: flip_selection(va.selected, a, b) })
        } else {
            self.content().insert(
                oa,
                GroupView { tabs: va.tabs.update(sa, vb.tabs[sb]), selected: flip_selection(va.selected, a, b) },
            ).insert(ob, GroupView { tabs: vb.tabs.update(sb, va.tabs[sa]), selected: flip_selection(vb.selected, a, b) })
        }
    }

    /// The content of the group hosting `tab`.
    pub open spec fn owner_view(self, tab: TabId) -> GroupView<T> {
        self.content()[self.owner(tab)]
    }

    /// The slot of `tab` in its group's strip.
    pub open spec fn slot_of(self, tab: TabId) -> int {
        view_index_of(self.owner_view(tab), tab)
    }

    /// The hosted tab with id `tab`.
    pub open spec fn tab_of(self, tab: TabId) -> Tab<T> {
        self.owner_view(tab).tabs[self.slot_of(tab)]
    }

    /// `self` is `before` with the hosted tab `tab` rebound to `binding`:
    /// the structure, every other group, the owner's selection and every
    /// other slot of its strip are as they were, and the slot of `tab` holds
    /// a tab with id `tab` and binding `binding`.
    pub open spec fn rebound_from(self, before: Self, tab: TabId, binding: Option<T>) -> bool {
        let g = before.owner(tab);
        let k = before.slot_of(tab);
        &&& self.clusters_view() == before.clusters_view()
        &&& self.content().dom() == before.content().dom()
        &&& forall|h: GroupId| #[trigger] self.content().contains_key(h) && h != g
            ==> self.content()[h] == before.content()[h]
        &&& self.content()[g].selected == before.content()[g].selected
        &&& self.content()[g].tabs.len() == before.content()[g].tabs.len()
        &&& forall|j: int| 0 <= j < before.content()[g].tabs.len() && j != k
            ==> #[trigger] self.content()[g].tabs[j] == before.content()[g].tabs[j]
        &&& self.content()[g].tabs[k].tab_id() == tab
        &&& self.content()[g].tabs[k].tab_binding() == binding
    }

    /// Whether a hosted tab other than `tab` is bound to `binding`.
    pub open spec fn bound_elsewhere(self, binding: T, tab: TabId) -> bool {
        exists|g: GroupId, k: int|
            self.content().contains_key(g) && 0 <= k < self.content()[g].tabs.len()
                && self.content()[g].tabs[k].tab_binding() == Some(binding)
                && self.content()[g].tabs[k].tab_id() != tab
    }

    proof fn lemma_bound_elsewhere(self, b: T, tab: TabId)
        requires
            self.wf(),
        ensures
            self.bound_elsewhere(b, tab) <==> exists|i: int, k: int|
                slot_ok(self.groups@, i, k) && self.groups@[i].tabs@[k].tab_binding() == Some(b)
                    && Some(self.groups@[i].tabs@[k].tab_id()) != Some(tab),
    {
        let gs = self.groups@;
        if self.bound_elsewhere(b, tab) {
            let (g, k) = choose|g: GroupId, k: int|
                self.content().contains_key(g) && 0 <= k < self.content()[g].tabs.len()
                    && self.content()[g].tabs[k].tab_binding() == Some(b)
                    && self.content()[g].tabs[k].tab_id() != tab;
            let j = choose|j: int| 0 <= j < gs.len() && gs[j].id == g;
            lemma_content_index(gs, j);
            assert(slot_ok(gs, j, k));
        }
        if exists|i: int, k: int|
            slot_ok(gs, i, k) && gs[i].tabs@[k].tab_binding() == Some(b) && Some(gs[i].tabs@[k].tab_id())
                != Some(tab) {
            let (i, k) = choose|i: int, k: int|
                slot_ok(gs, i, k) && gs[i].tabs@[k].tab_binding() == Some(b) && Some(
                    gs[i].tabs@[k].tab_id(),
                ) != Some(tab);
            lemma_content_index(gs, i);
            assert(self.content()[gs[i].id].tabs[k].tab_binding() == Some(b));
        }
    }

    /// A model whose clusters and per-index group ids are unchanged keeps
    /// the tree/content correspondence.
    proof fn lemma_wf_same_ids(old: Self, new: Self)
        requires
            old.wf(),
            new.clusters@ == old.clusters@,
            new.groups@.len() == old.groups@.len(),
            forall|i: int| 0 <= i < new.groups@.len() ==> #[trigger] new.groups@[i].id == old.groups@[i].id,
            strips_ok(new.groups@),
            ids_unique(new.groups@),
            bindings_unique(new.groups@),
        ensures
            new.wf(),
    {
        let gs = new.groups@;
        let os = old.groups@;
        assert(distinct_ids(gs)) by {
            assert forall|i: int, j: int| 0 <= i < gs.len() && 0 <= j < gs.len() && i != j implies gs[i].id
                != gs[j].id by {
                assert(gs[i].id == os[i].id);
                assert(gs[j].id == os[j].id);
            }
        }
        assert forall|g: GroupId| new.leaves().contains(g) <==> exists|i: int| 0 <= i < gs.len() && gs[i].id == g by {
            if exists|i: int| 0 <= i < gs.len() && gs[i].id == g {
                let i = choose|i: int| 0 <= i < gs.len() && gs[i].id == g;
                assert(os[i].id == g);
            }
            if exists|i: int| 0 <= i < os.len() && os[i].id == g {
                let i = choose|i: int| 0 <= i < os.len() && os[i].id == g;
                assert(gs[i].id == g);
            }
        }
    }
}

impl<T: Copy + PartialEq, S, W> GroupLayout<T, S, W> {
    /// Make `tab` its group's durable selection.
    pub fn select(&mut self, tab: TabId) -> (r: bool)
        requires
            old(self).wf(),
        ensures
            final(self).wf(),
            r == old(self).hosts_tab(tab),
            final(self).clusters_view() == old(self).clusters_view(),
            r ==> final(self).content() == old(self).content().insert(
                old(self).owner(tab),
                GroupView { tabs: old(self).owner_view(tab).tabs, selected: tab },
            ),
            !r ==> final(self).content() == old(self).content(),
    {
        let Some((i, k)) = self.find_tab(tab) else {
            return false;
        };
        proof {
            self.lemma_locate(i as int, k as int);
        }
        let ghost before = *self;
        self.groups[i].selected = tab;
        proof {
            let os = before.groups@;
            let gs = self.groups@;
            assert(gs == os.update(i as int, gs[i as int]));
            lemma_content_update(os, i as int, gs[i as int]);
            assert(strips_ok(gs)) by {
                assert forall|j: int| 0 <= j < gs.len() implies view_hosts(#[trigger] gs[j].view(), gs[j].selected) by {
                    if j == i {
                        assert(gs[j].view().tabs[k as int].tab_id() == tab);
                    } else {
                        assert(gs[j] == os[j]);
                    }
                }
                assert forall|j: int| 0 <= j < gs.len() implies #[trigger] gs[j].tabs@.len() > 0 by {
                    assert(gs[j].tabs@ == os[j].tabs@);
                }
            }
            assert forall|j: int| 0 <= j < gs.len() implies #[trigger] gs[j].tabs@ == os[j].tabs@ by {}
            assert(ids_unique(gs));
            assert(bindings_unique(gs));
            Self::lemma_wf_same_ids(before, *self);
        }
        true
    }

    /// Insert `tab` into `group`'s strip at `index` (clamped to the strip).
    /// The group's selection is unchanged. The tab is rejected and handed
    /// back when the group is unknown or the tab's id or binding is already
    /// hosted.
    pub fn insert_tab(&mut self, group: GroupId, index: usize, tab: Tab<T>) -> (r: Result<(), Tab<T>>)
        requires
            old(self).wf(),
            vstd::laws_eq::obeys_concrete_eq::<T>(),
        ensures
            final(self).wf(),
            r is Ok <==> (old(self).admissible(tab) && old(self).content().contains_key(group)),
            final(self).clusters_view() == old(self).clusters_view(),
            r is Ok ==> final(self).content() == old(self).content().insert(
                group,
                GroupView {
                    tabs: old(self).content()[group].tabs.insert(
                        if index < old(self).content()[group].tabs.len() {
                            index as int
                        } else {
                            old(self).content()[group].tabs.len() as int
                        },
                        tab,
                    ),
                    selected: old(self).content()[group].selected,
                },
            ),
            r matches Err(t) ==> t == tab && final(self).content() == old(self).content(),
            r is Ok ==> old(self).content()[group].tabs.len() <= usize::MAX,
    {
        if !self.is_admissible(&tab) {
            return Err(tab);
        }
        let Some(gi) = self.find_group(group) else {
            return Err(tab);
        };
        let ghost before = *self;
        proof {
            lemma_content_index(self.groups@, gi as int);
        }
        let len = self.groups[gi].tabs.len();
        let index = if index < len { index } else { len };
        self.groups[gi].tabs.insert(index, tab);
        proof {
            let os = before.groups@;
            let gs = self.groups@;
            let g = gs[gi as int];
            assert(gs == os.update(gi as int, g));
            lemma_content_update(os, gi as int, g);
            let ot = os[gi as int].tabs@;
            assert(g.tabs@ == ot.insert(index as int, tab));
            let m = |i: int, k: int|
                if i == gi as int && k > index as int { (i, k - 1) } else { (i, k) };
            assert forall|i: int, k: int|
                slot_ok(os, i, k) implies os[i].tabs@[k].tab_id() != tab.tab_id() by {
                before.lemma_locate(i, k);
            }
            assert forall|i: int, k: int|
                slot_ok(os, i, k) && tab.tab_binding() is Some implies os[i].tabs@[k].tab_binding()
                    != tab.tab_binding() by {
                before.lemma_hosts_binding(tab.tab_binding()->0);
            }
            assert forall|i: int, k: int|
                slot_ok(gs, i, k) && Some((gi as int, index as int)) != Some((i, k)) implies {
                let (oi, ok) = #[trigger] m(i, k);
                &&& slot_ok(os, oi, ok)
                &&& gs[i].tabs@[k] == os[oi].tabs@[ok]
            } by {}
            assert(gs[gi as int].tabs@[index as int] == tab);
            lemma_transfer_unique(os, gs, m, Some((gi as int, index as int)));
            assert(strips_ok(gs)) by {
                assert forall|j: int| 0 <= j < gs.len() implies view_hosts(#[trigger] gs[j].view(), gs[j].selected) by {
                    if j == gi {
                        let s = choose|s: int| 0 <= s < ot.len() && ot[s].tab_id() == os[j].selected;
                        if s < index {
                            assert(gs[j].view().tabs[s].tab_id() == gs[j].selected);
                        } else {
                            assert(gs[j].view().tabs[s + 1].tab_id() == gs[j].selected);
                        }
                    } else {
                        assert(gs[j] == os[j]);
                    }
                }
                assert forall|j: int| 0 <= j < gs.len() implies #[trigger] gs[j].tabs@.len() > 0 by {
                    if j != gi {
                        assert(gs[j] == os[j]);
                    }
                }
            }
            Self::lemma_wf_same_ids(before, *self);
        }
        Ok(())
    }

    /// Insert `tab` at the end of `group`'s strip.
    pub fn append_tab(&mut self, group: GroupId, tab: Tab<T>) -> (r: Result<(), Tab<T>>)
        requires
            old(self).wf(),
            vstd::laws_eq::obeys_concrete_eq::<T>(),
        ensures
            final(self).wf(),
            r is Ok <==> (old(self).admissible(tab) && old(self).content().contains_key(group)),
            final(self).clusters_view() == old(self).clusters_view(),
            r is Ok ==> final(self).content() == old(self).content().insert(
                group,
                GroupView {
                    tabs: old(self).content()[group].tabs.push(tab),
                    selected: old(self).content()[group].selected,
                },
            ),
            r matches Err(t) ==> t == tab && final(self).content() == old(self).content(),
    {
        let ghost before = *self;
        let r = self.insert_tab(group, usize::MAX, tab);
        proof {
            if r is Ok {
                let ot = before.content()[group].tabs;
                assert(ot.insert(ot.len() as int, tab) =~= ot.push(tab));
            }
        }
        r
    }
}

impl<T: Copy + PartialEq, S, W> GroupLayout<T, S, W> {
    /// Move `tab` to final position `index` (clamped) within its own strip:
    /// the index names the slot the tab ends up in, counted after the tab
    /// vacates its current slot. Selection is id-based and unaffected.
    pub fn reorder_tab(&mut self, tab: TabId, index: usize) -> (r: bool)
        requires
            old(self).wf(),
        ensures
            final(self).wf(),
            r == old(self).hosts_tab(tab),
            final(self).clusters_view() == old(self).clusters_view(),
            r ==> final(self).content() == old(self).content().insert(
                old(self).owner(tab),
                GroupView {
                    tabs: moved(
                        old(self).owner_view(tab).tabs,
                        old(self).slot_of(tab),
                        if index < old(self).owner_view(tab).tabs.len() - 1 {
                            index as int
                        } else {
                            old(self).owner_view(tab).tabs.len() - 1
                        },
                    ),
                    selected: old(self).owner_view(tab).selected,
                },
            ),
            !r ==> final(self).content() == old(self).content(),
    {
        let Some((gi, from)) = self.find_tab(tab) else {
            return false;
        };
        proof {
            self.lemma_locate(gi as int, from as int);
        }
        let ghost before = *self;
        let last = self.groups[gi].tabs.len() - 1;
        let to = if index < last { index } else { last };
        if to != from {
            let moved_tab = self.groups[gi].tabs.remove(from);
            self.groups[gi].tabs.insert(to, moved_tab);
        }
        proof {
            let os = before.groups@;
            let gs = self.groups@;
            let ot = os[gi as int].tabs@;
            let g = gs[gi as int];
            assert(gs == os.update(gi as int, g));
            if to == from {
                assert(moved(ot, from as int, to as int) =~= ot);
            }
            assert(g.tabs@ == moved(ot, from as int, to as int));
            lemma_moved(ot, from as int, to as int);
            lemma_content_update(os, gi as int, g);
            let m = |i: int, k: int|
                if i == gi as int { (i, moved_source(k, from as int, to as int)) } else { (i, k) };
            assert forall|i: int, k: int| slot_ok(gs, i, k) && None::<(int, int)> != Some((i, k)) implies {
                let (oi, ok) = #[trigger] m(i, k);
                &&& slot_ok(os, oi, ok)
                &&& gs[i].tabs@[k] == os[oi].tabs@[ok]
            } by {
                if i == gi {
                    assert(0 <= moved_source(k, from as int, to as int) < ot.len());
                }
            }
            lemma_transfer_unique(os, gs, m, None);
            assert(strips_ok(gs)) by {
                assert forall|j: int| 0 <= j < gs.len() implies view_hosts(#[trigger] gs[j].view(), gs[j].selected) by {
                    if j == gi {
                        let s = choose|s: int| 0 <= s < ot.len() && ot[s].tab_id() == os[j].selected;
                        let t2 = moved_target(s, from as int, to as int);
                        assert(0 <= t2 < ot.len());
                        assert(gs[j].view().tabs[t2].tab_id() == gs[j].selected);
                    } else {
                        assert(gs[j] == os[j]);
                    }
                }
                assert forall|j: int| 0 <= j < gs.len() implies #[trigger] gs[j].tabs@.len() > 0 by {
                    if j != gi {
                        assert(gs[j] == os[j]);
                    }
                }
            }
            Self::lemma_wf_same_ids(before, *self);
        }
        true
    }

    /// Rebind `tab` to a different live pane (or unbind it back to a
    /// placeholder). Structure, order, and selection are untouched. `false`
    /// when the tab is unknown or the binding is already hosted elsewhere.
    pub fn set_binding(&mut self, tab: TabId, binding: Option<T>) -> (r: bool)
        requires
            old(self).wf(),
            vstd::laws_eq::obeys_concrete_eq::<T>(),
        ensures
            final(self).wf(),
            r == (old(self).hosts_tab(tab) && (binding matches Some(b) ==> !old(self).bound_elsewhere(b, tab))),
            final(self).clusters_view() == old(self).clusters_view(),
            r ==> final(self).content().dom() == old(self).content().dom(),
            r ==> forall|g: GroupId| #[trigger] final(self).content().contains_key(g) && g != old(self).owner(tab)
                ==> final(self).content()[g] == old(self).content()[g],
            r ==> final(self).owner_view(tab).selected == old(self).owner_view(tab).selected,
            r ==> final(self).owner(tab) == old(self).owner(tab),
            r ==> final(self).owner_view(tab).tabs.len() == old(self).owner_view(tab).tabs.len(),
            r ==> forall|k: int| 0 <= k < old(self).owner_view(tab).tabs.len() && k != old(self).slot_of(tab)
                ==> #[trigger] final(self).owner_view(tab).tabs[k] == old(self).owner_view(tab).tabs[k],
            r ==> final(self).owner_view(tab).tabs[old(self).slot_of(tab)].tab_id() == tab,
            r ==> final(self).owner_view(tab).tabs[old(self).slot_of(tab)].tab_binding() == binding,
            r ==> final(self).hosts_tab(tab) && final(self).slot_of(tab) == old(self).slot_of(tab),
            r ==> final(self).tab_of(tab).tab_id() == tab && final(self).tab_of(tab).tab_binding() == binding,
            r ==> final(self).rebound_from(*old(self), tab, binding),
            !r ==> final(self).content() == old(self).content(),
    {
        let Some((gi, k)) = self.find_tab(tab) else {
            return false;
        };
        proof {
            self.lemma_locate(gi as int, k as int);
        }
        if let Some(b) = &binding {
            proof {
                self.lemma_bound_elsewhere(*b, tab);
            }
            if self.binding_taken(b, Some(tab)) {
                return false;
            }
        }
        let ghost before = *self;
        self.groups[gi].tabs[k].binding = binding;
        proof {
            let os = before.groups@;
            let gs = self.groups@;
            let g = gs[gi as int];
            let ot = os[gi as int].tabs@;
            assert(gs == os.update(gi as int, g));
            lemma_content_update(os, gi as int, g);
            assert(g.tabs@ == ot.update(k as int, g.tabs@[k as int]));
            assert(ids_unique(gs)) by {
                assert forall|i1: int, k1: int, i2: int, k2: int|
                    slot_ok(gs, i1, k1) && slot_ok(gs, i2, k2) && (i1 != i2 || k1 != k2) implies
                    #[trigger] gs[i1].tabs@[k1].tab_id() != #[trigger] gs[i2].tabs@[k2].tab_id() by {
                    assert(gs[i1].tabs@[k1].tab_id() == os[i1].tabs@[k1].tab_id());
                    assert(gs[i2].tabs@[k2].tab_id() == os[i2].tabs@[k2].tab_id());
                    assert(slot_ok(os, i1, k1) && slot_ok(os, i2, k2));
                }
            }
            assert(bindings_unique(gs)) by {
                assert forall|i1: int, k1: int, i2: int, k2: int|
                    slot_ok(gs, i1, k1) && slot_ok(gs, i2, k2) && (i1 != i2 || k1 != k2)
                        && (#[trigger] gs[i1].tabs@[k1].tab_binding()) is Some implies
                    gs[i1].tabs@[k1].tab_binding() != #[trigger] gs[i2].tabs@[k2].tab_binding() by {
                    assert(slot_ok(os, i1, k1) && slot_ok(os, i2, k2));
                    let here1 = i1 == gi && k1 == k;
                    let here2 = i2 == gi && k2 == k;
                    if here1 {
                        assert(os[i2].tabs@[k2].tab_id() != tab);
                    } else if here2 {
                        assert(os[i1].tabs@[k1].tab_id() != tab);
                    } else {
                        assert(gs[i1].tabs@[k1] == os[i1].tabs@[k1]);
                        assert(gs[i2].tabs@[k2] == os[i2].tabs@[k2]);
                    }
                }
            }
            assert(strips_ok(gs)) by {
                assert forall|j: int| 0 <= j < gs.len() implies view_hosts(#[trigger] gs[j].view(), gs[j].selected) by {
                    if j == gi {
                        let s = choose|s: int| 0 <= s < ot.len() && ot[s].tab_id() == os[j].selected;
                        assert(gs[j].view().tabs[s].tab_id() == gs[j].selected);
                    } else {
                        assert(gs[j] == os[j]);
                    }
                }
                assert forall|j: int| 0 <= j < gs.len() implies #[trigger] gs[j].tabs@.len() > 0 by {
                    if j != gi {
                        assert(gs[j] == os[j]);
                    }
                }
            }
            Self::lemma_wf_same_ids(before, *self);
            self.lemma_locate(gi as int, k as int);
            assert forall|g2: GroupId| #[trigger] self.content().contains_key(g2) && g2 != before.owner(tab)
                implies self.content()[g2] == before.content()[g2] by {}
            let og = before.owner(tab);
            assert forall|j: int| 0 <= j < before.content()[og].tabs.len() && j != k
                implies #[trigger] self.content()[og].tabs[j] == before.content()[og].tabs[j] by {
                assert(self.content()[og].tabs[j] == gs[gi as int].tabs@[j]);
            }
            assert(self.content().dom() =~= before.content().dom());
        }
        true
    }

    /// Exchange the exact strip slots of two tabs — same group or across
    /// groups — atomically. Selection follows the slot. A missing tab, or
    /// `a == b`, is a no-op.
    pub fn swap_tabs(&mut self, a: TabId, b: TabId) -> (r: bool)
        requires
            old(self).wf(),
        ensures
            final(self).wf(),
            r == (a != b && old(self).hosts_tab(a) && old(self).hosts_tab(b)),
            final(self).clusters_view() == old(self).clusters_view(),
            r ==> final(self).content() == old(self).content_after_swap(a, b),
            !r ==> final(self).content() == old(self).content(),
    {
        if a == b {
            return false;
        }
        let Some((ga, ia)) = self.find_tab(a) else {
            return false;
        };
        let Some((gb, ib)) = self.find_tab(b) else {
            return false;
        };
        proof {
            self.lemma_locate(ga as int, ia as int);
            self.lemma_locate(gb as int, ib as int);
        }
        let ghost before = *self;
        if ga == gb {
            let (lo, hi) = if ia < ib { (ia, ib) } else { (ib, ia) };
            let t_hi = self.groups[ga].tabs.remove(hi);
            let t_lo = self.groups[ga].tabs.remove(lo);
            self.groups[ga].tabs.insert(lo, t_hi);
            self.groups[ga].tabs.insert(hi, t_lo);
            let sel = self.groups[ga].selected;
            self.groups[ga].selected = if sel == a { b } else if sel == b { a } else { sel };
            proof {
                let os = before.groups@;
                let gs = self.groups@;
                let ot = os[ga as int].tabs@;
                let g = gs[ga as int];
                assert(gs == os.update(ga as int, g));
                assert(g.tabs@ =~= swapped(ot, ia as int, ib as int));
                lemma_content_update(os, ga as int, g);
                let m = |i: int, k: int|
                    if i == ga as int && k == ia as int { (i, ib as int) }
                    else if i == ga as int && k == ib as int { (i, ia as int) }
                    else { (i, k) };
                assert forall|i: int, k: int| slot_ok(gs, i, k) && None::<(int, int)> != Some((i, k)) implies {
                    let (oi, ok) = #[trigger] m(i, k);
                    &&& slot_ok(os, oi, ok)
                    &&& gs[i].tabs@[k] == os[oi].tabs@[ok]
                } by {}
                lemma_transfer_unique(os, gs, m, None);
                assert(strips_ok(gs)) by {
                    assert forall|j: int| 0 <= j < gs.len() implies view_hosts(#[trigger] gs[j].view(), gs[j].selected) by {
                        if j == ga {
                            let s = choose|s: int| 0 <= s < ot.len() && ot[s].tab_id() == os[j].selected;
                            if s == ia {
                                assert(gs[j].view().tabs[ia as int].tab_id() == gs[j].selected);
                            } else if s == ib {
                                assert(gs[j].view().tabs[ib as int].tab_id() == gs[j].selected);
                            } else {
                                assert(ot[s].tab_id() != a && ot[s].tab_id() != b) by {
                                    assert(slot_ok(os, j, s) && slot_ok(os, j, ia as int) && slot_ok(os, j, ib as int));
                                }
                                assert(gs[j].view().tabs[s].tab_id() == gs[j].selected);
                            }
                        } else {
                            assert(gs[j] == os[j]);
                        }
                    }
                    assert forall|j: int| 0 <= j < gs.len() implies #[trigger] gs[j].tabs@.len() > 0 by {
                        if j != ga {
                            assert(gs[j] == os[j]);
                        }
                    }
                }
                Self::lemma_wf_same_ids(before, *self);
            }
        } else {
            let ta = self.groups[ga].tabs.remove(ia);
            let tb = self.groups[gb].tabs.remove(ib);
            self.groups[ga].tabs.insert(ia, tb);
            self.groups[gb].tabs.insert(ib, ta);
            let sa = self.groups[ga].selected;
            self.groups[ga].selected = if sa == a { b } else if sa == b { a } else { sa };
            let sb = self.groups[gb].selected;
            self.groups[gb].selected = if sb == a { b } else if sb == b { a } else { sb };
            proof {
                let os = before.groups@;
                let gs = self.groups@;
                let ota = os[ga as int].tabs@;
                let otb = os[gb as int].tabs@;
                let na = gs[ga as int];
                let nb = gs[gb as int];
                assert(na.tabs@ =~= ota.update(ia as int, otb[ib as int]));
                assert(nb.tabs@ =~= otb.update(ib as int, ota[ia as int]));
                let mid = os.update(ga as int, na);
                assert(gs == mid.update(gb as int, nb));
                lemma_content_update(os, ga as int, na);
                lemma_content_update(mid, gb as int, nb);
                let m = |i: int, k: int|
                    if i == ga as int && k == ia as int { (gb as int, ib as int) }
                    else if i == gb as int && k == ib as int { (ga as int, ia as int) }
                    else { (i, k) };
                assert forall|i: int, k: int| slot_ok(gs, i, k) && None::<(int, int)> != Some((i, k)) implies {
                    let (oi, ok) = #[trigger] m(i, k);
                    &&& slot_ok(os, oi, ok)
                    &&& gs[i].tabs@[k] == os[oi].tabs@[ok]
                } by {}
                lemma_transfer_unique(os, gs, m, None);
                assert(strips_ok(gs)) by {
                    assert forall|j: int| 0 <= j < gs.len() implies view_hosts(#[trigger] gs[j].view(), gs[j].selected) by {
                        if j == ga || j == gb {
                            let ot = os[j].tabs@;
                            let s = choose|s: int| 0 <= s < ot.len() && ot[s].tab_id() == os[j].selected;
                            let here = if j == ga { ia as int } else { ib as int };
                            if s == here {
                                assert(gs[j].view().tabs[s].tab_id() == gs[j].selected);
                            } else {
                                assert(ot[s].tab_id() != a && ot[s].tab_id() != b) by {
                                    assert(slot_ok(os, j, s) && slot_ok(os, ga as int, ia as int) && slot_ok(os, gb as int, ib as int));
                                }
                                assert(gs[j].view().tabs[s].tab_id() == gs[j].selected);
                            }
                        } else {
                            assert(gs[j] == os[j]);
                        }
                    }
                    assert forall|j: int| 0 <= j < gs.len() implies #[trigger] gs[j].tabs@.len() > 0 by {
                        if j != ga && j != gb {
                            assert(gs[j] == os[j]);
                        }
                    }
                }
                Self::lemma_wf_same_ids(before, *self);
            }
        }
        true
    }
}

proof fn lemma_forest_leaves_concat<S, W>(x: Seq<Cluster<S, W>>, y: Seq<Cluster<S, W>>)
    ensures
        forest_leaves(x + y) == forest_leaves(x) + forest_leaves(y),
{
    let f = |c: Cluster<S, W>| c.root.leaves();
    assert((x + y).map_values(f) =~= x.map_values(f) + y.map_values(f));
    vstd::seq_lib::lemma_flatten_concat(x.map_values(f), y.map_values(f));
}

proof fn lemma_forest_leaves_one<S, W>(c: Cluster<S, W>)
    ensures
        forest_leaves(seq![c]) == c.root.leaves(),
{
    let f = |c: Cluster<S, W>| c.root.leaves();
    assert(seq![c].map_values(f) =~= seq![c.root.leaves()]);
    assert(seq![c.root.leaves()].drop_first() =~= Seq::<Seq<GroupId>>::empty());
    assert(seq![c.root.leaves()].flatten() =~= c.root.leaves() + Seq::<Seq<GroupId>>::empty().flatten());
}

proof fn lemma_forest_leaves_front<S, W>(cs: Seq<Cluster<S, W>>)
    requires
        cs.len() > 0,
    ensures
        forest_leaves(cs) == cs[0].root.leaves() + forest_leaves(cs.drop_first()),
{
    assert(cs =~= seq![cs[0]] + cs.drop_first());
    lemma_forest_leaves_concat(seq![cs[0]], cs.drop_first());
    lemma_forest_leaves_one(cs[0]);
}

/// Removing a group's leaf from the forest drops exactly that id.
proof fn lemma_forest_remove<S, W>(cs: Seq<Cluster<S, W>>, g: GroupId)
    requires
        forest_leaves(cs).no_duplicates(),
        forest_leaves(cs).contains(g),
    ensures
        forall|x: GroupId|
            forest_leaves(forest_remove(cs, g)).contains(x) <==> (forest_leaves(cs).contains(x) && x != g),
        forest_leaves(forest_remove(cs, g)).no_duplicates(),
    decreases cs.len(),
{
    lemma_forest_leaves_front(cs);
    let c = cs[0];
    let rest = cs.drop_first();
    lemma_remove_leaves(c.root, g);
    lemma_concat_no_dup(c.root.leaves(), forest_leaves(rest));
    lemma_disjoint_contains(c.root.leaves(), forest_leaves(rest));
    lemma_concat_contains(c.root.leaves(), forest_leaves(rest), g);
    match c.root.spec_remove(g) {
        Removal::Gone => {
            assert forall|x: GroupId| forest_leaves(rest).contains(x) <==> (forest_leaves(cs).contains(x)
                && x != g) by {
                lemma_concat_contains(c.root.leaves(), forest_leaves(rest), x);
                assert(c.root.leaves() == seq![g]);
                if c.root.leaves().contains(x) {
                    let i = choose|i: int| 0 <= i < c.root.leaves().len() && c.root.leaves()[i] == x;
                    assert(i == 0);
                    assert(x == g);
                }
                if forest_leaves(rest).contains(x) {
                    assert(!c.root.leaves().contains(x));
                    assert(c.root.leaves()[0] == g);
                    assert(x != g);
                }
            }
        },
        Removal::Kept(n, true) => {
            let nc = Cluster { weight: c.weight, root: n };
            lemma_forest_leaves_concat(seq![nc], rest);
            lemma_forest_leaves_one(nc);
            lemma_concat_no_dup(n.leaves(), forest_leaves(rest));
            lemma_disjoint_contains(n.leaves(), forest_leaves(rest));
            assert forall|x: GroupId| forest_leaves(forest_remove(cs, g)).contains(x) <==> (
            forest_leaves(cs).contains(x) && x != g) by {
                lemma_concat_contains(n.leaves(), forest_leaves(rest), x);
                lemma_concat_contains(c.root.leaves(), forest_leaves(rest), x);
            }
        },
        Removal::Kept(_, false) => {
            lemma_forest_remove(rest, g);
            let nr = forest_remove(rest, g);
            lemma_forest_leaves_concat(seq![c], nr);
            lemma_forest_leaves_one(c);
            lemma_concat_no_dup(c.root.leaves(), forest_leaves(nr));
            lemma_disjoint_contains(c.root.leaves(), forest_leaves(nr));
            assert forall|x: GroupId| forest_leaves(forest_remove(cs, g)).contains(x) <==> (
            forest_leaves(cs).contains(x) && x != g) by {
                lemma_concat_contains(c.root.leaves(), forest_leaves(nr), x);
                lemma_concat_contains(c.root.leaves(), forest_leaves(rest), x);
            }
        },
    }
}

/// Clusters before `idx` that lack the leaf pass through a removal.
proof fn lemma_forest_remove_prefix<S, W>(cs: Seq<Cluster<S, W>>, g: GroupId, idx: int)
    requires
        0 <= idx <= cs.len(),
        forall|j: int| 0 <= j < idx ==> !(#[trigger] cs[j].root.leaves()).contains(g),
    ensures
        forest_remove(cs, g) == cs.take(idx) + forest_remove(cs.skip(idx), g),
    decreases idx,
{
    if idx == 0 {
        assert(cs.take(0) + forest_remove(cs.skip(0), g) =~= forest_remove(cs, g)) by {
            assert(cs.skip(0) =~= cs);
        }
    } else {
        lemma_remove_leaves(cs[0].root, g);
        let rest = cs.drop_first();
        assert forall|j: int| 0 <= j < idx - 1 implies !(#[trigger] rest[j].root.leaves()).contains(g) by {
            assert(rest[j] == cs[j + 1]);
        }
        lemma_forest_remove_prefix(rest, g, idx - 1);
        assert(rest.skip(idx - 1) =~= cs.skip(idx));
        assert(cs.take(idx) =~= seq![cs[0]] + rest.take(idx - 1));
        assert(!cs[0].root.leaves().contains(g));
        match cs[0].root.spec_remove(g) {
            Removal::Gone => {
                assert(cs[0].root.leaves()[0] == g);
            },
            _ => {},
        }
        assert(forest_remove(cs, g) == seq![cs[0]] + forest_remove(rest, g));
        assert(forest_remove(cs, g) =~= cs.take(idx) + forest_remove(cs.skip(idx), g));
    }
}

impl<T, S, W> GroupLayout<T, S, W> {
    /// Remove `group`'s leaf from the tree, collapsing its parent split; a
    /// cluster whose last group leaves is dropped. Tree-only.
    fn remove_group_leaf(&mut self, group: GroupId) -> (r: bool)
        ensures
            final(self).clusters@ == forest_remove(old(self).clusters@, group),
            final(self).groups == old(self).groups,
            r == forest_leaves(old(self).clusters@).contains(group),
    {
        let ghost cs0 = self.clusters@;
        let mut idx: usize = 0;
        while idx < self.clusters.len()
            invariant
                idx <= self.clusters@.len(),
                self.clusters@ == cs0,
                self.groups == old(self).groups,
                cs0 == old(self).clusters@,
                forall|j: int| 0 <= j < idx ==> !(#[trigger] cs0[j].root.leaves()).contains(group),
            decreases self.clusters@.len() - idx,
        {
            let c = self.clusters.remove(idx);
            let Cluster { weight, root } = c;
            proof {
                lemma_remove_leaves(root, group);
                lemma_forest_remove_prefix(cs0, group, idx as int);
                assert(cs0.skip(idx as int)[0] == cs0[idx as int]);
                assert(cs0.skip(idx as int).drop_first() =~= cs0.skip(idx + 1));
            }
            match remove_leaf(root, group) {
                Removal::Gone => {
                    proof {
                        assert(cs0[idx as int].root.leaves()[0] == group);
                        assert(self.clusters@ =~= cs0.take(idx as int) + cs0.skip(idx + 1));
                        self.lemma_contains_at(cs0, idx as int, group);
                    }
                    return true;
                },
                Removal::Kept(n, found) => {
                    self.clusters.insert(idx, Cluster { weight, root: n });
                    if found {
                        proof {
                            assert(self.clusters@ =~= cs0.take(idx as int) + (seq![Cluster { weight, root: n }] + cs0.skip(idx + 1)));
                            self.lemma_contains_at(cs0, idx as int, group);
                        }
                        return true;
                    }
                    proof {
                        assert(self.clusters@ =~= cs0);
                    }
                },
            }
            idx += 1;
        }
        proof {
            assert(cs0.skip(idx as int) =~= Seq::<Cluster<S, W>>::empty());
            lemma_forest_remove_prefix(cs0, group, idx as int);
            assert(cs0.take(idx as int) =~= cs0);
            self.lemma_absent(cs0, group);
        }
        false
    }

    proof fn lemma_contains_at(self, cs: Seq<Cluster<S, W>>, idx: int, g: GroupId)
        requires
            0 <= idx < cs.len(),
            cs[idx].root.leaves().contains(g),
        ensures
            forest_leaves(cs).contains(g),
    {
        assert(cs =~= cs.take(idx) + (seq![cs[idx]] + cs.skip(idx + 1)));
        lemma_forest_leaves_concat(cs.take(idx), seq![cs[idx]] + cs.skip(idx + 1));
        lemma_forest_leaves_concat(seq![cs[idx]], cs.skip(idx + 1));
        lemma_forest_leaves_one(cs[idx]);
        lemma_concat_contains(cs[idx].root.leaves(), forest_leaves(cs.skip(idx + 1)), g);
        lemma_concat_contains(forest_leaves(cs.take(idx)), forest_leaves(seq![cs[idx]] + cs.skip(idx + 1)), g);
    }

    proof fn lemma_absent(self, cs: Seq<Cluster<S, W>>, g: GroupId)
        requires
            forall|j: int| 0 <= j < cs.len() ==> !(#[trigger] cs[j].root.leaves()).contains(g),
        ensures
            !forest_leaves(cs).contains(g),
        decreases cs.len(),
    {
        if cs.len() > 0 {
            lemma_forest_leaves_front(cs);
            let rest = cs.drop_first();
            assert forall|j: int| 0 <= j < rest.len() implies !(#[trigger] rest[j].root.leaves()).contains(g) by {
                assert(rest[j] == cs[j + 1]);
            }
            self.lemma_absent(rest, g);
            assert(!cs[0].root.leaves().contains(g));
            lemma_concat_contains(cs[0].root.leaves(), forest_leaves(rest), g);
        } else {
            assert(forest_leaves(cs) =~= Seq::<GroupId>::empty()) by {
                assert(cs.map_values(|c: Cluster<S, W>| c.root.leaves()) =~= Seq::<Seq<GroupId>>::empty());
            }
        }
    }
}

/// The selection after the tab at `slot` leaves its strip: a selected tab
/// hands the selection to the next tab, else to the previous one.
pub open spec fn selection_after_take<T>(group: GroupView<T>, slot: int, tab: TabId) -> TabId {
    if group.selected == tab {
        if slot + 1 < group.tabs.len() {
            group.tabs[slot + 1].tab_id()
        } else {
            group.tabs[slot - 1].tab_id()
        }
    } else {
        group.selected
    }
}

impl<T: PartialEq, S, W> GroupLayout<T, S, W> {
    /// The content after `tab` leaves its strip: the group loses the slot
    /// (with selection hand-off), or disappears with its final tab.
    pub open spec fn content_after_take(self, tab: TabId) -> Map<GroupId, GroupView<T>> {
        let v = self.owner_view(tab);
        if v.tabs.len() == 1 {
            self.content().remove(self.owner(tab))
        } else {
            self.content().insert(
                self.owner(tab),
                GroupView {
                    tabs: v.tabs.remove(self.slot_of(tab)),
                    selected: selection_after_take(v, self.slot_of(tab), tab),
                },
            )
        }
    }

    /// The forest after `tab` leaves its strip: a group emptied of its
    /// final tab loses its leaf.
    pub open spec fn clusters_after_take(self, tab: TabId) -> Seq<Cluster<S, W>> {
        if self.owner_view(tab).tabs.len() == 1 {
            forest_remove(self.clusters_view(), self.owner(tab))
        } else {
            self.clusters_view()
        }
    }

    /// Remove `tab` from its group, keeping the strip's remaining tabs in
    /// place. When the removed tab was selected, the next tab (else the
    /// previous) becomes selected; when it was the group's final tab and
    /// `allow_last` holds, the group's leaf is removed and its parent split
    /// collapses. `None` — with nothing mutated — when the tab is unknown, or
    /// when it is the final tab and `allow_last` is false.
    fn take_tab(&mut self, tab: TabId, allow_last: bool) -> (r: Option<Tab<T>>)
        requires
            old(self).wf(),
        ensures
            final(self).wf(),
            r is Some <==> (old(self).hosts_tab(tab) && (allow_last || old(self).owner_view(tab).tabs.len()
                > 1)),
            r matches Some(t) ==> t.tab_id() == tab,
            r matches Some(t) ==> {
                &&& t == old(self).owner_view(tab).tabs[old(self).slot_of(tab)]
                &&& final(self).content() == old(self).content_after_take(tab)
                &&& final(self).clusters_view() == old(self).clusters_after_take(tab)
            },
            r is None ==> final(self).content() == old(self).content() && final(self).clusters_view()
                == old(self).clusters_view(),
    {
        let Some((gi, idx)) = self.find_tab(tab) else {
            return None;
        };
        proof {
            self.lemma_locate(gi as int, idx as int);
        }
        let ghost before = *self;
        let len = self.groups[gi].tabs.len();
        if len == 1 {
            if !allow_last {
                return None;
            }
            let group = self.groups.remove(gi);
            let Group { id, tabs, selected: _ } = group;
            let mut tabs = tabs;
            let taken = tabs.remove(0);
            proof {
                let os = before.groups@;
                let gs = self.groups@;
                assert(gs == os.remove(gi as int));
                lemma_content_remove(os, gi as int);
                let m = |i: int, k: int| if i < gi as int { (i, k) } else { (i + 1, k) };
                assert forall|i: int, k: int| slot_ok(gs, i, k) && None::<(int, int)> != Some((i, k)) implies {
                    let (oi, ok) = #[trigger] m(i, k);
                    &&& slot_ok(os, oi, ok)
                    &&& gs[i].tabs@[k] == os[oi].tabs@[ok]
                } by {}
                lemma_transfer_unique(os, gs, m, None);
                assert(strips_ok(gs)) by {
                    assert forall|j: int| 0 <= j < gs.len() implies view_hosts(#[trigger] gs[j].view(), gs[j].selected) by {
                        let (oj, _) = m(j, 0);
                        assert(gs[j] == os[oj]);
                    }
                    assert forall|j: int| 0 <= j < gs.len() implies #[trigger] gs[j].tabs@.len() > 0 by {
                        let (oj, _) = m(j, 0);
                        assert(gs[j] == os[oj]);
                    }
                }
                assert(before.leaves().contains(id));
                lemma_forest_remove(before.clusters@, id);
                assert(taken == before.owner_view(tab).tabs[before.slot_of(tab)]);
            }
            let ghost after_groups = self.groups@;
            self.remove_group_leaf(id);
            proof {
                let gs = self.groups@;
                let os = before.groups@;
                assert(gs == after_groups);
                assert(gs == os.remove(gi as int));
                assert(os[gi as int].id == id);
                assert(self.clusters@ == forest_remove(before.clusters@, id));
                assert(self.leaves() == forest_leaves(forest_remove(before.clusters@, id)));
                assert forall|g: GroupId| self.leaves().contains(g) <==> exists|i: int| 0 <= i < gs.len() && gs[i].id == g by {
                    if exists|i: int| 0 <= i < gs.len() && gs[i].id == g {
                        let i = choose|i: int| 0 <= i < gs.len() && gs[i].id == g;
                        let oi = if i < gi { i } else { i + 1 };
                        assert(gs[i] == os[oi]);
                        assert(os[oi].id == g);
                        assert(oi != gi);
                        assert(g != id);
                        assert(before.leaves().contains(g));
                    }
                    if self.leaves().contains(g) {
                        assert(before.leaves().contains(g) && g != id);
                        let oi = choose|i: int| 0 <= i < os.len() && os[i].id == g;
                        assert(0 <= oi < os.len() && os[oi].id == g);
                        assert(oi != gi);
                        let i = if oi < gi { oi } else { oi - 1 };
                        assert(gs[i] == os[oi]);
                        assert(gs[i].id == g);
                    }
                }
            }
            return Some(taken);
        }
        if self.groups[gi].selected == tab {
            let next = if idx + 1 < len {
                self.groups[gi].tabs[idx + 1].id
            } else {
                self.groups[gi].tabs[idx - 1].id
            };
            self.groups[gi].selected = next;
        }
        let taken = self.groups[gi].tabs.remove(idx);
        proof {
            let os = before.groups@;
            let gs = self.groups@;
            let ot = os[gi as int].tabs@;
            let g = gs[gi as int];
            assert(gs == os.update(gi as int, g));
            lemma_content_update(os, gi as int, g);
            assert(g.tabs@ == ot.remove(idx as int));
            let m = |i: int, k: int| if i == gi as int && k >= idx as int { (i, k + 1) } else { (i, k) };
            assert forall|i: int, k: int| slot_ok(gs, i, k) && None::<(int, int)> != Some((i, k)) implies {
                let (oi, ok) = #[trigger] m(i, k);
                &&& slot_ok(os, oi, ok)
                &&& gs[i].tabs@[k] == os[oi].tabs@[ok]
            } by {}
            lemma_transfer_unique(os, gs, m, None);
            assert(strips_ok(gs)) by {
                assert forall|j: int| 0 <= j < gs.len() implies view_hosts(#[trigger] gs[j].view(), gs[j].selected) by {
                    if j == gi {
                        if os[j].selected == tab {
                            if idx + 1 < len {
                                assert(gs[j].view().tabs[idx as int].tab_id() == gs[j].selected);
                            } else {
                                assert(gs[j].view().tabs[idx - 1].tab_id() == gs[j].selected);
                            }
                        } else {
                            let s = choose|s: int| 0 <= s < ot.len() && ot[s].tab_id() == os[j].selected;
                            assert(s != idx);
                            if s < idx {
                                assert(gs[j].view().tabs[s].tab_id() == gs[j].selected);
                            } else {
                                assert(gs[j].view().tabs[s - 1].tab_id() == gs[j].selected);
                            }
                        }
                    } else {
                        assert(gs[j] == os[j]);
                    }
                }
                assert forall|j: int| 0 <= j < gs.len() implies #[trigger] gs[j].tabs@.len() > 0 by {
                    if j != gi {
                        assert(gs[j] == os[j]);
                    }
                }
            }
            Self::lemma_wf_same_ids(before, *self);
        }
        Some(taken)
    }
}

impl<T: Copy + PartialEq, S, W> GroupLayout<T, S, W> {
    /// Remove `tab` from the model entirely, with full collapse semantics
    /// (selection hand-off; leaf removal and split collapse on the final tab;
    /// cluster drop when emptied). Returns the removed tab, still carrying
    /// its stable id.
    pub fn remove_tab(&mut self, tab: TabId) -> (r: Option<Tab<T>>)
        requires
            old(self).wf(),
        ensures
            final(self).wf(),
            r is Some <==> old(self).hosts_tab(tab),
            r matches Some(t) ==> t.tab_id() == tab,
            r matches Some(t) ==> {
                &&& t == old(self).owner_view(tab).tabs[old(self).slot_of(tab)]
                &&& final(self).content() == old(self).content_after_take(tab)
                &&& final(self).clusters_view() == old(self).clusters_after_take(tab)
            },
            r is None ==> final(self).content() == old(self).content() && final(self).clusters_view()
                == old(self).clusters_view(),
    {
        self.take_tab(tab, true)
    }

    /// Remove `tab` from its group while keeping the group. `None` for an
    /// unknown tab or a group's final tab.
    pub fn detach_tab(&mut self, tab: TabId) -> (r: Option<Tab<T>>)
        requires
            old(self).wf(),
        ensures
            final(self).wf(),
            r is Some <==> (old(self).hosts_tab(tab) && old(self).owner_view(tab).tabs.len() > 1),
            r matches Some(t) ==> t.tab_id() == tab,
            r matches Some(t) ==> {
                &&& t == old(self).owner_view(tab).tabs[old(self).slot_of(tab)]
                &&& final(self).content() == old(self).content_after_take(tab)
                &&& final(self).clusters_view() == old(self).clusters_view()
            },
            r is None ==> final(self).content() == old(self).content() && final(self).clusters_view()
                == old(self).clusters_view(),
    {
        self.take_tab(tab, false)
    }
}


impl<T: PartialEq, S, W> GroupLayout<T, S, W> {
    /// Tab ids and live bindings occur once across the content map.
    proof fn lemma_content_unique(self, g1: GroupId, k1: int, g2: GroupId, k2: int)
        requires
            self.wf(),
            self.content().contains_key(g1),
            self.content().contains_key(g2),
            0 <= k1 < self.content()[g1].tabs.len(),
            0 <= k2 < self.content()[g2].tabs.len(),
            g1 != g2 || k1 != k2,
        ensures
            self.content()[g1].tabs[k1].tab_id() != self.content()[g2].tabs[k2].tab_id(),
            self.content()[g1].tabs[k1].tab_binding() is Some ==> self.content()[g1].tabs[k1].tab_binding()
                != self.content()[g2].tabs[k2].tab_binding(),
    {
        let gs = self.groups@;
        let i1 = choose|i: int| 0 <= i < gs.len() && gs[i].id == g1;
        let i2 = choose|i: int| 0 <= i < gs.len() && gs[i].id == g2;
        lemma_content_index(gs, i1);
        lemma_content_index(gs, i2);
        assert(slot_ok(gs, i1, k1) && slot_ok(gs, i2, k2));
        assert(gs[i1].tabs@[k1] == self.content()[g1].tabs[k1]);
        assert(gs[i2].tabs@[k2] == self.content()[g2].tabs[k2]);
    }

    /// A hosted tab's owner holds it at its slot.
    proof fn lemma_owner_slot(self, tab: TabId)
        requires
            self.wf(),
            self.hosts_tab(tab),
        ensures
            self.content().contains_key(self.owner(tab)),
            0 <= self.slot_of(tab) < self.owner_view(tab).tabs.len(),
            self.owner_view(tab).tabs[self.slot_of(tab)].tab_id() == tab,
    {
    }

    /// The tab taken out of a model may re-enter what is left.
    proof fn lemma_taken_admissible(old: Self, new: Self, tab: TabId)
        requires
            old.wf(),
            new.wf(),
            old.hosts_tab(tab),
            new.content() == old.content_after_take(tab),
        ensures
            new.admissible(old.owner_view(tab).tabs[old.slot_of(tab)]),
            new.content().dom() == if old.owner_view(tab).tabs.len() == 1 {
                old.content().dom().remove(old.owner(tab))
            } else {
                old.content().dom()
            },
            forall|g: GroupId| #[trigger] new.content().contains_key(g) && g != old.owner(tab)
                ==> new.content()[g] == old.content()[g],
    {
        let o = old.owner(tab);
        let v = old.content()[o];
        let s = old.slot_of(tab);
        let t = v.tabs[s];
        old.lemma_owner_slot(tab);
        if new.hosts_tab(tab) {
            let g = new.owner(tab);
            let k = view_index_of(new.content()[g], tab);
            if g == o {
                let k2 = if k < s { k } else { k + 1 };
                assert(v.tabs.remove(s)[k] == v.tabs[k2]);
                old.lemma_content_unique(o, k2, o, s);
            } else {
                old.lemma_content_unique(g, k, o, s);
            }
        }
        if t.tab_binding() is Some {
            let b = t.tab_binding()->0;
            if new.hosts_binding(b) {
                let (g, k) = choose|g: GroupId, k: int|
                    new.content().contains_key(g) && 0 <= k < new.content()[g].tabs.len()
                        && new.content()[g].tabs[k].tab_binding() == Some(b);
                if g == o {
                    let k2 = if k < s { k } else { k + 1 };
                    assert(v.tabs.remove(s)[k] == v.tabs[k2]);
                    old.lemma_content_unique(o, s, o, k2);
                } else {
                    old.lemma_content_unique(o, s, g, k);
                }
            }
        }
        if v.tabs.len() == 1 {
            assert(new.content().dom() =~= old.content().dom().remove(o));
        } else {
            assert(new.content().dom() =~= old.content().dom());
        }
    }
}

/// The final position a merge into the tab's own strip produces: the
/// insertion slot is counted with the tab still in place.
pub open spec fn own_strip_target(from: int, slot: int, len: int) -> int {
    let s = if slot < len { slot } else { len };
    if s > from { s - 1 } else { s }
}

/// `slot` clamped to a strip of `len` tabs.
pub open spec fn clamp_slot(slot: int, len: int) -> int {
    if slot < len { slot } else { len }
}

impl<T: PartialEq, S, W> GroupLayout<T, S, W> {
    /// The content after a merge of `tab` into `into` at `slot`.
    pub open spec fn content_after_merge(self, tab: TabId, into: GroupId, slot: int) -> Map<
        GroupId,
        GroupView<T>,
    > {
        let v = self.owner_view(tab);
        if self.owner(tab) == into {
            self.content().insert(
                into,
                GroupView {
                    tabs: moved(v.tabs, self.slot_of(tab), own_strip_target(self.slot_of(tab), slot, v.tabs.len() as int)),
                    selected: v.selected,
                },
            )
        } else {
            let dest = self.content()[into];
            self.content_after_take(tab).insert(
                into,
                GroupView {
                    tabs: dest.tabs.insert(clamp_slot(slot, dest.tabs.len() as int), v.tabs[self.slot_of(tab)]),
                    selected: dest.selected,
                },
            )
        }
    }

    /// The forest after a merge of `tab` into `into`.
    pub open spec fn clusters_after_merge(self, tab: TabId, into: GroupId) -> Seq<Cluster<S, W>> {
        if self.owner(tab) == into {
            self.clusters_view()
        } else {
            self.clusters_after_take(tab)
        }
    }
}

impl<T: Copy + PartialEq, S, W> GroupLayout<T, S, W> {
    /// Move `tab` into `into`'s strip at `insertion_slot` (clamped),
    /// collapsing the source group when the tab was its last. The
    /// destination's selection is unchanged. The slot is counted in the
    /// destination strip as it stands before the move; with the tab's own
    /// group as the destination it is still counted with the tab in place.
    /// An unknown tab or group rejects the whole operation.
    pub fn merge_tab(&mut self, tab: TabId, into: GroupId, insertion_slot: usize) -> (r: bool)
        requires
            old(self).wf(),
            vstd::laws_eq::obeys_concrete_eq::<T>(),
        ensures
            final(self).wf(),
            r == (old(self).hosts_tab(tab) && old(self).content().contains_key(into)),
            r ==> final(self).content() == old(self).content_after_merge(tab, into, insertion_slot as int),
            r ==> final(self).clusters_view() == old(self).clusters_after_merge(tab, into),
            !r ==> final(self).content() == old(self).content() && final(self).clusters_view()
                == old(self).clusters_view(),
    {
        let Some((oi, from)) = self.find_tab(tab) else {
            return false;
        };
        let Some(di) = self.find_group(into) else {
            return false;
        };
        proof {
            self.lemma_locate(oi as int, from as int);
            lemma_content_index(self.groups@, di as int);
        }
        let ghost before = *self;
        if oi == di {
            let len = self.groups[di].tabs.len();
            let slot = if insertion_slot < len { insertion_slot } else { len };
            let to = if slot > from { slot - 1 } else { slot };
            let ok = self.reorder_tab(tab, to);
            proof {
                assert(ok);
            }
            return true;
        }
        proof {
            lemma_content_index(self.groups@, oi as int);
            assert(before.owner(tab) != into);
        }
        let taken = self.take_tab(tab, true);
        let Some(moved_tab) = taken else {
            return false;
        };
        proof {
            Self::lemma_taken_admissible(before, *self, tab);
            assert(self.content().contains_key(into));
            assert(self.content()[into] == before.content()[into]);
        }
        let res = self.insert_tab(into, insertion_slot, moved_tab);
        proof {
            assert(res is Ok);
        }
        true
    }
}


/// Splitting the forest at a hosted leaf adds exactly the new id.
proof fn lemma_forest_split<S, W>(
    cs: Seq<Cluster<S, W>>,
    reference: GroupId,
    axis: Axis,
    new_first: bool,
    sizing: S,
    new: GroupId,
)
    requires
        forest_leaves(cs).no_duplicates(),
        forest_leaves(cs).contains(reference),
        !forest_leaves(cs).contains(new),
    ensures
        forall|x: GroupId|
            forest_leaves(forest_split(cs, reference, axis, new_first, sizing, new)).contains(x) <==> (
            forest_leaves(cs).contains(x) || x == new),
        forest_leaves(forest_split(cs, reference, axis, new_first, sizing, new)).no_duplicates(),
    decreases cs.len(),
{
    lemma_forest_leaves_front(cs);
    let c = cs[0];
    let rest = cs.drop_first();
    lemma_split_leaf_leaves(c.root, reference, axis, new_first, sizing, new);
    lemma_concat_no_dup(c.root.leaves(), forest_leaves(rest));
    lemma_disjoint_contains(c.root.leaves(), forest_leaves(rest));
    lemma_concat_contains(c.root.leaves(), forest_leaves(rest), reference);
    lemma_concat_contains(c.root.leaves(), forest_leaves(rest), new);
    let (n, found) = c.root.spec_split_leaf(reference, axis, new_first, sizing, new);
    if found {
        let nc = Cluster { weight: c.weight, root: n };
        lemma_forest_leaves_concat(seq![nc], rest);
        lemma_forest_leaves_one(nc);
        lemma_concat_no_dup(n.leaves(), forest_leaves(rest));
        lemma_disjoint_contains(n.leaves(), forest_leaves(rest));
        assert forall|x: GroupId|
            forest_leaves(forest_split(cs, reference, axis, new_first, sizing, new)).contains(x) <==> (
            forest_leaves(cs).contains(x) || x == new) by {
            lemma_concat_contains(n.leaves(), forest_leaves(rest), x);
            lemma_concat_contains(c.root.leaves(), forest_leaves(rest), x);
        }
    } else {
        lemma_forest_split(rest, reference, axis, new_first, sizing, new);
        let nr = forest_split(rest, reference, axis, new_first, sizing, new);
        lemma_forest_leaves_concat(seq![c], nr);
        lemma_forest_leaves_one(c);
        lemma_concat_no_dup(c.root.leaves(), forest_leaves(nr));
        lemma_disjoint_contains(c.root.leaves(), forest_leaves(nr));
        assert forall|x: GroupId|
            forest_leaves(forest_split(cs, reference, axis, new_first, sizing, new)).contains(x) <==> (
            forest_leaves(cs).contains(x) || x == new) by {
            lemma_concat_contains(c.root.leaves(), forest_leaves(nr), x);
            lemma_concat_contains(c.root.leaves(), forest_leaves(rest), x);
        }
    }
}

/// Clusters before `idx` that lack the reference pass through a split.
proof fn lemma_forest_split_prefix<S, W>(
    cs: Seq<Cluster<S, W>>,
    reference: GroupId,
    axis: Axis,
    new_first: bool,
    sizing: S,
    new: GroupId,
    idx: int,
)
    requires
        0 <= idx <= cs.len(),
        forall|j: int| 0 <= j < idx ==> !(#[trigger] cs[j].root.leaves()).contains(reference),
    ensures
        forest_split(cs, reference, axis, new_first, sizing, new) == cs.take(idx) + forest_split(
            cs.skip(idx),
            reference,
            axis,
            new_first,
            sizing,
            new,
        ),
    decreases idx,
{
    if idx == 0 {
        assert(cs.skip(0) =~= cs);
        assert(cs.take(0) + forest_split(cs.skip(0), reference, axis, new_first, sizing, new) =~= forest_split(
            cs,
            reference,
            axis,
            new_first,
            sizing,
            new,
        ));
    } else {
        lemma_split_leaf_leaves(cs[0].root, reference, axis, new_first, sizing, new);
        let rest = cs.drop_first();
        assert forall|j: int| 0 <= j < idx - 1 implies !(#[trigger] rest[j].root.leaves()).contains(reference) by {
            assert(rest[j] == cs[j + 1]);
        }
        lemma_forest_split_prefix(rest, reference, axis, new_first, sizing, new, idx - 1);
        assert(rest.skip(idx - 1) =~= cs.skip(idx));
        assert(cs.take(idx) =~= seq![cs[0]] + rest.take(idx - 1));
        assert(!cs[0].root.leaves().contains(reference));
        assert(forest_split(cs, reference, axis, new_first, sizing, new) == seq![cs[0]] + forest_split(
            rest,
            reference,
            axis,
            new_first,
            sizing,
            new,
        ));
        assert(forest_split(cs, reference, axis, new_first, sizing, new) =~= cs.take(idx) + forest_split(
            cs.skip(idx),
            reference,
            axis,
            new_first,
            sizing,
            new,
        ));
    }
}

impl<T, S: Copy, W> GroupLayout<T, S, W> {
    /// Split the first leaf `reference` beside a new leaf `new`. Tree-only.
    fn split_group_leaf(&mut self, reference: GroupId, axis: Axis, new_first: bool, sizing: S, new: GroupId) -> (r:
        bool)
        ensures
            final(self).clusters@ == forest_split(old(self).clusters@, reference, axis, new_first, sizing, new),
            final(self).groups == old(self).groups,
            r == forest_leaves(old(self).clusters@).contains(reference),
    {
        let ghost cs0 = self.clusters@;
        let mut idx: usize = 0;
        while idx < self.clusters.len()
            invariant
                idx <= self.clusters@.len(),
                self.clusters@ == cs0,
                self.groups == old(self).groups,
                cs0 == old(self).clusters@,
                forall|j: int| 0 <= j < idx ==> !(#[trigger] cs0[j].root.leaves()).contains(reference),
            decreases self.clusters@.len() - idx,
        {
            let c = self.clusters.remove(idx);
            let Cluster { weight, root } = c;
            proof {
                lemma_split_leaf_leaves(root, reference, axis, new_first, sizing, new);
                lemma_forest_split_prefix(cs0, reference, axis, new_first, sizing, new, idx as int);
                assert(cs0.skip(idx as int)[0] == cs0[idx as int]);
                assert(cs0.skip(idx as int).drop_first() =~= cs0.skip(idx + 1));
            }
            let (n, found) = split_leaf(root, reference, axis, new_first, sizing, new);
            self.clusters.insert(idx, Cluster { weight, root: n });
            if found {
                proof {
                    assert(self.clusters@ =~= cs0.take(idx as int) + (seq![Cluster { weight, root: n }] + cs0.skip(
                        idx + 1,
                    )));
                    self.lemma_contains_at(cs0, idx as int, reference);
                }
                return true;
            }
            proof {
                assert(self.clusters@ =~= cs0);
            }
            idx += 1;
        }
        proof {
            assert(cs0.skip(idx as int) =~= Seq::<Cluster<S, W>>::empty());
            lemma_forest_split_prefix(cs0, reference, axis, new_first, sizing, new, idx as int);
            assert(cs0.take(idx as int) =~= cs0);
            self.lemma_absent(cs0, reference);
        }
        false
    }
}

impl<T: PartialEq, S, W> GroupLayout<T, S, W> {
    /// Host `tab` as the sole member of a new group `gid` (the tree leaf is
    /// the caller's). Content-only.
    fn register_singleton(&mut self, gid: GroupId, tab: Tab<T>)
        requires
            distinct_ids(old(self).groups@),
            strips_ok(old(self).groups@),
            ids_unique(old(self).groups@),
            bindings_unique(old(self).groups@),
            forall|i: int| 0 <= i < old(self).groups@.len() ==> #[trigger] old(self).groups@[i].id != gid,
            forall|i: int, k: int|
                slot_ok(old(self).groups@, i, k) ==> old(self).groups@[i].tabs@[k].tab_id() != tab.tab_id(),
            forall|i: int, k: int|
                slot_ok(old(self).groups@, i, k) && tab.tab_binding() is Some ==> old(
                    self,
                ).groups@[i].tabs@[k].tab_binding() != tab.tab_binding(),
        ensures
            distinct_ids(final(self).groups@),
            strips_ok(final(self).groups@),
            ids_unique(final(self).groups@),
            bindings_unique(final(self).groups@),
            final(self).clusters == old(self).clusters,
            final(self).content() == old(self).content().insert(
                gid,
                GroupView { tabs: seq![tab], selected: tab.tab_id() },
            ),
            final(self).groups@ == old(self).groups@.push(final(self).groups@.last()),
            final(self).groups@.last().id == gid,
    {
        let ghost os = self.groups@;
        let id = tab.id;
        let mut tabs = Vec::new();
        tabs.push(tab);
        let group = Group { id: gid, tabs, selected: id };
        proof {
            if content_of(os).contains_key(gid) {
                let j = choose|j: int| 0 <= j < os.len() && os[j].id == gid;
            }
        }
        self.groups.push(group);
        proof {
            let gs = self.groups@;
            assert(gs == os.push(group));
            lemma_content_push(os, group);
            assert(group.view() == GroupView { tabs: seq![tab], selected: tab.tab_id() });
            let n = os.len() as int;
            let m = |i: int, k: int| (i, k);
            assert forall|i: int, k: int| slot_ok(gs, i, k) && Some((n, 0int)) != Some((i, k)) implies {
                let (oi, ok) = #[trigger] m(i, k);
                &&& slot_ok(os, oi, ok)
                &&& gs[i].tabs@[k] == os[oi].tabs@[ok]
            } by {
                if i == n {
                    assert(gs[n].tabs@.len() == 1);
                }
            }
            assert(gs[n].tabs@[0] == tab);
            lemma_transfer_unique(os, gs, m, Some((n, 0int)));
            assert(strips_ok(gs)) by {
                assert forall|j: int| 0 <= j < gs.len() implies view_hosts(#[trigger] gs[j].view(), gs[j].selected) by {
                    if j == n {
                        assert(gs[j].view().tabs[0].tab_id() == gs[j].selected);
                    } else {
                        assert(gs[j] == os[j]);
                    }
                }
                assert forall|j: int| 0 <= j < gs.len() implies #[trigger] gs[j].tabs@.len() > 0 by {
                    if j != n {
                        assert(gs[j] == os[j]);
                    }
                }
            }
        }
    }

    /// The slot-level reading of admissibility, for a model whose tree may
    /// be mid-edit.
    proof fn lemma_admissible_slots(self, tab: Tab<T>)
        requires
            self.wf(),
            self.admissible(tab),
        ensures
            forall|i: int, k: int|
                slot_ok(self.groups@, i, k) ==> self.groups@[i].tabs@[k].tab_id() != tab.tab_id(),
            forall|i: int, k: int|
                slot_ok(self.groups@, i, k) && tab.tab_binding() is Some ==> self.groups@[i].tabs@[k].tab_binding()
                    != tab.tab_binding(),
    {
        assert forall|i: int, k: int| slot_ok(self.groups@, i, k) implies self.groups@[i].tabs@[k].tab_id()
            != tab.tab_id() by {
            self.lemma_locate(i, k);
        }
        if tab.tab_binding() is Some {
            self.lemma_hosts_binding(tab.tab_binding()->0);
        }
    }

    /// A fresh id names no group.
    proof fn lemma_fresh_slots(self, gid: GroupId)
        requires
            self.wf(),
            !self.content().contains_key(gid),
        ensures
            forall|i: int| 0 <= i < self.groups@.len() ==> #[trigger] self.groups@[i].id != gid,
            !self.leaves().contains(gid),
    {
        assert forall|i: int| 0 <= i < self.groups@.len() implies #[trigger] self.groups@[i].id != gid by {
            if self.groups@[i].id == gid {
                lemma_content_index(self.groups@, i);
            }
        }
    }
}


impl<T: PartialEq, S, W> GroupLayout<T, S, W> {
    /// A model that gained group `gid` in both its content and its tree is
    /// well formed again.
    proof fn lemma_wf_added(old: Self, new: Self, gid: GroupId)
        requires
            old.wf(),
            !old.leaves().contains(gid),
            distinct_ids(new.groups@),
            strips_ok(new.groups@),
            ids_unique(new.groups@),
            bindings_unique(new.groups@),
            new.groups@ == old.groups@.push(new.groups@.last()),
            new.groups@.last().id == gid,
            forall|x: GroupId| new.leaves().contains(x) <==> (old.leaves().contains(x) || x == gid),
            new.leaves().no_duplicates(),
        ensures
            new.wf(),
    {
        let gs = new.groups@;
        let os = old.groups@;
        let n = os.len() as int;
        assert forall|g: GroupId| new.leaves().contains(g) <==> exists|i: int| 0 <= i < gs.len() && gs[i].id == g by {
            if exists|i: int| 0 <= i < os.len() && os[i].id == g {
                let i = choose|i: int| 0 <= i < os.len() && os[i].id == g;
                assert(gs[i].id == g);
            }
            if g == gid {
                assert(gs[n].id == g);
            }
            if exists|i: int| 0 <= i < gs.len() && gs[i].id == g {
                let i = choose|i: int| 0 <= i < gs.len() && gs[i].id == g;
                if i < n {
                    assert(os[i].id == g);
                }
            }
        }
    }
}

/// A cluster holding the single group `gid`.
pub open spec fn singleton_cluster<S, W>(gid: GroupId, weight: W) -> Cluster<S, W> {
    Cluster { weight, root: StructureNode::Leaf(gid) }
}

/// The content of a fresh singleton group hosting `tab`.
pub open spec fn singleton_view<T>(tab: Tab<T>) -> GroupView<T> {
    GroupView { tabs: seq![tab], selected: tab.tab_id() }
}

impl<T: Copy + PartialEq, S, W> GroupLayout<T, S, W> {
    /// Append a new top-level cluster hosting `tab` as the singleton group
    /// `gid` (a freshly minted id), with the cluster weight `weight`. A tab
    /// whose id or binding is already hosted is rejected and handed back.
    pub fn push_cluster(&mut self, gid: GroupId, weight: W, tab: Tab<T>) -> (r: Result<GroupId, Tab<T>>)
        requires
            old(self).wf(),
            !old(self).content().contains_key(gid),
            vstd::laws_eq::obeys_concrete_eq::<T>(),
        ensures
            final(self).wf(),
            r is Ok <==> old(self).admissible(tab),
            r matches Ok(g) ==> {
                &&& g == gid
                &&& final(self).content() == old(self).content().insert(gid, singleton_view(tab))
                &&& final(self).clusters_view() == old(self).clusters_view().push(singleton_cluster(gid, weight))
            },
            r matches Err(t) ==> {
                &&& t == tab
                &&& final(self).content() == old(self).content()
                &&& final(self).clusters_view() == old(self).clusters_view()
            },
    {
        if !self.is_admissible(&tab) {
            return Err(tab);
        }
        let ghost before = *self;
        proof {
            self.lemma_admissible_slots(tab);
            self.lemma_fresh_slots(gid);
        }
        self.register_singleton(gid, tab);
        let ghost mid = self.clusters@;
        self.clusters.push(Cluster { weight, root: StructureNode::Leaf(gid) });
        proof {
            let c = singleton_cluster::<S, W>(gid, weight);
            assert(self.clusters@ == mid.push(c));
            assert(mid.push(c) =~= mid + seq![c]);
            lemma_forest_leaves_concat(mid, seq![c]);
            lemma_forest_leaves_one(c);
            assert(c.root.leaves() == seq![gid]);
            lemma_concat_no_dup(before.leaves(), seq![gid]);
            lemma_disjoint_contains(before.leaves(), seq![gid]);
            assert(mid == before.clusters@);
            assert(self.leaves() == before.leaves() + seq![gid]);
            assert forall|x: GroupId| self.leaves().contains(x) <==> (before.leaves().contains(x) || x == gid) by {
                lemma_concat_contains(before.leaves(), seq![gid], x);
                if x == gid {
                    assert(seq![gid][0] == x);
                }
            }
            Self::lemma_wf_added(before, *self, gid);
        }
        Ok(gid)
    }

    /// Insert a new singleton-group cluster on the left edge. A tab whose id
    /// or binding is already hosted is rejected and handed back.
    pub fn insert_cluster_front(&mut self, gid: GroupId, weight: W, tab: Tab<T>) -> (r: Result<GroupId, Tab<T>>)
        requires
            old(self).wf(),
            !old(self).content().contains_key(gid),
            vstd::laws_eq::obeys_concrete_eq::<T>(),
        ensures
            final(self).wf(),
            r is Ok <==> old(self).admissible(tab),
            r matches Ok(g) ==> {
                &&& g == gid
                &&& final(self).content() == old(self).content().insert(gid, singleton_view(tab))
                &&& final(self).clusters_view() == seq![singleton_cluster(gid, weight)] + old(self).clusters_view()
            },
            r matches Err(t) ==> {
                &&& t == tab
                &&& final(self).content() == old(self).content()
                &&& final(self).clusters_view() == old(self).clusters_view()
            },
    {
        if !self.is_admissible(&tab) {
            return Err(tab);
        }
        let ghost before = *self;
        proof {
            self.lemma_admissible_slots(tab);
            self.lemma_fresh_slots(gid);
        }
        self.register_singleton(gid, tab);
        let ghost mid = self.clusters@;
        self.clusters.insert(0, Cluster { weight, root: StructureNode::Leaf(gid) });
        proof {
            let c = singleton_cluster::<S, W>(gid, weight);
            assert(self.clusters@ =~= seq![c] + mid);
            lemma_forest_leaves_concat(seq![c], mid);
            lemma_forest_leaves_one(c);
            assert(c.root.leaves() == seq![gid]);
            lemma_concat_no_dup(seq![gid], before.leaves());
            lemma_disjoint_contains(seq![gid], before.leaves());
            assert(mid == before.clusters@);
            assert(self.leaves() == seq![gid] + before.leaves());
            assert forall|x: GroupId| self.leaves().contains(x) <==> (before.leaves().contains(x) || x == gid) by {
                lemma_concat_contains(seq![gid], before.leaves(), x);
                if x == gid {
                    assert(seq![gid][0] == x);
                }
            }
            assert(seq![gid].contains(gid)) by {
                assert(seq![gid][0] == gid);
            }
            Self::lemma_wf_added(before, *self, gid);
        }
        Ok(gid)
    }
}

impl<T: Copy + PartialEq, S: Copy, W> GroupLayout<T, S, W> {
    /// Split a new singleton group `gid` hosting `tab` off the `reference`
    /// group, wherever it lives. The tab is rejected and handed back — with
    /// the model unchanged — when the reference is unknown or the tab's id
    /// or binding is already hosted.
    pub fn split_group(
        &mut self,
        reference: GroupId,
        axis: Axis,
        new_first: bool,
        sizing: S,
        gid: GroupId,
        tab: Tab<T>,
    ) -> (r: Result<GroupId, Tab<T>>)
        requires
            old(self).wf(),
            !old(self).content().contains_key(gid),
            vstd::laws_eq::obeys_concrete_eq::<T>(),
        ensures
            final(self).wf(),
            r is Ok <==> (old(self).content().contains_key(reference) && old(self).admissible(tab)),
            r matches Ok(g) ==> {
                &&& g == gid
                &&& final(self).content() == old(self).content().insert(gid, singleton_view(tab))
                &&& final(self).clusters_view() == forest_split(
                    old(self).clusters_view(),
                    reference,
                    axis,
                    new_first,
                    sizing,
                    gid,
                )
            },
            r matches Err(t) ==> {
                &&& t == tab
                &&& final(self).content() == old(self).content()
                &&& final(self).clusters_view() == old(self).clusters_view()
            },
    {
        if self.find_group(reference).is_none() || !self.is_admissible(&tab) {
            return Err(tab);
        }
        let ghost before = *self;
        proof {
            self.lemma_admissible_slots(tab);
            self.lemma_fresh_slots(gid);
            let i = choose|i: int| 0 <= i < self.groups@.len() && self.groups@[i].id == reference;
            assert(self.leaves().contains(reference));
            lemma_forest_split(self.clusters@, reference, axis, new_first, sizing, gid);
        }
        let found = self.split_group_leaf(reference, axis, new_first, sizing, gid);
        proof {
            assert(found);
        }
        self.register_singleton(gid, tab);
        proof {
            Self::lemma_wf_added(before, *self, gid);
        }
        Ok(gid)
    }

    /// Detach `tab` into a brand-new singleton group `gid` split beside the
    /// whole `beside` group. The source group collapses when the tab was its
    /// last; the new group's selection is the tab itself. `None` — with
    /// nothing mutated — when either participant is unknown, or when the tab
    /// already is the `beside` singleton.
    pub fn split_tab_as_singleton(
        &mut self,
        tab: TabId,
        beside: GroupId,
        axis: Axis,
        new_first: bool,
        sizing: S,
        gid: GroupId,
    ) -> (r: Option<GroupId>)
        requires
            old(self).wf(),
            !old(self).content().contains_key(gid),
        ensures
            final(self).wf(),
            r is Some <==> (old(self).hosts_tab(tab) && old(self).content().contains_key(beside) && !(old(
                self,
            ).owner(tab) == beside && old(self).content()[beside].tabs.len() == 1)),
            r matches Some(g) ==> {
                &&& g == gid
                &&& final(self).content() == old(self).content_after_take(tab).insert(
                    gid,
                    singleton_view(old(self).owner_view(tab).tabs[old(self).slot_of(tab)]),
                )
                &&& final(self).clusters_view() == forest_split(
                    old(self).clusters_after_take(tab),
                    beside,
                    axis,
                    new_first,
                    sizing,
                    gid,
                )
            },
            r is None ==> final(self).content() == old(self).content() && final(self).clusters_view()
                == old(self).clusters_view(),
    {
        let Some((oi, k)) = self.find_tab(tab) else {
            return None;
        };
        let Some(bi) = self.find_group(beside) else {
            return None;
        };
        proof {
            self.lemma_locate(oi as int, k as int);
            lemma_content_index(self.groups@, bi as int);
            lemma_content_index(self.groups@, oi as int);
        }
        if oi == bi && self.groups[bi].tabs.len() == 1 {
            return None;
        }
        let ghost before = *self;
        proof {
            self.lemma_fresh_slots(gid);
        }
        let taken = self.take_tab(tab, true);
        let Some(moved_tab) = taken else {
            return None;
        };
        proof {
            Self::lemma_taken_admissible(before, *self, tab);
            self.lemma_admissible_slots(moved_tab);
            assert(self.content().contains_key(beside));
            assert(!self.content().contains_key(gid));
            self.lemma_fresh_slots(gid);
            let i = choose|i: int| 0 <= i < self.groups@.len() && self.groups@[i].id == beside;
            assert(self.leaves().contains(beside));
            lemma_forest_split(self.clusters@, beside, axis, new_first, sizing, gid);
        }
        let ghost mid = *self;
        let found = self.split_group_leaf(beside, axis, new_first, sizing, gid);
        proof {
            assert(found);
        }
        self.register_singleton(gid, moved_tab);
        proof {
            Self::lemma_wf_added(mid, *self, gid);
        }
        Some(gid)
    }
}


impl<T, S, W> GroupLayout<T, S, W> {
    /// Every hosted tab, cluster by cluster, depth-first, in strip order
    /// within each group.
    pub open spec fn panes_view(self) -> Seq<Tab<T>> {
        self.leaves().map_values(|g: GroupId| self.content()[g].tabs).flatten()
    }
}

impl<T: Copy + PartialEq, S, W> GroupLayout<T, S, W> {
    /// Every tab, cluster by cluster, depth-first, in strip order within each
    /// group.
    pub fn panes(&self) -> (r: Vec<&Tab<T>>)
        requires
            self.wf(),
        ensures
            r@.map_values(|t: &Tab<T>| *t) == self.panes_view(),
    {
        let order = self.groups_depth_first();
        let mut out: Vec<&Tab<T>> = Vec::new();
        let ghost f = |g: GroupId| self.content()[g].tabs;
        let mut n: usize = 0;
        while n < order.len()
            invariant
                self.wf(),
                order@ == self.leaves(),
                n <= order@.len(),
                f == (|g: GroupId| self.content()[g].tabs),
                out@.map_values(|t: &Tab<T>| *t) == order@.take(n as int).map_values(f).flatten(),
            decreases order@.len() - n,
        {
            let gid = order[n];
            proof {
                assert(self.leaves().contains(gid)) by {
                    assert(self.leaves()[n as int] == gid);
                }
            }
            let gi = match self.find_group(gid) {
                Some(gi) => gi,
                None => {
                    proof {
                        let j = choose|j: int| 0 <= j < self.groups@.len() && self.groups@[j].id == gid;
                        lemma_content_index(self.groups@, j);
                    }
                    return out;
                },
            };
            proof {
                lemma_content_index(self.groups@, gi as int);
            }
            let ghost before = out@;
            let tabs = &self.groups[gi].tabs;
            let mut k: usize = 0;
            while k < tabs.len()
                invariant
                    k <= tabs@.len(),
                    self.content().contains_key(gid),
                    tabs@ == self.content()[gid].tabs,
                    out@.map_values(|t: &Tab<T>| *t) == before.map_values(|t: &Tab<T>| *t) + tabs@.take(k as int),
                decreases tabs@.len() - k,
            {
                let ghost prev = out@;
                out.push(&tabs[k]);
                proof {
                    assert(out@ == prev.push(&tabs@[k as int]));
                    assert(out@.map_values(|t: &Tab<T>| *t) =~= prev.map_values(|t: &Tab<T>| *t).push(tabs@[k as int]));
                    assert(tabs@.take(k + 1) =~= tabs@.take(k as int).push(tabs@[k as int]));
                    assert(out@.map_values(|t: &Tab<T>| *t) =~= before.map_values(|t: &Tab<T>| *t) + tabs@.take(k + 1));
                }
                k += 1;
            }
            proof {
                assert(tabs@.take(k as int) =~= tabs@);
                let p = order@.take(n as int);
                assert(order@.take(n + 1) =~= p.push(gid));
                assert(order@.take(n + 1).map_values(f) =~= p.map_values(f).push(f(gid)));
                p.map_values(f).lemma_flatten_push(f(gid));
            }
            n += 1;
        }
        proof {
            assert(order@.take(n as int) =~= order@);
        }
        out
    }

    /// Check every model invariant: tree leaves and group contents hold the
    /// same ids with no duplicates, no group is empty, every selection is a
    /// member of its strip, and every tab id and live binding occurs exactly
    /// once. The invariants are proved to hold of every model this type
    /// builds, so the check always succeeds.
    pub fn validate(&self) -> (r: Result<(), String>)
        requires
            self.wf(),
        ensures
            r is Ok,
    {
        Ok(())
    }
}

/// Whether a visibility filter reported `shown` for `tab`.
pub open spec fn reported<T, F: Fn(&Tab<T>) -> bool>(visible: F, tab: Tab<T>, shown: bool) -> bool {
    visible.ensures((&tab,), shown)
}

/// Slot `k` is what a strip renders under the filter when its selection
/// sits at `sel`: the first visible slot at or after `sel`, or, with none
/// there, the nearest visible slot before it.
pub open spec fn rendered_fallback<T, F: Fn(&Tab<T>) -> bool>(visible: F, tabs: Seq<Tab<T>>, sel: int, k: int) -> bool {
    &&& 0 <= k < tabs.len()
    &&& reported(visible, tabs[k], true)
    &&& if k >= sel {
        forall|j: int| sel <= j < k ==> reported(visible, #[trigger] tabs[j], false)
    } else {
        &&& forall|j: int| sel <= j < tabs.len() ==> reported(visible, #[trigger] tabs[j], false)
        &&& forall|j: int| k < j < sel ==> reported(visible, #[trigger] tabs[j], false)
    }
}

impl<T: PartialEq, S, W> GroupLayout<T, S, W> {
    /// The tab the group renders under a visibility filter: the durable
    /// selection when visible, otherwise the first visible tab at or after
    /// the selected slot, otherwise the nearest visible tab before it. The
    /// durable selection is untouched. `None` when the group is unknown or
    /// fully hidden.
    pub fn effective_selected<F: Fn(&Tab<T>) -> bool>(&self, group: GroupId, visible: F) -> (r: Option<TabId>)
        requires
            self.wf(),
            forall|t: &Tab<T>| #[trigger] visible.requires((t,)),
        ensures
            !self.content().contains_key(group) ==> r is None,
            self.content().contains_key(group) ==> {
                let tabs = self.content()[group].tabs;
                let sel = view_index_of(self.content()[group], self.content()[group].selected);
                match r {
                    Some(id) => exists|k: int| #[trigger] rendered_fallback(visible, tabs, sel, k) && tabs[k].tab_id() == id,
                    None => forall|j: int| 0 <= j < tabs.len() ==> reported(visible, #[trigger] tabs[j], false),
                }
            },
    {
        let gi = match self.find_group(group) {
            Some(gi) => gi,
            None => return None,
        };
        proof {
            lemma_content_index(self.groups@, gi as int);
        }
        let tabs = &self.groups[gi].tabs;
        let selected = self.groups[gi].selected;
        let ghost v = self.content()[group];
        let ghost sel = view_index_of(v, selected);
        proof {
            assert(v.selected == selected);
            assert(view_hosts(v, selected));
            assert(0 <= sel < tabs@.len() && tabs@[sel].tab_id() == selected);
        }
        let mut s: usize = 0;
        while s < tabs.len() && tabs[s].id != selected
            invariant
                s <= sel,
                tabs@ == v.tabs,
                0 <= sel < tabs@.len(),
                tabs@[sel].tab_id() == selected,
                forall|j: int| 0 <= j < s ==> tabs@[j].tab_id() != selected,
            decreases tabs@.len() - s,
        {
            s += 1;
        }
        proof {
            assert(s < tabs@.len() && tabs@[s as int].tab_id() == selected);
            if (s as int) < sel {
                self.lemma_content_unique(group, s as int, group, sel);
            }
            assert(s == sel);
        }
        let mut k: usize = s;
        while k < tabs.len()
            invariant
                s <= k <= tabs@.len(),
                s == sel,
                tabs@ == v.tabs,
                self.content().contains_key(group),
                v == self.content()[group],
                sel == view_index_of(self.content()[group], self.content()[group].selected),
                forall|t: &Tab<T>| #[trigger] visible.requires((t,)),
                forall|j: int| sel <= j < k ==> reported(visible, #[trigger] tabs@[j], false),
            decreases tabs@.len() - k,
        {
            let shown = visible(&tabs[k]);
            if shown {
                let id = tabs[k].id;
                proof {
                    assert(reported(visible, tabs@[k as int], true));
                    assert(self.content()[group].tabs[k as int].tab_id() == id);
                    assert(rendered_fallback(visible, self.content()[group].tabs, sel, k as int));
                }
                return Some(id);
            }
            proof {
                assert(reported(visible, tabs@[k as int], false));
            }
            k += 1;
        }
        let mut k: usize = s;
        while k > 0
            invariant
                k <= s,
                s == sel,
                s < tabs@.len(),
                tabs@ == v.tabs,
                self.content().contains_key(group),
                v == self.content()[group],
                sel == view_index_of(self.content()[group], self.content()[group].selected),
                forall|t: &Tab<T>| #[trigger] visible.requires((t,)),
                forall|j: int| sel <= j < tabs@.len() ==> reported(visible, #[trigger] tabs@[j], false),
                forall|j: int| k <= j < sel ==> reported(visible, #[trigger] tabs@[j], false),
            decreases k,
        {
            k -= 1;
            let shown = visible(&tabs[k]);
            if shown {
                let id = tabs[k].id;
                proof {
                    assert(reported(visible, tabs@[k as int], true));
                    assert(self.content()[group].tabs[k as int].tab_id() == id);
                    assert(rendered_fallback(visible, self.content()[group].tabs, sel, k as int));
                }
                return Some(id);
            }
            proof {
                assert(reported(visible, tabs@[k as int], false));
            }
        }
        None
    }
}



/// A copy of a subtree.
fn copy_node<S: Copy>(node: &StructureNode<S>) -> (r: StructureNode<S>)
    ensures
        r == *node,
    decreases node,
{
    match node {
        StructureNode::Leaf(g) => StructureNode::Leaf(*g),
        StructureNode::Split { axis, sizing, a, b } => {
            let na = copy_node(a);
            let nb = copy_node(b);
            StructureNode::Split { axis: *axis, sizing: *sizing, a: Box::new(na), b: Box::new(nb) }
        },
    }
}

impl<T, S: Copy, W: Copy> GroupLayout<T, S, W> {
    /// A read-only mirror of the split forest — cluster weights and split
    /// geometry down to group-id leaves — in model order.
    pub fn structure(&self) -> (r: Vec<(W, StructureNode<S>)>)
        ensures
            r@.len() == self.clusters_view().len(),
            forall|i: int|
                0 <= i < r@.len() ==> #[trigger] r@[i] == (self.clusters_view()[i].weight, self.clusters_view()[i].root),
    {
        let mut out: Vec<(W, StructureNode<S>)> = Vec::new();
        let mut i: usize = 0;
        while i < self.clusters.len()
            invariant
                i <= self.clusters@.len(),
                out@.len() == i,
                forall|j: int| 0 <= j < i ==> #[trigger] out@[j] == (self.clusters@[j].weight, self.clusters@[j].root),
            decreases self.clusters@.len() - i,
        {
            let c = &self.clusters[i];
            out.push((c.weight, copy_node(&c.root)));
            i += 1;
        }
        out
    }

    /// Each cluster's share of the window, in model order.
    pub fn cluster_weights(&self) -> (r: Vec<W>)
        ensures
            r@ == self.clusters_view().map_values(|c: Cluster<S, W>| c.weight),
    {
        let mut out: Vec<W> = Vec::new();
        let mut i: usize = 0;
        while i < self.clusters.len()
            invariant
                i <= self.clusters@.len(),
                out@ == self.clusters@.take(i as int).map_values(|c: Cluster<S, W>| c.weight),
            decreases self.clusters@.len() - i,
        {
            out.push(self.clusters[i].weight);
            proof {
                assert(self.clusters@.take(i + 1).map_values(|c: Cluster<S, W>| c.weight) =~= self.clusters@.take(
                    i as int,
                ).map_values(|c: Cluster<S, W>| c.weight).push(self.clusters@[i as int].weight));
            }
            i += 1;
        }
        proof {
            assert(self.clusters@.take(i as int) =~= self.clusters@);
        }
        out
    }
}


/// Replacing a split's sizing keeps the leaves.
proof fn lemma_set_sizing_leaves<S>(node: StructureNode<S>, path: Seq<Branch>, sizing: S)
    ensures
        node.spec_set_sizing(path, sizing).0.leaves() == node.leaves(),
    decreases path.len(),
{
    match node {
        StructureNode::Leaf(_) => {},
        StructureNode::Split { axis, sizing: old, a, b } => {
            if path.len() > 0 {
                match path[0] {
                    Branch::A => lemma_set_sizing_leaves(*a, path.drop_first(), sizing),
                    Branch::B => lemma_set_sizing_leaves(*b, path.drop_first(), sizing),
                }
            }
        },
    }
}

/// Replace the sizing of the split at `path[depth..]`.
fn set_sizing_at<S>(node: StructureNode<S>, path: &[Branch], depth: usize, sizing: S) -> (r: (StructureNode<S>, bool))
    requires
        depth <= path@.len(),
    ensures
        r == node.spec_set_sizing(path@.skip(depth as int), sizing),
    decreases path@.len() - depth,
{
    match node {
        StructureNode::Leaf(g) => (StructureNode::Leaf(g), false),
        StructureNode::Split { axis, sizing: old, a, b } => {
            if depth == path.len() {
                proof {
                    assert(path@.skip(depth as int).len() == 0);
                }
                (StructureNode::Split { axis, sizing, a, b }, true)
            } else {
                proof {
                    assert(path@.skip(depth as int)[0] == path@[depth as int]);
                    assert(path@.skip(depth as int).drop_first() =~= path@.skip(depth + 1));
                }
                match path[depth] {
                    Branch::A => {
                        let (na, f) = set_sizing_at(*a, path, depth + 1, sizing);
                        (StructureNode::Split { axis, sizing: old, a: Box::new(na), b }, f)
                    },
                    Branch::B => {
                        let (nb, f) = set_sizing_at(*b, path, depth + 1, sizing);
                        (StructureNode::Split { axis, sizing: old, a, b: Box::new(nb) }, f)
                    },
                }
            }
        },
    }
}

impl<T: PartialEq, S, W: Copy> GroupLayout<T, S, W> {
    /// Replace every cluster's share of the window; `false` (no change) when
    /// `weights` does not hold one weight per cluster.
    pub fn set_cluster_weights(&mut self, weights: &[W]) -> (r: bool)
        requires
            old(self).wf(),
        ensures
            final(self).wf(),
            r == (weights@.len() == old(self).clusters_view().len()),
            final(self).content() == old(self).content(),
            final(self).clusters_view().len() == old(self).clusters_view().len(),
            forall|i: int|
                0 <= i < old(self).clusters_view().len() ==> #[trigger] final(self).clusters_view()[i] == (if r {
                    Cluster { weight: weights@[i], root: old(self).clusters_view()[i].root }
                } else {
                    old(self).clusters_view()[i]
                }),
    {
        if weights.len() != self.clusters.len() {
            return false;
        }
        let ghost before = *self;
        let mut i: usize = 0;
        while i < self.clusters.len()
            invariant
                i <= self.clusters@.len(),
                weights@.len() == self.clusters@.len(),
                self.clusters@.len() == before.clusters@.len(),
                self.groups == before.groups,
                forall|j: int| 0 <= j < i ==> #[trigger] self.clusters@[j] == (Cluster { weight: weights@[j], root: before.clusters@[j].root }),
                forall|j: int| i <= j < self.clusters@.len() ==> #[trigger] self.clusters@[j] == before.clusters@[j],
            decreases self.clusters@.len() - i,
        {
            let c = self.clusters.remove(i);
            let Cluster { weight: _, root } = c;
            self.clusters.insert(i, Cluster { weight: weights[i], root });
            i += 1;
        }
        proof {
            let f = |c: Cluster<S, W>| c.root.leaves();
            assert(self.clusters@.map_values(f) =~= before.clusters@.map_values(f));
        }
        true
    }

    /// Replace the sizing of the split at `path` inside cluster `cluster`;
    /// `false` (no change) when the address names no split.
    pub fn set_split_sizing(&mut self, cluster: usize, path: &[Branch], sizing: S) -> (r: bool)
        requires
            old(self).wf(),
        ensures
            final(self).wf(),
            final(self).content() == old(self).content(),
            r == (cluster < old(self).clusters_view().len() && old(self).clusters_view()[cluster as int].root.spec_set_sizing(
                path@,
                sizing,
            ).1),
            final(self).clusters_view() == if cluster < old(self).clusters_view().len() {
                old(self).clusters_view().update(
                    cluster as int,
                    Cluster {
                        weight: old(self).clusters_view()[cluster as int].weight,
                        root: old(self).clusters_view()[cluster as int].root.spec_set_sizing(path@, sizing).0,
                    },
                )
            } else {
                old(self).clusters_view()
            },
    {
        if cluster >= self.clusters.len() {
            return false;
        }
        let ghost before = *self;
        let c = self.clusters.remove(cluster);
        let Cluster { weight, root } = c;
        proof {
            assert(path@.skip(0) =~= path@);
            lemma_set_sizing_leaves(root, path@, sizing);
        }
        let (n, found) = set_sizing_at(root, path, 0, sizing);
        self.clusters.insert(cluster, Cluster { weight, root: n });
        proof {
            let f = |c: Cluster<S, W>| c.root.leaves();
            assert(self.clusters@.map_values(f) =~= before.clusters@.map_values(f));
        }
        found
    }
}


impl<T, S, W> GroupLayout<T, S, W> {
    /// The number of top-level clusters.
    pub fn cluster_count(&self) -> (r: usize)
        ensures
            r == self.clusters_view().len(),
    {
        self.clusters.len()
    }

    /// The split tree of cluster `c`.
    pub fn cluster_root(&self, c: usize) -> (r: &StructureNode<S>)
        requires
            c < self.clusters_view().len(),
        ensures
            *r == self.clusters_view()[c as int].root,
    {
        &self.clusters[c].root
    }
}


/// The clusters folded into one subtree, right-associated along the
/// vertical axis, the `i`-th divider carrying `folds[i]`.
pub open spec fn fold_clusters<S, W>(clusters: Seq<Cluster<S, W>>, folds: Seq<S>) -> StructureNode<S>
    decreases clusters.len(),
{
    if clusters.len() <= 1 {
        clusters[0].root
    } else {
        StructureNode::Split {
            axis: Axis::Vertical,
            sizing: folds[0],
            a: Box::new(clusters[0].root),
            b: Box::new(fold_clusters(clusters.drop_first(), folds.drop_first())),
        }
    }
}

/// A new leaf `gid` split against `whole` (first when `new_first`).
pub open spec fn wrap_node<S>(axis: Axis, new_first: bool, sizing: S, gid: GroupId, whole: StructureNode<S>) -> StructureNode<S> {
    if new_first {
        StructureNode::Split { axis, sizing, a: Box::new(StructureNode::Leaf(gid)), b: Box::new(whole) }
    } else {
        StructureNode::Split { axis, sizing, a: Box::new(whole), b: Box::new(StructureNode::Leaf(gid)) }
    }
}

proof fn lemma_fold_leaves<S, W>(clusters: Seq<Cluster<S, W>>, folds: Seq<S>)
    requires
        clusters.len() >= 1,
    ensures
        fold_clusters(clusters, folds).leaves() == forest_leaves(clusters),
    decreases clusters.len(),
{
    lemma_forest_leaves_front(clusters);
    if clusters.len() == 1 {
        assert(clusters.drop_first() =~= Seq::<Cluster<S, W>>::empty());
        assert(forest_leaves(clusters.drop_first()) =~= Seq::<GroupId>::empty()) by {
            assert(clusters.drop_first().map_values(|c: Cluster<S, W>| c.root.leaves()) =~= Seq::<Seq<GroupId>>::empty());
        }
        assert(forest_leaves(clusters) =~= clusters[0].root.leaves());
    } else {
        lemma_fold_leaves(clusters.drop_first(), folds.drop_first());
    }
}

proof fn lemma_fold_step<S, W>(clusters: Seq<Cluster<S, W>>, folds: Seq<S>, k: int)
    requires
        0 <= k < clusters.len() - 1,
        folds.len() + 1 == clusters.len(),
    ensures
        fold_clusters(clusters.skip(k), folds.skip(k)) == (StructureNode::Split {
            axis: Axis::Vertical,
            sizing: folds[k],
            a: Box::new(clusters[k].root),
            b: Box::new(fold_clusters(clusters.skip(k + 1), folds.skip(k + 1))),
        }),
{
    assert(clusters.skip(k).drop_first() =~= clusters.skip(k + 1));
    assert(folds.skip(k).drop_first() =~= folds.skip(k + 1));
    assert(clusters.skip(k)[0] == clusters[k]);
    assert(folds.skip(k)[0] == folds[k]);
}

impl<T: Copy + PartialEq, S: Copy, W> GroupLayout<T, S, W> {
    /// Fold the whole current layout into a single cluster of weight
    /// `weight` and split `tab`, as the new singleton group `gid`, against
    /// it with `sizing`; the `i`-th fold divider carries `folds[i]`. On an
    /// empty model the tab becomes the only cluster. A tab whose id or
    /// binding is already hosted is rejected and handed back.
    pub fn wrap_all(
        &mut self,
        axis: Axis,
        new_first: bool,
        sizing: S,
        weight: W,
        folds: &[S],
        gid: GroupId,
        tab: Tab<T>,
    ) -> (r: Result<GroupId, Tab<T>>)
        requires
            old(self).wf(),
            !old(self).content().contains_key(gid),
            vstd::laws_eq::obeys_concrete_eq::<T>(),
            old(self).clusters_view().len() > 0 ==> folds@.len() + 1 == old(self).clusters_view().len(),
        ensures
            final(self).wf(),
            r is Ok <==> old(self).admissible(tab),
            r matches Ok(g) ==> {
                &&& g == gid
                &&& final(self).content() == old(self).content().insert(gid, singleton_view(tab))
                &&& final(self).clusters_view() == if old(self).clusters_view().len() == 0 {
                    seq![singleton_cluster(gid, weight)]
                } else {
                    seq![
                        Cluster {
                            weight,
                            root: wrap_node(
                                axis,
                                new_first,
                                sizing,
                                gid,
                                fold_clusters(old(self).clusters_view(), folds@),
                            ),
                        },
                    ]
                }
            },
            r matches Err(t) ==> {
                &&& t == tab
                &&& final(self).content() == old(self).content()
                &&& final(self).clusters_view() == old(self).clusters_view()
            },
    {
        if !self.is_admissible(&tab) {
            return Err(tab);
        }
        if self.clusters.len() == 0 {
            return self.push_cluster(gid, weight, tab);
        }
        let ghost before = *self;
        let ghost old_cs = self.clusters@;
        proof {
            self.lemma_admissible_slots(tab);
            self.lemma_fresh_slots(gid);
        }
        let mut cs: Vec<Cluster<S, W>> = Vec::new();
        std::mem::swap(&mut cs, &mut self.clusters);
        let last = cs.pop().unwrap();
        let mut acc = last.root;
        proof {
            assert(old_cs.skip(cs@.len() as int) =~= seq![old_cs.last()]);
            assert(cs@ =~= old_cs.take(cs@.len() as int));
        }
        while cs.len() > 0
            invariant
                cs@.len() < old_cs.len(),
                folds@.len() + 1 == old_cs.len(),
                cs@ == old_cs.take(cs@.len() as int),
                acc == fold_clusters(old_cs.skip(cs@.len() as int), folds@.skip(cs@.len() as int)),
            decreases cs@.len(),
        {
            let c = cs.pop().unwrap();
            let k = cs.len();
            proof {
                assert(c == old_cs[k as int]);
                lemma_fold_step(old_cs, folds@, k as int);
                assert(cs@ =~= old_cs.take(k as int));
            }
            acc = StructureNode::Split { axis: Axis::Vertical, sizing: folds[k], a: Box::new(c.root), b: Box::new(acc) };
        }
        proof {
            assert(old_cs.skip(0) =~= old_cs);
            assert(folds@.skip(0) =~= folds@);
            lemma_fold_leaves(old_cs, folds@);
        }
        let root = if new_first {
            StructureNode::Split { axis, sizing, a: Box::new(StructureNode::Leaf(gid)), b: Box::new(acc) }
        } else {
            StructureNode::Split { axis, sizing, a: Box::new(acc), b: Box::new(StructureNode::Leaf(gid)) }
        };
        self.clusters.push(Cluster { weight, root });
        self.register_singleton(gid, tab);
        proof {
            let c = Cluster { weight, root };
            assert(self.clusters@ =~= seq![c]);
            lemma_forest_leaves_one(c);
            let whole = fold_clusters(old_cs, folds@);
            assert(StructureNode::<S>::Leaf(gid).leaves() == seq![gid]);
            if new_first {
                assert(root.leaves() == seq![gid] + whole.leaves());
                lemma_concat_no_dup(seq![gid], before.leaves());
                lemma_disjoint_contains(seq![gid], before.leaves());
                assert forall|x: GroupId| self.leaves().contains(x) <==> (before.leaves().contains(x) || x == gid) by {
                    lemma_concat_contains(seq![gid], before.leaves(), x);
                    if x == gid {
                        assert(seq![gid][0] == x);
                    }
                }
            } else {
                assert(root.leaves() == whole.leaves() + seq![gid]);
                lemma_concat_no_dup(before.leaves(), seq![gid]);
                lemma_disjoint_contains(before.leaves(), seq![gid]);
                assert forall|x: GroupId| self.leaves().contains(x) <==> (before.leaves().contains(x) || x == gid) by {
                    lemma_concat_contains(before.leaves(), seq![gid], x);
                    if x == gid {
                        assert(seq![gid][0] == x);
                    }
                }
            }
            Self::lemma_wf_added(before, *self, gid);
        }
        Ok(gid)
    }
}


// ----------------------------------------------------------------------
// Restoring a model from a blueprint
// ----------------------------------------------------------------------

/// A restorable description of one cluster subtree: a group's strip with
/// the index of its preferred selection, or a split of two subtrees.
pub enum Blueprint<T, S> {
    Group { tabs: Vec<Tab<T>>, selected: usize },
    Split { axis: Axis, sizing: S, a: Box<Blueprint<T, S>>, b: Box<Blueprint<T, S>> },
}

/// Whether two tabs cannot both be hosted: the same id, or the same live
/// binding.
pub open spec fn clash<T>(a: Tab<T>, b: Tab<T>) -> bool {
    a.tab_id() == b.tab_id() || (b.tab_binding() is Some && a.tab_binding() == b.tab_binding())
}

/// Whether `t` clashes with a tab of one of the strips `made`.
pub open spec fn clashes_made<T>(made: Seq<GroupView<T>>, t: Tab<T>) -> bool {
    exists|i: int, k: int| 0 <= i < made.len() && 0 <= k < made[i].tabs.len() && clash(#[trigger] made[i].tabs[k], t)
}

/// Whether `t` clashes with one of `tabs`.
pub open spec fn clashes_any<T>(tabs: Seq<Tab<T>>, t: Tab<T>) -> bool {
    exists|k: int| 0 <= k < tabs.len() && clash(#[trigger] tabs[k], t)
}

/// The tabs among the first `n` of a blueprint strip that survive, in
/// order: each in turn, unless it clashes with a tab already hosted in
/// `made` or already kept.
pub open spec fn kept_tabs<T>(made: Seq<GroupView<T>>, tabs: Seq<Tab<T>>, n: int) -> Seq<Tab<T>>
    decreases n,
{
    if n <= 0 {
        Seq::empty()
    } else {
        let kept = kept_tabs(made, tabs, n - 1);
        let t = tabs[n - 1];
        if !clashes_made(made, t) && !clashes_any(kept, t) {
            kept.push(t)
        } else {
            kept
        }
    }
}

/// The selection of a surviving strip: the blueprint's choice when that
/// tab survived, else the first survivor.
pub open spec fn kept_selection<T>(tabs: Seq<Tab<T>>, selected: usize, kept: Seq<Tab<T>>) -> TabId {
    if selected < tabs.len() && exists|k: int| 0 <= k < kept.len() && kept[k].tab_id() == tabs[selected as int].tab_id() {
        tabs[selected as int].tab_id()
    } else {
        kept[0].tab_id()
    }
}

/// The id of the `i`th group minted from `base` on.
pub closed spec fn minted(base: u64, i: int) -> GroupId {
    GroupId((base + i) as u64)
}

/// The ids minted from `base` on for the groups `lo..hi`.
pub open spec fn minted_range(base: u64, lo: int, hi: int) -> Seq<GroupId> {
    Seq::new((hi - lo) as nat, |j: int| minted(base, lo + j))
}

/// Assembling a blueprint subtree after the groups `made` (ids minted
/// consecutively from `base`): every group made so far, and the subtree,
/// when anything in it survived. A group left without tabs vanishes, and a
/// split that lost one side collapses into the other.
pub open spec fn spec_assemble<T, S>(made: Seq<GroupView<T>>, bp: Blueprint<T, S>, base: u64) -> (
    Seq<GroupView<T>>,
    Option<StructureNode<S>>,
)
    decreases bp,
{
    match bp {
        Blueprint::Group { tabs, selected } => {
            let kept = kept_tabs(made, tabs@, tabs@.len() as int);
            if kept.len() == 0 {
                (made, None)
            } else {
                (
                    made.push(GroupView { tabs: kept, selected: kept_selection(tabs@, selected, kept) }),
                    Some(StructureNode::Leaf(minted(base, made.len() as int))),
                )
            }
        },
        Blueprint::Split { axis, sizing, a, b } => {
            let (m1, na) = spec_assemble(made, *a, base);
            let (m2, nb) = spec_assemble(m1, *b, base);
            let node = match na {
                Some(x) => match nb {
                    Some(y) => Some(StructureNode::Split { axis, sizing, a: Box::new(x), b: Box::new(y) }),
                    None => Some(x),
                },
                None => nb,
            };
            (m2, node)
        },
    }
}

/// The number of group nodes of a blueprint subtree.
pub open spec fn group_nodes<T, S>(bp: Blueprint<T, S>) -> nat
    decreases bp,
{
    match bp {
        Blueprint::Group { .. } => 1,
        Blueprint::Split { a, b, .. } => group_nodes(*a) + group_nodes(*b),
    }
}

/// The number of group nodes of the first `n` cluster blueprints.
pub open spec fn blueprint_groups<T, S, W>(clusters: Seq<(W, Blueprint<T, S>)>, n: int) -> nat
    decreases n,
{
    if n <= 0 {
        0
    } else {
        blueprint_groups(clusters, n - 1) + group_nodes(clusters[n - 1].1)
    }
}

/// The group nodes of a blueprint subtree, counted; `None` past
/// `u64::MAX`.
pub fn count_group_nodes<T, S>(bp: &Blueprint<T, S>) -> (r: Option<u64>)
    ensures
        match r {
            Some(n) => n == group_nodes(*bp),
            None => group_nodes(*bp) > u64::MAX,
        },
    decreases bp,
{
    match bp {
        Blueprint::Group { .. } => Some(1),
        Blueprint::Split { a, b, .. } => {
            let x = count_group_nodes(&**a);
            let y = count_group_nodes(&**b);
            match (x, y) {
                (Some(x), Some(y)) => x.checked_add(y),
                _ => None,
            }
        },
    }
}

/// The group nodes of all cluster blueprints, counted: how many ids
/// restoring them may mint at most; `None` past `u64::MAX`.
pub fn count_blueprint_groups<T, S, W>(clusters: &[(W, Blueprint<T, S>)]) -> (r: Option<u64>)
    ensures
        match r {
            Some(n) => n == blueprint_groups(clusters@, clusters@.len() as int),
            None => blueprint_groups(clusters@, clusters@.len() as int) > u64::MAX,
        },
{
    let mut total: u64 = 0;
    let mut i: usize = 0;
    while i < clusters.len()
        invariant
            i <= clusters@.len(),
            total == blueprint_groups(clusters@, i as int),
        decreases clusters@.len() - i,
    {
        match count_group_nodes(&clusters[i].1) {
            Some(n) => match total.checked_add(n) {
                Some(t) => {
                    total = t;
                },
                None => {
                    proof {
                        lemma_blueprint_groups_grow(clusters@, i + 1, clusters@.len() as int);
                    }
                    return None;
                },
            },
            None => {
                proof {
                    lemma_blueprint_groups_grow(clusters@, i + 1, clusters@.len() as int);
                }
                return None;
            },
        }
        i += 1;
    }
    Some(total)
}

/// Restoring the first `n` cluster blueprints from `base` on: the groups
/// made, and the clusters that kept a group.
pub open spec fn spec_restore<T, S, W>(clusters: Seq<(W, Blueprint<T, S>)>, base: u64, n: int) -> (
    Seq<GroupView<T>>,
    Seq<Cluster<S, W>>,
)
    decreases n,
{
    if n <= 0 {
        (Seq::empty(), Seq::empty())
    } else {
        let (made, cs) = spec_restore(clusters, base, n - 1);
        let (m2, root) = spec_assemble(made, clusters[n - 1].1, base);
        match root {
            Some(r) => (m2, cs.push(Cluster { weight: clusters[n - 1].0, root: r })),
            None => (m2, cs),
        }
    }
}

/// The content of groups made with ids minted consecutively from `base`.
pub open spec fn minted_content<T>(made: Seq<GroupView<T>>, base: u64) -> Map<GroupId, GroupView<T>> {
    Map::new(
        |g: GroupId| base <= g.raw() && g.raw() < base + made.len(),
        |g: GroupId| made[g.raw() - base],
    )
}

proof fn lemma_blueprint_groups_grow<T, S, W>(clusters: Seq<(W, Blueprint<T, S>)>, a: int, b: int)
    requires
        0 <= a <= b,
    ensures
        blueprint_groups(clusters, a) <= blueprint_groups(clusters, b),
    decreases b - a,
{
    if a < b {
        lemma_blueprint_groups_grow(clusters, a, b - 1);
    }
}

proof fn lemma_minted_raw(base: u64, i: int)
    requires
        0 <= i,
        base + i <= u64::MAX,
    ensures
        minted(base, i).raw() == base + i,
{
}

/// The strips of a list of groups, as contracts see them.
closed spec fn group_views<T>(gs: Seq<Group<T>>) -> Seq<GroupView<T>> {
    gs.map_values(|g: Group<T>| g.view())
}

/// Every group carries the id minted for its position.
closed spec fn minted_from<T>(gs: Seq<Group<T>>, base: u64) -> bool {
    forall|i: int| 0 <= i < gs.len() ==> #[trigger] gs[i].id == minted(base, i)
}

/// The invariants of the group contents alone.
closed spec fn groups_ok<T>(gs: Seq<Group<T>>) -> bool {
    &&& distinct_ids(gs)
    &&& strips_ok(gs)
    &&& ids_unique(gs)
    &&& bindings_unique(gs)
}

/// The survivors of a strip neither clash with a hosted tab nor with
/// each other.
proof fn lemma_kept_tabs<T>(made: Seq<GroupView<T>>, tabs: Seq<Tab<T>>, n: int)
    requires
        0 <= n <= tabs.len(),
    ensures
        forall|j: int| 0 <= j < kept_tabs(made, tabs, n).len() ==> !clashes_made(made, #[trigger] kept_tabs(made, tabs, n)[j]),
        forall|j1: int, j2: int|
            0 <= j1 < kept_tabs(made, tabs, n).len() && 0 <= j2 < kept_tabs(made, tabs, n).len() && j1 != j2
                ==> !clash(#[trigger] kept_tabs(made, tabs, n)[j1], #[trigger] kept_tabs(made, tabs, n)[j2]),
    decreases n,
{
    if n > 0 {
        lemma_kept_tabs(made, tabs, n - 1);
        let kept = kept_tabs(made, tabs, n - 1);
        let t = tabs[n - 1];
        if !clashes_made(made, t) && !clashes_any(kept, t) {
            let nk = kept.push(t);
            assert forall|j1: int, j2: int| 0 <= j1 < nk.len() && 0 <= j2 < nk.len() && j1 != j2 implies !clash(
                #[trigger] nk[j1],
                #[trigger] nk[j2],
            ) by {
                if j2 == kept.len() {
                    assert(nk[j1] == kept[j1]);
                    assert(!clash(kept[j1], t));
                } else if j1 == kept.len() {
                    assert(nk[j2] == kept[j2]);
                    assert(!clash(kept[j2], t));
                } else {
                    assert(nk[j1] == kept[j1] && nk[j2] == kept[j2]);
                }
            }
            assert forall|j: int| 0 <= j < nk.len() implies !clashes_made(made, #[trigger] nk[j]) by {
                if j < kept.len() {
                    assert(nk[j] == kept[j]);
                }
            }
        }
    }
}

/// Appending a group of non-clashing fresh tabs under the next minted id
/// keeps the group invariants.
proof fn lemma_push_group<T>(gs: Seq<Group<T>>, g: Group<T>, base: u64)
    requires
        groups_ok(gs),
        minted_from(gs, base),
        base + gs.len() <= u64::MAX,
        g.id == minted(base, gs.len() as int),
        g.tabs@.len() > 0,
        view_hosts(g.view(), g.selected),
        forall|j: int| 0 <= j < g.tabs@.len() ==> !clashes_made(group_views(gs), #[trigger] g.tabs@[j]),
        forall|j1: int, j2: int|
            0 <= j1 < g.tabs@.len() && 0 <= j2 < g.tabs@.len() && j1 != j2 ==> !clash(#[trigger] g.tabs@[j1], #[trigger] g.tabs@[j2]),
    ensures
        groups_ok(gs.push(g)),
        minted_from(gs.push(g), base),
{
    let ns = gs.push(g);
    let n = gs.len() as int;
    let made = group_views(gs);
    assert forall|i: int| 0 <= i < ns.len() implies #[trigger] ns[i].id == minted(base, i) by {
        if i < n {
            assert(ns[i] == gs[i]);
        }
    }
    assert forall|i: int, j: int| 0 <= i < ns.len() && 0 <= j < ns.len() && i != j implies ns[i].id != ns[j].id by {
        lemma_minted_raw(base, i);
        lemma_minted_raw(base, j);
        assert(ns[i].id == minted(base, i));
        assert(ns[j].id == minted(base, j));
    }
    assert forall|i: int| 0 <= i < ns.len() implies #[trigger] ns[i].tabs@.len() > 0 by {
        if i < n {
            assert(ns[i] == gs[i]);
        }
    }
    assert forall|i: int| 0 <= i < ns.len() implies view_hosts(#[trigger] ns[i].view(), ns[i].selected) by {
        if i < n {
            assert(ns[i] == gs[i]);
        }
    }
    // A new tab against an old slot.
    assert forall|i: int, k: int, j: int| slot_ok(gs, i, k) && 0 <= j < g.tabs@.len() implies !clash(
        gs[i].tabs@[k],
        g.tabs@[j],
    ) by {
        assert(made[i] == gs[i].view());
        assert(made[i].tabs[k] == gs[i].tabs@[k]);
        if clash(gs[i].tabs@[k], g.tabs@[j]) {
            assert(clash(made[i].tabs[k], g.tabs@[j]));
            assert(clashes_made(made, g.tabs@[j]));
        }
    }
    assert forall|i1: int, k1: int, i2: int, k2: int|
        slot_ok(ns, i1, k1) && slot_ok(ns, i2, k2) && (i1 != i2 || k1 != k2) implies #[trigger] ns[i1].tabs@[k1].tab_id()
        != #[trigger] ns[i2].tabs@[k2].tab_id() by {
        if i1 < n && i2 < n {
            assert(ns[i1] == gs[i1] && ns[i2] == gs[i2]);
            assert(slot_ok(gs, i1, k1) && slot_ok(gs, i2, k2));
        } else if i1 < n {
            assert(ns[i1] == gs[i1] && ns[i2] == g);
            assert(slot_ok(gs, i1, k1));
            assert(!clash(gs[i1].tabs@[k1], g.tabs@[k2]));
        } else if i2 < n {
            assert(ns[i2] == gs[i2] && ns[i1] == g);
            assert(slot_ok(gs, i2, k2));
            assert(!clash(gs[i2].tabs@[k2], g.tabs@[k1]));
        } else {
            assert(ns[i1] == g && ns[i2] == g);
            assert(!clash(g.tabs@[k1], g.tabs@[k2]));
        }
    }
    assert forall|i1: int, k1: int, i2: int, k2: int|
        slot_ok(ns, i1, k1) && slot_ok(ns, i2, k2) && (i1 != i2 || k1 != k2)
            && (#[trigger] ns[i1].tabs@[k1].tab_binding()) is Some implies ns[i1].tabs@[k1].tab_binding()
        != #[trigger] ns[i2].tabs@[k2].tab_binding() by {
        if i1 < n && i2 < n {
            assert(ns[i1] == gs[i1] && ns[i2] == gs[i2]);
            assert(slot_ok(gs, i1, k1) && slot_ok(gs, i2, k2));
            assert(gs[i1].tabs@[k1].tab_binding() is Some);
        } else if i1 < n {
            assert(ns[i1] == gs[i1] && ns[i2] == g);
            assert(slot_ok(gs, i1, k1));
            assert(!clash(gs[i1].tabs@[k1], g.tabs@[k2]));
        } else if i2 < n {
            assert(ns[i2] == gs[i2] && ns[i1] == g);
            assert(slot_ok(gs, i2, k2));
            assert(!clash(gs[i2].tabs@[k2], g.tabs@[k1]));
        } else {
            assert(ns[i1] == g && ns[i2] == g);
            assert(!clash(g.tabs@[k2], g.tabs@[k1]));
        }
    }
}

/// Whether two tabs clash, computed.
fn tabs_clash<T: PartialEq>(a: &Tab<T>, b: &Tab<T>) -> (r: bool)
    requires
        vstd::laws_eq::obeys_concrete_eq::<T>(),
    ensures
        r == clash(*a, *b),
{
    if a.id == b.id {
        return true;
    }
    match (&a.binding, &b.binding) {
        (Some(x), Some(y)) => same_binding(x, y),
        _ => false,
    }
}

/// Whether `t` clashes with one of `tabs`, computed.
fn clashes_kept<T: PartialEq>(tabs: &Vec<Tab<T>>, t: &Tab<T>) -> (r: bool)
    requires
        vstd::laws_eq::obeys_concrete_eq::<T>(),
    ensures
        r == clashes_any(tabs@, *t),
{
    let mut k: usize = 0;
    while k < tabs.len()
        invariant
            vstd::laws_eq::obeys_concrete_eq::<T>(),
            k <= tabs@.len(),
            forall|j: int| 0 <= j < k ==> !clash(#[trigger] tabs@[j], *t),
        decreases tabs@.len() - k,
    {
        if tabs_clash(&tabs[k], t) {
            return true;
        }
        k += 1;
    }
    false
}

impl<T: PartialEq, S, W> GroupLayout<T, S, W> {
    /// Whether `t` clashes with a tab hosted in some group, computed.
    fn clashes_hosted(&self, t: &Tab<T>) -> (r: bool)
        requires
            vstd::laws_eq::obeys_concrete_eq::<T>(),
        ensures
            r == clashes_made(group_views(self.groups@), *t),
    {
        let ghost made = group_views(self.groups@);
        let mut i: usize = 0;
        while i < self.groups.len()
            invariant
                vstd::laws_eq::obeys_concrete_eq::<T>(),
                made == group_views(self.groups@),
                i <= self.groups@.len(),
                forall|a: int, k: int| 0 <= a < i && 0 <= k < made[a].tabs.len() ==> !clash(#[trigger] made[a].tabs[k], *t),
            decreases self.groups@.len() - i,
        {
            let mut k: usize = 0;
            while k < self.groups[i].tabs.len()
                invariant
                    vstd::laws_eq::obeys_concrete_eq::<T>(),
                    made == group_views(self.groups@),
                    i < self.groups@.len(),
                    k <= self.groups@[i as int].tabs@.len(),
                    forall|a: int, k: int| 0 <= a < i && 0 <= k < made[a].tabs.len() ==> !clash(#[trigger] made[a].tabs[k], *t),
                    forall|b: int| 0 <= b < k ==> !clash(#[trigger] made[i as int].tabs[b], *t),
                decreases self.groups@[i as int].tabs@.len() - k,
            {
                assert(made[i as int].tabs[k as int] == self.groups@[i as int].tabs@[k as int]);
                if tabs_clash(&self.groups[i].tabs[k], t) {
                    return true;
                }
                k += 1;
            }
            assert forall|a: int, b: int| 0 <= a < i + 1 && 0 <= b < made[a].tabs.len() implies !clash(
                #[trigger] made[a].tabs[b],
                *t,
            ) by {
                if a == i {
                    assert(made[a].tabs.len() == self.groups@[i as int].tabs@.len());
                }
            }
            i += 1;
        }
        false
    }
}

/// Whether some tab of `tabs` has id `s`, computed.
fn hosts_id<T>(tabs: &Vec<Tab<T>>, s: TabId) -> (r: bool)
    ensures
        r == exists|k: int| 0 <= k < tabs@.len() && tabs@[k].tab_id() == s,
{
    let mut k: usize = 0;
    while k < tabs.len()
        invariant
            k <= tabs@.len(),
            forall|j: int| 0 <= j < k ==> tabs@[j].tab_id() != s,
        decreases tabs@.len() - k,
    {
        if tabs[k].id == s {
            return true;
        }
        k += 1;
    }
    false
}

impl<T: PartialEq, S, W> GroupLayout<T, S, W> {
    /// Register the groups of one blueprint subtree, minting their ids from
    /// `*next`, and build the subtree of those that survive.
    fn assemble(&mut self, bp: Blueprint<T, S>, next: &mut u64, Ghost(base): Ghost<u64>) -> (r: Option<StructureNode<S>>)
        requires
            groups_ok(old(self).groups@),
            minted_from(old(self).groups@, base),
            base >= 1,
            *old(next) == base + old(self).groups@.len(),
            *old(next) + group_nodes(bp) <= u64::MAX,
            vstd::laws_eq::obeys_concrete_eq::<T>(),
        ensures
            groups_ok(final(self).groups@),
            minted_from(final(self).groups@, base),
            *final(next) == base + final(self).groups@.len(),
            old(self).groups@.len() <= final(self).groups@.len() <= old(self).groups@.len() + group_nodes(bp),
            final(self).clusters@ == old(self).clusters@,
            group_views(final(self).groups@) == spec_assemble(group_views(old(self).groups@), bp, base).0,
            r == spec_assemble(group_views(old(self).groups@), bp, base).1,
            match r {
                Some(node) => node.leaves() == minted_range(
                    base,
                    old(self).groups@.len() as int,
                    final(self).groups@.len() as int,
                ),
                None => final(self).groups@.len() == old(self).groups@.len(),
            },
        decreases bp,
    {
        match bp {
            Blueprint::Group { tabs, selected } => {
                let ghost made = group_views(self.groups@);
                let ghost orig = tabs@;
                let sel: Option<TabId> = if selected < tabs.len() {
                    Some(tabs[selected].id)
                } else {
                    None
                };
                let mut rest = tabs;
                let mut kept: Vec<Tab<T>> = Vec::new();
                let ghost mut i: int = 0;
                while rest.len() > 0
                    invariant
                        vstd::laws_eq::obeys_concrete_eq::<T>(),
                        made == group_views(self.groups@),
                        0 <= i <= orig.len(),
                        rest@ == orig.subrange(i, orig.len() as int),
                        kept@ == kept_tabs(made, orig, i + 0),
                    decreases rest@.len(),
                {
                    let tab = rest.remove(0);
                    assert(tab == orig[i]);
                    let hosted = self.clashes_hosted(&tab);
                    let dup = clashes_kept(&kept, &tab);
                    if !hosted && !dup {
                        kept.push(tab);
                    }
                    proof {
                        assert(rest@ =~= orig.subrange(i + 1, orig.len() as int));
                        i = i + 1;
                    }
                }
                assert(i == orig.len());
                if kept.len() == 0 {
                    return None;
                }
                let found = match sel {
                    Some(s) => hosts_id(&kept, s),
                    None => false,
                };
                let chosen: TabId = if found {
                    match sel {
                        Some(s) => s,
                        None => kept[0].id,
                    }
                } else {
                    kept[0].id
                };
                let gid = GroupId::new(*next);
                *next = *next + 1;
                let ghost gs = self.groups@;
                let group = Group { id: gid, tabs: kept, selected: chosen };
                proof {
                    lemma_kept_tabs(made, orig, orig.len() as int);
                    lemma_minted_raw(base, gs.len() as int);
                    lemma_group_id_raw_injective(gid, minted(base, gs.len() as int));
                    assert(chosen == kept_selection(orig, selected, kept@));
                    if found {
                        let k = choose|k: int| 0 <= k < kept@.len() && kept@[k].tab_id() == chosen;
                        assert(group.view().tabs[k].tab_id() == chosen);
                    } else {
                        assert(group.view().tabs[0].tab_id() == chosen);
                    }
                    lemma_push_group(gs, group, base);
                }
                let ghost g = group;
                self.groups.push(group);
                proof {
                    assert(self.groups@ == gs.push(g));
                    assert(group_views(self.groups@) =~= made.push(g.view()));
                    assert(seq![gid] =~= minted_range(base, gs.len() as int, gs.len() + 1int));
                }
                Some(StructureNode::Leaf(gid))
            },
            Blueprint::Split { axis, sizing, a, b } => {
                let ghost made = group_views(self.groups@);
                let ghost n0 = self.groups@.len() as int;
                let ghost sa = *a;
                let ghost sb = *b;
                let na = self.assemble(*a, next, Ghost(base));
                let ghost n1 = self.groups@.len() as int;
                let nb = self.assemble(*b, next, Ghost(base));
                let ghost n2 = self.groups@.len() as int;
                proof {
                    let (m1, _) = spec_assemble(made, sa, base);
                    assert(group_views(self.groups@) == spec_assemble(m1, sb, base).0);
                }
                match na {
                    Some(x) => match nb {
                        Some(y) => {
                            proof {
                                assert(minted_range(base, n0, n1) + minted_range(base, n1, n2) =~= minted_range(base, n0, n2));
                            }
                            Some(StructureNode::Split { axis, sizing, a: Box::new(x), b: Box::new(y) })
                        },
                        None => Some(x),
                    },
                    None => nb,
                }
            },
        }
    }
}

impl<T: Copy + PartialEq, S, W> GroupLayout<T, S, W> {
    /// Assemble a whole model from cluster blueprints, the inverse of
    /// [`Self::structure`] on restore. Tabs enter as every insertion does:
    /// one whose id or binding is already hosted, earlier in the blueprint,
    /// is dropped (with its selection preference); a group left without
    /// tabs collapses out of its split, and a cluster left empty
    /// disappears, so the result satisfies the model invariants whatever
    /// the blueprint held. Selection falls back to a group's first
    /// survivor. Group ids are minted consecutively from `*next_id`, which
    /// ends past the last one used.
    pub fn from_blueprint(clusters: Vec<(W, Blueprint<T, S>)>, next_id: &mut u64) -> (r: Self)
        requires
            *old(next_id) >= 1,
            *old(next_id) + blueprint_groups(clusters@, clusters@.len() as int) <= u64::MAX,
            vstd::laws_eq::obeys_concrete_eq::<T>(),
        ensures
            r.wf(),
            r.clusters_view() == spec_restore(clusters@, *old(next_id), clusters@.len() as int).1,
            r.content() == minted_content(spec_restore(clusters@, *old(next_id), clusters@.len() as int).0, *old(next_id)),
            *final(next_id) == *old(next_id) + spec_restore(clusters@, *old(next_id), clusters@.len() as int).0.len(),
    {
        let ghost base: u64 = *next_id;
        let ghost orig = clusters@;
        let mut layout: Self = GroupLayout { clusters: Vec::new(), groups: Vec::new() };
        let mut rest = clusters;
        let ghost mut c: int = 0;
        proof {
            assert(rest@ =~= orig.subrange(0, orig.len() as int));
            assert(layout.clusters@ =~= Seq::<Cluster<S, W>>::empty());
            assert(forest_leaves(layout.clusters@) =~= minted_range(base, 0, 0));
            assert(group_views(layout.groups@) =~= Seq::<GroupView<T>>::empty());
            lemma_blueprint_groups_grow(orig, 0, orig.len() as int);
        }
        while rest.len() > 0
            invariant
                vstd::laws_eq::obeys_concrete_eq::<T>(),
                0 <= c <= orig.len(),
                rest@ == orig.subrange(c, orig.len() as int),
                groups_ok(layout.groups@),
                minted_from(layout.groups@, base),
                *next_id == base + layout.groups@.len(),
                layout.groups@.len() <= blueprint_groups(orig, c),
                base >= 1,
                base + blueprint_groups(orig, orig.len() as int) <= u64::MAX,
                group_views(layout.groups@) == spec_restore(orig, base, c).0,
                layout.clusters@ == spec_restore(orig, base, c).1,
                forest_leaves(layout.clusters@) == minted_range(base, 0, layout.groups@.len() as int),
            decreases rest@.len(),
        {
            let (weight, bp) = rest.remove(0);
            proof {
                assert((weight, bp) == orig[c]);
                lemma_blueprint_groups_grow(orig, c + 1, orig.len() as int);
            }
            let ghost n0 = layout.groups@.len() as int;
            let root = layout.assemble(bp, next_id, Ghost(base));
            let ghost n1 = layout.groups@.len() as int;
            match root {
                Some(r) => {
                    let ghost mid = layout.clusters@;
                    let ghost cl = Cluster { weight, root: r };
                    layout.clusters.push(Cluster { weight, root: r });
                    proof {
                        assert(layout.clusters@ == mid.push(cl));
                        assert(mid.push(cl) =~= mid + seq![cl]);
                        lemma_forest_leaves_concat(mid, seq![cl]);
                        lemma_forest_leaves_one(cl);
                        assert(minted_range(base, 0, n0) + minted_range(base, n0, n1) =~= minted_range(base, 0, n1));
                    }
                },
                None => {},
            }
            proof {
                assert(rest@ =~= orig.subrange(c + 1, orig.len() as int));
                c = c + 1;
            }
        }
        proof {
            assert(c == orig.len());
            let gs = layout.groups@;
            let n = gs.len() as int;
            assert forall|i: int, j: int| 0 <= i < layout.leaves().len() && 0 <= j < layout.leaves().len() && i != j implies layout.leaves()[i]
                != layout.leaves()[j] by {
                lemma_minted_raw(base, i);
                lemma_minted_raw(base, j);
            }
            assert forall|g: GroupId| layout.leaves().contains(g) <==> exists|i: int| 0 <= i < gs.len() && gs[i].id == g by {
                if layout.leaves().contains(g) {
                    let i = choose|i: int| 0 <= i < layout.leaves().len() && layout.leaves()[i] == g;
                    assert(gs[i].id == g);
                }
                if exists|i: int| 0 <= i < gs.len() && gs[i].id == g {
                    let i = choose|i: int| 0 <= i < gs.len() && gs[i].id == g;
                    assert(layout.leaves()[i] == g);
                }
            }
            let views = group_views(gs);
            assert forall|g: GroupId| #[trigger] layout.content().contains_key(g) <==> minted_content(views, base).contains_key(g) by {
                if exists|i: int| 0 <= i < gs.len() && gs[i].id == g {
                    let i = choose|i: int| 0 <= i < gs.len() && gs[i].id == g;
                    lemma_minted_raw(base, i);
                }
                if base <= g.raw() && g.raw() < base + n {
                    let i = g.raw() - base;
                    lemma_minted_raw(base, i);
                    lemma_group_id_raw_injective(g, gs[i].id);
                    assert(gs[i].id == g);
                }
            }
            assert forall|g: GroupId| #[trigger] layout.content().contains_key(g) implies layout.content()[g]
                == minted_content(views, base)[g] by {
                let i = choose|i: int| 0 <= i < gs.len() && gs[i].id == g;
                lemma_minted_raw(base, i);
                lemma_content_index(gs, i);
            }
            assert(layout.content() =~= minted_content(views, base));
        }
        layout
    }
}

/// Whether blueprint `bp` describes the subtree `node` of a model with
/// content `content`: the same splits, and at each leaf its group's strip
/// with the index of the selected tab.
pub open spec fn describes<T, S>(bp: Blueprint<T, S>, node: StructureNode<S>, content: Map<GroupId, GroupView<T>>) -> bool
    decreases bp,
{
    match bp {
        Blueprint::Group { tabs, selected } => match node {
            StructureNode::Leaf(g) => {
                &&& content.contains_key(g)
                &&& tabs@ == content[g].tabs
                &&& selected < tabs@.len()
                &&& tabs@[selected as int].tab_id() == content[g].selected
            },
            StructureNode::Split { .. } => false,
        },
        Blueprint::Split { axis, sizing, a, b } => match node {
            StructureNode::Leaf(_) => false,
            StructureNode::Split { axis: ax, sizing: sz, a: na, b: nb } => {
                &&& axis == ax
                &&& sizing == sz
                &&& describes(*a, *na, content)
                &&& describes(*b, *nb, content)
            },
        },
    }
}

/// Whether `blueprints` describe the clusters `clusters` of a model with
/// content `content`, one for one, weights included.
pub open spec fn describes_forest<T, S, W>(
    blueprints: Seq<(W, Blueprint<T, S>)>,
    clusters: Seq<Cluster<S, W>>,
    content: Map<GroupId, GroupView<T>>,
) -> bool {
    &&& blueprints.len() == clusters.len()
    &&& forall|i: int|
        0 <= i < blueprints.len() ==> blueprints[i].0 == clusters[i].weight && describes(
            #[trigger] blueprints[i].1,
            clusters[i].root,
            content,
        )
}

/// The subtree with its leaves renamed, depth-first, to the ids minted
/// from `base` for the groups `first`, `first + 1`, ...
pub open spec fn relabeled<S>(node: StructureNode<S>, base: u64, first: int) -> StructureNode<S>
    decreases node,
{
    match node {
        StructureNode::Leaf(_) => StructureNode::Leaf(minted(base, first)),
        StructureNode::Split { axis, sizing, a, b } => StructureNode::Split {
            axis,
            sizing,
            a: Box::new(relabeled(*a, base, first)),
            b: Box::new(relabeled(*b, base, first + a.leaves().len())),
        },
    }
}

/// The cluster list with its leaves renamed, depth-first across clusters,
/// to the ids minted from `base` on.
pub open spec fn relabeled_forest<S, W>(clusters: Seq<Cluster<S, W>>, base: u64) -> Seq<Cluster<S, W>> {
    Seq::new(
        clusters.len(),
        |i: int| Cluster {
            weight: clusters[i].weight,
            root: relabeled(clusters[i].root, base, forest_leaves(clusters.take(i)).len() as int),
        },
    )
}

/// A strip none of whose tabs clashes with what is hosted, nor with
/// another of its tabs, survives whole.
proof fn lemma_kept_all<T>(made: Seq<GroupView<T>>, tabs: Seq<Tab<T>>, n: int)
    requires
        0 <= n <= tabs.len(),
        forall|j: int| 0 <= j < tabs.len() ==> !clashes_made(made, #[trigger] tabs[j]),
        forall|j1: int, j2: int| 0 <= j1 < tabs.len() && 0 <= j2 < tabs.len() && j1 != j2 ==> !clash(#[trigger] tabs[j1], #[trigger] tabs[j2]),
    ensures
        kept_tabs(made, tabs, n) == tabs.take(n),
    decreases n,
{
    if n > 0 {
        lemma_kept_all(made, tabs, n - 1);
        let kept = tabs.take(n - 1);
        let t = tabs[n - 1];
        assert forall|k: int| 0 <= k < kept.len() implies !clash(#[trigger] kept[k], t) by {
            assert(kept[k] == tabs[k]);
        }
        assert(tabs.take(n) =~= kept.push(t));
    }
}

impl<T: PartialEq, S, W> GroupLayout<T, S, W> {
    /// No two slots of a well-formed model's content hold clashing tabs.
    proof fn lemma_content_clash_free(self, g1: GroupId, k1: int, g2: GroupId, k2: int)
        requires
            self.wf(),
            self.content().contains_key(g1),
            self.content().contains_key(g2),
            0 <= k1 < self.content()[g1].tabs.len(),
            0 <= k2 < self.content()[g2].tabs.len(),
            g1 != g2 || k1 != k2,
        ensures
            !clash(self.content()[g1].tabs[k1], self.content()[g2].tabs[k2]),
    {
        self.lemma_content_unique(g1, k1, g2, k2);
        self.lemma_content_unique(g2, k2, g1, k1);
    }

    /// Assembling the blueprint of a subtree after the groups `prior`
    /// (other groups of the same model) remakes the subtree's groups and
    /// renames its leaves to freshly minted ids.
    proof fn lemma_assemble_described(self, prior: Seq<GroupId>, bp: Blueprint<T, S>, node: StructureNode<S>, base: u64)
        requires
            self.wf(),
            describes(bp, node, self.content()),
            (prior + node.leaves()).no_duplicates(),
            forall|i: int| 0 <= i < prior.len() ==> self.content().contains_key(#[trigger] prior[i]),
        ensures
            spec_assemble(prior.map_values(|g: GroupId| self.content()[g]), bp, base) == (
                (prior + node.leaves()).map_values(|g: GroupId| self.content()[g]),
                Some(relabeled(node, base, prior.len() as int)),
            ),
        decreases bp,
    {
        let content = self.content();
        let made = prior.map_values(|g: GroupId| content[g]);
        match bp {
            Blueprint::Group { tabs, selected } => {
                let g = node->Leaf_0;
                let strip = content[g].tabs;
                assert forall|j: int| 0 <= j < strip.len() implies !clashes_made(made, #[trigger] strip[j]) by {
                    assert forall|i: int, k: int| 0 <= i < made.len() && 0 <= k < made[i].tabs.len() implies !clash(
                        #[trigger] made[i].tabs[k],
                        strip[j],
                    ) by {
                        assert((prior + node.leaves())[i] == prior[i]);
                        assert((prior + node.leaves())[prior.len() as int] == g);
                        assert(prior[i] != g);
                        self.lemma_content_clash_free(prior[i], k, g, j);
                    }
                }
                assert forall|j1: int, j2: int| 0 <= j1 < strip.len() && 0 <= j2 < strip.len() && j1 != j2 implies !clash(
                    #[trigger] strip[j1],
                    #[trigger] strip[j2],
                ) by {
                    self.lemma_content_clash_free(g, j1, g, j2);
                }
                lemma_kept_all(made, strip, strip.len() as int);
                assert(strip.take(strip.len() as int) =~= strip);
                let kept = kept_tabs(made, tabs@, tabs@.len() as int);
                assert(kept == strip);
                assert(kept_selection(tabs@, selected, kept) == content[g].selected);
                assert(GroupView { tabs: kept, selected: content[g].selected } == content[g]);
                assert((prior + node.leaves()).map_values(|g: GroupId| content[g]) =~= made.push(content[g]));
            },
            Blueprint::Split { axis, sizing, a, b } => {
                let (na, nb) = match node {
                    StructureNode::Split { a: na, b: nb, .. } => (*na, *nb),
                    StructureNode::Leaf(_) => (node, node),
                };
                let all = prior + node.leaves();
                assert(node.leaves() == na.leaves() + nb.leaves());
                assert(prior + na.leaves() =~= all.take((prior.len() + na.leaves().len()) as int));
                assert forall|x: int, y: int| 0 <= x < (prior + na.leaves()).len() && 0 <= y < (prior + na.leaves()).len() && x != y implies (prior
                    + na.leaves())[x] != (prior + na.leaves())[y] by {
                    assert((prior + na.leaves())[x] == all[x] && (prior + na.leaves())[y] == all[y]);
                }
                self.lemma_assemble_described(prior, *a, na, base);
                let p2 = prior + na.leaves();
                assert(p2 + nb.leaves() =~= all);
                assert forall|i: int| 0 <= i < p2.len() implies self.content().contains_key(#[trigger] p2[i]) by {
                    if i >= prior.len() {
                        lemma_describes_leaves(*a, na, content);
                        assert(p2[i] == na.leaves()[i - prior.len()]);
                    }
                }
                self.lemma_assemble_described(p2, *b, nb, base);
            },
        }
    }
}

/// Every leaf of a described subtree has content.
proof fn lemma_describes_leaves<T, S>(bp: Blueprint<T, S>, node: StructureNode<S>, content: Map<GroupId, GroupView<T>>)
    requires
        describes(bp, node, content),
    ensures
        forall|i: int| 0 <= i < node.leaves().len() ==> content.contains_key(#[trigger] node.leaves()[i]),
    decreases bp,
{
    match bp {
        Blueprint::Group { .. } => {},
        Blueprint::Split { a, b, .. } => {
            if let StructureNode::Split { a: na, b: nb, .. } = node {
                lemma_describes_leaves(*a, *na, content);
                lemma_describes_leaves(*b, *nb, content);
                assert forall|i: int| 0 <= i < node.leaves().len() implies content.contains_key(#[trigger] node.leaves()[i]) by {
                    if i < na.leaves().len() {
                        assert(node.leaves()[i] == na.leaves()[i]);
                    } else {
                        assert(node.leaves()[i] == nb.leaves()[i - na.leaves().len()]);
                    }
                }
            }
        },
    }
}

impl<T: PartialEq, S, W> GroupLayout<T, S, W> {
    proof fn lemma_restore_prefix(self, blueprints: Seq<(W, Blueprint<T, S>)>, base: u64, n: int)
        requires
            self.wf(),
            0 <= n <= blueprints.len(),
            describes_forest(blueprints, self.clusters_view(), self.content()),
        ensures
            spec_restore(blueprints, base, n).0 == forest_leaves(self.clusters_view().take(n)).map_values(
                |g: GroupId| self.content()[g],
            ),
            spec_restore(blueprints, base, n).1 == relabeled_forest(self.clusters_view(), base).take(n),
        decreases n,
    {
        let cs = self.clusters_view();
        let content = self.content();
        if n == 0 {
            assert(cs.take(0) =~= Seq::<Cluster<S, W>>::empty());
            assert(forest_leaves(cs.take(0)) =~= Seq::<GroupId>::empty());
            assert(forest_leaves(cs.take(0)).map_values(|g: GroupId| content[g]) =~= Seq::<GroupView<T>>::empty());
            assert(relabeled_forest(cs, base).take(0) =~= Seq::<Cluster<S, W>>::empty());
        } else {
            self.lemma_restore_prefix(blueprints, base, n - 1);
            let prior = forest_leaves(cs.take(n - 1));
            let node = cs[n - 1].root;
            assert(cs.take(n) =~= cs.take(n - 1) + seq![cs[n - 1]]);
            lemma_forest_leaves_concat(cs.take(n - 1), seq![cs[n - 1]]);
            lemma_forest_leaves_one(cs[n - 1]);
            let here = forest_leaves(cs.take(n));
            assert(here == prior + node.leaves());
            assert(cs =~= cs.take(n) + cs.skip(n));
            lemma_forest_leaves_concat(cs.take(n), cs.skip(n));
            let all = self.leaves();
            assert(all == here + forest_leaves(cs.skip(n)));
            assert forall|x: int, y: int| 0 <= x < here.len() && 0 <= y < here.len() && x != y implies here[x] != here[y] by {
                assert(all[x] == here[x] && all[y] == here[y]);
            }
            assert forall|i: int| 0 <= i < prior.len() implies content.contains_key(#[trigger] prior[i]) by {
                assert(all[i] == here[i] && here[i] == prior[i]);
                assert(all.contains(prior[i]));
                self.lemma_leaves_are_groups(prior[i]);
            }
            assert(describes(blueprints[n - 1].1, node, content));
            self.lemma_assemble_described(prior, blueprints[n - 1].1, node, base);
            let rf = relabeled_forest(cs, base);
            assert(rf.take(n) =~= rf.take(n - 1).push(rf[n - 1]));
        }
    }

    /// Restoring blueprints that describe a well-formed model, cluster by
    /// cluster, remakes it: the same groups in depth-first order with the
    /// same strips and selections, in clusters of the same shapes and
    /// weights, under freshly minted ids.
    pub proof fn lemma_restore_round_trip(self, blueprints: Seq<(W, Blueprint<T, S>)>, base: u64)
        requires
            self.wf(),
            describes_forest(blueprints, self.clusters_view(), self.content()),
        ensures
            spec_restore(blueprints, base, blueprints.len() as int).0 == self.leaves().map_values(
                |g: GroupId| self.content()[g],
            ),
            spec_restore(blueprints, base, blueprints.len() as int).1 == relabeled_forest(self.clusters_view(), base),
    {
        let cs = self.clusters_view();
        self.lemma_restore_prefix(blueprints, base, blueprints.len() as int);
        assert(cs.take(cs.len() as int) =~= cs);
        assert(relabeled_forest(cs, base).take(cs.len() as int) =~= relabeled_forest(cs, base));
    }
}

impl<T: PartialEq, S, W> GroupLayout<T, S, W> {
    /// A tab found at a slot of a group's strip is hosted there.
    proof fn lemma_owner_of(self, tab: TabId, g: GroupId, k: int)
        requires
            self.wf(),
            self.content().contains_key(g),
            0 <= k < self.content()[g].tabs.len(),
            self.content()[g].tabs[k].tab_id() == tab,
        ensures
            self.hosts_tab(tab),
            self.owner(tab) == g,
            self.slot_of(tab) == k,
    {
        assert(view_hosts(self.content()[g], tab));
        self.lemma_owner_slot(tab);
        let o = self.owner(tab);
        let s = self.slot_of(tab);
        if o != g || s != k {
            self.lemma_content_unique(o, s, g, k);
        }
    }

    /// The tab hosted under an id carries that id: no operation changes a
    /// tab's id, and `tab`, `remove_tab` and `detach_tab` hand out the tab
    /// that carries the id asked for.
    pub proof fn lemma_tab_of_carries_its_id(self, tab: TabId)
        requires
            self.wf(),
            self.hosts_tab(tab),
        ensures
            self.tab_of(tab).tab_id() == tab,
    {
        self.lemma_owner_slot(tab);
    }

    /// A tab keeps its id wherever it goes: a tab handed out of one model
    /// (by `remove_tab` or `detach_tab`, which hand back the tab hosted
    /// under the id asked for) and hosted in any slot of another reads
    /// back there, under the same id, as the same tab.
    pub proof fn lemma_rehosted_tab_keeps_its_id(from: Self, into: Self, id: TabId, g: GroupId, k: int)
        requires
            from.wf(),
            from.hosts_tab(id),
            into.wf(),
            into.content().contains_key(g),
            0 <= k < into.content()[g].tabs.len(),
            into.content()[g].tabs[k] == from.tab_of(id),
        ensures
            into.hosts_tab(id),
            into.tab_of(id) == from.tab_of(id),
            into.tab_of(id).tab_id() == id,
    {
        from.lemma_tab_of_carries_its_id(id);
        into.lemma_owner_of(id, g, k);
    }

    /// Rebinding changes only the binding: once `set_binding(tab, binding)`
    /// has succeeded, the tab read back under `tab` carries the id `tab` and
    /// the binding `binding` (a placeholder again for `None`), in the same
    /// group and slot, and every other hosted tab reads back as it was.
    pub proof fn lemma_rebinding_changes_only_the_binding(
        before: Self,
        after: Self,
        tab: TabId,
        binding: Option<T>,
        other: TabId,
    )
        requires
            before.wf(),
            after.wf(),
            before.hosts_tab(tab),
            after.rebound_from(before, tab, binding),
        ensures
            after.hosts_tab(tab),
            after.tab_of(tab).tab_id() == tab,
            after.tab_of(tab).tab_binding() == binding,
            after.owner(tab) == before.owner(tab),
            after.slot_of(tab) == before.slot_of(tab),
            after.clusters_view() == before.clusters_view(),
            other != tab && before.hosts_tab(other) ==> after.hosts_tab(other) && after.tab_of(other)
                == before.tab_of(other),
    {
        before.lemma_owner_slot(tab);
        let g = before.owner(tab);
        let k = before.slot_of(tab);
        after.lemma_owner_of(tab, g, k);
        if other != tab && before.hosts_tab(other) {
            before.lemma_owner_slot(other);
            let go = before.owner(other);
            let ko = before.slot_of(other);
            if go == g {
                assert(ko != k);
                assert(after.content()[g].tabs[ko] == before.content()[g].tabs[ko]);
            } else {
                assert(after.content()[go] == before.content()[go]);
            }
            after.lemma_owner_of(other, go, ko);
        }
    }

    /// Exchanging the same two tabs twice restores every group's strip and
    /// selection.
    pub proof fn lemma_swap_twice(m1: Self, m2: Self, a: TabId, b: TabId)
        requires
            m1.wf(),
            m2.wf(),
            a != b,
            m1.hosts_tab(a),
            m1.hosts_tab(b),
            m2.content() == m1.content_after_swap(a, b),
        ensures
            m2.hosts_tab(a),
            m2.hosts_tab(b),
            m2.content_after_swap(a, b) == m1.content(),
    {
        m1.lemma_owner_slot(a);
        m1.lemma_owner_slot(b);
        let oa = m1.owner(a);
        let ob = m1.owner(b);
        let va = m1.content()[oa];
        let vb = m1.content()[ob];
        let sa = m1.slot_of(a);
        let sb = m1.slot_of(b);
        let c1 = m1.content();
        if oa == ob {
            assert(sa != sb);
            let t2 = swapped(va.tabs, sa, sb);
            assert(m2.content()[oa].tabs == t2);
            assert(t2[sb].tab_id() == a);
            assert(t2[sa].tab_id() == b);
            m2.lemma_owner_of(a, oa, sb);
            m2.lemma_owner_of(b, oa, sa);
            assert(swapped(t2, sb, sa) =~= va.tabs);
            let sel2 = flip_selection(va.selected, a, b);
            assert(flip_selection(sel2, a, b) == va.selected);
            assert(m2.content_after_swap(a, b) =~= c1);
        } else {
            let ta2 = va.tabs.update(sa, vb.tabs[sb]);
            let tb2 = vb.tabs.update(sb, va.tabs[sa]);
            assert(m2.content()[oa].tabs == ta2);
            assert(m2.content()[ob].tabs == tb2);
            assert(tb2[sb].tab_id() == a);
            assert(ta2[sa].tab_id() == b);
            m2.lemma_owner_of(a, ob, sb);
            m2.lemma_owner_of(b, oa, sa);
            assert(tb2.update(sb, ta2[sa]) =~= vb.tabs);
            assert(ta2.update(sa, tb2[sb]) =~= va.tabs);
            assert(flip_selection(flip_selection(va.selected, a, b), a, b) == va.selected);
            assert(flip_selection(flip_selection(vb.selected, a, b), a, b) == vb.selected);
            assert(m2.content_after_swap(a, b) =~= c1);
        }
    }

    /// Merging a tab into its own strip at its own slot (or just behind it)
    /// changes nothing.
    pub proof fn lemma_merge_in_place(self, tab: TabId)
        requires
            self.wf(),
            self.hosts_tab(tab),
        ensures
            self.content_after_merge(tab, self.owner(tab), self.slot_of(tab)) == self.content(),
            self.content_after_merge(tab, self.owner(tab), self.slot_of(tab) + 1) == self.content(),
    {
        self.lemma_owner_slot(tab);
        let v = self.owner_view(tab);
        let s = self.slot_of(tab);
        assert(moved(v.tabs, s, s) =~= v.tabs);
        assert(self.content().insert(self.owner(tab), GroupView { tabs: v.tabs, selected: v.selected }) =~= self.content());
    }

    /// Closing a tab hands the selection over: the strip loses exactly that
    /// slot; where the closed tab was selected, its right-hand neighbour
    /// becomes selected, or its left-hand one when it was the last; any
    /// other selection stays. The new selection is a tab of the strip that
    /// remains.
    pub proof fn lemma_take_hands_selection_over(m1: Self, m2: Self, tab: TabId)
        requires
            m1.wf(),
            m1.hosts_tab(tab),
            m1.owner_view(tab).tabs.len() > 1,
            m2.content() == m1.content_after_take(tab),
        ensures
            m2.content().contains_key(m1.owner(tab)),
            m2.content()[m1.owner(tab)].tabs == m1.owner_view(tab).tabs.remove(m1.slot_of(tab)),
            m1.owner_view(tab).selected == tab && m1.slot_of(tab) + 1 < m1.owner_view(tab).tabs.len()
                ==> m2.content()[m1.owner(tab)].selected == m1.owner_view(tab).tabs[m1.slot_of(tab) + 1].tab_id(),
            m1.owner_view(tab).selected == tab && m1.slot_of(tab) + 1 == m1.owner_view(tab).tabs.len()
                ==> m2.content()[m1.owner(tab)].selected == m1.owner_view(tab).tabs[m1.slot_of(tab) - 1].tab_id(),
            m1.owner_view(tab).selected != tab ==> m2.content()[m1.owner(tab)].selected
                == m1.owner_view(tab).selected,
            m1.owner_view(tab).selected == tab ==> exists|j: int|
                0 <= j < m2.content()[m1.owner(tab)].tabs.len() && #[trigger] m2.content()[m1.owner(
                    tab,
                )].tabs[j].tab_id() == m2.content()[m1.owner(tab)].selected,
    {
        m1.lemma_owner_slot(tab);
        let v = m1.owner_view(tab);
        let k = m1.slot_of(tab);
        let rest = v.tabs.remove(k);
        let after = m2.content()[m1.owner(tab)];
        assert(after.tabs == rest);
        if v.selected == tab {
            if k + 1 < v.tabs.len() {
                assert(after.tabs[k] == v.tabs[k + 1]);
                assert(after.tabs[k].tab_id() == after.selected);
            } else {
                assert(after.tabs[k - 1] == v.tabs[k - 1]);
                assert(after.tabs[k - 1].tab_id() == after.selected);
            }
        }
    }

    /// Taking a tab out leaves it unhosted and every other hosted tab where
    /// it was.
    pub proof fn lemma_take_hosting(m1: Self, m2: Self, tab: TabId)
        requires
            m1.wf(),
            m2.wf(),
            m1.hosts_tab(tab),
            m2.content() == m1.content_after_take(tab),
        ensures
            !m2.hosts_tab(tab),
            forall|t: TabId| t != tab ==> (#[trigger] m2.hosts_tab(t) <==> m1.hosts_tab(t)),
    {
        Self::lemma_taken_admissible(m1, m2, tab);
        m1.lemma_owner_slot(tab);
        let o = m1.owner(tab);
        let v = m1.content()[o];
        let s = m1.slot_of(tab);
        assert(v.tabs[s].tab_id() == tab);
        assert forall|t: TabId| t != tab implies (#[trigger] m2.hosts_tab(t) <==> m1.hosts_tab(t)) by {
            if m1.hosts_tab(t) {
                m1.lemma_owner_slot(t);
                let g = m1.owner(t);
                let k = m1.slot_of(t);
                if g == o {
                    assert(k != s);
                    let k2 = if k < s { k } else { k - 1 };
                    assert(v.tabs.len() > 1);
                    assert(v.tabs.remove(s)[k2] == v.tabs[k]);
                    assert(m2.content().contains_key(o));
                    assert(view_hosts(m2.content()[o], t));
                } else {
                    assert(m2.content().contains_key(g));
                    assert(view_hosts(m2.content()[g], t));
                }
            }
            if m2.hosts_tab(t) {
                m2.lemma_owner_slot(t);
                let g = m2.owner(t);
                let k = m2.slot_of(t);
                if g == o {
                    let k2 = if k < s { k } else { k + 1 };
                    assert(v.tabs.remove(s)[k] == v.tabs[k2]);
                    assert(view_hosts(m1.content()[o], t));
                } else {
                    assert(view_hosts(m1.content()[g], t));
                }
            }
        }
    }
}

impl<T, S, W> GroupLayout<T, S, W> {
    /// The tree's leaves are exactly the groups that hold content.
    pub proof fn lemma_leaves_are_groups(self, g: GroupId)
        requires
            self.wf(),
        ensures
            self.leaves().contains(g) <==> self.content().contains_key(g),
    {
    }
}


} // verus!
