//! Addressing splits by group: the nearest ancestor split on an axis above
//! a group's leaf, where a per-group pixel size lands.

use vstd::prelude::*;

use crate::pane_groups::{Axis, Branch, Cluster, GroupId, GroupLayout, StructureNode};

verus! {
/// The cluster index and branch path of the first leaf `group` among the
/// clusters from `from` on.
pub open spec fn forest_find<S, W>(clusters: Seq<Cluster<S, W>>, group: GroupId, from: int) -> Option<(int, Seq<Branch>)>
    decreases clusters.len() - from,
{
    if from < 0 || from >= clusters.len() {
        None
    } else {
        match clusters[from].root.spec_find_path(group) {
            Some(p) => Some((from, p)),
            None => forest_find(clusters, group, from + 1),
        }
    }
}

/// The axis of the split at `path`, if `path` addresses a split.
pub open spec fn split_axis_at<S>(root: StructureNode<S>, path: Seq<Branch>) -> Option<Axis> {
    match root.spec_node_at(path) {
        Some(StructureNode::Split { axis, .. }) => Some(axis),
        _ => None,
    }
}

/// The depth of the deepest split on `axis` strictly above depth `d` along
/// `path`.
pub open spec fn nearest_axis_depth<S>(root: StructureNode<S>, path: Seq<Branch>, axis: Axis, d: int) -> Option<int>
    decreases d,
{
    if d <= 0 {
        None
    } else if split_axis_at(root, path.take(d - 1)) == Some(axis) {
        Some(d - 1)
    } else {
        nearest_axis_depth(root, path, axis, d - 1)
    }
}

/// The model edge a per-group pixel size on `axis` re-sizes: the nearest
/// in-cluster ancestor split on `axis` above the group's leaf, as (cluster,
/// path of that split, whether the group lies in its first branch).
pub open spec fn spec_px_edge<S, W>(clusters: Seq<Cluster<S, W>>, group: GroupId, axis: Axis) -> Option<(usize, Seq<Branch>, bool)> {
    match forest_find(clusters, group, 0) {
        Some((c, p)) => match nearest_axis_depth(clusters[c].root, p, axis, p.len() as int) {
            Some(d) => Some((c as usize, p.take(d), p[d] == Branch::A)),
            None => None,
        },
        None => None,
    }
}

/// The branch path to the first leaf `group`, appended to `path`.
fn find_leaf_path<S>(node: &StructureNode<S>, group: GroupId, path: &mut Vec<Branch>) -> (found: bool)
    ensures
        found == node.spec_find_path(group) is Some,
        found ==> final(path)@ == old(path)@ + node.spec_find_path(group)->0,
        !found ==> final(path)@ == old(path)@,
    decreases node,
{
    match node {
        StructureNode::Leaf(g) => {
            proof {
                assert(old(path)@ + Seq::<Branch>::empty() =~= old(path)@);
            }
            *g == group
        },
        StructureNode::Split { a, b, .. } => {
            path.push(Branch::A);
            if find_leaf_path(a, group, path) {
                proof {
                    let p = a.spec_find_path(group)->0;
                    assert(old(path)@.push(Branch::A) + p =~= old(path)@ + (seq![Branch::A] + p));
                }
                return true;
            }
            path.pop();
            path.push(Branch::B);
            if find_leaf_path(b, group, path) {
                proof {
                    let p = b.spec_find_path(group)->0;
                    assert(old(path)@.push(Branch::B) + p =~= old(path)@ + (seq![Branch::B] + p));
                }
                return true;
            }
            path.pop();
            false
        },
    }
}

/// The split at `path[..depth]`'s axis, if that prefix addresses a split.
fn axis_at<S>(node: &StructureNode<S>, path: &[Branch], from: usize, depth: usize) -> (r: Option<Axis>)
    requires
        from <= depth <= path@.len(),
    ensures
        r == split_axis_at(*node, path@.subrange(from as int, depth as int)),
    decreases depth - from,
{
    if from == depth {
        proof {
            assert(path@.subrange(from as int, depth as int).len() == 0);
        }
        match node {
            StructureNode::Split { axis, .. } => Some(*axis),
            StructureNode::Leaf(_) => None,
        }
    } else {
        proof {
            let q = path@.subrange(from as int, depth as int);
            assert(q[0] == path@[from as int]);
            assert(q.drop_first() =~= path@.subrange(from + 1, depth as int));
        }
        match node {
            StructureNode::Leaf(_) => None,
            StructureNode::Split { a, b, .. } => match path[from] {
                Branch::A => axis_at(a, path, from + 1, depth),
                Branch::B => axis_at(b, path, from + 1, depth),
            },
        }
    }
}

impl<T, S, W> GroupLayout<T, S, W> {
    /// The model edge a per-group pixel size on `axis` re-sizes: the
    /// nearest in-cluster ancestor split on `axis` above `group`'s leaf, as
    /// (cluster, path of that split, whether the group lies in the split's
    /// first branch). `None` when the group is unknown or spans its cluster
    /// on that axis.
    pub fn px_edge(&self, group: GroupId, axis: Axis) -> (r: Option<(usize, Vec<Branch>, bool)>)
        ensures
            match r {
                Some((c, p, first)) => spec_px_edge(self.clusters_view(), group, axis) == Some((c, p@, first)),
                None => spec_px_edge(self.clusters_view(), group, axis) is None,
            },
    {
        let mut c: usize = 0;
        while c < self.cluster_count()
            invariant
                c <= self.clusters_view().len(),
                forest_find(self.clusters_view(), group, 0) == forest_find(self.clusters_view(), group, c as int),
            decreases self.clusters_view().len() - c,
        {
            let mut path: Vec<Branch> = Vec::new();
            if find_leaf_path(self.cluster_root(c), group, &mut path) {
                proof {
                    assert(Seq::<Branch>::empty() + self.clusters_view()[c as int].root.spec_find_path(group)->0 =~= path@);
                }
                let root = self.cluster_root(c);
                let mut d: usize = path.len();
                while d > 0
                    invariant
                        d <= path@.len(),
                        c < self.clusters_view().len(),
                        forest_find(self.clusters_view(), group, 0) == Some((c as int, path@)),
                        *root == self.clusters_view()[c as int].root,
                        nearest_axis_depth(*root, path@, axis, path@.len() as int) == nearest_axis_depth(
                            *root,
                            path@,
                            axis,
                            d as int,
                        ),
                    decreases d,
                {
                    proof {
                        assert(path@.subrange(0, d - 1) =~= path@.take(d - 1));
                    }
                    if axis_at(root, path.as_slice(), 0, d - 1) == Some(axis) {
                        let first = path[d - 1] == Branch::A;
                        let mut prefix = path;
                        prefix.truncate(d - 1);
                        proof {
                            assert(prefix@ =~= path@.take(d - 1));
                        }
                        return Some((c, prefix, first));
                    }
                    d -= 1;
                }
                return None;
            }
            c += 1;
        }
        None
    }
}


} // verus!
