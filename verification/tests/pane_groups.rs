use smudgy_panes::pane_groups::{count_blueprint_groups, Axis, Blueprint, Branch, GroupId, GroupLayout, IdMint, StructureNode, Tab, TabId};
use std::collections::BTreeSet;

#[derive(Debug, Clone, Copy, PartialEq)]
enum Sizing {
    Ratio(f32),
    Px { px: f32, sized_first: bool },
}

type Layout = GroupLayout<u32, Sizing, f32>;

const A_MAIN: u32 = 1;
const A_NOTES: u32 = 2;
const B_MAIN: u32 = 11;

/// Hands out fresh stable ids, as the process-wide counter does.
struct Mint(u64);

impl Mint {
    fn new() -> Self {
        Mint(1)
    }

    fn next(&mut self) -> u64 {
        self.0 += 1;
        self.0
    }

    fn gid(&mut self) -> GroupId {
        GroupId::new(self.next())
    }

    fn tid(&mut self) -> TabId {
        TabId::new(self.next())
    }

    fn bound(&mut self, binding: u32) -> Tab<u32> {
        Tab::bound(self.tid(), binding)
    }

    fn placeholder(&mut self) -> Tab<u32> {
        Tab::placeholder(self.tid())
    }
}

fn bindings(layout: &Layout) -> Vec<u32> {
    layout
        .panes()
        .iter()
        .map(|t| *t.binding().expect("test tabs are bound"))
        .collect()
}

fn push(layout: &mut Layout, mint: &mut Mint, binding: u32) -> (GroupId, TabId) {
    let tab = mint.bound(binding);
    let id = tab.id();
    let gid = mint.gid();
    let got = layout.push_cluster(gid, 1.0, tab).expect("fresh tab");
    (got, id)
}

fn script_split(layout: &mut Layout, mint: &mut Mint, main: GroupId, notes: u32) -> (GroupId, TabId) {
    let tab = mint.bound(notes);
    let id = tab.id();
    let gid = mint.gid();
    let got = layout
        .split_group(
            main,
            Axis::Vertical,
            false,
            Sizing::Px {
                px: 200.0,
                sized_first: false,
            },
            gid,
            tab,
        )
        .expect("reference group is live");
    (got, id)
}

fn multi_fixture(layout: &mut Layout, mint: &mut Mint) -> (GroupId, [TabId; 3], GroupId, TabId) {
    let (multi, t0) = push(layout, mint, 100);
    let t1 = mint.bound(101);
    let t2 = mint.bound(102);
    let (id1, id2) = (t1.id(), t2.id());
    assert!(layout.append_tab(multi, t1).is_ok());
    assert!(layout.append_tab(multi, t2).is_ok());
    let (single, s0) = push(layout, mint, 200);
    (multi, [t0, id1, id2], single, s0)
}

fn collect(node: &StructureNode<Sizing>, out: &mut Vec<GroupId>) {
    match node {
        StructureNode::Leaf(gid) => out.push(*gid),
        StructureNode::Split { a, b, .. } => {
            collect(a, out);
            collect(b, out);
        }
    }
}

#[test]
fn structure_mirrors_the_forest_shape() {
    let mut mint = Mint::new();
    let mut layout = Layout::new();
    let (a_main, _) = push(&mut layout, &mut mint, A_MAIN);
    let (a_notes, _) = script_split(&mut layout, &mut mint, a_main, A_NOTES);
    let (b_main, _) = push(&mut layout, &mut mint, B_MAIN);

    let mirror = layout.structure();
    assert_eq!(mirror.len(), 2, "one cluster per session");
    assert!((mirror[0].0 - 1.0).abs() < f32::EPSILON);
    match &mirror[0].1 {
        StructureNode::Split { axis, sizing, a, b } => {
            assert_eq!(*axis, Axis::Vertical);
            assert_eq!(
                *sizing,
                Sizing::Px {
                    px: 200.0,
                    sized_first: false,
                }
            );
            assert!(matches!(**a, StructureNode::Leaf(g) if g == a_main));
            assert!(matches!(**b, StructureNode::Leaf(g) if g == a_notes));
        }
        other => panic!("expected a split mirror, got {other:?}"),
    }
    assert!(matches!(mirror[1].1, StructureNode::Leaf(g) if g == b_main));

    let mut mirrored = Vec::new();
    for (_, node) in &mirror {
        collect(node, &mut mirrored);
    }
    assert_eq!(mirrored, layout.groups_depth_first());
}

#[test]
fn remove_collapses_splits_and_drops_empty_clusters() {
    let mut mint = Mint::new();
    let mut layout = Layout::new();
    let (a_main, a_main_tab) = push(&mut layout, &mut mint, A_MAIN);
    let (_, a_notes_tab) = script_split(&mut layout, &mut mint, a_main, A_NOTES);
    let (_, b_main_tab) = push(&mut layout, &mut mint, B_MAIN);

    assert!(layout.remove_tab(a_notes_tab).is_some());
    assert!(!layout.contains_tab(a_notes_tab));
    assert_eq!(bindings(&layout), vec![A_MAIN, B_MAIN]);

    assert!(layout.remove_tab(a_main_tab).is_some());
    assert_eq!(bindings(&layout), vec![B_MAIN]);
    assert!(layout.remove_tab(b_main_tab).is_some());
    assert!(layout.panes().is_empty());
    assert!(layout.is_empty());
    assert!(layout.structure().is_empty());
    assert!(layout.remove_tab(b_main_tab).is_none());
}

#[test]
fn swap_exchanges_two_singleton_groups() {
    let mut mint = Mint::new();
    let mut layout = Layout::new();
    let (a_main, a_main_tab) = push(&mut layout, &mut mint, A_MAIN);
    let (_, a_notes_tab) = script_split(&mut layout, &mut mint, a_main, A_NOTES);
    let (_, b_main_tab) = push(&mut layout, &mut mint, B_MAIN);
    assert!(layout.swap_tabs(a_notes_tab, b_main_tab));
    assert_eq!(bindings(&layout), vec![A_MAIN, B_MAIN, A_NOTES]);
    assert!(!layout.swap_tabs(a_main_tab, a_main_tab));
    let stale = mint.placeholder().id();
    assert!(!layout.swap_tabs(a_main_tab, stale));
    assert_eq!(bindings(&layout), vec![A_MAIN, B_MAIN, A_NOTES]);
}

#[test]
fn rebinding_changes_only_the_tab_binding() {
    let mut mint = Mint::new();
    let mut layout = Layout::new();
    let (a_main, _) = push(&mut layout, &mut mint, A_MAIN);
    let (_, a_notes_tab) = script_split(&mut layout, &mut mint, a_main, A_NOTES);
    let groups_before = layout.groups_depth_first();
    let weights_before = layout.cluster_weights();
    assert!(layout.set_binding(a_notes_tab, Some(B_MAIN)));
    assert_eq!(bindings(&layout), vec![A_MAIN, B_MAIN]);
    assert_eq!(layout.cluster_weights(), weights_before);
    assert_eq!(layout.groups_depth_first(), groups_before, "identity is preserved");
    assert!(layout.set_binding(a_notes_tab, None));
    assert!(layout.tab(a_notes_tab).unwrap().binding().is_none());
    let stale = mint.placeholder().id();
    assert!(!layout.set_binding(stale, Some(99)));
}

#[test]
fn wrap_all_and_edge_inserts() {
    let mut mint = Mint::new();
    let mut layout = Layout::new();
    push(&mut layout, &mut mint, 1);
    push(&mut layout, &mut mint, 2);
    let gid = mint.gid();
    let tab = mint.bound(3);
    layout.insert_cluster_front(gid, 1.0, tab).expect("fresh tab");
    assert_eq!(bindings(&layout), vec![3, 1, 2]);

    let gid = mint.gid();
    let tab = mint.bound(4);
    let folds = [Sizing::Ratio(1.0 / 3.0), Sizing::Ratio(0.5)];
    layout
        .wrap_all(Axis::Horizontal, true, Sizing::Ratio(0.5), 1.0, &folds, gid, tab)
        .expect("fresh tab");
    assert_eq!(bindings(&layout), vec![4, 3, 1, 2]);
    let mirror = layout.structure();
    assert_eq!(mirror.len(), 1);
    match &mirror[0].1 {
        StructureNode::Split { axis, sizing, a, .. } => {
            assert_eq!(*axis, Axis::Horizontal);
            assert_eq!(*sizing, Sizing::Ratio(0.5));
            assert!(matches!(**a, StructureNode::Leaf(g) if g == gid));
        }
        other => panic!("expected the wrapping split, got {other:?}"),
    }
}

#[test]
fn removing_tabs_hands_selection_to_next_then_previous() {
    let mut mint = Mint::new();
    let mut layout = Layout::new();
    let (group, t0) = push(&mut layout, &mut mint, 0);
    let extra: Vec<TabId> = (1..4)
        .map(|n| {
            let tab = mint.bound(n);
            let id = tab.id();
            assert!(layout.append_tab(group, tab).is_ok());
            id
        })
        .collect();
    let (t1, t2, t3) = (extra[0], extra[1], extra[2]);

    assert!(layout.select(t1));
    assert!(layout.remove_tab(t0).is_some());
    assert_eq!(bindings(&layout), vec![1, 2, 3]);
    assert_eq!(layout.selected(group), Some(t1));

    assert!(layout.select(t2));
    assert!(layout.remove_tab(t2).is_some());
    assert_eq!(layout.selected(group), Some(t3));

    assert!(layout.remove_tab(t3).is_some());
    assert_eq!(layout.selected(group), Some(t1));
    assert_eq!(bindings(&layout), vec![1]);
}

#[test]
fn removing_the_final_tab_collapses_the_leaf() {
    let mut mint = Mint::new();
    let mut layout = Layout::new();
    let (a_main, _) = push(&mut layout, &mut mint, A_MAIN);
    let (a_notes, notes_tab) = script_split(&mut layout, &mut mint, a_main, A_NOTES);
    push(&mut layout, &mut mint, B_MAIN);

    assert!(layout.remove_tab(notes_tab).is_some());
    assert!(!layout.contains_group(a_notes), "the group leaf is gone");
    assert_eq!(bindings(&layout), vec![A_MAIN, B_MAIN]);
    let mirror = layout.structure();
    assert!(matches!(mirror[0].1, StructureNode::Leaf(g) if g == a_main));
}

#[test]
fn merge_moves_one_tab_between_groups() {
    let mut mint = Mint::new();
    let mut layout = Layout::new();
    let (multi, [t0, t1, _t2], single, s0) = multi_fixture(&mut layout, &mut mint);

    assert!(layout.select(t1));
    assert!(layout.merge_tab(s0, multi, 1));
    assert!(!layout.contains_group(single));
    assert_eq!(bindings(&layout), vec![100, 200, 101, 102]);
    assert_eq!(layout.selected(multi), Some(t1));
    assert_eq!(layout.group_of(s0), Some(multi));

    let gid = mint.gid();
    let dest = layout
        .split_tab_as_singleton(s0, multi, Axis::Vertical, false, Sizing::Ratio(0.5), gid)
        .expect("participants are live");
    assert!(layout.merge_tab(t0, dest, 999));
    assert_eq!(layout.group_of(t0), Some(dest));
    assert_eq!(layout.tabs(dest).unwrap().len(), 2);

    let stale = mint.placeholder().id();
    let before = bindings(&layout);
    assert!(!layout.merge_tab(stale, multi, 0));
    assert!(!layout.merge_tab(t1, mint.gid(), 0));
    assert_eq!(bindings(&layout), before);
}

#[test]
fn merge_into_own_group_reorders() {
    let mut mint = Mint::new();
    let mut layout = Layout::new();
    let (multi, [t0, t1, t2], _, _) = multi_fixture(&mut layout, &mut mint);

    assert!(layout.merge_tab(t0, multi, 2));
    assert_eq!(bindings(&layout), vec![101, 100, 102, 200]);
    let before_bindings = bindings(&layout);
    let before_selected = layout.selected(multi);
    assert!(layout.merge_tab(t1, multi, 0));
    assert_eq!(bindings(&layout), before_bindings);
    assert_eq!(layout.selected(multi), before_selected);
    assert!(layout.select(t2));
    assert!(layout.merge_tab(t2, multi, 0));
    assert_eq!(bindings(&layout), vec![102, 101, 100, 200]);
    assert_eq!(layout.selected(multi), Some(t2));
}

#[test]
fn reorder_moves_within_the_strip_only() {
    let mut mint = Mint::new();
    let mut layout = Layout::new();
    let (multi, [t0, _t1, t2], _, s0) = multi_fixture(&mut layout, &mut mint);

    assert!(layout.select(t0));
    assert!(layout.reorder_tab(t0, 2));
    assert_eq!(bindings(&layout), vec![101, 102, 100, 200]);
    assert_eq!(layout.selected(multi), Some(t0), "selection rides the id");
    assert!(layout.reorder_tab(t2, 99));
    assert_eq!(bindings(&layout), vec![101, 100, 102, 200]);
    assert!(layout.reorder_tab(t2, 2));
    assert_eq!(bindings(&layout), vec![101, 100, 102, 200]);
    assert!(layout.reorder_tab(s0, 0));
    assert!(!layout.reorder_tab(mint.placeholder().id(), 0));
}

#[test]
fn split_tab_as_singleton_detaches_and_splits() {
    let mut mint = Mint::new();
    let mut layout = Layout::new();
    let (multi, [t0, t1, t2], single, s0) = multi_fixture(&mut layout, &mut mint);

    assert!(layout.select(t1));
    let gid = layout
        .split_tab_as_singleton(t1, single, Axis::Horizontal, true, Sizing::Ratio(0.5), mint.gid())
        .expect("participants are live");
    assert_eq!(layout.group_of(t1), Some(gid));
    assert_eq!(layout.selected(gid), Some(t1));
    assert_eq!(layout.selected(multi), Some(t2), "next-neighbor rule");
    assert_eq!(bindings(&layout), vec![100, 102, 101, 200]);

    let gid2 = layout
        .split_tab_as_singleton(s0, multi, Axis::Vertical, false, Sizing::Ratio(0.5), mint.gid())
        .expect("participants are live");
    assert!(!layout.contains_group(single));
    assert_eq!(layout.group_of(s0), Some(gid2));

    let before = bindings(&layout);
    assert!(layout
        .split_tab_as_singleton(s0, gid2, Axis::Vertical, true, Sizing::Ratio(0.5), mint.gid())
        .is_none());
    assert_eq!(bindings(&layout), before);
    let gid3 = layout
        .split_tab_as_singleton(t0, multi, Axis::Vertical, true, Sizing::Ratio(0.5), mint.gid())
        .expect("multi-tab member beside its own group");
    assert_eq!(layout.group_of(t0), Some(gid3));
    layout.validate().unwrap();
}

#[test]
fn merge_into_the_collapsing_sources_split_sibling() {
    let mut mint = Mint::new();
    let mut layout = Layout::new();
    let (sibling, s_tab) = push(&mut layout, &mut mint, 1);
    let solo = mint.bound(2);
    let solo_id = solo.id();
    let source = layout
        .split_group(sibling, Axis::Vertical, false, Sizing::Ratio(0.5), mint.gid(), solo)
        .expect("reference group is live");

    assert!(layout.merge_tab(solo_id, sibling, 0));
    assert!(!layout.contains_group(source), "the source leaf collapsed");
    assert_eq!(layout.group_of(solo_id), Some(sibling));
    assert_eq!(bindings(&layout), vec![2, 1]);
    assert_eq!(layout.selected(sibling), Some(s_tab), "destination selection is unchanged");
    let mirror = layout.structure();
    assert!(matches!(mirror[0].1, StructureNode::Leaf(g) if g == sibling));
    layout.validate().unwrap();
}

#[test]
fn split_as_singleton_beside_the_collapsing_sources_sibling() {
    let mut mint = Mint::new();
    let mut layout = Layout::new();
    let (sibling, _) = push(&mut layout, &mut mint, 1);
    let solo = mint.bound(2);
    let solo_id = solo.id();
    let source = layout
        .split_group(sibling, Axis::Vertical, false, Sizing::Ratio(0.5), mint.gid(), solo)
        .expect("reference group is live");

    let gid = layout
        .split_tab_as_singleton(solo_id, sibling, Axis::Horizontal, true, Sizing::Ratio(0.5), mint.gid())
        .expect("the sibling survives the source collapse");
    assert!(!layout.contains_group(source));
    assert_eq!(layout.group_of(solo_id), Some(gid));
    assert_eq!(layout.selected(gid), Some(solo_id));
    assert_eq!(bindings(&layout), vec![2, 1], "new-first singleton leads");
    let mirror = layout.structure();
    match &mirror[0].1 {
        StructureNode::Split { a, b, .. } => {
            assert!(matches!(**a, StructureNode::Leaf(g) if g == gid));
            assert!(matches!(**b, StructureNode::Leaf(g) if g == sibling));
        }
        other => panic!("expected one divider beside the sibling, got {other:?}"),
    }
    layout.validate().unwrap();
}

#[test]
fn swap_preserves_each_groups_rendered_slot() {
    let mut mint = Mint::new();
    let mut layout = Layout::new();
    let (multi, [t0, t1, t2], single, s0) = multi_fixture(&mut layout, &mut mint);
    assert!(layout.select(t1));
    assert!(layout.swap_tabs(t1, s0));
    assert_eq!(bindings(&layout), vec![100, 200, 102, 101]);
    assert_eq!(layout.selected(multi), Some(s0), "slot stays selected");
    assert_eq!(layout.selected(single), Some(t1), "singleton follows too");
    assert_eq!(layout.group_of(t1), Some(single));
    assert_eq!(layout.group_of(s0), Some(multi));

    assert!(layout.swap_tabs(s0, t1));
    assert_eq!(layout.selected(multi), Some(t1));
    assert_eq!(layout.selected(single), Some(s0));
    assert_eq!(bindings(&layout), vec![100, 101, 102, 200]);

    assert_eq!(layout.selected(multi), Some(t1));
    assert!(layout.swap_tabs(t1, t0));
    assert_eq!(bindings(&layout), vec![101, 100, 102, 200]);
    assert_eq!(layout.selected(multi), Some(t0), "slot 1 stays selected");
    assert!(layout.swap_tabs(t1, t2));
    assert_eq!(layout.selected(multi), Some(t0));
    layout.validate().unwrap();
}

#[test]
fn detach_keeps_the_group_and_the_tab_identity() {
    let mut mint = Mint::new();
    let mut layout = Layout::new();
    let (multi, [t0, t1, _t2], _, s0) = multi_fixture(&mut layout, &mut mint);

    assert!(layout.select(t0));
    let detached = layout.detach_tab(t0).expect("multi-tab group");
    assert_eq!(detached.id(), t0);
    assert_eq!(detached.binding(), Some(&100));
    assert!(layout.contains_group(multi));
    assert!(!layout.contains_tab(t0));
    assert_eq!(layout.selected(multi), Some(t1));

    assert!(layout.detach_tab(s0).is_none());
    assert!(layout.contains_tab(s0));

    let mut other = Layout::new();
    let dest = other.push_cluster(mint.gid(), 1.0, mint.bound(999)).expect("fresh tab");
    assert!(other.append_tab(dest, detached).is_ok());
    assert!(other.contains_tab(t0));
    assert!(!layout.contains_tab(t0));
    other.validate().unwrap();
    layout.validate().unwrap();
}

#[test]
fn hidden_selected_tab_falls_back_without_mutating_selection() {
    let mut mint = Mint::new();
    let mut layout = Layout::new();
    let (multi, [t0, t1, t2], _, _) = multi_fixture(&mut layout, &mut mint);
    assert!(layout.select(t1));

    let hide_sel = |t: &Tab<u32>| t.id() != t1;
    assert_eq!(layout.effective_selected(multi, hide_sel), Some(t2));
    assert_eq!(layout.selected(multi), Some(t1));
    let hide_tail = |t: &Tab<u32>| t.id() == t0;
    assert_eq!(layout.effective_selected(multi, hide_tail), Some(t0));
    assert_eq!(layout.effective_selected(multi, |_: &Tab<u32>| true), Some(t1));
    assert_eq!(layout.effective_selected(multi, |_: &Tab<u32>| false), None);
}

#[test]
fn ops_with_missing_ids_reject_without_mutating() {
    let mut mint = Mint::new();
    let mut layout = Layout::new();
    let (multi, [t0, _, _], _, _) = multi_fixture(&mut layout, &mut mint);
    let stale_tab = mint.placeholder().id();
    let stale_group = mint.gid();
    let before_bindings = bindings(&layout);
    let before_groups = layout.groups_depth_first();

    assert!(!layout.select(stale_tab));
    assert!(!layout.reorder_tab(stale_tab, 0));
    assert!(layout.remove_tab(stale_tab).is_none());
    assert!(layout.detach_tab(stale_tab).is_none());
    assert!(!layout.merge_tab(stale_tab, multi, 0));
    assert!(!layout.merge_tab(t0, stale_group, 0));
    assert!(!layout.swap_tabs(stale_tab, t0));
    assert!(!layout.swap_tabs(t0, stale_tab));
    assert!(!layout.set_binding(stale_tab, Some(1)));
    assert!(layout.insert_tab(stale_group, 0, mint.bound(500)).is_err());
    assert!(layout
        .split_tab_as_singleton(stale_tab, multi, Axis::Vertical, true, Sizing::Ratio(0.5), mint.gid())
        .is_none());
    assert!(layout
        .split_tab_as_singleton(t0, stale_group, Axis::Vertical, true, Sizing::Ratio(0.5), mint.gid())
        .is_none());
    let gid = mint.gid();
    let tab = mint.bound(501);
    assert!(layout
        .split_group(stale_group, Axis::Vertical, true, Sizing::Ratio(0.5), gid, tab)
        .is_err());
    assert!(layout.px_edge(stale_group, Axis::Vertical).is_none());

    assert_eq!(bindings(&layout), before_bindings);
    assert_eq!(layout.groups_depth_first(), before_groups);
    layout.validate().unwrap();
}

#[test]
fn placeholder_tabs_participate_until_materialized() {
    let mut mint = Mint::new();
    let mut layout = Layout::new();
    let (group, t0) = push(&mut layout, &mut mint, 1);
    let placeholder = mint.placeholder();
    let p = placeholder.id();
    assert!(layout.append_tab(group, placeholder).is_ok());
    layout.validate().unwrap();

    assert!(layout.select(p));
    assert!(layout.reorder_tab(p, 0));
    let gid = layout
        .split_tab_as_singleton(p, group, Axis::Vertical, false, Sizing::Ratio(0.5), mint.gid())
        .expect("participants are live");
    assert_eq!(layout.group_of(p), Some(gid));
    assert!(!layout.contains_binding(2));
    assert!(layout.set_binding(p, Some(2)));
    assert!(layout.contains_binding(2));
    assert_eq!(bindings(&layout), vec![1, 2]);
    assert_eq!(layout.selected(group), Some(t0));
    layout.validate().unwrap();
}

#[test]
fn rejected_insertions_hand_the_identical_tab_back() {
    let mut mint = Mint::new();
    let mut layout = Layout::new();
    let (group, _) = push(&mut layout, &mut mint, 1);
    assert!(layout.append_tab(group, mint.bound(2)).is_ok());
    let before_bindings = bindings(&layout);
    let before_groups = layout.groups_depth_first();

    let dup = mint.bound(2);
    let dup_id = dup.id();
    let dup = layout.insert_tab(group, 0, dup).expect_err("binding is taken");
    let dup = layout.append_tab(group, dup).expect_err("binding is taken");
    let dup = layout.push_cluster(mint.gid(), 1.0, dup).expect_err("binding is taken");
    let dup = layout
        .insert_cluster_front(mint.gid(), 1.0, dup)
        .expect_err("binding is taken");
    let dup = layout
        .wrap_all(Axis::Vertical, true, Sizing::Ratio(0.5), 1.0, &[], mint.gid(), dup)
        .expect_err("binding is taken");
    let dup = layout
        .split_group(group, Axis::Vertical, true, Sizing::Ratio(0.5), mint.gid(), dup)
        .expect_err("binding is taken");
    assert_eq!(dup.id(), dup_id, "the tab rides every rejection intact");
    assert_eq!(dup.binding(), Some(&2));
    assert_eq!(bindings(&layout), before_bindings);
    assert_eq!(layout.groups_depth_first(), before_groups);

    let other = mint.bound(3);
    let other_id = other.id();
    assert!(layout.append_tab(group, other).is_ok());
    assert!(!layout.set_binding(other_id, Some(1)));

    assert_eq!(bindings(&layout), vec![1, 2, 3]);
    layout.validate().unwrap();
}

#[test]
fn px_edge_targets_the_nearest_axis_ancestor() {
    let mut mint = Mint::new();
    let mut layout = Layout::new();
    let (a_main, _) = push(&mut layout, &mut mint, A_MAIN);
    let (a_notes, _) = script_split(&mut layout, &mut mint, a_main, A_NOTES);
    let a_chat = layout
        .split_group(a_notes, Axis::Horizontal, true, Sizing::Ratio(0.5), mint.gid(), mint.bound(3))
        .expect("notes group is live");

    let (cluster, path, first) = layout.px_edge(a_chat, Axis::Horizontal).expect("height edge");
    assert_eq!((cluster, path.clone(), first), (0, vec![Branch::B], true));
    assert!(layout.set_split_sizing(cluster, &path, Sizing::Px { px: 120.0, sized_first: first }));
    let (cluster, path, first) = layout.px_edge(a_chat, Axis::Vertical).expect("width edge");
    assert_eq!((cluster, path.clone(), first), (0, vec![], false));
    assert!(layout.set_split_sizing(cluster, &path, Sizing::Px { px: 300.0, sized_first: first }));

    let mirror = layout.structure();
    match &mirror[0].1 {
        StructureNode::Split { sizing, b, .. } => {
            assert_eq!(*sizing, Sizing::Px { px: 300.0, sized_first: false });
            match &**b {
                StructureNode::Split { sizing, .. } => {
                    assert_eq!(*sizing, Sizing::Px { px: 120.0, sized_first: true });
                }
                other => panic!("expected the inner split, got {other:?}"),
            }
        }
        other => panic!("expected the root split, got {other:?}"),
    }
    assert!(layout.px_edge(a_main, Axis::Horizontal).is_none());
    let mut solo = Layout::new();
    let (b_main, _) = push(&mut solo, &mut mint, B_MAIN);
    assert!(solo.px_edge(b_main, Axis::Vertical).is_none());
    assert!(solo.px_edge(a_main, Axis::Vertical).is_none(), "unknown group");
    assert!(!solo.set_split_sizing(0, &[Branch::A], Sizing::Ratio(0.5)));
    assert!(!solo.set_split_sizing(3, &[], Sizing::Ratio(0.5)));
}

#[test]
fn cluster_weights_replace_only_with_one_weight_per_cluster() {
    let mut mint = Mint::new();
    let mut layout = Layout::new();
    push(&mut layout, &mut mint, 1);
    push(&mut layout, &mut mint, 2);
    assert_eq!(layout.cluster_weights(), vec![1.0, 1.0]);
    assert!(!layout.set_cluster_weights(&[3.0]));
    assert_eq!(layout.cluster_weights(), vec![1.0, 1.0]);
    assert!(layout.set_cluster_weights(&[0.25, 0.75]));
    assert_eq!(layout.cluster_weights(), vec![0.25, 0.75]);
    assert_eq!(bindings(&layout), vec![1, 2]);
}

#[test]
fn swapping_twice_restores_the_model() {
    let mut mint = Mint::new();
    let mut layout = Layout::new();
    let (multi, [t0, t1, _t2], single, s0) = multi_fixture(&mut layout, &mut mint);
    assert!(layout.select(t1));
    let before = bindings(&layout);
    assert!(layout.swap_tabs(t1, s0));
    assert!(layout.swap_tabs(t1, s0));
    assert_eq!(bindings(&layout), before);
    assert_eq!(layout.selected(multi), Some(t1));
    assert_eq!(layout.selected(single), Some(s0));
    assert!(layout.swap_tabs(t0, t1));
    assert!(layout.swap_tabs(t0, t1));
    assert_eq!(bindings(&layout), before);
    assert_eq!(layout.selected(multi), Some(t1));
}

#[test]
fn merging_onto_its_own_slot_is_a_no_op() {
    let mut mint = Mint::new();
    let mut layout = Layout::new();
    let (multi, [_t0, t1, _t2], _, _) = multi_fixture(&mut layout, &mut mint);
    let before = bindings(&layout);
    assert!(layout.merge_tab(t1, multi, 1));
    assert_eq!(bindings(&layout), before);
    assert!(layout.merge_tab(t1, multi, 2));
    assert_eq!(bindings(&layout), before);
}

#[test]
fn from_blueprint_reconstructs_structure_content_and_selection() {
    let mut mint = Mint::new();
    let main = mint.bound(A_MAIN);
    let notes = mint.bound(A_NOTES);
    let chat = mint.placeholder();
    let (notes_id, chat_id) = (notes.id(), chat.id());
    let other = mint.bound(B_MAIN);
    let mut next_group: u64 = 100;
    let layout = Layout::from_blueprint(
        vec![
            (
                2.0,
                Blueprint::Split {
                    axis: Axis::Vertical,
                    sizing: Sizing::Px {
                        px: 240.0,
                        sized_first: false,
                    },
                    a: Box::new(Blueprint::Group {
                        tabs: vec![main],
                        selected: 0,
                    }),
                    b: Box::new(Blueprint::Group {
                        tabs: vec![notes, chat],
                        selected: 1, // the placeholder is durably selected
                    }),
                },
            ),
            (
                1.0,
                Blueprint::Group {
                    tabs: vec![other],
                    selected: 0,
                },
            ),
        ],
        &mut next_group,
    );

    assert!(layout.validate().is_ok());
    let mirror = layout.structure();
    assert_eq!(mirror.len(), 2);
    assert!((mirror[0].0 - 2.0).abs() < f32::EPSILON);
    let StructureNode::Split { axis, sizing, b, .. } = &mirror[0].1 else {
        panic!("expected the blueprint split to survive");
    };
    assert_eq!(*axis, Axis::Vertical);
    assert_eq!(
        *sizing,
        Sizing::Px {
            px: 240.0,
            sized_first: false,
        }
    );
    let StructureNode::Leaf(scripts) = **b else {
        panic!("leaf expected");
    };
    assert_eq!(layout.selected(scripts), Some(chat_id));
    assert_eq!(layout.tabs(scripts).unwrap().len(), 2);
    assert!(layout.contains_tab(notes_id));
    assert!(layout.tab(chat_id).unwrap().binding().is_none());
    // The placeholder participates in structure but carries no binding.
    assert!(layout.contains_binding(A_NOTES));
    assert!(!layout.contains_binding(3));
}

#[test]
fn from_blueprint_drops_duplicates_and_collapses_emptied_nodes() {
    // A duplicate binding within one strip and a whole-group duplicate:
    // the survivors keep the invariants (exactly-once) intact, the
    // emptied group collapses out of its split, and selection clamps.
    let mut mint = Mint::new();
    let first = mint.bound(A_MAIN);
    let duplicate_binding = mint.bound(A_MAIN);
    let dup_id = duplicate_binding.id();
    let second_copy = mint.bound(A_MAIN);
    let mut next_group: u64 = 100;
    let layout = Layout::from_blueprint(
        vec![(
            1.0,
            Blueprint::Split {
                axis: Axis::Horizontal,
                sizing: Sizing::Ratio(0.5),
                a: Box::new(Blueprint::Group {
                    tabs: vec![first, duplicate_binding],
                    selected: 1, // selects the tab that gets dropped
                }),
                b: Box::new(Blueprint::Group {
                    tabs: vec![second_copy],
                    selected: 0,
                }),
            },
        )],
        &mut next_group,
    );

    assert!(layout.validate().is_ok());
    assert_eq!(layout.panes().len(), 1, "one binding, hosted exactly once");
    assert!(!layout.contains_tab(dup_id));
    // The b-side group emptied entirely: the split collapsed.
    assert!(matches!(layout.structure()[0].1, StructureNode::Leaf(_)));
}

#[test]
fn from_blueprint_mints_consecutive_group_ids() {
    let mut mint = Mint::new();
    let a = mint.bound(A_MAIN);
    let b = mint.bound(B_MAIN);
    let mut next_group: u64 = 100;
    let layout = Layout::from_blueprint(
        vec![
            (1.0, Blueprint::Group { tabs: vec![a], selected: 7 }),
            (1.0, Blueprint::Group { tabs: Vec::new(), selected: 0 }),
            (1.0, Blueprint::Group { tabs: vec![b], selected: 0 }),
        ],
        &mut next_group,
    );
    assert_eq!(next_group, 102, "only surviving groups take an id");
    assert_eq!(
        layout.groups_depth_first(),
        vec![GroupId::new(100), GroupId::new(101)],
        "the emptied cluster disappears"
    );
    assert_eq!(bindings(&layout), vec![A_MAIN, B_MAIN]);
}

/// A blueprint describing `node` of `layout`: the same splits, each leaf's
/// strip re-created with the same ids and bindings.
fn describe(layout: &Layout, node: &StructureNode<Sizing>) -> Blueprint<u32, Sizing> {
    match node {
        StructureNode::Leaf(g) => {
            let strip = layout.tabs(*g).expect("live group");
            let selected_id = layout.selected(*g).expect("live group");
            let tabs: Vec<Tab<u32>> = strip
                .iter()
                .map(|t| match t.binding() {
                    Some(b) => Tab::bound(t.id(), *b),
                    None => Tab::placeholder(t.id()),
                })
                .collect();
            let selected = strip.iter().position(|t| t.id() == selected_id).expect("selection is a member");
            Blueprint::Group { tabs, selected }
        }
        StructureNode::Split { axis, sizing, a, b } => Blueprint::Split {
            axis: *axis,
            sizing: *sizing,
            a: Box::new(describe(layout, a)),
            b: Box::new(describe(layout, b)),
        },
    }
}

/// Whether two subtrees have the same splits and leaves with the same
/// strips and selections, whatever their group ids.
fn same_shape(x: &Layout, nx: &StructureNode<Sizing>, y: &Layout, ny: &StructureNode<Sizing>) -> bool {
    match (nx, ny) {
        (StructureNode::Leaf(gx), StructureNode::Leaf(gy)) => {
            let tx: Vec<(TabId, Option<u32>)> =
                x.tabs(*gx).unwrap().iter().map(|t| (t.id(), t.binding().copied())).collect();
            let ty: Vec<(TabId, Option<u32>)> =
                y.tabs(*gy).unwrap().iter().map(|t| (t.id(), t.binding().copied())).collect();
            tx == ty && x.selected(*gx) == y.selected(*gy)
        }
        (
            StructureNode::Split { axis: ax, sizing: sx, a: ax_a, b: ax_b },
            StructureNode::Split { axis: ay, sizing: sy, a: ay_a, b: ay_b },
        ) => ax == ay && sx == sy && same_shape(x, ax_a, y, ay_a) && same_shape(x, ax_b, y, ay_b),
        _ => false,
    }
}

#[test]
fn restoring_a_described_model_remakes_it() {
    let mut mint = Mint::new();
    let mut layout = Layout::new();
    let (a_main, _) = push(&mut layout, &mut mint, A_MAIN);
    let (notes, _) = script_split(&mut layout, &mut mint, a_main, A_NOTES);
    let extra = mint.placeholder();
    let extra_id = extra.id();
    assert!(layout.append_tab(notes, extra).is_ok());
    assert!(layout.select(extra_id));
    push(&mut layout, &mut mint, B_MAIN);

    let mirror = layout.structure();
    let blueprints: Vec<(f32, Blueprint<u32, Sizing>)> =
        mirror.iter().map(|(w, node)| (*w, describe(&layout, node))).collect();
    let mut next_group: u64 = 500;
    let restored = Layout::from_blueprint(blueprints, &mut next_group);

    assert!(restored.validate().is_ok());
    assert_eq!(next_group, 503);
    assert_eq!(restored.groups_depth_first(), vec![GroupId::new(500), GroupId::new(501), GroupId::new(502)]);
    let again = restored.structure();
    assert_eq!(again.len(), mirror.len());
    for ((wx, nx), (wy, ny)) in mirror.iter().zip(again.iter()) {
        assert_eq!(wx, wy);
        assert!(same_shape(&layout, nx, &restored, ny));
    }
}

#[test]
fn default_model_is_empty_and_valid() {
    let layout = Layout::default();
    assert!(layout.is_empty());
    assert!(layout.validate().is_ok());
    assert!(layout.structure().is_empty());
}

#[test]
fn minted_ids_are_unique_across_models() {
    // Two models minting concurrently never collide: ids come from one
    // process-wide well.
    let mut mint = IdMint::new();
    let mut a = Layout::new();
    let mut b = Layout::new();
    let mut seen = BTreeSet::new();
    for n in 0..50u32 {
        let ta = Tab::bound(mint.mint_tab(), n);
        let ta_id = ta.id();
        let ga = a.push_cluster(mint.mint_group(), 1.0, ta).expect("fresh tab");
        let tb = Tab::bound(mint.mint_tab(), n);
        let tb_id = tb.id();
        let gb = b.push_cluster(mint.mint_group(), 1.0, tb).expect("fresh tab");
        assert!(seen.insert(ga.as_u64()));
        assert!(seen.insert(gb.as_u64()));
        assert!(seen.insert(ta_id.as_u64()));
        assert!(seen.insert(tb_id.as_u64()));
    }
}

#[test]
fn the_mint_counts_from_one_and_reserves_blocks() {
    let mut mint = IdMint::new();
    assert_eq!(mint.peek(), 1);
    assert_eq!(mint.mint_tab().as_u64(), 1);
    assert_eq!(mint.mint_group().as_u64(), 2);
    assert_eq!(mint.reserve(3), 3);
    assert_eq!(mint.peek(), 6);
}

#[test]
fn blueprint_group_counts_bound_the_ids_a_restore_takes() {
    let mut mint = Mint::new();
    let leaf = |mint: &mut Mint, binding: u32| Blueprint::Group { tabs: vec![mint.bound(binding)], selected: 0 };
    let split = Blueprint::Split {
        axis: Axis::Vertical,
        sizing: Sizing::Ratio(0.5),
        a: Box::new(leaf(&mut mint, 1)),
        b: Box::new(leaf(&mut mint, 2)),
    };
    let clusters: Vec<(f32, Blueprint<u32, Sizing>)> = vec![(1.0, split), (1.0, leaf(&mut mint, 3))];
    assert_eq!(count_blueprint_groups(&clusters), Some(3));
    assert_eq!(count_blueprint_groups::<u32, Sizing, f32>(&[]), Some(0));
}
