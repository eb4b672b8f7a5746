use smudgy_panes::grid_build::{built_mirror, plan_clusters, PlannedNode};
use smudgy_panes::pane_groups::{
    Axis, Branch, BuiltNode, EdgeTarget, GroupId, GroupLayout, IdMint, StructureNode, Tab, TabId,
};
use std::collections::BTreeSet;

#[derive(Debug, Clone, Copy, PartialEq)]
enum Sizing {
    Ratio(f32),
    Px { px: f32, sized_first: bool },
}

type Layout = GroupLayout<u32, Sizing, f32>;

const A_MAIN: u32 = 1;
const A_NOTES: u32 = 2;
/// The strip length the biased seed must outgrow.
const TAB_INLINE: usize = 17;

/// A 64-bit LCG (Knuth's MMIX constants); the sequence is a pure function
/// of the seed, so every failure reproduces exactly.
struct Lcg(u64);

impl Lcg {
    fn next(&mut self) -> u64 {
        self.0 = self
            .0
            .wrapping_mul(6_364_136_223_846_793_005)
            .wrapping_add(1_442_695_040_888_963_407);
        self.0 >> 33
    }

    fn below(&mut self, n: usize) -> usize {
        (self.next() % n as u64) as usize
    }

    fn chance(&mut self, percent: u64) -> bool {
        self.next() % 100 < percent
    }
}

/// The shown leaves, the divider targets (top-level ones included) and the
/// shown cluster indices of a build under `visible`; `None` when nothing
/// shows.
type Flat = (Vec<GroupId>, Vec<EdgeTarget>, Vec<usize>);

fn flatten_plan(node: &PlannedNode<Sizing>, leaves: &mut Vec<GroupId>, targets: &mut Vec<EdgeTarget>) {
    match node {
        PlannedNode::Leaf(g) => leaves.push(*g),
        PlannedNode::Split { target, a, b, .. } => {
            targets.push(target.clone());
            flatten_plan(a, leaves, targets);
            flatten_plan(b, leaves, targets);
        }
    }
}

fn collect_targets(built: &BuiltNode, out: &mut Vec<EdgeTarget>) {
    if let BuiltNode::Split { target, a, b } = built {
        out.push(target.clone());
        collect_targets(a, out);
        collect_targets(b, out);
    }
}

fn build(layout: &Layout, visible: &dyn Fn(&Tab<u32>) -> bool) -> Option<Flat> {
    let groups = layout.visible_groups(&visible);
    let forest = layout.structure();
    let plans = plan_clusters(&forest, &groups);
    let mirror = built_mirror(&plans)?;
    let mut leaves = Vec::new();
    let mut targets = Vec::new();
    collect_targets(&mirror, &mut targets);
    let mut inner = Vec::new();
    for (_, plan) in &plans {
        flatten_plan(plan, &mut leaves, &mut inner);
    }
    let top = targets.iter().filter(|t| matches!(t, EdgeTarget::TopLevel(_))).count();
    assert_eq!(top + inner.len(), targets.len());
    Some((leaves, targets, plans.iter().map(|(c, _)| *c).collect()))
}

fn harvest_targets(layout: &Layout) -> Vec<EdgeTarget> {
    build(layout, &|_: &Tab<u32>| true).map(|(_, targets, _)| targets).unwrap_or_default()
}

fn node_at<'a>(node: &'a StructureNode<Sizing>, path: &[Branch]) -> Option<&'a StructureNode<Sizing>> {
    match path.split_first() {
        None => Some(node),
        Some((step, rest)) => match node {
            StructureNode::Leaf(_) => None,
            StructureNode::Split { a, b, .. } => match step {
                Branch::A => node_at(a, rest),
                Branch::B => node_at(b, rest),
            },
        },
    }
}

/// A divider drag: a split's target takes the new ratio; a top-level one
/// reweights the cluster it follows.
fn drag(layout: &mut Layout, target: &EdgeTarget, ratio: f32) {
    match target {
        EdgeTarget::Node { cluster, path } => {
            layout.set_split_sizing(*cluster, path, Sizing::Ratio(ratio));
        }
        EdgeTarget::TopLevel(i) => {
            let mut weights = layout.cluster_weights();
            if *i < weights.len() {
                weights[*i] = ratio;
                assert!(layout.set_cluster_weights(&weights));
            }
        }
    }
}

#[test]
fn rebuilds_are_deterministic() {
    let mut mint = IdMint::new();
    let mut layout = Layout::new();
    let multi = layout.push_cluster(mint.mint_group(), 1.0, Tab::bound(mint.mint_tab(), 100)).unwrap();
    let t1 = mint.mint_tab();
    assert!(layout.append_tab(multi, Tab::bound(t1, 101)).is_ok());
    assert!(layout.append_tab(multi, Tab::bound(mint.mint_tab(), 102)).is_ok());
    let single = layout.push_cluster(mint.mint_group(), 1.0, Tab::bound(mint.mint_tab(), 200)).unwrap();
    let a_main = layout.push_cluster(mint.mint_group(), 1.0, Tab::bound(mint.mint_tab(), A_MAIN)).unwrap();
    let sizing = Sizing::Px { px: 200.0, sized_first: false };
    layout
        .split_group(a_main, Axis::Vertical, false, sizing, mint.mint_group(), Tab::bound(mint.mint_tab(), A_NOTES))
        .unwrap();
    assert!(layout.select(t1));
    assert!(layout.merge_tab(t1, single, 0));

    let all = |_: &Tab<u32>| true;
    let reference = build(&layout, &all);
    assert!(reference.is_some());
    for _ in 0..3 {
        assert_eq!(build(&layout, &all), reference);
    }
    let filter = |t: &Tab<u32>| t.binding() != Some(&A_NOTES);
    let first = build(&layout, &filter).expect("visible panes remain");
    let second = build(&layout, &filter).expect("visible panes remain");
    assert_eq!(first, second);
    assert_eq!(layout.groups_depth_first(), layout.groups_depth_first());
    layout.validate().unwrap();
}

/// Random operation sequences keep the model valid and conserve tabs and
/// bindings exactly against shadow sets, with builds read-only and
/// deterministic, divider drags through fresh and stale targets, a
/// missing-id battery and binding-collision rejections mixed in.
#[test]
fn seeded_operation_sequences_preserve_invariants() {
    for (seed, spill_bias) in [
        (1u64, false),
        (42, false),
        (0xDEAD_BEEF, false),
        (0x0123_4567_89AB_CDEF, false),
        (0x5EED_5EED, true),
    ] {
        let mut rng = Lcg(seed);
        let mut mint = IdMint::new();
        let mut layout = Layout::new();
        let mut next_binding: u32 = 0;
        let mut expected: BTreeSet<TabId> = BTreeSet::new();
        let mut expected_bindings: BTreeSet<u32> = BTreeSet::new();
        let mut held_targets: Vec<EdgeTarget> = Vec::new();
        let mut max_strip = 0usize;

        for step in 0..400 {
            let groups = layout.groups_depth_first();
            let tabs: Vec<TabId> = layout.panes().iter().map(|t| t.id()).collect();
            let first_strip = groups.first().and_then(|g| layout.tabs(*g)).map_or(0, <[_]>::len);
            let crowded = if spill_bias { tabs.len() - first_strip >= 24 } else { tabs.len() >= 24 };
            let axis = if rng.chance(50) { Axis::Vertical } else { Axis::Horizontal };
            let mut fresh = |mint: &mut IdMint| {
                next_binding += 1;
                let tab = Tab::bound(mint.mint_tab(), next_binding);
                expected.insert(tab.id());
                expected_bindings.insert(next_binding);
                tab
            };

            let op = if spill_bias && first_strip < 30 && rng.chance(55) { 4 } else { rng.below(20) };
            match op {
                0 if !crowded => {
                    let tab = fresh(&mut mint);
                    assert!(layout.push_cluster(mint.mint_group(), 1.0, tab).is_ok());
                }
                1 if !crowded => {
                    let tab = fresh(&mut mint);
                    assert!(layout.insert_cluster_front(mint.mint_group(), 1.0, tab).is_ok());
                }
                2 if !crowded && !groups.is_empty() => {
                    let tab = fresh(&mut mint);
                    let gid = groups[rng.below(groups.len())];
                    let first = rng.chance(50);
                    assert!(layout.split_group(gid, axis, first, Sizing::Ratio(0.5), mint.mint_group(), tab).is_ok());
                }
                3 if !crowded => {
                    let tab = fresh(&mut mint);
                    let first = rng.chance(50);
                    let folds = vec![Sizing::Ratio(0.5); layout.cluster_count().saturating_sub(1)];
                    let gid = mint.mint_group();
                    assert!(layout.wrap_all(axis, first, Sizing::Ratio(0.5), 1.0, &folds, gid, tab).is_ok());
                }
                4 if !crowded && !groups.is_empty() => {
                    let tab = fresh(&mut mint);
                    let gid = if spill_bias { groups[0] } else { groups[rng.below(groups.len())] };
                    let selected_before = layout.selected(gid);
                    assert!(layout.append_tab(gid, tab).is_ok());
                    assert_eq!(layout.selected(gid), selected_before, "append: selection");
                }
                5 if !crowded && !groups.is_empty() => {
                    let tab = fresh(&mut mint);
                    let gid = groups[rng.below(groups.len())];
                    let index = rng.below(8);
                    let selected_before = layout.selected(gid);
                    assert!(layout.insert_tab(gid, index, tab).is_ok());
                    assert_eq!(layout.selected(gid), selected_before, "insert: selection");
                }
                6 if !tabs.is_empty() => {
                    let tab = tabs[rng.below(tabs.len())];
                    let taken = layout.remove_tab(tab).expect("hosted tab");
                    expected.remove(&tab);
                    if let Some(b) = taken.binding() {
                        expected_bindings.remove(b);
                    }
                }
                7 if !tabs.is_empty() => {
                    let tab = tabs[rng.below(tabs.len())];
                    if let Some(detached) = layout.detach_tab(tab) {
                        if rng.chance(50) {
                            let groups = layout.groups_depth_first();
                            let gid = groups[rng.below(groups.len())];
                            assert!(layout.insert_tab(gid, rng.below(8), detached).is_ok());
                        } else {
                            expected.remove(&tab);
                            if let Some(b) = detached.binding() {
                                expected_bindings.remove(b);
                            }
                        }
                    } else {
                        assert_eq!(layout.tabs(layout.group_of(tab).unwrap()).unwrap().len(), 1);
                    }
                }
                8 if !tabs.is_empty() => {
                    assert!(layout.select(tabs[rng.below(tabs.len())]));
                }
                9 if !tabs.is_empty() => {
                    let tab = tabs[rng.below(tabs.len())];
                    let owner = layout.group_of(tab).expect("hosted tab");
                    let selected_before = layout.selected(owner);
                    assert!(layout.reorder_tab(tab, rng.below(8)));
                    assert_eq!(layout.selected(owner), selected_before, "reorder: selection");
                }
                10 if !tabs.is_empty() && !groups.is_empty() => {
                    let tab = tabs[rng.below(tabs.len())];
                    let gid = groups[rng.below(groups.len())];
                    let selected_before = layout.selected(gid);
                    assert!(layout.merge_tab(tab, gid, rng.below(8)));
                    assert_eq!(layout.selected(gid), selected_before, "merge: destination selection");
                }
                11 if !tabs.is_empty() && !groups.is_empty() => {
                    let tab = tabs[rng.below(tabs.len())];
                    let gid = groups[rng.below(groups.len())];
                    let sole = layout.group_of(tab) == Some(gid) && layout.tabs(gid).unwrap().len() == 1;
                    let first = rng.chance(50);
                    let split = layout.split_tab_as_singleton(tab, gid, axis, first, Sizing::Ratio(0.5), mint.mint_group());
                    assert_eq!(split.is_none(), sole);
                }
                12 if !tabs.is_empty() => {
                    let (a, b) = (tabs[rng.below(tabs.len())], tabs[rng.below(tabs.len())]);
                    assert_eq!(layout.swap_tabs(a, b), a != b);
                }
                13 if !tabs.is_empty() => {
                    let tab = tabs[rng.below(tabs.len())];
                    let old = layout.tab(tab).and_then(|t| t.binding().copied());
                    next_binding += 1;
                    let binding = if rng.chance(80) { Some(next_binding) } else { None };
                    assert!(layout.set_binding(tab, binding));
                    let read = layout.tab(tab).expect("still hosted");
                    assert_eq!(read.id(), tab);
                    assert_eq!(read.binding().copied(), binding);
                    if let Some(old) = old {
                        expected_bindings.remove(&old);
                    }
                    if let Some(new) = binding {
                        expected_bindings.insert(new);
                    }
                }
                14 if !groups.is_empty() => {
                    let cluster = rng.below(layout.cluster_count() + 1);
                    let _ = layout.set_split_sizing(cluster, &[], Sizing::Px { px: 100.0 + rng.below(300) as f32, sized_first: true });
                }
                15 if !expected.is_empty() => {
                    let all = |_: &Tab<u32>| true;
                    let a = build(&layout, &all).expect("non-empty");
                    let b = build(&layout, &all).expect("non-empty");
                    assert_eq!(a, b, "seed {seed} step {step}");
                    assert_eq!(a.0, groups, "seed {seed} step {step}");
                    let forest = layout.structure();
                    for target in &a.1 {
                        if let EdgeTarget::Node { cluster, path } = target {
                            assert!(matches!(node_at(&forest[*cluster].1, path), Some(StructureNode::Split { .. })));
                        }
                    }
                    let mask = rng.next();
                    let filter = move |t: &Tab<u32>| (t.id().as_u64().wrapping_mul(0x9E37_79B9_7F4A_7C15) & mask) != 0;
                    if let Some((leaves, targets, _)) = build(&layout, &filter) {
                        assert!(!leaves.is_empty());
                        assert!(leaves.iter().all(|g| groups.contains(g)));
                        for target in &targets {
                            if let EdgeTarget::Node { cluster, path } = target {
                                assert!(matches!(node_at(&forest[*cluster].1, path), Some(StructureNode::Split { .. })));
                            }
                        }
                    }
                }
                16 if !groups.is_empty() => {
                    let targets = harvest_targets(&layout);
                    if !targets.is_empty() {
                        let target = targets[rng.below(targets.len())].clone();
                        let ratio = 0.1 + (rng.below(81) as f32) / 100.0;
                        drag(&mut layout, &target, ratio);
                    }
                }
                17 => {
                    let stale_tab = mint.mint_tab();
                    let stale_group = mint.mint_group();
                    assert!(!layout.select(stale_tab));
                    assert!(!layout.reorder_tab(stale_tab, rng.below(8)));
                    assert!(layout.remove_tab(stale_tab).is_none());
                    assert!(layout.detach_tab(stale_tab).is_none());
                    assert!(!layout.set_binding(stale_tab, None));
                    let placeholder = Tab::placeholder(mint.mint_tab());
                    assert!(layout.insert_tab(stale_group, rng.below(8), placeholder).is_err());
                    let placeholder = Tab::placeholder(mint.mint_tab());
                    let gid = mint.mint_group();
                    assert!(layout.split_group(stale_group, axis, true, Sizing::Ratio(0.5), gid, placeholder).is_err());
                    assert!(!layout.set_split_sizing(tabs.len() + 1, &[], Sizing::Ratio(0.5)));
                    if !tabs.is_empty() {
                        let live = tabs[rng.below(tabs.len())];
                        let live_group = layout.group_of(live).expect("hosted tab");
                        assert!(!layout.merge_tab(stale_tab, live_group, 0));
                        assert!(!layout.merge_tab(live, stale_group, 0));
                        assert!(!layout.swap_tabs(live, stale_tab));
                        assert!(!layout.swap_tabs(stale_tab, live));
                        let gid = mint.mint_group();
                        assert!(layout
                            .split_tab_as_singleton(stale_tab, live_group, axis, true, Sizing::Ratio(0.5), gid)
                            .is_none());
                        let gid = mint.mint_group();
                        assert!(layout
                            .split_tab_as_singleton(live, stale_group, axis, true, Sizing::Ratio(0.5), gid)
                            .is_none());
                    }
                }
                18 => {
                    if !groups.is_empty() && !crowded && rng.chance(60) {
                        let tab = Tab::placeholder(mint.mint_tab());
                        expected.insert(tab.id());
                        let gid = groups[rng.below(groups.len())];
                        assert!(layout.insert_tab(gid, rng.below(8), tab).is_ok());
                    }
                    let hosted: Vec<(TabId, u32)> =
                        layout.panes().iter().filter_map(|t| t.binding().map(|b| (t.id(), *b))).collect();
                    if !hosted.is_empty() && !groups.is_empty() {
                        let (_, binding) = hosted[rng.below(hosted.len())];
                        let dup = Tab::bound(mint.mint_tab(), binding);
                        let dup_id = dup.id();
                        let dup = layout
                            .append_tab(groups[rng.below(groups.len())], dup)
                            .expect_err("hosted binding rejects insertion");
                        assert_eq!(dup.id(), dup_id, "rejected tab rides back");
                    }
                    if hosted.len() >= 2 {
                        let (id_a, _) = hosted[0];
                        let (_, taken) = hosted[hosted.len() - 1];
                        assert!(!layout.set_binding(id_a, Some(taken)));
                    }
                }
                19 => {
                    for target in &held_targets {
                        let ratio = 0.1 + (rng.below(81) as f32) / 100.0;
                        drag(&mut layout, target, ratio);
                    }
                    held_targets = harvest_targets(&layout);
                }
                _ => {}
            }

            layout.validate().unwrap_or_else(|err| panic!("seed {seed} step {step}: {err}"));
            let now: BTreeSet<TabId> = layout.panes().iter().map(|t| t.id()).collect();
            assert_eq!(now, expected, "tab conservation, seed {seed} step {step}");
            let mut live_bindings: Vec<u32> = layout.panes().iter().filter_map(|t| t.binding().copied()).collect();
            live_bindings.sort_unstable();
            let expected_sorted: Vec<u32> = expected_bindings.iter().copied().collect();
            assert_eq!(live_bindings, expected_sorted, "binding conservation, seed {seed} step {step}");
            assert_eq!(layout.is_empty(), expected.is_empty(), "seed {seed} step {step}");
            max_strip = layout
                .groups_depth_first()
                .iter()
                .filter_map(|g| layout.tabs(*g))
                .map(|strip| strip.len())
                .fold(max_strip, usize::max);
        }
        assert!(!layout.is_empty(), "seed {seed} produced a degenerate all-empty run");
        if spill_bias {
            assert!(max_strip > TAB_INLINE, "seed {seed} never grew a strip past {TAB_INLINE} tabs ({max_strip})");
        }
    }
}
