use smudgy_panes::grid_build::{built_mirror, plan_clusters, PlannedNode};
use smudgy_panes::pane_groups::{Axis, BuiltNode, EdgeTarget, GroupId, GroupLayout, Tab, TabId};

#[derive(Debug, Clone, Copy, PartialEq)]
enum Sizing {
    Ratio(f32),
    Px { px: f32, sized_first: bool },
}

type Layout = GroupLayout<u32, Sizing, f32>;

const A_MAIN: u32 = 1;
const A_NOTES: u32 = 2;
const B_MAIN: u32 = 11;
const B_NOTES: u32 = 12;

struct Mint(u64);

impl Mint {
    fn next(&mut self) -> u64 {
        self.0 += 1;
        self.0
    }
    fn bound(&mut self, binding: u32) -> Tab<u32> {
        Tab::bound(TabId::new(self.next()), binding)
    }
    fn gid(&mut self) -> GroupId {
        GroupId::new(self.next())
    }
}

fn push(layout: &mut Layout, mint: &mut Mint, binding: u32) -> (GroupId, TabId) {
    let tab = mint.bound(binding);
    let id = tab.id();
    let gid = mint.gid();
    (layout.push_cluster(gid, 1.0, tab).expect("fresh tab"), id)
}

fn script_split(layout: &mut Layout, mint: &mut Mint, main: GroupId, notes: u32) -> (GroupId, TabId) {
    let tab = mint.bound(notes);
    let id = tab.id();
    let gid = mint.gid();
    let sizing = Sizing::Px { px: 200.0, sized_first: false };
    (layout.split_group(main, Axis::Vertical, false, sizing, gid, tab).expect("live"), id)
}

/// The shown leaves (by the binding each group renders) and the number of
/// dividers the grid gets, top-level ones included.
fn shown(layout: &Layout, visible: &dyn Fn(&Tab<u32>) -> bool) -> Option<(Vec<u32>, usize, BuiltNode)> {
    let groups = layout.visible_groups(&visible);
    let forest = layout.structure();
    let plans = plan_clusters(&forest, &groups);
    let mirror = built_mirror(&plans)?;
    let mut leaves = Vec::new();
    let mut dividers = plans.len() - 1;
    for (_, plan) in &plans {
        walk(layout, visible, plan, &mut leaves, &mut dividers);
    }
    Some((leaves, dividers, mirror))
}

fn walk(
    layout: &Layout,
    visible: &dyn Fn(&Tab<u32>) -> bool,
    node: &PlannedNode<Sizing>,
    leaves: &mut Vec<u32>,
    dividers: &mut usize,
) {
    match node {
        PlannedNode::Leaf(gid) => {
            let tab = layout.effective_selected(*gid, visible).expect("a visible group renders a tab");
            leaves.push(*layout.tab(tab).unwrap().binding().unwrap());
        }
        PlannedNode::Split { a, b, .. } => {
            *dividers += 1;
            walk(layout, visible, a, leaves, dividers);
            walk(layout, visible, b, leaves, dividers);
        }
    }
}

fn targets(node: &BuiltNode, out: &mut Vec<EdgeTarget>) {
    if let BuiltNode::Split { target, a, b } = node {
        out.push(target.clone());
        targets(a, out);
        targets(b, out);
    }
}

#[test]
fn filtered_build_drops_hidden_leaves_and_clusters() {
    let mut mint = Mint(0);
    let mut layout = Layout::new();
    let (a_main, _) = push(&mut layout, &mut mint, A_MAIN);
    script_split(&mut layout, &mut mint, a_main, A_NOTES);
    let (b_main, _) = push(&mut layout, &mut mint, B_MAIN);
    script_split(&mut layout, &mut mint, b_main, B_NOTES);

    let (leaves, dividers, _) =
        shown(&layout, &|t: &Tab<u32>| t.binding() != Some(&A_NOTES)).expect("visible panes remain");
    assert_eq!(leaves, vec![A_MAIN, B_MAIN, B_NOTES]);
    assert_eq!(dividers, 2, "top-level + B's notes divider only");

    let (leaves, dividers, _) = shown(&layout, &|t: &Tab<u32>| {
        t.binding() == Some(&A_MAIN) || t.binding() == Some(&A_NOTES)
    })
    .expect("cluster A remains");
    assert_eq!(leaves, vec![A_MAIN, A_NOTES]);
    assert_eq!(dividers, 1, "no top-level divider for one cluster");

    assert!(shown(&layout, &|_: &Tab<u32>| false).is_none());
    let (leaves, dividers, _) = shown(&layout, &|_: &Tab<u32>| true).expect("all shown");
    assert_eq!(leaves, vec![A_MAIN, A_NOTES, B_MAIN, B_NOTES]);
    assert_eq!(dividers, 3);
}

#[test]
fn fully_hidden_group_drops_from_the_build() {
    let mut mint = Mint(0);
    let mut layout = Layout::new();
    let (multi, t0) = push(&mut layout, &mut mint, 100);
    let t1 = mint.bound(101);
    let t2 = mint.bound(102);
    let (id1, id2) = (t1.id(), t2.id());
    assert!(layout.append_tab(multi, t1).is_ok());
    assert!(layout.append_tab(multi, t2).is_ok());
    push(&mut layout, &mut mint, 200);
    let hidden = [t0, id1, id2];

    let (leaves, dividers, _) =
        shown(&layout, &|t: &Tab<u32>| !hidden.contains(&t.id())).expect("the singleton remains");
    assert_eq!(leaves, vec![200]);
    assert_eq!(dividers, 0);

    let partly = |t: &Tab<u32>| t.id() == id2 || t.binding() == Some(&200);
    let (leaves, dividers, _) = shown(&layout, &partly).expect("both groups visible");
    assert_eq!(leaves.len(), 2);
    assert_eq!(dividers, 1);
    assert_eq!(layout.effective_selected(multi, partly), Some(id2));
}

#[test]
fn filtered_split_targets_address_the_unfiltered_model() {
    const A_CHAT: u32 = 3;
    let mut mint = Mint(0);
    let mut layout = Layout::new();
    let (a_main, _) = push(&mut layout, &mut mint, A_MAIN);
    let (a_notes, _) = script_split(&mut layout, &mut mint, a_main, A_NOTES);
    let chat = mint.bound(A_CHAT);
    let gid = mint.gid();
    layout
        .split_group(a_notes, Axis::Horizontal, false, Sizing::Ratio(0.5), gid, chat)
        .expect("notes group is live");

    let (_, _, mirror) =
        shown(&layout, &|t: &Tab<u32>| t.binding() != Some(&A_NOTES)).expect("two panes visible");
    let mut found = Vec::new();
    targets(&mirror, &mut found);
    assert_eq!(found, vec![EdgeTarget::Node { cluster: 0, path: Vec::new() }]);
}

#[test]
fn top_level_dividers_address_the_cluster_before_them() {
    let mut mint = Mint(0);
    let mut layout = Layout::new();
    push(&mut layout, &mut mint, 1);
    let (second, _) = push(&mut layout, &mut mint, 2);
    push(&mut layout, &mut mint, 3);
    script_split(&mut layout, &mut mint, second, 4);

    let (_, _, mirror) = shown(&layout, &|t: &Tab<u32>| t.binding() != Some(&1)).expect("shown");
    let mut found = Vec::new();
    targets(&mirror, &mut found);
    assert_eq!(
        found,
        vec![EdgeTarget::TopLevel(1), EdgeTarget::Node { cluster: 1, path: Vec::new() }]
    );
}
