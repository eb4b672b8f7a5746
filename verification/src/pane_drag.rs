//! The plain-data vocabulary of the pane-drag layer: the terminal events of
//! a gesture, what a focus loss stands down, and the semantic operation a
//! classified release performs.

use vstd::prelude::*;

use crate::pane_groups::GroupId;

verus! {

/// A drag-terminal event surfaced while a gesture is armed.
#[derive(Debug, Clone, Copy, PartialEq, Eq, Structural)]
pub enum DragTerminal {
    /// The left button was released somewhere while a drag was live — the
    /// authoritative terminal.
    Released,
    /// Escape mid-drag: cancel. Below the deadband no drag record exists,
    /// so a press in progress is unaffected.
    Escape,
    /// A window lost focus while a gesture was armed; [`unfocus_stand_down`]
    /// decides what, if anything, stands down.
    Unfocused,
}

/// What a source-window focus loss stands down.
#[derive(Debug, Clone, Copy, PartialEq, Eq, Structural)]
pub enum StandDown {
    /// A press below the deadband: clear it.
    Press,
    /// A live drag: cancel it with zero mutation.
    Drag,
}

/// What a window's focus loss stands down, as a function of the window ids.
pub open spec fn spec_unfocus_stand_down<I>(unfocused: I, press_window: Option<I>, drag_source: Option<I>) -> Option<
    StandDown,
> {
    if drag_source == Some(unfocused) {
        Some(StandDown::Drag)
    } else if press_window == Some(unfocused) {
        Some(StandDown::Press)
    } else {
        None
    }
}

/// Classifies a window's focus loss against the armed gesture: the source
/// window losing focus stands the gesture down (drag before press — a live
/// drag record supersedes any press bookkeeping); any other window's focus
/// loss is unrelated.
pub fn unfocus_stand_down<I: PartialEq>(unfocused: I, press_window: Option<I>, drag_source: Option<I>) -> (r: Option<
    StandDown,
>)
    requires
        vstd::laws_eq::obeys_concrete_eq::<I>(),
    ensures
        r == spec_unfocus_stand_down(unfocused, press_window, drag_source),
{
    proof {
        reveal(vstd::laws_eq::obeys_concrete_eq);
    }
    let from_drag = match &drag_source {
        Some(source) => *source == unfocused,
        None => false,
    };
    if from_drag {
        return Some(StandDown::Drag);
    }
    let from_press = match &press_window {
        Some(window) => *window == unfocused,
        None => false,
    };
    if from_press {
        Some(StandDown::Press)
    } else {
        None
    }
}

/// Where within a hovered pane a drop lands: pane_grid's center-vs-edge
/// thirds.
#[derive(Debug, Clone, Copy, PartialEq, Eq, Structural)]
pub enum DropRegion {
    Center,
    Left,
    Right,
    Top,
    Bottom,
}

/// A whole-grid edge drop band.
#[derive(Debug, Clone, Copy, PartialEq, Eq, Structural)]
pub enum GridEdgeSide {
    /// New leading top-level cluster.
    Left,
    /// New trailing top-level cluster.
    Right,
    /// Wrap the whole layout, new group first.
    Top,
    /// Wrap the whole layout, new group second.
    Bottom,
}

/// The semantic operation a release at the classified point performs.
/// Groups are resolved at classification and re-validated at apply time.
#[derive(Debug, Clone, Copy, PartialEq, Eq, Structural)]
pub enum DragAction {
    /// Whole-grid edge placement.
    GridEdge(GridEdgeSide),
    /// Move the dragged tab into `group`'s strip at `slot` (counted with the
    /// strip as it stands, dragged tab included); with the source group as
    /// destination this is a reorder.
    Merge { group: GroupId, slot: usize },
    /// Atomic slot swap with `group`'s currently rendered tab.
    Swap { group: GroupId },
    /// Split the dragged tab, as a new singleton, beside the whole `group`.
    /// `region` is never `Center`.
    Split { group: GroupId, region: DropRegion },
    /// The hovered window hosts no panes: adopt the tab as its first cluster.
    Vacant,
}

/// The drop a body region of a hovered pane makes: its center swaps with
/// the group's rendered tab, except over the source group itself (already
/// hosted there: no drop); an edge splits a new singleton beside the whole
/// group, except an own edge of a source group whose only tab is the
/// dragged one (nothing to ungroup).
pub open spec fn spec_body_target(
    region: DropRegion,
    group: GroupId,
    source_group: Option<GroupId>,
    source_solo: bool,
) -> Option<DragAction> {
    let own = source_group == Some(group);
    match region {
        DropRegion::Center => if own {
            None
        } else {
            Some(DragAction::Swap { group })
        },
        _ => if own && source_solo {
            None
        } else {
            Some(DragAction::Split { group, region })
        },
    }
}

/// The drop a body region of a hovered pane makes.
pub fn body_target(region: DropRegion, group: GroupId, source_group: Option<GroupId>, source_solo: bool) -> (r:
    Option<DragAction>)
    ensures
        r == spec_body_target(region, group, source_group, source_solo),
{
    let own = match source_group {
        Some(g) => g == group,
        None => false,
    };
    match region {
        DropRegion::Center => if own {
            None
        } else {
            Some(DragAction::Swap { group })
        },
        _ => if own && source_solo {
            None
        } else {
            Some(DragAction::Split { group, region })
        },
    }
}

/// The member-space slot a header-band hit inserts at, `before` being the
/// number of the strip's bands whose midpoint lies left of the hit and
/// `slots` the member index each band carries: before the first band is
/// that band's member, past the last band is right behind its member, and
/// otherwise the member of the first band to the right. With no measured
/// band the hit appends (`usize::MAX` clamps to the end).
pub open spec fn spec_insertion_slot(slots: Seq<usize>, before: int) -> int {
    if slots.len() == 0 {
        usize::MAX as int
    } else if before == 0 {
        slots[0] as int
    } else if before >= slots.len() {
        slots.last() + 1
    } else {
        slots[before] as int
    }
}

/// The member-space slot a header-band hit inserts at.
pub fn insertion_slot(slots: &[usize], before: usize) -> (r: usize)
    requires
        before <= slots@.len(),
        slots@.len() > 0 ==> slots@.last() < usize::MAX,
    ensures
        r == spec_insertion_slot(slots@, before as int),
{
    if slots.len() == 0 {
        usize::MAX
    } else if before == 0 {
        slots[0]
    } else if before == slots.len() {
        slots[slots.len() - 1] + 1
    } else {
        slots[before]
    }
}

/// `order` without `id`.
pub open spec fn without<I>(order: Seq<I>, id: I) -> Seq<I>
    decreases order.len(),
{
    if order.len() == 0 {
        Seq::empty()
    } else if order.last() == id {
        without(order.drop_last(), id)
    } else {
        without(order.drop_last(), id).push(order.last())
    }
}

proof fn lemma_without_excludes<I>(order: Seq<I>, id: I)
    ensures
        !without(order, id).contains(id),
        forall|x: I| x != id ==> (without(order, id).contains(x) <==> order.contains(x)),
    decreases order.len(),
{
    if order.len() > 0 {
        let d = order.drop_last();
        lemma_without_excludes(d, id);
        let w = without(d, id);
        assert forall|x: I| x != id implies (without(order, id).contains(x) <==> order.contains(x)) by {
            if without(order, id).contains(x) {
                if w.contains(x) {
                    assert(d.contains(x));
                    let j = choose|j: int| 0 <= j < d.len() && d[j] == x;
                    assert(order[j] == x);
                } else {
                    assert(order.last() != id);
                    let k = choose|k: int| 0 <= k < w.push(order.last()).len() && w.push(order.last())[k] == x;
                    if k < w.len() {
                        assert(w[k] == x);
                    }
                    assert(order[order.len() - 1] == x);
                }
            }
            if order.contains(x) {
                let k = choose|k: int| 0 <= k < order.len() && order[k] == x;
                if k < order.len() - 1 {
                    assert(d[k] == x);
                    assert(d.contains(x));
                    assert(w.contains(x));
                    let m = choose|m: int| 0 <= m < w.len() && w[m] == x;
                    if order.last() != id {
                        assert(w.push(order.last())[m] == x);
                    }
                } else {
                    assert(w.push(order.last())[w.len() as int] == x);
                }
            }
        }
        if order.last() != id {
            assert forall|k: int| 0 <= k < w.push(order.last()).len() implies w.push(order.last())[k] != id by {
                if k < w.len() {
                    assert(w[k] != id);
                }
            }
        }
    }
}

fn remove_all<I: Copy + PartialEq>(order: &Vec<I>, id: I) -> (r: Vec<I>)
    requires
        vstd::laws_eq::obeys_concrete_eq::<I>(),
    ensures
        r@ == without(order@, id),
{
    proof {
        reveal(vstd::laws_eq::obeys_concrete_eq);
    }
    let mut out: Vec<I> = Vec::new();
    let mut i: usize = 0;
    while i < order.len()
        invariant
            vstd::laws_eq::obeys_concrete_eq::<I>(),
            i <= order@.len(),
            out@ == without(order@.take(i as int), id),
        decreases order@.len() - i,
    {
        proof {
            reveal(vstd::laws_eq::obeys_concrete_eq);
            assert(order@.take(i + 1).drop_last() =~= order@.take(i as int));
        }
        let x = order[i];
        if !(x == id) {
            out.push(x);
        }
        i += 1;
    }
    proof {
        assert(order@.take(order@.len() as int) =~= order@);
    }
    out
}

/// A window gained focus: it moves to the front of the most-recently-
/// focused order, once.
pub fn focus_front<I: Copy + PartialEq>(mru: &mut Vec<I>, id: I)
    requires
        vstd::laws_eq::obeys_concrete_eq::<I>(),
    ensures
        final(mru)@ == seq![id] + without(old(mru)@, id),
        final(mru)@[0] == id,
        !final(mru)@.skip(1).contains(id),
        forall|x: I| x != id ==> (final(mru)@.contains(x) <==> old(mru)@.contains(x)),
{
    let rest = remove_all(mru, id);
    let mut next: Vec<I> = Vec::new();
    next.push(id);
    let mut i: usize = 0;
    while i < rest.len()
        invariant
            i <= rest@.len(),
            next@ == seq![id] + rest@.take(i as int),
        decreases rest@.len() - i,
    {
        next.push(rest[i]);
        proof {
            assert(next@ =~= seq![id] + rest@.take(i + 1));
        }
        i += 1;
    }
    proof {
        assert(rest@.take(rest@.len() as int) =~= rest@);
        lemma_without_excludes(old(mru)@, id);
        assert(next@.skip(1) =~= rest@);
        assert forall|x: I| x != id implies (next@.contains(x) <==> old(mru)@.contains(x)) by {
            if next@.contains(x) {
                let k = choose|k: int| 0 <= k < next@.len() && next@[k] == x;
                assert(k > 0);
                assert(rest@[k - 1] == x);
            }
            if old(mru)@.contains(x) {
                assert(rest@.contains(x));
                let k = choose|k: int| 0 <= k < rest@.len() && rest@[k] == x;
                assert(next@[k + 1] == x);
            }
        }
    }
    *mru = next;
}

/// A window went away: it leaves the most-recently-focused order.
pub fn forget_window<I: Copy + PartialEq>(mru: &mut Vec<I>, id: I)
    requires
        vstd::laws_eq::obeys_concrete_eq::<I>(),
    ensures
        final(mru)@ == without(old(mru)@, id),
        !final(mru)@.contains(id),
{
    let rest = remove_all(mru, id);
    proof {
        lemma_without_excludes(old(mru)@, id);
    }
    *mru = rest;
}

/// `known` without what `order` already holds, in `known`'s order.
pub open spec fn stragglers<I>(order: Seq<I>, known: Seq<I>) -> Seq<I>
    decreases known.len(),
{
    if known.len() == 0 {
        Seq::empty()
    } else if order.contains(known.last()) || stragglers(order, known.drop_last()).contains(known.last()) {
        stragglers(order, known.drop_last())
    } else {
        stragglers(order, known.drop_last()).push(known.last())
    }
}

/// Every tracked window, most-recently-focused first; windows never yet
/// focused trail in the order they are listed, each once.
pub fn mru_order<I: Copy + PartialEq>(mru: &[I], known: &[I]) -> (r: Vec<I>)
    requires
        vstd::laws_eq::obeys_concrete_eq::<I>(),
    ensures
        r@ == mru@ + stragglers(mru@, known@),
{
    proof {
        reveal(vstd::laws_eq::obeys_concrete_eq);
    }
    let mut order: Vec<I> = Vec::new();
    let mut i: usize = 0;
    while i < mru.len()
        invariant
            i <= mru@.len(),
            order@ == mru@.take(i as int),
        decreases mru@.len() - i,
    {
        order.push(mru[i]);
        proof {
            assert(order@ =~= mru@.take(i + 1));
        }
        i += 1;
    }
    proof {
        assert(mru@.take(mru@.len() as int) =~= mru@);
    }
    let mut j: usize = 0;
    while j < known.len()
        invariant
            vstd::laws_eq::obeys_concrete_eq::<I>(),
            j <= known@.len(),
            order@ == mru@ + stragglers(mru@, known@.take(j as int)),
        decreases known@.len() - j,
    {
        proof {
            reveal(vstd::laws_eq::obeys_concrete_eq);
            assert(known@.take(j + 1).drop_last() =~= known@.take(j as int));
        }
        let id = known[j];
        let mut present = false;
        let mut k: usize = 0;
        while k < order.len()
            invariant
                vstd::laws_eq::obeys_concrete_eq::<I>(),
                k <= order@.len(),
                present <==> order@.take(k as int).contains(id),
            decreases order@.len() - k,
        {
            proof {
                reveal(vstd::laws_eq::obeys_concrete_eq);
                assert(order@.take(k + 1) =~= order@.take(k as int).push(order@[k as int]));
            }
            if order[k] == id {
                present = true;
                proof {
                    assert(order@.take(k + 1)[k as int] == id);
                }
            }
            k += 1;
        }
        proof {
            assert(order@.take(order@.len() as int) =~= order@);
            let st = stragglers(mru@, known@.take(j as int));
            assert(order@.contains(id) <==> (mru@.contains(id) || st.contains(id))) by {
                if order@.contains(id) {
                    let p = choose|p: int| 0 <= p < order@.len() && order@[p] == id;
                    if p < mru@.len() {
                        assert(mru@[p] == id);
                    } else {
                        assert(st[p - mru@.len()] == id);
                    }
                }
                if mru@.contains(id) {
                    let p = choose|p: int| 0 <= p < mru@.len() && mru@[p] == id;
                    assert(order@[p] == id);
                }
                if st.contains(id) {
                    let p = choose|p: int| 0 <= p < st.len() && st[p] == id;
                    assert(order@[mru@.len() + p] == id);
                }
            }
        }
        if !present {
            order.push(id);
            proof {
                assert(order@ =~= mru@ + stragglers(mru@, known@.take(j + 1)));
            }
        }
        j += 1;
    }
    proof {
        assert(known@.take(known@.len() as int) =~= known@);
    }
    order
}

} // verus!
