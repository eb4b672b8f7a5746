use smudgy_panes::pane_drag::{
    body_target, focus_front, forget_window, insertion_slot, mru_order, unfocus_stand_down, DragAction,
    DropRegion, StandDown,
};
use smudgy_panes::pane_groups::GroupId;

#[test]
fn unfocus_of_the_source_window_stands_the_gesture_down() {
    let (source, other) = (1u64, 2u64);

    // A press below the deadband stands down when its window unfocuses.
    assert_eq!(unfocus_stand_down(source, Some(source), None), Some(StandDown::Press));
    // A live drag cancels when its source window unfocuses.
    assert_eq!(unfocus_stand_down(source, None, Some(source)), Some(StandDown::Drag));
    // The drag record supersedes press bookkeeping if both are armed.
    assert_eq!(unfocus_stand_down(source, Some(source), Some(source)), Some(StandDown::Drag));
    // Another window's focus loss never touches the gesture.
    assert_eq!(unfocus_stand_down(other, Some(source), None), None);
    assert_eq!(unfocus_stand_down(other, None, Some(source)), None);
    // No gesture armed: nothing to stand down.
    assert_eq!(unfocus_stand_down(source, None, None), None);
}

#[test]
fn mru_orders_focus_then_stragglers() {
    let (a, b, c) = (10u64, 20u64, 30u64);
    let mut known = vec![a, b, c];
    let mut mru: Vec<u64> = Vec::new();
    focus_front(&mut mru, a);
    focus_front(&mut mru, b);
    let order = mru_order(&mru, &known);
    assert_eq!(&order[..2], &[b, a]);
    assert_eq!(order[2], c);
    forget_window(&mut mru, b);
    forget_window(&mut known, b);
    assert_eq!(mru_order(&mru, &known)[0], a);
    assert!(!known.contains(&b));
}

#[test]
fn focus_front_keeps_one_entry_per_window() {
    let mut mru = vec![3u64, 1, 2];
    focus_front(&mut mru, 2);
    assert_eq!(mru, vec![2, 3, 1]);
    focus_front(&mut mru, 2);
    assert_eq!(mru, vec![2, 3, 1]);
    focus_front(&mut mru, 9);
    assert_eq!(mru, vec![9, 2, 3, 1]);
    assert_eq!(mru_order(&mru, &[1, 4, 4, 9, 5]), vec![9, 2, 3, 1, 4, 5]);
}

#[test]
fn body_center_swaps_except_over_the_source_group() {
    let (own, other) = (GroupId::new(1), GroupId::new(2));
    assert_eq!(body_target(DropRegion::Center, other, Some(own), false), Some(DragAction::Swap { group: other }));
    assert_eq!(body_target(DropRegion::Center, own, Some(own), false), None);
    assert_eq!(body_target(DropRegion::Center, own, None, true), Some(DragAction::Swap { group: own }));
}

#[test]
fn body_edges_split_except_the_solo_own_edge() {
    let (own, other) = (GroupId::new(1), GroupId::new(2));
    assert_eq!(
        body_target(DropRegion::Left, other, Some(own), true),
        Some(DragAction::Split { group: other, region: DropRegion::Left })
    );
    assert_eq!(
        body_target(DropRegion::Bottom, own, Some(own), false),
        Some(DragAction::Split { group: own, region: DropRegion::Bottom })
    );
    assert_eq!(body_target(DropRegion::Top, own, Some(own), true), None);
}

#[test]
fn insertion_slot_counts_in_member_space() {
    // Bands for members 0, 2 and 5 (members 1, 3, 4 are not listed).
    let slots = [0usize, 2, 5];
    assert_eq!(insertion_slot(&slots, 0), 0);
    assert_eq!(insertion_slot(&slots, 1), 2);
    assert_eq!(insertion_slot(&slots, 2), 5);
    assert_eq!(insertion_slot(&slots, 3), 6);
    assert_eq!(insertion_slot(&[], 0), usize::MAX);
}
