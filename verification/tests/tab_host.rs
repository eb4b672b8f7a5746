use smudgy_panes::tab_host::pairing_plan;

#[test]
fn identity_pairs_every_position_with_itself() {
    assert_eq!(
        pairing_plan(&['a', 'b', 'c'], &['a', 'b', 'c']),
        vec![Some(0), Some(1), Some(2)]
    );
    assert_eq!(pairing_plan::<char>(&[], &[]), Vec::<Option<usize>>::new());
}

#[test]
fn rotation_carries_each_state_to_its_new_position() {
    assert_eq!(
        pairing_plan(&['a', 'b', 'c'], &['c', 'a', 'b']),
        vec![Some(2), Some(0), Some(1)]
    );
}

#[test]
fn swap_exchanges_exactly_the_two_positions() {
    assert_eq!(pairing_plan(&['a', 'b'], &['b', 'a']), vec![Some(1), Some(0)]);
    assert_eq!(
        pairing_plan(&['a', 'b', 'c'], &['c', 'b', 'a']),
        vec![Some(2), Some(1), Some(0)]
    );
}

#[test]
fn insert_gets_fresh_state_without_disturbing_neighbors() {
    assert_eq!(
        pairing_plan(&['a', 'c'], &['a', 'b', 'c']),
        vec![Some(0), None, Some(1)]
    );
    assert_eq!(pairing_plan(&[], &['a']), vec![None]);
}

#[test]
fn remove_drops_only_the_departed_key() {
    assert_eq!(
        pairing_plan(&['a', 'b', 'c'], &['a', 'c']),
        vec![Some(0), Some(2)]
    );
    assert_eq!(pairing_plan(&['a'], &[]), Vec::<Option<usize>>::new());
}

#[test]
fn mixed_reorder_insert_remove_matches_by_key() {
    assert_eq!(
        pairing_plan(&['a', 'b', 'c', 'd'], &['d', 'b', 'e']),
        vec![Some(3), Some(1), None]
    );
}

#[test]
fn duplicate_keys_pair_positionally_among_themselves() {
    assert_eq!(pairing_plan(&['a', 'a'], &['a', 'a']), vec![Some(0), Some(1)]);
    assert_eq!(pairing_plan(&['a', 'a'], &['a']), vec![Some(0)]);
    assert_eq!(pairing_plan(&['a'], &['a', 'a']), vec![Some(0), None]);
}

#[test]
fn pairing_plan_of_identical_keys_is_the_identity() {
    let keys = [7u64, 3, 7, 9, 3];
    assert_eq!(
        pairing_plan(&keys, &keys),
        vec![Some(0), Some(1), Some(2), Some(3), Some(4)]
    );
}

#[test]
fn pairing_plan_never_claims_an_old_position_twice() {
    let plan = pairing_plan(&[1u32, 2, 1], &[1, 1, 1, 2, 2]);
    assert_eq!(plan, vec![Some(0), Some(2), None, Some(1), None]);
}

#[test]
fn each_new_position_takes_the_least_unclaimed_match() {
    assert_eq!(pairing_plan(&['a', 'b', 'c', 'd'], &['d', 'b', 'e']), vec![Some(3), Some(1), None]);
    assert_eq!(pairing_plan(&['a'], &['a', 'a']), vec![Some(0), None]);
    assert_eq!(pairing_plan(&['x', 'y', 'x'], &['x', 'x', 'x']), vec![Some(0), Some(2), None]);
}
