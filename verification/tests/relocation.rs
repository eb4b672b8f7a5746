use smudgy_panes::relocation::{
    chunk_ops, connection_batches, dangling_connections, plan_area_relocation, plan_atlas_relocation, retarget_exit,
    AreaBatch, AreaPlan, AreaRefusal, AtlasRefusal, BatchItem, RelocationMode, SourceArea,
};
use smudgy_panes::relocation::{StageRound, Transfer, TransferAction, TransferEvent, TransferPhase};

fn ready() -> SourceArea {
    SourceArea { found: true, can_copy: true, is_owner: true, same_tier: false }
}

fn ops<X: Clone>(batches: &[AreaBatch<X>]) -> Vec<Vec<X>> {
    batches.iter().map(|b| b.operations.clone()).collect()
}

#[test]
fn operations_split_into_full_envelopes_and_a_remainder() {
    let batches = chunk_ops(7, vec![1, 2, 3, 4, 5, 6, 7], "Copy map rooms", 3);
    assert_eq!(ops(&batches), vec![vec![1, 2, 3], vec![4, 5, 6], vec![7]]);
    assert!(batches.iter().all(|b| b.area_id == 7 && b.description == "Copy map rooms"));
    assert!(chunk_ops(7, Vec::<u8>::new(), "Copy map rooms", 4).is_empty());
}

#[test]
fn connection_groups_never_straddle_envelopes() {
    // Three connections: 10 has two member exits, 20 one, 30 none.
    let connections = [10u128, 20, 30];
    let exits = [10u128, 20, 10];
    let batches = connection_batches(99, &connections, &exits, 4);
    assert_eq!(
        ops(&batches),
        vec![
            vec![BatchItem::Connection(0), BatchItem::Exit(0), BatchItem::Exit(2)],
            vec![BatchItem::Connection(1), BatchItem::Exit(1), BatchItem::Connection(2)],
        ]
    );
    assert!(batches.iter().all(|b| b.area_id == 99 && b.description == "Copy map connections"));
    // A group larger than the bound still travels whole.
    let big = connection_batches(99, &connections, &exits, 2);
    assert_eq!(big[0].operations, vec![BatchItem::Connection(0), BatchItem::Exit(0), BatchItem::Exit(2)]);
    assert_eq!(big.len(), 3);
}

#[test]
fn duplicate_sources_are_refused_before_anything_is_touched() {
    let sources = [ready(), ready()];
    assert_eq!(
        plan_area_relocation(false, None, &[5, 5], &sources, RelocationMode::Move),
        Err(AreaRefusal::Duplicate)
    );
}

#[test]
fn area_relocation_refusals_name_the_first_bad_source() {
    let missing = SourceArea { found: false, ..ready() };
    let locked = SourceArea { can_copy: false, ..ready() };
    let shared = SourceArea { is_owner: false, ..ready() };
    assert_eq!(
        plan_area_relocation(true, Some(true), &[1], &[ready()], RelocationMode::Copy),
        Err(AreaRefusal::SessionAtlas)
    );
    assert_eq!(
        plan_area_relocation(false, Some(false), &[1], &[ready()], RelocationMode::Copy),
        Err(AreaRefusal::AtlasTier)
    );
    assert_eq!(
        plan_area_relocation(false, None, &[1, 2, 3], &[ready(), locked, missing], RelocationMode::Copy),
        Err(AreaRefusal::NotCopyable(1))
    );
    assert_eq!(
        plan_area_relocation(false, None, &[1, 2], &[ready(), missing], RelocationMode::Copy),
        Err(AreaRefusal::NotFound(1))
    );
    assert_eq!(
        plan_area_relocation(false, None, &[1, 2], &[shared, ready()], RelocationMode::Move),
        Err(AreaRefusal::NotMovable(0))
    );
    assert_eq!(
        plan_area_relocation(false, None, &[1, 2], &[shared, ready()], RelocationMode::Copy),
        Ok(AreaPlan::Transfer)
    );
}

#[test]
fn same_tier_moves_only_change_folders() {
    let here = SourceArea { same_tier: true, ..ready() };
    assert_eq!(
        plan_area_relocation(false, None, &[1, 2], &[here, here], RelocationMode::Move),
        Ok(AreaPlan::FolderChange)
    );
    assert_eq!(
        plan_area_relocation(false, None, &[1, 2], &[here, ready()], RelocationMode::Move),
        Ok(AreaPlan::Transfer)
    );
    assert_eq!(
        plan_area_relocation(false, None, &[1], &[here], RelocationMode::Copy),
        Ok(AreaPlan::Transfer)
    );
    assert_eq!(plan_area_relocation(false, None, &[], &[], RelocationMode::Move), Ok(AreaPlan::Nothing));
}

#[test]
fn atlas_relocation_refuses_a_partial_cache() {
    assert_eq!(
        plan_atlas_relocation(false, false, RelocationMode::Move, Some(true), &[1, 2], &[1], 2),
        Err(AtlasRefusal::Incomplete)
    );
    assert_eq!(
        plan_atlas_relocation(false, false, RelocationMode::Move, Some(true), &[1, 2], &[2, 1], 3),
        Err(AtlasRefusal::Incomplete)
    );
    assert_eq!(plan_atlas_relocation(false, false, RelocationMode::Move, Some(true), &[1, 2], &[2, 1], 2), Ok(()));
}

#[test]
fn atlas_relocation_refusals() {
    assert_eq!(
        plan_atlas_relocation(true, false, RelocationMode::Copy, Some(true), &[], &[], 0),
        Err(AtlasRefusal::SessionStorage)
    );
    assert_eq!(
        plan_atlas_relocation(false, true, RelocationMode::Move, Some(true), &[], &[], 0),
        Err(AtlasRefusal::SameTier)
    );
    assert_eq!(plan_atlas_relocation(false, true, RelocationMode::Copy, Some(true), &[], &[], 0), Ok(()));
    assert_eq!(
        plan_atlas_relocation(false, false, RelocationMode::Copy, None, &[], &[], 0),
        Err(AtlasRefusal::NotFound)
    );
    assert_eq!(
        plan_atlas_relocation(false, false, RelocationMode::Copy, Some(false), &[], &[], 0),
        Err(AtlasRefusal::Shared)
    );
}

#[test]
fn copied_exits_follow_relocated_areas_and_drop_others() {
    let id_map = [(100u128, 200u128), (101, 201)];
    assert_eq!(retarget_exit(Some(101), &id_map), (Some(201), true));
    assert_eq!(retarget_exit(Some(999), &id_map), (None, false));
    assert_eq!(retarget_exit(None, &id_map), (None, true));
}

#[test]
fn external_connections_without_a_leaving_exit_dangle() {
    let destination = 200u128;
    // Connection 1 still leads to area 201; connection 2 lost its target;
    // connection 3 now points inside the destination; connection 4 is internal.
    let connections = [(1u128, true), (2, true), (3, true), (4, false)];
    let exits = [(1u128, Some(201u128)), (2, None), (3, Some(200)), (4, None)];
    assert_eq!(dangling_connections(&connections, &exits, destination), vec![false, true, true, false]);
}

fn run(areas: usize, moving: bool, events: &[TransferEvent]) -> (Vec<TransferAction>, TransferPhase) {
    let (mut transfer, first) = Transfer::start(areas, moving);
    let mut actions = vec![first];
    for event in events {
        actions.push(transfer.step(*event));
    }
    (actions, transfer.phase)
}

#[test]
fn a_move_copies_everything_before_it_deletes_any_source() {
    let ack = TransferEvent::Acknowledged;
    let (actions, phase) = run(2, true, &[ack; 8]);
    assert_eq!(
        actions,
        vec![
            TransferAction::CreateHeader(0),
            TransferAction::CreateHeader(1),
            TransferAction::Stage(StageRound::Rooms),
            TransferAction::Stage(StageRound::Properties),
            TransferAction::Stage(StageRound::Connections),
            TransferAction::Stage(StageRound::Decorations),
            TransferAction::CommitMove(0),
            TransferAction::CommitMove(1),
            TransferAction::Finish,
        ]
    );
    assert_eq!(phase, TransferPhase::Finished);
}

#[test]
fn a_copy_finishes_after_the_decorations_round() {
    let ack = TransferEvent::Acknowledged;
    let (actions, phase) = run(1, false, &[ack; 5]);
    assert_eq!(actions[4], TransferAction::Stage(StageRound::Decorations));
    assert_eq!(actions[5], TransferAction::Finish);
    assert!(!actions.iter().any(|a| matches!(a, TransferAction::CommitMove(_))));
    assert_eq!(phase, TransferPhase::Finished);
    assert_eq!(run(0, true, &[]).0, vec![TransferAction::Finish]);
}

#[test]
fn failures_before_the_first_delete_clean_up_and_later_ones_keep_both_copies() {
    let ack = TransferEvent::Acknowledged;
    let fail = TransferEvent::Failed;
    let (actions, phase) = run(3, true, &[ack, fail, ack]);
    assert_eq!(actions[2], TransferAction::CleanUp(1));
    assert_eq!(actions[3], TransferAction::Fail);
    assert_eq!(phase, TransferPhase::Failed);

    let (actions, _) = run(2, true, &[ack, ack, ack, fail]);
    assert_eq!(actions[3], TransferAction::Stage(StageRound::Properties));
    assert_eq!(actions[4], TransferAction::CleanUp(2));

    let (actions, phase) = run(2, true, &[ack, ack, ack, ack, ack, ack, fail]);
    assert_eq!(actions[6], TransferAction::CommitMove(0));
    assert_eq!(actions[7], TransferAction::Fail);
    assert_eq!(phase, TransferPhase::Failed);
}

#[test]
fn relocation_rejects_duplicate_source_ids() {
    let source = 41u128;
    assert_eq!(
        plan_area_relocation(false, None, &[source, source], &[ready(), ready()], RelocationMode::Copy),
        Err(AreaRefusal::Duplicate)
    );
}

#[test]
fn atlas_relocation_refuses_an_incomplete_cache() {
    // The inventory lists a member that this cache never loaded.
    assert_eq!(
        plan_atlas_relocation(false, false, RelocationMode::Copy, Some(true), &[1, 2], &[1], 2),
        Err(AtlasRefusal::Incomplete)
    );
    assert_eq!(plan_atlas_relocation(false, false, RelocationMode::Copy, Some(true), &[1], &[1], 1), Ok(()));
}

#[test]
fn cross_tier_move_copies_content_before_removing_source() {
    assert_eq!(
        plan_area_relocation(false, None, &[7], &[ready()], RelocationMode::Move),
        Ok(AreaPlan::Transfer)
    );
    let (actions, phase) = run(1, true, &[TransferEvent::Acknowledged; 6]);
    let rooms = actions.iter().position(|a| *a == TransferAction::Stage(StageRound::Rooms)).unwrap();
    let last_round = actions.iter().position(|a| *a == TransferAction::Stage(StageRound::Decorations)).unwrap();
    let delete = actions.iter().position(|a| *a == TransferAction::CommitMove(0)).unwrap();
    assert!(rooms < last_round && last_round < delete);
    assert_eq!(actions.last(), Some(&TransferAction::Finish));
    assert_eq!(phase, TransferPhase::Finished);
}
