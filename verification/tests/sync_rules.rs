use saveowl::sync::{
    choice_for_reply, conflict_message, plan_reconcile, resolve_conflict, ConflictChoice, GameState,
    SyncStep,
};

const A: u128 = 0x11111111_1111_4111_8111_111111111111;
const B: u128 = 0x22222222_2222_4222_8222_222222222222;
const C: u128 = 0x33333333_3333_4333_8333_333333333333;

fn state(local: Option<u128>, seen: Option<u128>) -> GameState {
    GameState { local_head: local, last_seen_upstream: seen }
}

/// Applies the steps to a state and an upstream head, as the repository does.
fn apply(steps: &[SyncStep], mut s: GameState, mut up: Option<u128>) -> (GameState, Option<u128>) {
    for step in steps {
        match step {
            SyncStep::Save(saved) => s = *saved,
            SyncStep::WriteHead(id) => up = Some(*id),
            _ => {}
        }
    }
    (s, up)
}

#[test]
fn nothing_on_either_side_does_nothing() {
    assert!(plan_reconcile(&state(None, None), None).is_empty());
}

#[test]
fn first_local_history_is_published() {
    let s = state(Some(A), None);
    assert_eq!(
        plan_reconcile(&s, None),
        vec![SyncStep::PublishChain(A), SyncStep::WriteHead(A), SyncStep::Save(state(Some(A), Some(A)))]
    );
}

#[test]
fn upstream_history_is_adopted_on_a_new_machine() {
    let s = state(None, None);
    assert_eq!(
        plan_reconcile(&s, Some(B)),
        vec![SyncStep::ImportChain(B), SyncStep::Restore(B), SyncStep::Save(state(Some(B), Some(B)))]
    );
}

#[test]
fn equal_heads_only_mark_seen() {
    let s = state(Some(A), None);
    assert_eq!(plan_reconcile(&s, Some(A)), vec![SyncStep::Save(state(Some(A), Some(A)))]);
}

#[test]
fn local_progress_is_fast_forwarded_upstream() {
    let s = state(Some(B), Some(A));
    assert_eq!(
        plan_reconcile(&s, Some(A)),
        vec![SyncStep::PublishChain(B), SyncStep::WriteHead(B), SyncStep::Save(state(Some(B), Some(B)))]
    );
}

#[test]
fn upstream_progress_is_restored_locally() {
    let s = state(Some(A), Some(A));
    assert_eq!(
        plan_reconcile(&s, Some(B)),
        vec![SyncStep::ImportChain(B), SyncStep::Restore(B), SyncStep::Save(state(Some(B), Some(B)))]
    );
}

#[test]
fn divergence_imports_then_asks() {
    let s = state(Some(B), Some(A));
    assert_eq!(
        plan_reconcile(&s, Some(C)),
        vec![SyncStep::ImportChain(C), SyncStep::Ask { local: B, remote: C }]
    );
}

#[test]
fn divergence_without_a_seen_head_asks() {
    let s = state(Some(B), None);
    assert_eq!(
        plan_reconcile(&s, Some(C)),
        vec![SyncStep::ImportChain(C), SyncStep::Ask { local: B, remote: C }]
    );
}

#[test]
fn answers_to_a_conflict() {
    let s = state(Some(B), Some(A));
    assert_eq!(
        resolve_conflict(&s, B, C, ConflictChoice::KeepLocal),
        vec![SyncStep::PublishChain(B), SyncStep::WriteHead(B), SyncStep::Save(state(Some(B), Some(B)))]
    );
    assert_eq!(
        resolve_conflict(&s, B, C, ConflictChoice::UseUpstream),
        vec![SyncStep::Restore(C), SyncStep::Save(state(Some(C), Some(C)))]
    );
    assert_eq!(
        resolve_conflict(&s, B, C, ConflictChoice::KeepBoth),
        vec![SyncStep::KeepConflict(C), SyncStep::Save(s)]
    );
}

#[test]
fn keeping_both_asks_again_next_time() {
    let s = state(Some(B), Some(A));
    let mut steps = plan_reconcile(&s, Some(C));
    steps.extend(resolve_conflict(&s, B, C, ConflictChoice::KeepBoth));
    for step in &steps {
        assert!(!matches!(step, SyncStep::PublishChain(_) | SyncStep::WriteHead(_) | SyncStep::Restore(_)));
    }
    let (s2, up2) = apply(&steps, s, Some(C));
    assert_eq!(s2, s);
    assert_eq!(up2, Some(C));
    assert_eq!(plan_reconcile(&s2, up2), plan_reconcile(&s, Some(C)));
}

#[test]
fn a_finished_reconciliation_is_stable() {
    let cases = [
        (state(Some(A), None), None, ConflictChoice::KeepBoth),
        (state(None, None), Some(B), ConflictChoice::KeepBoth),
        (state(Some(B), Some(A)), Some(A), ConflictChoice::KeepBoth),
        (state(Some(A), Some(A)), Some(B), ConflictChoice::KeepBoth),
        (state(Some(B), Some(A)), Some(C), ConflictChoice::KeepLocal),
        (state(Some(B), Some(A)), Some(C), ConflictChoice::UseUpstream),
    ];
    for (s, up, choice) in cases {
        let mut steps = plan_reconcile(&s, up);
        if let Some(SyncStep::Ask { local, remote }) = steps.last().copied() {
            steps.extend(resolve_conflict(&s, local, remote, choice));
        }
        let (s2, up2) = apply(&steps, s, up);
        assert!(up2.is_some());
        assert_eq!(s2.local_head, up2);
        assert_eq!(s2.last_seen_upstream, up2);
        assert_eq!(plan_reconcile(&s2, up2), vec![SyncStep::Save(s2)]);
    }
}

#[test]
fn new_snapshot_becomes_local_head() {
    let s = state(Some(A), Some(B)).with_local_head(C);
    assert_eq!(s, state(Some(C), Some(B)));
    assert_eq!(GameState::default(), state(None, None));
}

#[test]
fn dialog_replies() {
    assert_eq!(choice_for_reply(6), ConflictChoice::KeepLocal);
    assert_eq!(choice_for_reply(7), ConflictChoice::UseUpstream);
    assert_eq!(choice_for_reply(2), ConflictChoice::KeepBoth);
    assert_eq!(choice_for_reply(0), ConflictChoice::KeepBoth);
}

#[test]
fn conflict_question_text() {
    let text = conflict_message("game.exe", 0x550e8400_e29b_41d4_a716_446655440000, 1);
    assert_eq!(
        text,
        "SaveOwl found divergent save history for game.exe.\n\nLocal: 550e8400-e29b-41d4-a716-446655440000\nUpstream: 00000000-0000-0000-0000-000000000001\n\nYES = keep local and publish it\nNO = restore upstream\nCANCEL = keep both branches (no overwrite)"
    );
}
