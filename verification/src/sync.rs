//! Reconciliation of a game's local save history with the upstream folder.
//!
//! Each game has a local head (the newest local snapshot) and remembers the
//! upstream head it last saw. Comparing both with the current upstream head
//! tells whether the local side moved, the upstream side moved, or both.
use vstd::prelude::*;
use vstd::string::*;
use crate::ids::{id_text, uuid_text};

verus! {

/// What the user picked when both histories moved.
#[derive(Clone, Copy, Debug, PartialEq, Eq, Structural)]
pub enum ConflictChoice {
    KeepLocal,
    UseUpstream,
    KeepBoth,
}

/// The per-game state: the selected local head and the last upstream head seen.
#[derive(Clone, Copy, Debug, PartialEq, Eq, Structural)]
pub struct GameState {
    pub local_head: Option<u128>,
    pub last_seen_upstream: Option<u128>,
}

impl GameState {
    /// The state once a new local snapshot has been taken: it becomes the local head.
    pub fn with_local_head(&self, id: u128) -> (s: GameState)
        ensures
            s.local_head == Some(id),
            s.last_seen_upstream == self.last_seen_upstream,
    {
        GameState { local_head: Some(id), last_seen_upstream: self.last_seen_upstream }
    }
}

impl Default for GameState {
    fn default() -> (s: Self)
        ensures
            s.local_head is None,
            s.last_seen_upstream is None,
    {
        GameState { local_head: None, last_seen_upstream: None }
    }
}

/// One step of a reconciliation, carried out in order by the caller.
#[derive(Clone, Copy, Debug, PartialEq, Eq, Structural)]
pub enum SyncStep {
    /// Copy the upstream snapshot chain ending at this id, and its blobs, into the local repository.
    ImportChain(u128),
    /// Copy the local snapshot chain ending at this id, and its blobs, to the upstream folder.
    PublishChain(u128),
    /// Make this id the upstream HEAD.
    WriteHead(u128),
    /// Put the save files of this snapshot back in place.
    Restore(u128),
    /// Both sides moved: ask the user, then carry out `resolve_conflict`.
    Ask { local: u128, remote: u128 },
    /// Leave a marker for a divergent upstream head that was kept apart.
    KeepConflict(u128),
    /// Store this game state.
    Save(GameState),
}

pub open spec fn publish_steps(state: GameState, local: u128) -> Seq<SyncStep> {
    seq![
        SyncStep::PublishChain(local),
        SyncStep::WriteHead(local),
        SyncStep::Save(GameState { last_seen_upstream: Some(local), ..state }),
    ]
}

pub open spec fn restore_steps(remote: u128) -> Seq<SyncStep> {
    seq![
        SyncStep::Restore(remote),
        SyncStep::Save(GameState { local_head: Some(remote), last_seen_upstream: Some(remote) }),
    ]
}

pub open spec fn adopt_steps(remote: u128) -> Seq<SyncStep> {
    seq![SyncStep::ImportChain(remote)] + restore_steps(remote)
}

/// The steps of a reconciliation of `state` against the upstream head `upstream`.
pub open spec fn reconcile_plan(state: GameState, upstream: Option<u128>) -> Seq<SyncStep> {
    match (state.local_head, upstream) {
        (None, None) => Seq::empty(),
        (Some(local), None) => publish_steps(state, local),
        (None, Some(remote)) => adopt_steps(remote),
        (Some(local), Some(remote)) => {
            if local == remote {
                seq![SyncStep::Save(GameState { last_seen_upstream: Some(remote), ..state })]
            } else if state.last_seen_upstream == Some(remote) {
                publish_steps(state, local)
            } else if state.last_seen_upstream == Some(local) {
                adopt_steps(remote)
            } else {
                seq![SyncStep::ImportChain(remote), SyncStep::Ask { local, remote }]
            }
        },
    }
}

/// The steps that follow the user's answer to a conflict between `local` and `remote`.
pub open spec fn resolution_plan(state: GameState, local: u128, remote: u128, choice: ConflictChoice) -> Seq<SyncStep> {
    match choice {
        ConflictChoice::KeepLocal => publish_steps(state, local),
        ConflictChoice::UseUpstream => restore_steps(remote),
        ConflictChoice::KeepBoth => seq![SyncStep::KeepConflict(remote), SyncStep::Save(state)],
    }
}

fn publish(state: &GameState, local: u128) -> (steps: Vec<SyncStep>)
    ensures
        steps@ == publish_steps(*state, local),
{
    let saved = GameState { local_head: state.local_head, last_seen_upstream: Some(local) };
    let steps = vec![SyncStep::PublishChain(local), SyncStep::WriteHead(local), SyncStep::Save(saved)];
    assert(steps@ =~= publish_steps(*state, local));
    steps
}

fn restore(remote: u128) -> (steps: Vec<SyncStep>)
    ensures
        steps@ == restore_steps(remote),
{
    let saved = GameState { local_head: Some(remote), last_seen_upstream: Some(remote) };
    let steps = vec![SyncStep::Restore(remote), SyncStep::Save(saved)];
    assert(steps@ =~= restore_steps(remote));
    steps
}

fn adopt(remote: u128) -> (steps: Vec<SyncStep>)
    ensures
        steps@ == adopt_steps(remote),
{
    let saved = GameState { local_head: Some(remote), last_seen_upstream: Some(remote) };
    let steps = vec![SyncStep::ImportChain(remote), SyncStep::Restore(remote), SyncStep::Save(saved)];
    assert(steps@ =~= adopt_steps(remote));
    steps
}

/// Decides how to bring the local history and the upstream head together.
pub fn plan_reconcile(state: &GameState, upstream_head: Option<u128>) -> (steps: Vec<SyncStep>)
    ensures
        steps@ == reconcile_plan(*state, upstream_head),
{
    match (state.local_head, upstream_head) {
        (None, None) => Vec::new(),
        (Some(local), None) => publish(state, local),
        (None, Some(remote)) => adopt(remote),
        (Some(local), Some(remote)) => {
            if local == remote {
                let saved = GameState { local_head: state.local_head, last_seen_upstream: Some(remote) };
                let steps = vec![SyncStep::Save(saved)];
                assert(steps@ =~= reconcile_plan(*state, upstream_head));
                steps
            } else if state.last_seen_upstream == Some(remote) {
                publish(state, local)
            } else if state.last_seen_upstream == Some(local) {
                adopt(remote)
            } else {
                let steps = vec![SyncStep::ImportChain(remote), SyncStep::Ask { local, remote }];
                assert(steps@ =~= reconcile_plan(*state, upstream_head));
                steps
            }
        },
    }
}

/// The steps that carry out the user's answer to a conflict.
pub fn resolve_conflict(state: &GameState, local: u128, remote: u128, choice: ConflictChoice) -> (steps: Vec<SyncStep>)
    ensures
        steps@ == resolution_plan(*state, local, remote, choice),
{
    match choice {
        ConflictChoice::KeepLocal => publish(state, local),
        ConflictChoice::UseUpstream => restore(remote),
        ConflictChoice::KeepBoth => {
            let steps = vec![SyncStep::KeepConflict(remote), SyncStep::Save(*state)];
            assert(steps@ =~= resolution_plan(*state, local, remote, choice));
            steps
        },
    }
}

/// The game state once `steps` have been carried out from `state`: the last one saved.
pub open spec fn state_after(steps: Seq<SyncStep>, state: GameState) -> GameState
    decreases steps.len(),
{
    if steps.len() == 0 {
        state
    } else {
        match steps.last() {
            SyncStep::Save(saved) => saved,
            _ => state_after(steps.drop_last(), state),
        }
    }
}

/// The upstream head once `steps` have been carried out: the last one written.
pub open spec fn upstream_after(steps: Seq<SyncStep>, head: Option<u128>) -> Option<u128>
    decreases steps.len(),
{
    if steps.len() == 0 {
        head
    } else {
        match steps.last() {
            SyncStep::WriteHead(id) => Some(id),
            _ => upstream_after(steps.drop_last(), head),
        }
    }
}

/// Whether the steps ask the user.
pub open spec fn asks_user(steps: Seq<SyncStep>) -> bool {
    exists|i: int| 0 <= i < steps.len() && #[trigger] steps[i] is Ask
}

/// Whether the steps overwrite anything: the upstream folder or HEAD, or the local save files.
pub open spec fn overwrites(steps: Seq<SyncStep>) -> bool {
    exists|i: int|
        0 <= i < steps.len() && (#[trigger] steps[i] is PublishChain || steps[i] is WriteHead
            || steps[i] is Restore)
}

/// Whether the two histories have diverged: both heads exist, differ, and the
/// upstream head last seen is neither of them.
pub open spec fn diverged(state: GameState, upstream: Option<u128>) -> bool {
    &&& state.local_head is Some
    &&& upstream is Some
    &&& state.local_head != upstream
    &&& state.last_seen_upstream != upstream
    &&& state.last_seen_upstream != state.local_head
}

/// All the steps of one reconciliation, the user's answer included where one is asked.
pub open spec fn full_reconcile(state: GameState, upstream: Option<u128>, choice: ConflictChoice) -> Seq<SyncStep> {
    if diverged(state, upstream) {
        reconcile_plan(state, upstream) + resolution_plan(
            state,
            state.local_head.unwrap(),
            upstream.unwrap(),
            choice,
        )
    } else {
        reconcile_plan(state, upstream)
    }
}

/// The user is asked exactly when the histories have diverged, and only after the
/// upstream chain has been imported, so the upstream branch is kept locally
/// whatever the answer.
pub proof fn lemma_conflict_detection(state: GameState, upstream: Option<u128>)
    ensures
        asks_user(reconcile_plan(state, upstream)) <==> diverged(state, upstream),
        forall|choice: ConflictChoice|
            diverged(state, upstream) ==> #[trigger] full_reconcile(state, upstream, choice)[0]
                == SyncStep::ImportChain(upstream.unwrap()),
        diverged(state, upstream) ==> reconcile_plan(state, upstream) == seq![
            SyncStep::ImportChain(upstream.unwrap()),
            SyncStep::Ask { local: state.local_head.unwrap(), remote: upstream.unwrap() },
        ],
{
    let plan = reconcile_plan(state, upstream);
    if diverged(state, upstream) {
        assert(plan[1] is Ask);
    } else {
        assert forall|i: int| 0 <= i < plan.len() implies !(#[trigger] plan[i] is Ask) by {}
    }
}

/// Keeping both branches overwrites neither side and leaves the game state as it
/// was, so the next reconciliation against the same upstream head asks again.
pub proof fn lemma_keep_both_overwrites_nothing(state: GameState, upstream: Option<u128>)
    requires
        diverged(state, upstream),
    ensures
        ({
            let steps = full_reconcile(state, upstream, ConflictChoice::KeepBoth);
            &&& !overwrites(steps)
            &&& state_after(steps, state) == state
            &&& upstream_after(steps, upstream) == upstream
            &&& reconcile_plan(state_after(steps, state), upstream_after(steps, upstream))
                == reconcile_plan(state, upstream)
            &&& asks_user(
                reconcile_plan(state_after(steps, state), upstream_after(steps, upstream)),
            )
        }),
{
    let steps = full_reconcile(state, upstream, ConflictChoice::KeepBoth);
    assert(steps.len() == 4);
    assert forall|i: int| 0 <= i < steps.len() implies !(#[trigger] steps[i] is PublishChain
        || steps[i] is WriteHead || steps[i] is Restore) by {}
    reveal_with_fuel(upstream_after, 5);
    lemma_conflict_detection(state, upstream);
}

/// Once a reconciliation has run to the end, other than by keeping both branches of
/// a conflict, the local head, the upstream head and the head last seen agree, and a
/// second reconciliation transfers nothing and changes nothing.
pub proof fn lemma_reconcile_converges(state: GameState, upstream: Option<u128>, choice: ConflictChoice)
    requires
        state.local_head is Some || upstream is Some,
        diverged(state, upstream) ==> choice != ConflictChoice::KeepBoth,
    ensures
        ({
            let steps = full_reconcile(state, upstream, choice);
            let s = state_after(steps, state);
            let u = upstream_after(steps, upstream);
            &&& u is Some
            &&& s.local_head == u
            &&& s.last_seen_upstream == u
            &&& reconcile_plan(s, u) == seq![SyncStep::Save(s)]
        }),
{
    reveal_with_fuel(state_after, 6);
    reveal_with_fuel(upstream_after, 6);
    let steps = full_reconcile(state, upstream, choice);
    let s = state_after(steps, state);
    let u = upstream_after(steps, upstream);
    assert(reconcile_plan(s, u) =~= seq![SyncStep::Save(s)]);
}

/// When only the local side moved since the upstream head was last seen, the local
/// history is published and nothing local is overwritten; when only the upstream
/// side moved, it is restored and nothing is published.
pub proof fn lemma_fast_forward(state: GameState, local: u128, remote: u128)
    requires
        state.local_head == Some(local),
        local != remote,
    ensures
        state.last_seen_upstream == Some(remote) ==> reconcile_plan(state, Some(remote))
            == publish_steps(state, local),
        state.last_seen_upstream == Some(local) ==> reconcile_plan(state, Some(remote))
            == adopt_steps(remote),
{
}

/// Equal heads need no transfer: only the head last seen is brought up to date.
pub proof fn lemma_equal_heads_transfer_nothing(state: GameState, head: u128)
    requires
        state.local_head == Some(head),
    ensures
        reconcile_plan(state, Some(head)) == seq![
            SyncStep::Save(GameState { last_seen_upstream: Some(head), ..state }),
        ],
        !overwrites(reconcile_plan(state, Some(head))),
{
    let plan = reconcile_plan(state, Some(head));
    assert forall|i: int| 0 <= i < plan.len() implies !(#[trigger] plan[i] is PublishChain
        || plan[i] is WriteHead || plan[i] is Restore) by {}
}

/// Whether every `WriteHead(id)` among the steps comes after a `PublishChain(id)`: the
/// upstream HEAD only ever names a chain that has been copied upstream.
pub open spec fn head_written_after_publish(steps: Seq<SyncStep>) -> bool {
    forall|i: int|
        0 <= i < steps.len() ==> (#[trigger] steps[i] matches SyncStep::WriteHead(id) ==> exists|j: int|
            0 <= j < i && steps[j] == SyncStep::PublishChain(id))
}

/// Whether every saved state that moves the local head to another snapshot comes after
/// a `Restore` of that snapshot: the files on disk follow the local head.
pub open spec fn local_head_moves_after_restore(state: GameState, steps: Seq<SyncStep>) -> bool {
    forall|i: int|
        0 <= i < steps.len() ==> (#[trigger] steps[i] matches SyncStep::Save(saved) ==> (
        saved.local_head matches Some(id) ==> (state.local_head != Some(id) ==> exists|j: int|
            0 <= j < i && steps[j] == SyncStep::Restore(id))))
}

/// The upstream HEAD is written only after the chain it names has been published, in
/// every reconciliation and every answer to a conflict. With a local head and no
/// upstream head, the local chain is published, HEAD written and the state saved,
/// whatever head was seen before.
pub proof fn lemma_head_follows_publish(state: GameState, upstream: Option<u128>, local: u128, remote: u128, choice: ConflictChoice)
    ensures
        head_written_after_publish(reconcile_plan(state, upstream)),
        head_written_after_publish(resolution_plan(state, local, remote, choice)),
        head_written_after_publish(full_reconcile(state, upstream, choice)),
        state.local_head == Some(local) ==> reconcile_plan(state, None) == seq![
            SyncStep::PublishChain(local),
            SyncStep::WriteHead(local),
            SyncStep::Save(GameState { local_head: Some(local), last_seen_upstream: Some(local) }),
        ],
{
    assert forall|st: Seq<SyncStep>|
        (st == reconcile_plan(state, upstream) || st == resolution_plan(state, local, remote, choice)
            || st == full_reconcile(state, upstream, choice)) implies head_written_after_publish(st) by {
        assert forall|i: int| 0 <= i < st.len() implies (#[trigger] st[i] matches SyncStep::WriteHead(id)
            ==> exists|j: int| 0 <= j < i && st[j] == SyncStep::PublishChain(id)) by {
            if let SyncStep::WriteHead(id) = st[i] {
                assert(i >= 1 && st[i - 1] == SyncStep::PublishChain(id));
            }
        }
    }
    if state.local_head == Some(local) {
        assert(reconcile_plan(state, None) =~= seq![
            SyncStep::PublishChain(local),
            SyncStep::WriteHead(local),
            SyncStep::Save(GameState { local_head: Some(local), last_seen_upstream: Some(local) }),
        ]);
    }
}

/// The local save files follow the local head: whenever a reconciliation or an answer
/// to a conflict moves the local head to another snapshot, it restores that snapshot
/// first. Taking the upstream side of a conflict always restores it.
pub proof fn lemma_local_files_follow_head(state: GameState, upstream: Option<u128>, remote: u128, choice: ConflictChoice)
    ensures
        local_head_moves_after_restore(state, reconcile_plan(state, upstream)),
        state.local_head matches Some(local) ==> local_head_moves_after_restore(
            state,
            resolution_plan(state, local, remote, choice),
        ),
        local_head_moves_after_restore(state, full_reconcile(state, upstream, choice)),
        state.local_head matches Some(local) ==> resolution_plan(
            state,
            local,
            remote,
            ConflictChoice::UseUpstream,
        ).contains(SyncStep::Restore(remote)),
{
    assert forall|st: Seq<SyncStep>|
        (st == reconcile_plan(state, upstream) || (state.local_head matches Some(local) && st
            == resolution_plan(state, local, remote, choice)) || st == full_reconcile(
            state,
            upstream,
            choice,
        )) implies local_head_moves_after_restore(state, st) by {
        assert forall|i: int| 0 <= i < st.len() implies (#[trigger] st[i] matches SyncStep::Save(saved)
            ==> (saved.local_head matches Some(id) ==> (state.local_head != Some(id) ==> exists|j: int|
            0 <= j < i && st[j] == SyncStep::Restore(id)))) by {
            if let SyncStep::Save(saved) = st[i] {
                if let Some(id) = saved.local_head {
                    if state.local_head != Some(id) {
                        assert(i >= 1 && st[i - 1] == SyncStep::Restore(id));
                    }
                }
            }
        }
    }
    if state.local_head is Some {
        let r = resolution_plan(state, state.local_head.unwrap(), remote, ConflictChoice::UseUpstream);
        assert(r[0] == SyncStep::Restore(remote));
    }
}

/// The text of the question put to the user when both histories moved.
pub open spec fn conflict_message_text(game: Seq<char>, local: u128, remote: u128) -> Seq<char> {
    "SaveOwl found divergent save history for "@ + game + ".\n\nLocal: "@ + uuid_text(local)
        + "\nUpstream: "@ + uuid_text(remote)
        + "\n\nYES = keep local and publish it\nNO = restore upstream\nCANCEL = keep both branches (no overwrite)"@
}

/// The question put to the user when both histories of `game` moved.
pub fn conflict_message(game: &str, local: u128, remote: u128) -> (s: String)
    ensures
        s@ == conflict_message_text(game@, local, remote),
{
    let mut s = String::from_str("SaveOwl found divergent save history for ");
    s.append(game);
    s.append(".\n\nLocal: ");
    let l = id_text(local);
    s.append(l.as_str());
    s.append("\nUpstream: ");
    let r = id_text(remote);
    s.append(r.as_str());
    s.append("\n\nYES = keep local and publish it\nNO = restore upstream\nCANCEL = keep both branches (no overwrite)");
    s
}

/// The user's answer to the question: Yes keeps the local history, No takes the
/// upstream one, and anything else (Cancel, or closing the box) keeps both.
/// `reply` is the Win32 dialog result, where Yes is 6 and No is 7.
pub fn choice_for_reply(reply: i32) -> (c: ConflictChoice)
    ensures
        reply == 6 ==> c == ConflictChoice::KeepLocal,
        reply == 7 ==> c == ConflictChoice::UseUpstream,
        reply != 6 && reply != 7 ==> c == ConflictChoice::KeepBoth,
{
    if reply == 6 {
        ConflictChoice::KeepLocal
    } else if reply == 7 {
        ConflictChoice::UseUpstream
    } else {
        ConflictChoice::KeepBoth
    }
}

} // verus!
