//! What the checks have shown before anything is changed.

use vstd::prelude::*;

use crate::failure::Fault;
use crate::state;
use crate::state::{Event, Stage, State, Turn};
use crate::text;

verus! {

/// Whether all branches of the queue before `k` that have a node are in `found`.
pub open spec fn covers(state: State, found: Set<int>, k: int) -> bool {
    forall|i: int|
        0 <= i < k && i < state.queue.len() && #[trigger] state.is_node(i) ==> found.contains(i)
}

/// The branch at hand is clean if git prints nothing for its worktree.
pub open spec fn clean_after(state: State, event: Event, clean: Set<int>) -> Set<int> {
    match event {
        Event::Output(output) => if state.stage is CheckStatus && text::trim(output@).len() == 0 {
            clean.insert(state.at)
        } else {
            clean
        },
        _ => clean,
    }
}

/// The branch at hand is idle if no rebase is in progress in its worktree.
pub open spec fn idle_after(state: State, event: Event, idle: Set<int>) -> Set<int> {
    match event {
        Event::Flag(yes) => if state.stage is CheckRebase && !yes {
            idle.insert(state.at)
        } else {
            idle
        },
        _ => idle,
    }
}

/// Whether the checks are over.
pub open spec fn acts(stage: Stage) -> bool {
    !(stage.begins() || stage.previews() || stage is CheckStatus || stage is CheckRebase
        || stage.ends())
}

/// What the checks have shown so far.
pub open spec fn shown(state: State, clean: Set<int>, idle: Set<int>) -> bool {
    let n = state.queue.len() as int;
    &&& state.stage.begins() ==> n == 0
    &&& state.stage is CheckStatus && state.dirty.len() == 0 ==> covers(state, clean, state.at)
    &&& state.stage is CheckRebase ==> covers(state, clean, n) && covers(state, idle, state.at)
    &&& acts(state.stage) ==> covers(state, clean, n) && covers(state, idle, n)
}

/// Whether `turn` leaves the checks behind and the queue as it is.
spec fn goes_on(state: State, turn: Turn) -> bool {
    &&& turn.state.queue == state.queue
    &&& turn.state.tree == state.tree
    &&& acts(turn.state.stage) || turn.state.stage.ends()
}

proof fn lemma_prune_goes_on(state: State, k: int)
    ensures
        goes_on(state, state.prune()),
        goes_on(state, state.prune_from(k)),
{
}

proof fn lemma_push_goes_on(state: State, k: int)
    ensures
        goes_on(state, state.push()),
        goes_on(state, state.push_from(k)),
        goes_on(state, state.ask_upstream(k)),
{
    lemma_prune_goes_on(state, 0);
}

proof fn lemma_rebase_goes_on(state: State, k: int)
    ensures
        goes_on(state, state.rebase(k)),
{
    lemma_push_goes_on(state, 0);
}

proof fn lemma_shown_on(state: State, turn: Turn, clean: Set<int>, idle: Set<int>)
    requires
        goes_on(state, turn),
        covers(state, clean, state.queue.len() as int),
        covers(state, idle, state.queue.len() as int),
    ensures
        shown(turn.state, clean, idle),
{
    let n = state.queue.len() as int;
    assert forall|i: int| 0 <= i < n && #[trigger] turn.state.is_node(i) implies clean.contains(i)
        && idle.contains(i) by {
        assert(state.is_node(i));
    }
}

pub proof fn lemma_done_shows(state: State, clean: Set<int>, idle: Set<int>)
    requires
        state.accepts(Event::Done),
        shown(state, clean, idle),
    ensures
        shown(state.after_done().state, clean, idle),
{
    match state.stage {
        Stage::Fetch => {},
        Stage::Rebase => {
            let next = State { rebased: state.rebased + 1, ..state.settle() };
            lemma_rebase_goes_on(next, state.at + 1);
            lemma_shown_on(state, state.after_done(), clean, idle);
        },
        Stage::Push => {
            lemma_push_goes_on(state, state.at + 1);
            lemma_shown_on(state, state.after_done(), clean, idle);
        },
        Stage::DeleteBranch | Stage::DeleteRemote => {
            lemma_prune_goes_on(state, state.at + 1);
            lemma_shown_on(state, state.after_done(), clean, idle);
        },
        _ => {
            lemma_shown_on(state, state.after_done(), clean, idle);
        },
    }
}

pub proof fn lemma_failure_shows(state: State, fault: Fault, clean: Set<int>, idle: Set<int>)
    requires
        shown(state, clean, idle),
        !state.stage.ends(),
    ensures
        shown(state.after_failure(fault).state, clean, idle),
{
    match state.stage {
        Stage::Rebase => {
            lemma_shown_on(state, state.after_failure(fault), clean, idle);
        },
        Stage::Push => {
            lemma_push_goes_on(state, state.at + 1);
            lemma_shown_on(state, state.after_failure(fault), clean, idle);
        },
        Stage::RemoveWorktree | Stage::DeleteBranch | Stage::DeleteRemote => {
            lemma_prune_goes_on(state, state.at + 1);
            lemma_shown_on(state, state.after_failure(fault), clean, idle);
        },
        _ => {},
    }
}

proof fn lemma_checks_show(state: State, k: int, clean: Set<int>, idle: Set<int>)
    requires
        0 <= k,
        state.dirty.len() == 0 ==> covers(state, clean, k),
    ensures
        shown(state.check_status(k).state, clean, idle),
{
    state::lemma_next_node(state, k);
    state::lemma_next_node(state, 0);
    let next = state.check_status(k).state;
    assert forall|i: int| next.is_node(i) == state.is_node(i) by {}
}

pub proof fn lemma_name_shows(state: State, name: Option<Seq<char>>, clean: Set<int>, idle: Set<int>)
    requires
        state.valid(),
        shown(state, clean, idle),
        match state.stage {
            Stage::Locate
            | Stage::PreviewBase
            | Stage::FindBase
            | Stage::AskRemote
            | Stage::PruneRemote => true,
            _ => false,
        },
    ensures
        shown(state.after_name(name).state, clean, idle),
{
    match state.stage {
        Stage::Locate => {
            lemma_shown_on(state, state.nothing_to_sync(), clean, idle);
            assert forall|queue: Seq<Seq<char>>|
                shown((#[trigger] state.begin(queue)).state, clean, idle) by {
                if !state.opts.dry_run {
                    lemma_checks_show(State { queue, ..state }, 0, clean, idle);
                }
            }
        },
        Stage::PreviewBase => {},
        Stage::FindBase => {
            lemma_rebase_goes_on(state, state.at + 1);
            lemma_shown_on(state, state.after_name(name), clean, idle);
        },
        _ => {
            lemma_shown_on(state, state.after_name(name), clean, idle);
        },
    }
}

pub proof fn lemma_output_shows(state: State, output: Seq<char>, clean: Set<int>, idle: Set<int>)
    requires
        state.valid(),
        shown(state, clean, idle),
        state.stage is PreviewTip || state.stage is CheckStatus || state.stage is FindTip,
    ensures
        shown(
            state.after_output(output).state,
            if state.stage is CheckStatus && text::trim(output).len() == 0 {
                clean.insert(state.at)
            } else {
                clean
            },
            idle,
        ),
{
    let told = State { tip: text::trim(output), ..state };
    match state.stage {
        Stage::PreviewTip => {},
        Stage::CheckStatus => {
            if text::trim(output).len() == 0 {
                lemma_checks_show(state, state.at + 1, clean.insert(state.at), idle);
            } else {
                lemma_checks_show(
                    State { dirty: state.dirty.push(state.branch()), ..state },
                    state.at + 1,
                    clean,
                    idle,
                );
            }
        },
        _ => {
            if told.merge_base == told.tip {
                lemma_rebase_goes_on(
                    State { skipped: told.skipped + 1, ..told.settle() },
                    state.at + 1,
                );
            }
            lemma_shown_on(state, state.after_output(output), clean, idle);
        },
    }
}

pub proof fn lemma_flag_shows(state: State, yes: bool, clean: Set<int>, idle: Set<int>)
    requires
        state.valid(),
        shown(state, clean, idle),
        match state.stage {
            Stage::CheckRebase | Stage::AskConflict | Stage::AskUpstream | Stage::PruneUpstream => true,
            _ => false,
        },
    ensures
        shown(
            state.after_flag(yes).state,
            clean,
            if state.stage is CheckRebase && !yes {
                idle.insert(state.at)
            } else {
                idle
            },
        ),
{
    match state.stage {
        Stage::CheckRebase => {
            state::lemma_next_node(state, state.at + 1);
            let next = state.after_flag(yes).state;
            assert forall|i: int| next.is_node(i) == state.is_node(i) by {}
        },
        Stage::AskUpstream => {
            lemma_push_goes_on(state, state.at + 1);
            lemma_push_goes_on(
                State { pushable: state.pushable.push(state.branch()), ..state },
                state.at + 1,
            );
            lemma_shown_on(state, state.after_flag(yes), clean, idle);
        },
        _ => {
            lemma_shown_on(state, state.after_flag(yes), clean, idle);
        },
    }
}

pub proof fn lemma_points_show(
    state: State,
    points: Map<Seq<char>, Seq<char>>,
    clean: Set<int>,
    idle: Set<int>,
)
    requires
        shown(state, clean, idle),
        state.stage is PreviewPoints || state.stage is ReadPoints,
    ensures
        shown(state.after_points(points).state, clean, idle),
{
    if state.stage is ReadPoints {
        lemma_rebase_goes_on(State { points, ..state }, 0);
        lemma_shown_on(state, state.after_points(points), clean, idle);
    }
}

} // verus!
