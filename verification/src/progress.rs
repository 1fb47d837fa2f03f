//! Why every sync comes to an end.

use vstd::prelude::*;

use crate::failure::Fault;
use crate::state;
use crate::state::{Event, Stage, State};
use crate::text;
use crate::tree;

verus! {

/// How much of a sync is left. Each part counts only where those before it are equal.
pub struct Ahead {
    pub stages: int,
    pub branches: int,
    pub parts: int,
}

impl Ahead {
    /// Whether less is left than `before`.
    pub open spec fn less_than(self, before: Ahead) -> bool {
        decreases_to!(before.stages, before.branches, before.parts =>
            self.stages, self.branches, self.parts)
    }
}

/// How many stages are left behind `stage`, those that share a loop taken as one.
pub open spec fn stages_left(stage: Stage) -> int {
    match stage {
        Stage::Fetch => 13,
        Stage::Survey => 12,
        Stage::Locate => 11,
        Stage::PreviewPoints | Stage::CheckStatus => 10,
        Stage::PreviewBase | Stage::PreviewTip | Stage::CheckRebase => 9,
        Stage::MakeDataDir => 8,
        Stage::WriteStack => 7,
        Stage::ReadPoints => 6,
        Stage::FindBase
        | Stage::FindTip
        | Stage::Rebase
        | Stage::AskConflict
        | Stage::SaveAfterConflict => 5,
        Stage::AskUpstream => 4,
        Stage::AskRemote | Stage::Push => 3,
        Stage::PruneUpstream
        | Stage::PruneRemote
        | Stage::RemoveWorktree
        | Stage::DeleteBranch
        | Stage::DeleteRemote => 2,
        Stage::SavePoints => 1,
        Stage::Finished | Stage::Failed => 0,
    }
}

/// How many steps are left for the branch at hand.
pub open spec fn parts_left(stage: Stage) -> int {
    match stage {
        Stage::PreviewBase => 2,
        Stage::PreviewTip => 1,
        Stage::FindBase => 5,
        Stage::FindTip => 4,
        Stage::Rebase => 3,
        Stage::AskConflict => 2,
        Stage::SaveAfterConflict => 1,
        Stage::AskRemote => 2,
        Stage::Push => 1,
        Stage::PruneUpstream => 5,
        Stage::PruneRemote => 4,
        Stage::RemoveWorktree => 3,
        Stage::DeleteBranch => 2,
        Stage::DeleteRemote => 1,
        _ => 0,
    }
}

/// How many branches are left, the one at hand among them.
pub open spec fn branches_left(state: State) -> int {
    if state.stage.prunes() {
        state.integrated.len() - state.at
    } else if state.stage is AskRemote || state.stage is Push {
        state.pushable.len() - state.at
    } else if state.stage.rebases() || state.stage is AskUpstream || state.stage is CheckStatus
        || state.stage is CheckRebase || state.stage is PreviewBase || state.stage is PreviewTip {
        state.queue.len() - state.at
    } else {
        0
    }
}

/// How much is left.
pub open spec fn ahead(state: State) -> Ahead {
    Ahead {
        stages: stages_left(state.stage),
        branches: branches_left(state),
        parts: parts_left(state.stage),
    }
}

proof fn lemma_prune_ahead(state: State, k: int)
    requires
        0 <= k,
    ensures
        stages_left(state.prune().state.stage) <= 2,
        stages_left(state.prune_from(k).state.stage) < 2 || (state.prune_from(
            k,
        ).state.stage.prunes() && branches_left(state.prune_from(k).state)
            == state.integrated.len() - k && branches_left(state.prune_from(k).state) > 0),
{
}

proof fn lemma_push_ahead(state: State, k: int)
    requires
        0 <= k,
    ensures
        stages_left(state.push().state.stage) <= 4,
        stages_left(state.push_from(k).state.stage) < 3 || (state.push_from(k).state.stage
            is AskRemote && branches_left(state.push_from(k).state) == state.pushable.len() - k
            && branches_left(state.push_from(k).state) > 0),
        stages_left(state.ask_upstream(k).state.stage) < 4 || (state.ask_upstream(k).state.stage
            is AskUpstream && branches_left(state.ask_upstream(k).state) == state.queue.len() - k
            && branches_left(state.ask_upstream(k).state) > 0),
{
    lemma_prune_ahead(state, 0);
}

proof fn lemma_rebase_ahead(state: State, k: int)
    requires
        0 <= k,
    ensures
        stages_left(state.rebase(k).state.stage) < 5 || (state.rebase(k).state.stage is FindBase
            && branches_left(state.rebase(k).state) <= state.queue.len() - k && branches_left(
            state.rebase(k).state,
        ) > 0),
{
    state::lemma_next_child(state, k);
    lemma_push_ahead(state, 0);
}

proof fn lemma_done_ahead(state: State)
    requires
        state.valid(),
        state.accepts(Event::Done),
    ensures
        ahead(state.after_done().state).less_than(ahead(state)),
{
    match state.stage {
        Stage::Rebase => {
            lemma_rebase_ahead(
                State { rebased: state.rebased + 1, ..state.settle() },
                state.at + 1,
            );
        },
        Stage::Push => lemma_push_ahead(state, state.at + 1),
        Stage::DeleteBranch | Stage::DeleteRemote => lemma_prune_ahead(state, state.at + 1),
        _ => {},
    }
}

proof fn lemma_failure_ahead(state: State, fault: Fault)
    requires
        state.valid(),
        !state.stage.ends(),
    ensures
        ahead(state.after_failure(fault).state).less_than(ahead(state)),
{
    match state.stage {
        Stage::Push => lemma_push_ahead(state, state.at + 1),
        Stage::RemoveWorktree | Stage::DeleteBranch | Stage::DeleteRemote => lemma_prune_ahead(
            state,
            state.at + 1,
        ),
        _ => {},
    }
}

proof fn lemma_check_ahead(state: State, k: int)
    requires
        0 <= k,
    ensures
        stages_left(state.check_status(k).state.stage) < 10 || (state.check_status(k).state.stage
            is CheckStatus && branches_left(state.check_status(k).state) <= state.queue.len() - k
            && branches_left(state.check_status(k).state) > 0),
{
    state::lemma_next_node(state, k);
    state::lemma_next_node(state, 0);
}

proof fn lemma_name_ahead(state: State, name: Option<Seq<char>>)
    requires
        state.valid(),
        match state.stage {
            Stage::Locate
            | Stage::PreviewBase
            | Stage::FindBase
            | Stage::AskRemote
            | Stage::PruneRemote => true,
            _ => false,
        },
    ensures
        ahead(state.after_name(name).state).less_than(ahead(state)),
{
    match state.stage {
        Stage::Locate => {
            assert forall|queue: Seq<Seq<char>>|
                stages_left((#[trigger] state.begin(queue)).state.stage) < 11 by {
                lemma_check_ahead(State { queue, ..state }, 0);
            }
        },
        Stage::PreviewBase => state::lemma_next_child(state, state.at + 1),
        Stage::FindBase => lemma_rebase_ahead(state, state.at + 1),
        _ => {},
    }
}

proof fn lemma_output_ahead(state: State, output: Seq<char>)
    requires
        state.valid(),
        state.stage is PreviewTip || state.stage is CheckStatus || state.stage is FindTip,
    ensures
        ahead(state.after_output(output).state).less_than(ahead(state)),
{
    let told = State { tip: text::trim(output), ..state };
    let k = state.at + 1;
    match state.stage {
        Stage::PreviewTip => {
            state::lemma_next_child(told, k);
            state::lemma_next_child(
                State { bases: told.bases.insert(told.branch(), told.base()), ..told },
                k,
            );
        },
        Stage::CheckStatus => {
            lemma_check_ahead(state, k);
            lemma_check_ahead(State { dirty: state.dirty.push(state.branch()), ..state }, k);
        },
        _ => {
            if told.merge_base == told.tip {
                lemma_rebase_ahead(State { skipped: told.skipped + 1, ..told.settle() }, k);
            }
        },
    }
}

proof fn lemma_flag_ahead(state: State, yes: bool)
    requires
        state.valid(),
        match state.stage {
            Stage::CheckRebase | Stage::AskConflict | Stage::AskUpstream | Stage::PruneUpstream => true,
            _ => false,
        },
    ensures
        ahead(state.after_flag(yes).state).less_than(ahead(state)),
{
    match state.stage {
        Stage::CheckRebase => state::lemma_next_node(state, state.at + 1),
        Stage::AskUpstream => {
            lemma_push_ahead(state, state.at + 1);
            lemma_push_ahead(
                State { pushable: state.pushable.push(state.branch()), ..state },
                state.at + 1,
            );
        },
        _ => {},
    }
}

proof fn lemma_points_ahead(state: State, points: Map<Seq<char>, Seq<char>>)
    requires
        state.valid(),
        state.stage is PreviewPoints || state.stage is ReadPoints,
    ensures
        ahead(state.after_points(points).state).less_than(ahead(state)),
{
    if state.stage is PreviewPoints {
        state::lemma_next_child(State { points, ..state }, 0);
    } else {
        lemma_rebase_ahead(State { points, ..state }, 0);
    }
}

/// Every event leaves less to do, so every sync ends, whatever comes of its actions.
#[verifier::spinoff_prover]
#[verifier::rlimit(60)]
pub proof fn law_progress(state: State, event: Event)
    requires
        state.valid(),
        state.accepts(event),
    ensures
        ahead(state.after(event).state).less_than(ahead(state)),
{
    match event {
        Event::Done => lemma_done_ahead(state),
        Event::Failed(failure) => lemma_failure_ahead(state, failure@),
        Event::Surveyed { .. } => {},
        Event::Name(name) => lemma_name_ahead(state, tree::optional_text(name)),
        Event::Output(output) => lemma_output_ahead(state, output@),
        Event::Flag(yes) => lemma_flag_ahead(state, yes),
        Event::Contents(content) => lemma_points_ahead(state, state::points_in(content)),
    }
}

} // verus!
