//! What a single event can lead to.

use vstd::prelude::*;

use crate::failure::Failure;
use crate::state;
use crate::state::{Event, Stage, State, Turn};
use crate::text;
use crate::tree;
use crate::turns;

verus! {

/// Whether the stack file is written before this stage, unless in a dry run.
pub open spec fn follows_stack_file(stage: Stage) -> bool {
    stage is ReadPoints || stage.rebases() || stage.concludes() || stage is Finished
}

/// Whether `event` shows that the branch at hand stands on the tip of its parent: its rebase was
/// done, or its merge base with the parent is that tip.
pub open spec fn settled_by(state: State, event: Event) -> bool {
    ||| state.stage is Rebase && event is Done
    ||| state.stage is FindTip && (event matches Event::Output(output) && text::trim(output@)
        == state.merge_base)
}

/// The tip of the parent on which the branch at hand then stands.
pub open spec fn settled_tip(state: State) -> Seq<char> {
    if state.stage is Rebase {
        state.tip
    } else {
        state.merge_base
    }
}

/// How the fork points change while branches are rebased and after: the branch at hand gets one
/// when it is settled, and then another branch, further on, comes to hand.
pub open spec fn settles(state: State, event: Event, after: State) -> bool {
    &&& after.queue == state.queue
    &&& after.stage.rebases() || after.stage.concludes() || after.stage.ends()
    &&& state.stage.concludes() ==> !after.stage.rebases()
    &&& if settled_by(state, event) {
        &&& after.points == state.points.insert(state.branch(), settled_tip(state))
        &&& after.stage.rebases() ==> state.at < after.at
    } else {
        &&& after.points == state.points
        &&& after.stage.rebases() ==> state.at <= after.at
    }
    &&& state.stage is FindBase && (event matches Event::Name(name) && name is None)
        && after.stage.rebases() ==> state.at < after.at
    &&& state.stage is Rebase && !(event is Done) ==> after.stage is AskConflict
    &&& state.stage is AskConflict || state.stage is SaveAfterConflict
        ==> after.stage is SaveAfterConflict || after.stage is Failed
}

/// Whether `event` tells of something that a sync cannot go on with: an action failed, a worktree
/// has tracked changes or a rebase in progress, or the stack of the current branch is asked for
/// where there is no such branch.
pub open spec fn trouble(state: State, event: Event) -> bool {
    match event {
        Event::Failed(_) => true,
        Event::Name(name) => state.stage is Locate && !state.opts.all && name is None,
        Event::Output(output) => state.stage is CheckStatus && text::trim(output@).len() > 0,
        Event::Flag(yes) => state.stage is CheckRebase && yes,
        _ => false,
    }
}

/// Whether trouble was met: the sync has failed or stopped at a rebase, or tracked changes were
/// found.
pub open spec fn in_trouble(state: State) -> bool {
    ||| state.stage is AskConflict
    ||| state.stage is SaveAfterConflict
    ||| state.stage is Failed
    ||| state.dirty.len() > 0
}

/// What comes before the tree is known, before the branches are chosen, and before the tip of the
/// parent is asked for.
pub open spec fn arrives(state: State, event: Event, after: State) -> bool {
    &&& after.stage is Locate ==> state.stage is Survey && (event matches Event::Surveyed {
        tree,
        integrated,
    } && after.tree == tree@ && after.integrated == state::listing(integrated))
    &&& turns::chosen(after) ==> turns::chosen(state) || state.stage is Locate && event is Name
    &&& after.stage is FindTip ==> state.stage is FindBase && after.at == state.at && (
    event matches Event::Name(Some(merge_base)) && after.merge_base == merge_base@)
}

/// Whether `event` shows that the branch at hand was on the tip of its parent before.
pub open spec fn found_settled(state: State, event: Event) -> bool {
    state.stage is FindTip && (event matches Event::Output(output) && text::trim(output@)
        == state.merge_base)
}

/// What is counted, and what is taken over from an event: the tip of the parent before a rebase,
/// and the fork points of the file.
pub open spec fn takes_over(state: State, event: Event, after: State) -> bool {
    &&& after.rebased == state.rebased + (if state.stage is Rebase && event is Done {
        1nat
    } else {
        0nat
    })
    &&& after.skipped == state.skipped + (if found_settled(state, event) {
        1nat
    } else {
        0nat
    })
    &&& after.stage is Rebase ==> after.at == state.at && after.merge_base == state.merge_base && (
    event matches Event::Output(output) && after.tip == text::trim(output@))
    &&& state.stage is ReadPoints ==> (event matches Event::Contents(content) && after.points
        == state::points_in(content))
    &&& state.stage.begins() ==> after.bases == state.bases
    &&& after.stage.begins() || after.stage is PreviewPoints ==> state.stage.begins()
    &&& after.stage is WriteStack ==> state.stage is MakeDataDir && event is Done
    &&& state.stage is WriteStack ==> after.stage is ReadPoints || after.stage is Failed
    &&& !(after.stage is Fetch)
    &&& after.stage is Survey ==> state.stage is Fetch && event is Done
}

/// What leads to a rebase, to the end and past the files, and what stays as it is.
pub open spec fn moves(state: State, event: Event, after: State) -> bool {
    &&& after.opts == state.opts
    &&& state.stage is Survey || after.tree == state.tree && after.integrated == state.integrated
    &&& arrives(state, event, after)
    &&& takes_over(state, event, after)
    &&& in_trouble(after) ==> in_trouble(state) || trouble(state, event)
    &&& state.stage.rebases() || state.stage.concludes() ==> settles(state, event, after)
    &&& state.stage is Rebase || after.rebased == state.rebased
    &&& after.stage is Rebase ==> state.stage is FindTip && (event matches Event::Output(output)
        && text::trim(output@) != state.merge_base)
    &&& after.stage is AskConflict ==> state.stage is Rebase
    &&& after.stage is SaveAfterConflict ==> state.stage is AskConflict
    &&& !state.opts.dry_run && after.stage is Finished ==> state.stage is SavePoints
        && event is Done
    &&& !state.opts.dry_run && follows_stack_file(after.stage) ==> follows_stack_file(state.stage)
        || state.stage is WriteStack && event is Done
}

/// Whether `turn` is past the rebases and changes nothing that they change.
spec fn winds_up(state: State, turn: Turn) -> bool {
    &&& turn.state.opts == state.opts
    &&& turn.state.tree == state.tree
    &&& turn.state.integrated == state.integrated
    &&& turn.state.rebased == state.rebased
    &&& turn.state.skipped == state.skipped
    &&& turn.state.dirty == state.dirty
    &&& turn.state.queue == state.queue
    &&& turn.state.points == state.points
    &&& turn.state.stage.concludes()
}

proof fn lemma_prune_winds_up(state: State, k: int)
    ensures
        winds_up(state, state.prune()),
        winds_up(state, state.prune_from(k)),
{
}

proof fn lemma_push_winds_up(state: State, k: int)
    ensures
        winds_up(state, state.push()),
        winds_up(state, state.push_from(k)),
        winds_up(state, state.ask_upstream(k)),
{
    lemma_prune_winds_up(state, 0);
}

proof fn lemma_rebase_moves(state: State, k: int)
    requires
        0 <= k,
    ensures
        state.rebase(k).state.queue == state.queue,
        state.rebase(k).state.points == state.points,
        state.rebase(k).state.stage.rebases() ==> k <= state.rebase(k).state.at,
        state.rebase(k).state.stage is FindBase || state.rebase(k).state.stage.concludes(),
        state.rebase(k).state.opts == state.opts,
        state.rebase(k).state.tree == state.tree,
        state.rebase(k).state.integrated == state.integrated,
        state.rebase(k).state.dirty == state.dirty,
        state.rebase(k).state.rebased == state.rebased,
        state.rebase(k).state.skipped == state.skipped,
{
    lemma_push_winds_up(state, 0);
    state::lemma_next_child(state, k);
}

pub proof fn lemma_done_moves(state: State)
    requires
        state.valid(),
        state.accepts(Event::Done),
    ensures
        moves(state, Event::Done, state.after_done().state),
{
    match state.stage {
        Stage::Rebase => lemma_rebase_moves(
            State { rebased: state.rebased + 1, ..state.settle() },
            state.at + 1,
        ),
        Stage::Push => lemma_push_winds_up(state, state.at + 1),
        Stage::DeleteBranch | Stage::DeleteRemote => lemma_prune_winds_up(state, state.at + 1),
        _ => {},
    }
}

pub proof fn lemma_failure_moves(state: State, failure: Failure)
    requires
        state.valid(),
        state.accepts(Event::Failed(failure)),
    ensures
        moves(state, Event::Failed(failure), state.after_failure(failure@).state),
{
    match state.stage {
        Stage::Push => lemma_push_winds_up(state, state.at + 1),
        Stage::RemoveWorktree | Stage::DeleteBranch | Stage::DeleteRemote => lemma_prune_winds_up(
            state,
            state.at + 1,
        ),
        _ => {},
    }
}

pub proof fn lemma_name_moves(state: State, name: Option<String>)
    requires
        state.valid(),
        state.accepts(Event::Name(name)),
    ensures
        moves(state, Event::Name(name), state.after_name(tree::optional_text(name)).state),
{
    match state.stage {
        Stage::FindBase => lemma_rebase_moves(state, state.at + 1),
        _ => {},
    }
}

pub proof fn lemma_output_moves(state: State, output: String)
    requires
        state.valid(),
        state.accepts(Event::Output(output)),
    ensures
        moves(state, Event::Output(output), state.after_output(output@).state),
{
    let told = State { tip: text::trim(output@), ..state };
    if state.stage is FindTip && told.merge_base == told.tip {
        lemma_rebase_moves(State { skipped: told.skipped + 1, ..told.settle() }, state.at + 1);
    }
}

pub proof fn lemma_flag_moves(state: State, yes: bool)
    requires
        state.valid(),
        state.accepts(Event::Flag(yes)),
    ensures
        moves(state, Event::Flag(yes), state.after_flag(yes).state),
{
    if state.stage is AskUpstream {
        lemma_push_winds_up(state, state.at + 1);
        lemma_push_winds_up(
            State { pushable: state.pushable.push(state.branch()), ..state },
            state.at + 1,
        );
    }
}

pub proof fn lemma_points_move(state: State, content: Option<String>)
    requires
        state.valid(),
        state.accepts(Event::Contents(content)),
    ensures
        moves(
            state,
            Event::Contents(content),
            state.after_points(state::points_in(content)).state,
        ),
{
    if state.stage is ReadPoints {
        lemma_rebase_moves(State { points: state::points_in(content), ..state }, 0);
    }
}

} // verus!
