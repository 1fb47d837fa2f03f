//! Which branches a sync takes, and in what order.

use vstd::prelude::*;

use crate::failure::Fault;
use crate::state;
use crate::state::{Event, Stage, State, Turn};
use crate::text;
use crate::tree;

verus! {

/// Whether all branches of the queue before `k` that have a parent are in `dealt`.
pub open spec fn in_turn(state: State, dealt: Set<int>, k: int) -> bool {
    forall|i: int|
        0 <= i < k && i < state.queue.len() && #[trigger] state.is_child(i) ==> dealt.contains(i)
}

/// The branch at hand is dealt with if it was rebased, if its merge base with the parent is the
/// tip of the parent, or if there is no merge base.
pub open spec fn dealt_after(state: State, event: Event, dealt: Set<int>) -> Set<int> {
    match event {
        Event::Done => if state.stage is Rebase {
            dealt.insert(state.at)
        } else {
            dealt
        },
        Event::Output(output) => if state.stage is FindTip && text::trim(output@)
            == state.merge_base {
            dealt.insert(state.at)
        } else {
            dealt
        },
        Event::Name(name) => if state.stage is FindBase && name is None {
            dealt.insert(state.at)
        } else {
            dealt
        },
        _ => dealt,
    }
}

/// Whether the branches to sync are chosen.
pub open spec fn chosen(state: State) -> bool {
    state.queue.len() > 0 || !(state.stage.begins() || state.stage is Failed)
}

/// The current branch is what the event names when it is asked for.
pub open spec fn current_after(
    state: State,
    event: Event,
    current: Option<Seq<char>>,
) -> Option<Seq<char>> {
    match event {
        Event::Name(name) => if state.stage is Locate {
            tree::optional_text(name)
        } else {
            current
        },
        _ => current,
    }
}

/// Whether the queue is what was asked for: all branches, or the stack of the current one.
pub open spec fn queue_fits(state: State, current: Option<Seq<char>>) -> bool {
    if state.opts.all {
        state.queue == state.tree.sync_order()
    } else {
        current matches Some(branch) && state.queue == state.tree.stack_containing(branch)
    }
}

/// What holds of the queue and of what was dealt with.
pub open spec fn ordered(state: State, current: Option<Seq<char>>, dealt: Set<int>) -> bool {
    let n = state.queue.len() as int;
    &&& chosen(state) ==> queue_fits(state, current)
    &&& state.stage.rebases() ==> in_turn(state, dealt, state.at)
    &&& state.stage.concludes() ==> in_turn(state, dealt, n)
}

/// Whether `turn` keeps the queue and is past the rebases.
spec fn moves_past(state: State, turn: Turn) -> bool {
    &&& turn.state.queue == state.queue
    &&& turn.state.tree == state.tree
    &&& turn.state.opts == state.opts
    &&& chosen(turn.state) ==> chosen(state)
    &&& !turn.state.stage.rebases()
}

proof fn lemma_prune_moves_past(state: State, k: int)
    requires
        chosen(state),
    ensures
        moves_past(state, state.prune()),
        moves_past(state, state.prune_from(k)),
{
}

proof fn lemma_push_moves_past(state: State, k: int)
    requires
        chosen(state),
    ensures
        moves_past(state, state.push()),
        moves_past(state, state.push_from(k)),
        moves_past(state, state.ask_upstream(k)),
{
    lemma_prune_moves_past(state, 0);
}

proof fn lemma_ordered_past(state: State, turn: Turn, current: Option<Seq<char>>, dealt: Set<int>)
    requires
        moves_past(state, turn),
        chosen(state) ==> queue_fits(state, current),
        turn.state.stage.concludes() ==> in_turn(state, dealt, state.queue.len() as int),
    ensures
        ordered(turn.state, current, dealt),
{
    if turn.state.stage.concludes() {
        assert forall|i: int|
            0 <= i < state.queue.len() && #[trigger] turn.state.is_child(i) implies dealt.contains(
            i,
        ) by {
            assert(state.is_child(i));
        }
    }
}

proof fn lemma_rebase_ordered(state: State, k: int, current: Option<Seq<char>>, dealt: Set<int>)
    requires
        0 <= k <= state.queue.len(),
        chosen(state),
        queue_fits(state, current),
        in_turn(state, dealt, k),
    ensures
        ordered(state.rebase(k).state, current, dealt),
{
    state::lemma_next_child(state, k);
    let later = state.next_child(k);
    assert(in_turn(state, dealt, later)) by {
        assert forall|i: int|
            0 <= i < later && i < state.queue.len() && #[trigger] state.is_child(
                i,
            ) implies dealt.contains(i) by {}
    }
    lemma_push_moves_past(state, 0);
    if later < state.queue.len() {
        let turned = state.rebase(k).state;
        assert forall|i: int|
            0 <= i < later && #[trigger] turned.is_child(i) implies dealt.contains(i) by {
            assert(state.is_child(i));
        }
    } else {
        lemma_ordered_past(state, state.push(), current, dealt);
    }
}

proof fn lemma_settled_in_turn(state: State, settled: State, dealt: Set<int>)
    requires
        settled.queue == state.queue,
        settled.tree == state.tree,
        in_turn(state, dealt, state.at),
    ensures
        in_turn(settled, dealt.insert(state.at), state.at + 1),
{
    let more = dealt.insert(state.at);
    assert forall|i: int|
        0 <= i < state.at + 1 && i < settled.queue.len() && #[trigger] settled.is_child(
            i,
        ) implies more.contains(i) by {
        if i < state.at {
            assert(state.is_child(i));
        }
    }
}

proof fn lemma_same_ordered(state: State, turn: Turn, current: Option<Seq<char>>, dealt: Set<int>)
    requires
        ordered(state, current, dealt),
        turn.state.queue == state.queue,
        turn.state.tree == state.tree,
        turn.state.opts == state.opts,
        turn.state.at == state.at,
        chosen(turn.state) ==> chosen(state),
        turn.state.stage.rebases() ==> state.stage.rebases(),
        turn.state.stage.concludes() ==> state.stage.concludes(),
    ensures
        ordered(turn.state, current, dealt),
{
    assert forall|i: int| 0 <= i < state.queue.len() && #[trigger] turn.state.is_child(
        i,
    ) implies state.is_child(i) by {}
}

pub proof fn lemma_done_ordered(state: State, current: Option<Seq<char>>, dealt: Set<int>)
    requires
        state.valid(),
        state.accepts(Event::Done),
        ordered(state, current, dealt),
    ensures
        ordered(state.after_done().state, current, dealt_after(state, Event::Done, dealt)),
{
    match state.stage {
        Stage::Rebase => {
            let settled = State { rebased: state.rebased + 1, ..state.settle() };
            lemma_settled_in_turn(state, settled, dealt);
            lemma_rebase_ordered(settled, state.at + 1, current, dealt.insert(state.at));
        },
        Stage::Push => {
            lemma_push_moves_past(state, state.at + 1);
            lemma_ordered_past(state, state.after_done(), current, dealt);
        },
        Stage::DeleteBranch | Stage::DeleteRemote => {
            lemma_prune_moves_past(state, state.at + 1);
            lemma_ordered_past(state, state.after_done(), current, dealt);
        },
        _ => lemma_same_ordered(state, state.after_done(), current, dealt),
    }
}

pub proof fn lemma_failure_ordered(state: State, fault: Fault, current: Option<Seq<char>>, dealt: Set<int>)
    requires
        state.valid(),
        !state.stage.ends(),
        ordered(state, current, dealt),
    ensures
        ordered(state.after_failure(fault).state, current, dealt),
{
    match state.stage {
        Stage::Push => {
            lemma_push_moves_past(state, state.at + 1);
            lemma_ordered_past(state, state.after_failure(fault), current, dealt);
        },
        Stage::RemoveWorktree | Stage::DeleteBranch | Stage::DeleteRemote => {
            lemma_prune_moves_past(state, state.at + 1);
            lemma_ordered_past(state, state.after_failure(fault), current, dealt);
        },
        _ => lemma_same_ordered(state, state.after_failure(fault), current, dealt),
    }
}

proof fn lemma_begin_ordered(state: State, queue: Seq<Seq<char>>, current: Option<Seq<char>>, dealt: Set<int>)
    requires
        state.valid(),
        state.stage is Locate,
        queue_fits(State { queue, ..state }, current),
    ensures
        ordered(state.begin(queue).state, current, dealt),
{
    let begun = State { queue, ..state };
    let turned = state.begin(queue).state;
    assert(turned.queue == queue && turned.tree == state.tree && turned.opts == state.opts);
    assert(!turned.stage.rebases() && !turned.stage.concludes());
}

proof fn lemma_select_ordered(state: State, current: Option<Seq<char>>, dealt: Set<int>)
    requires
        state.valid(),
        state.stage is Locate,
    ensures
        ordered(state.select(current).state, current, dealt),
{
    let idle = state.nothing_to_sync();
    if state.opts.all {
        let queue = state.tree.sync_order();
        if queue.len() == 0 {
            assert(state.select(current).state == idle.state);
            assert(idle.state.queue =~= queue);
        } else {
            lemma_begin_ordered(state, queue, current, dealt);
            assert(state.select(current) == state.begin(queue));
        }
    } else if current is Some {
        let queue = state.tree.stack_containing(current->0);
        if queue.len() == 0 {
            assert(state.select(current).state == idle.state);
            assert(idle.state.queue =~= idle.state.tree.stack_containing(current->0));
        } else {
            let begun = State { queue, ..state };
            assert(begun.queue == begun.tree.stack_containing(current->0));
            lemma_begin_ordered(state, queue, current, dealt);
            assert(state.select(current) == state.begin(queue));
        }
    }
}

pub proof fn lemma_name_ordered(state: State, name: Option<Seq<char>>, current: Option<Seq<char>>, dealt: Set<int>)
    requires
        state.valid(),
        ordered(state, current, dealt),
        match state.stage {
            Stage::Locate
            | Stage::PreviewBase
            | Stage::FindBase
            | Stage::AskRemote
            | Stage::PruneRemote => true,
            _ => false,
        },
    ensures
        ordered(
            state.after_name(name).state,
            if state.stage is Locate {
                name
            } else {
                current
            },
            if state.stage is FindBase && name is None {
                dealt.insert(state.at)
            } else {
                dealt
            },
        ),
{
    match state.stage {
        Stage::Locate => lemma_select_ordered(state, name, dealt),
        Stage::PreviewBase => {
            let turn = state.after_name(name);
            assert(moves_past(state, turn));
            lemma_ordered_past(state, turn, current, dealt);
        },
        Stage::FindBase => {
            if name is None {
                lemma_settled_in_turn(state, state, dealt);
                lemma_rebase_ordered(state, state.at + 1, current, dealt.insert(state.at));
            } else {
                lemma_same_ordered(state, state.after_name(name), current, dealt);
            }
        },
        _ => lemma_same_ordered(state, state.after_name(name), current, dealt),
    }
}

pub proof fn lemma_output_ordered(state: State, output: Seq<char>, current: Option<Seq<char>>, dealt: Set<int>)
    requires
        state.valid(),
        ordered(state, current, dealt),
        state.stage is PreviewTip || state.stage is CheckStatus || state.stage is FindTip,
    ensures
        ordered(
            state.after_output(output).state,
            current,
            if state.stage is FindTip && text::trim(output) == state.merge_base {
                dealt.insert(state.at)
            } else {
                dealt
            },
        ),
{
    let told = State { tip: text::trim(output), ..state };
    match state.stage {
        Stage::FindTip => {
            if told.merge_base == told.tip {
                let settled = State { skipped: told.skipped + 1, ..told.settle() };
                lemma_settled_in_turn(state, settled, dealt);
                lemma_rebase_ordered(settled, state.at + 1, current, dealt.insert(state.at));
            } else {
                lemma_same_ordered(state, state.after_output(output), current, dealt);
            }
        },
        _ => {
            let turn = state.after_output(output);
            assert(moves_past(state, turn));
            lemma_ordered_past(state, turn, current, dealt);
        },
    }
}

pub proof fn lemma_flag_ordered(state: State, yes: bool, current: Option<Seq<char>>, dealt: Set<int>)
    requires
        state.valid(),
        ordered(state, current, dealt),
        match state.stage {
            Stage::CheckRebase | Stage::AskConflict | Stage::AskUpstream | Stage::PruneUpstream => true,
            _ => false,
        },
    ensures
        ordered(state.after_flag(yes).state, current, dealt),
{
    match state.stage {
        Stage::AskConflict => lemma_same_ordered(state, state.after_flag(yes), current, dealt),
        Stage::AskUpstream => {
            lemma_push_moves_past(state, state.at + 1);
            lemma_push_moves_past(
                State { pushable: state.pushable.push(state.branch()), ..state },
                state.at + 1,
            );
            lemma_ordered_past(state, state.after_flag(yes), current, dealt);
        },
        _ => {
            let turn = state.after_flag(yes);
            assert(moves_past(state, turn));
            lemma_ordered_past(state, turn, current, dealt);
        },
    }
}

pub proof fn lemma_points_ordered(state: State, points: Map<Seq<char>, Seq<char>>, current: Option<Seq<char>>, dealt: Set<int>)
    requires
        state.valid(),
        ordered(state, current, dealt),
        state.stage is PreviewPoints || state.stage is ReadPoints,
    ensures
        ordered(state.after_points(points).state, current, dealt),
{
    if state.stage is ReadPoints {
        let read = State { points, ..state };
        lemma_rebase_ordered(read, 0, current, dealt);
    } else {
        let turn = state.after_points(points);
        assert(moves_past(state, turn));
        lemma_ordered_past(state, turn, current, dealt);
    }
}

} // verus!
