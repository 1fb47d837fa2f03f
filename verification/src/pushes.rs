//! Which branches a sync pushes.

use vstd::prelude::*;

use crate::failure::Fault;
use crate::state::{Event, Stage, State, Turn};
use crate::text;

verus! {

/// When an upstream is asked for, the answer is noted.
pub open spec fn answers_after(state: State, event: Event, answers: Seq<bool>) -> Seq<bool> {
    match event {
        Event::Flag(yes) => if state.stage is AskUpstream {
            answers.push(yes)
        } else {
            answers
        },
        _ => answers,
    }
}

/// Where the answer is yes.
pub open spec fn agreed(answers: Seq<bool>) -> Seq<int>
    decreases answers.len(),
{
    if answers.len() == 0 {
        seq![]
    } else if answers.last() {
        agreed(answers.drop_last()).push(answers.len() - 1)
    } else {
        agreed(answers.drop_last())
    }
}

/// Those of `queue` for which the answer is yes.
pub open spec fn picked(queue: Seq<Seq<char>>, answers: Seq<bool>) -> Seq<Seq<char>> {
    Seq::new(agreed(answers).len(), |i: int| queue[agreed(answers)[i]])
}

/// What holds of the answers and of the branches to push.
pub open spec fn polled(state: State, answers: Seq<bool>) -> bool {
    &&& answers.len() <= state.queue.len()
    &&& state.pushable == picked(state.queue, answers)
    &&& state.stage.prepares() || state.stage.rebases() ==> answers.len() == 0
    &&& state.stage is AskUpstream ==> answers.len() == state.at
    &&& state.opts.push && state.stage.concludes() && !(state.stage is AskUpstream)
        ==> answers.len() == state.queue.len()
}

/// The positions with a yes are in order, and there the answer is yes.
pub proof fn lemma_agreed(answers: Seq<bool>)
    ensures
        forall|i: int|
            0 <= i < agreed(answers).len() ==> 0 <= #[trigger] agreed(answers)[i] < answers.len()
                && answers[agreed(answers)[i]],
        forall|i: int, j: int|
            0 <= i < j < agreed(answers).len() ==> #[trigger] agreed(answers)[i]
                < #[trigger] agreed(answers)[j],
        forall|p: int|
            0 <= p < answers.len() && #[trigger] answers[p] ==> agreed(answers).contains(p),
    decreases answers.len(),
{
    if answers.len() > 0 {
        let front = answers.drop_last();
        let all = agreed(answers);
        let older = agreed(front);
        lemma_agreed(front);
        assert forall|i: int| 0 <= i < all.len() implies 0 <= #[trigger] all[i] < answers.len()
            && answers[all[i]] by {
            if i < older.len() {
                assert(all[i] == older[i]);
                assert(front[older[i]]);
            }
        }
        assert forall|i: int, j: int| 0 <= i < j < all.len() implies #[trigger] all[i]
            < #[trigger] all[j] by {
            assert(all[i] == older[i]);
            if j < older.len() {
                assert(all[j] == older[j]);
            }
        }
        assert forall|p: int| 0 <= p < answers.len() && #[trigger] answers[p] implies all.contains(
            p,
        ) by {
            if p < front.len() {
                assert(front[p]);
                let i = choose|i: int| 0 <= i < older.len() && older[i] == p;
                assert(all[i] == p);
            } else {
                assert(all[older.len() as int] == p);
            }
        }
    }
}

proof fn lemma_picked_push(queue: Seq<Seq<char>>, answers: Seq<bool>, yes: bool)
    ensures
        picked(queue, answers.push(yes)) == (if yes {
            picked(queue, answers).push(queue[answers.len() as int])
        } else {
            picked(queue, answers)
        }),
{
    assert(answers.push(yes).drop_last() =~= answers);
    assert(answers.push(yes).last() == yes);
    if yes {
        assert(picked(queue, answers.push(yes)) =~= picked(queue, answers).push(
            queue[answers.len() as int],
        ));
    }
}

/// Whether `turn` keeps the queue and the branches to push.
spec fn carries(state: State, turn: Turn) -> bool {
    &&& turn.state.queue == state.queue
    &&& turn.state.pushable == state.pushable
    &&& turn.state.opts == state.opts
}

proof fn lemma_prune_carries(state: State, k: int)
    ensures
        carries(state, state.prune()),
        carries(state, state.prune_from(k)),
        state.prune().state.stage.prunes() || state.prune().state.stage is SavePoints,
        state.prune_from(k).state.stage.prunes() || state.prune_from(k).state.stage is SavePoints,
{
}

proof fn lemma_push_polled(state: State, k: int, answers: Seq<bool>)
    requires
        state.pushable == picked(state.queue, answers),
        answers.len() <= state.queue.len(),
    ensures
        answers.len() == 0 ==> polled(state.push().state, answers),
        0 <= k == answers.len() ==> polled(state.ask_upstream(k).state, answers),
        answers.len() == state.queue.len() ==> polled(state.push_from(k).state, answers),
{
    lemma_prune_carries(state, 0);
}

proof fn lemma_rebase_polled(state: State, k: int, answers: Seq<bool>)
    requires
        state.pushable == picked(state.queue, answers),
        answers.len() == 0,
    ensures
        polled(state.rebase(k).state, answers),
{
    lemma_push_polled(state, 0, answers);
}

pub proof fn lemma_done_polled(state: State, answers: Seq<bool>)
    requires
        state.valid(),
        state.accepts(Event::Done),
        polled(state, answers),
    ensures
        polled(state.after_done().state, answers),
{
    match state.stage {
        Stage::Rebase => lemma_rebase_polled(
            State { rebased: state.rebased + 1, ..state.settle() },
            state.at + 1,
            answers,
        ),
        Stage::Push => lemma_push_polled(state, state.at + 1, answers),
        Stage::DeleteBranch | Stage::DeleteRemote => lemma_prune_carries(state, state.at + 1),
        _ => {},
    }
}

pub proof fn lemma_failure_polled(state: State, fault: Fault, answers: Seq<bool>)
    requires
        state.valid(),
        !state.stage.ends(),
        polled(state, answers),
    ensures
        polled(state.after_failure(fault).state, answers),
{
    match state.stage {
        Stage::Push => lemma_push_polled(state, state.at + 1, answers),
        Stage::RemoveWorktree | Stage::DeleteBranch | Stage::DeleteRemote => lemma_prune_carries(
            state,
            state.at + 1,
        ),
        _ => {},
    }
}

pub proof fn lemma_name_polled(state: State, name: Option<Seq<char>>, answers: Seq<bool>)
    requires
        state.valid(),
        match state.stage {
            Stage::Locate
            | Stage::PreviewBase
            | Stage::FindBase
            | Stage::AskRemote
            | Stage::PruneRemote => true,
            _ => false,
        },
        polled(state, answers),
    ensures
        polled(state.after_name(name).state, answers),
{
    match state.stage {
        Stage::Locate => {
            assert forall|queue: Seq<Seq<char>>|
                polled((#[trigger] state.begin(queue)).state, answers) by {
                assert(picked(queue, answers) =~= state.pushable);
            }
        },
        Stage::FindBase => lemma_rebase_polled(state, state.at + 1, answers),
        _ => {},
    }
}

pub proof fn lemma_output_polled(state: State, output: Seq<char>, answers: Seq<bool>)
    requires
        state.valid(),
        state.stage is PreviewTip || state.stage is CheckStatus || state.stage is FindTip,
        polled(state, answers),
    ensures
        polled(state.after_output(output).state, answers),
{
    let told = State { tip: text::trim(output), ..state };
    if state.stage is FindTip && told.merge_base == told.tip {
        lemma_rebase_polled(
            State { skipped: told.skipped + 1, ..told.settle() },
            state.at + 1,
            answers,
        );
    }
}

pub proof fn lemma_flag_polled(state: State, yes: bool, answers: Seq<bool>)
    requires
        state.valid(),
        match state.stage {
            Stage::CheckRebase | Stage::AskConflict | Stage::AskUpstream | Stage::PruneUpstream => true,
            _ => false,
        },
        polled(state, answers),
    ensures
        polled(
            state.after_flag(yes).state,
            if state.stage is AskUpstream {
                answers.push(yes)
            } else {
                answers
            },
        ),
{
    if state.stage is AskUpstream {
        lemma_picked_push(state.queue, answers, yes);
        let told = if yes {
            State { pushable: state.pushable.push(state.branch()), ..state }
        } else {
            state
        };
        lemma_push_polled(told, state.at + 1, answers.push(yes));
    }
}

pub proof fn lemma_points_polled(
    state: State,
    points: Map<Seq<char>, Seq<char>>,
    answers: Seq<bool>,
)
    requires
        state.valid(),
        state.stage is PreviewPoints || state.stage is ReadPoints,
        polled(state, answers),
    ensures
        polled(state.after_points(points).state, answers),
{
    if state.stage is ReadPoints {
        lemma_rebase_polled(State { points, ..state }, 0, answers);
    }
}

} // verus!
