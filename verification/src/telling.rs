//! What a sync tells on its way.

use vstd::prelude::*;

use crate::failure;
use crate::failure::{Failure, Fault};
use crate::ledger;
use crate::notice::Message;
use crate::options::SyncOptions;
use crate::plan;
use crate::state;
use crate::state::{Event, Stage, State};
use crate::text;
use crate::tree;

verus! {

/// What is told of the action at hand and of what came of it.
pub open spec fn outcome(state: State, event: Event) -> Seq<Message> {
    let site = state.integrated[state.at];
    match state.stage {
        Stage::Fetch => if event is Done {
            seq![Message::fetched()]
        } else {
            seq![]
        },
        Stage::FindTip => match event {
            Event::Output(output) => if text::trim(output@) == state.merge_base {
                seq![Message::up_to_date(state.branch(), state.parent())]
            } else {
                announced(state)
            },
            _ => seq![],
        },
        Stage::Rebase => if event is Done {
            seq![Message::rebased(state.branch(), state.parent())]
        } else {
            seq![]
        },
        Stage::AskConflict => if event == Event::Flag(true) {
            seq![
                Message::conflict(state.branch(), state.parent()),
                Message::conflict_hint(state.node().path),
            ]
        } else {
            seq![]
        },
        Stage::AskRemote => match event {
            Event::Name(name) => seq![
                Message::pushing(state.pushable[state.at], ledger::named_remote(name)),
            ],
            _ => seq![],
        },
        Stage::Push => match event {
            Event::Failed(failure) => seq![
                Message::push_failed(state.pushable[state.at], failure.message@),
            ],
            _ => seq![Message::pushed(state.pushable[state.at])],
        },
        Stage::RemoveWorktree => match event {
            Event::Failed(failure) => seq![
                Message::remove_failed(site.branch, failure.message@),
                Message::remove_hint(site.path),
            ],
            _ => seq![],
        },
        Stage::DeleteBranch => {
            let gone = if state.has_upstream {
                seq![]
            } else {
                seq![Message::removed(site.branch)]
            };
            match event {
                Event::Failed(failure) => seq![
                    Message::delete_failed(site.branch, failure.message@),
                ] + gone,
                _ => gone,
            }
        },
        Stage::DeleteRemote => match event {
            Event::Failed(failure) => seq![
                Message::remote_delete_failed(site.branch, failure.message@),
                Message::removed(site.branch),
            ],
            _ => seq![Message::removed(site.branch)],
        },
        _ => seq![],
    }
}

/// What is told before the branch at hand is rebased: where it goes and, if it was taken from an
/// integrated parent, from where; with the git command if commands are to be shown.
pub open spec fn announced(state: State) -> Seq<Message> {
    let told = if state.node().original_parent is Some {
        Message::moving(state.branch(), state.parent(), state.node().original_parent->0)
    } else {
        Message::rebasing(state.branch(), state.parent())
    };
    if state.opts.verbose {
        seq![
            told,
            Message::line(plan::command(state.parent(), state.base(), state.branch())),
        ]
    } else {
        seq![told]
    }
}

/// What is told if there is nothing to sync.
pub open spec fn located(state: State, event: Event) -> Seq<Message> {
    match event {
        Event::Name(name) => if !(state.stage is Locate) {
            seq![]
        } else if state.opts.all {
            if state.tree.sync_order().len() == 0 {
                seq![Message::all_up_to_date()]
            } else {
                seq![]
            }
        } else if name is Some && state.tree.stack_containing(name->0@).len() == 0 {
            seq![Message::no_stack(name->0@)]
        } else {
            seq![]
        },
        _ => seq![],
    }
}

/// What is told when all rebases are over: the numbers if a branch was rebased; that nothing had
/// to be done if all were up to date.
pub open spec fn summed_up(state: State, after: State) -> Seq<Message> {
    if state.stage.concludes() || !after.stage.concludes() {
        seq![]
    } else if after.rebased > 0 {
        seq![Message::summary(after.rebased, after.skipped)]
    } else if after.skipped > 0 {
        seq![Message::all_up_to_date()]
    } else {
        seq![]
    }
}

/// What is told when something new begins: an empty line before the first push and before the
/// first removal, and the branch whose worktree is to be removed.
pub open spec fn begun(state: State, after: State) -> Seq<Message> {
    if after.stage is AskRemote && state.stage is Push {
        seq![]
    } else if after.stage is AskRemote {
        seq![Message::blank()]
    } else if after.stage is PruneUpstream {
        let removing = Message::removing(after.integrated[after.at].branch);
        if state.stage.prunes() {
            seq![removing]
        } else {
            seq![Message::blank(), removing]
        }
    } else {
        seq![]
    }
}

/// What a dry run tells at its end, unless there is nothing to sync: the plan, line by line.
pub open spec fn planned(state: State, after: State) -> Seq<Message> {
    if after.stage is Finished && after.opts.dry_run && (state.stage.previews()
        || after.queue.len() > 0) {
        let lines = plan::plan(after.tree, after.queue, after.bases);
        Seq::new(lines.len(), |i: int| Message::line(lines[i]))
    } else {
        seq![]
    }
}

/// All that is told on the way from `state` to `after`.
pub open spec fn told(state: State, event: Event, after: State) -> Seq<Message> {
    outcome(state, event) + located(state, event) + summed_up(state, after) + begun(state, after)
        + planned(state, after)
}

/// What is told at the start: that the remote is asked, if it is.
pub proof fn law_told_first(opts: SyncOptions)
    ensures
        State::start(opts).messages == (if opts.fetch {
            seq![Message::fetching()]
        } else {
            seq![]
        }),
{
}

/// What is told after an event: what came of the action at hand; if there is nothing to sync, that;
/// when the rebases are over, their sum; and what begins then.
#[verifier::spinoff_prover]
#[verifier::rlimit(60)]
pub proof fn law_told(state: State, event: Event)
    requires
        state.valid(),
        state.accepts(event),
    ensures
        state.after(event).messages == told(state, event, state.after(event).state),
{
    match event {
        Event::Done => lemma_done_told(state),
        Event::Failed(failure) => lemma_failure_told(state, failure),
        Event::Name(name) => lemma_name_told(state, name),
        Event::Output(output) => lemma_output_told(state, output),
        Event::Flag(yes) => lemma_flag_told(state, yes),
        Event::Contents(content) => lemma_points_told(state, content),
        _ => {},
    }
}

proof fn lemma_prune_told(state: State, k: int)
    ensures
        ({
            let after = state.prune().state;
            &&& after.stage.concludes()
            &&& !(after.stage is AskRemote)
            &&& after.rebased == state.rebased && after.skipped == state.skipped
            &&& state.prune().messages == (if after.stage is PruneUpstream {
                seq![
                    Message::blank(),
                    Message::removing(after.integrated[after.at].branch),
                ]
            } else {
                seq![]
            })
        }),
        ({
            let after = state.prune_from(k).state;
            &&& after.stage.concludes()
            &&& !(after.stage is AskRemote)
            &&& after.rebased == state.rebased && after.skipped == state.skipped
            &&& state.prune_from(k).messages == (if after.stage is PruneUpstream {
                seq![Message::removing(after.integrated[after.at].branch)]
            } else {
                seq![]
            })
        }),
{
    assert(state.prune().messages =~= (if state.prune().state.stage is PruneUpstream {
        seq![
            Message::blank(),
            Message::removing(state.prune().state.integrated[state.prune().state.at].branch),
        ]
    } else {
        seq![]
    }));
}

/// What is told when pushes are begun from elsewhere.
spec fn opened(after: State) -> Seq<Message> {
    if after.stage is AskRemote {
        seq![Message::blank()]
    } else if after.stage is PruneUpstream {
        seq![Message::blank(), Message::removing(after.integrated[after.at].branch)]
    } else {
        seq![]
    }
}

proof fn lemma_push_told(state: State, k: int)
    ensures
        ({
            let after = state.push().state;
            &&& after.stage.concludes()
            &&& after.rebased == state.rebased && after.skipped == state.skipped
            &&& state.push().messages == opened(after)
        }),
        ({
            let after = state.ask_upstream(k).state;
            &&& after.stage.concludes()
            &&& after.rebased == state.rebased && after.skipped == state.skipped
            &&& state.ask_upstream(k).messages == opened(after)
        }),
        ({
            let after = state.push_from(k).state;
            &&& after.stage.concludes()
            &&& after.rebased == state.rebased && after.skipped == state.skipped
            &&& state.push_from(k).messages == (if after.stage is AskRemote {
                seq![]
            } else {
                opened(after)
            })
        }),
{
    lemma_prune_told(state, 0);
    assert(state.push_from(k).messages =~= (if state.push_from(k).state.stage is AskRemote {
        seq![]
    } else {
        opened(state.push_from(k).state)
    }));
    assert(state.push_from(0).messages =~= (if state.push_from(0).state.stage is AskRemote {
        seq![]
    } else {
        opened(state.push_from(0).state)
    }));
    assert(state.ask_upstream(k).messages =~= opened(state.ask_upstream(k).state));
    assert(state.ask_upstream(0).messages =~= opened(state.ask_upstream(0).state));
    assert(state.push().messages =~= opened(state.push().state));
}

proof fn lemma_rebase_told(state: State, k: int)
    ensures
        ({
            let after = state.rebase(k).state;
            &&& after.stage is FindBase || after.stage.concludes()
            &&& state.rebase(k).messages == (if after.stage is FindBase {
                seq![]
            } else if after.rebased > 0 {
                seq![Message::summary(after.rebased, after.skipped)] + opened(after)
            } else if after.skipped > 0 {
                seq![Message::all_up_to_date()] + opened(after)
            } else {
                opened(after)
            })
        }),
{
    lemma_push_told(state, 0);
}

proof fn lemma_done_told(state: State)
    requires
        state.valid(),
        state.accepts(Event::Done),
    ensures
        state.after_done().messages == told(state, Event::Done, state.after_done().state),
{
    let after = state.after_done().state;
    let k = state.at + 1;
    match state.stage {
        Stage::Rebase => lemma_rebase_told(
            State { rebased: state.rebased + 1, ..state.settle() },
            k,
        ),
        Stage::Push => lemma_push_told(state, k),
        Stage::DeleteBranch | Stage::DeleteRemote => lemma_prune_told(state, k),
        _ => {},
    }
    assert(state.after_done().messages =~= told(state, Event::Done, after));
}

proof fn lemma_failure_told(state: State, failure: Failure)
    requires
        state.valid(),
        state.accepts(Event::Failed(failure)),
    ensures
        state.after_failure(failure@).messages == told(
            state,
            Event::Failed(failure),
            state.after_failure(failure@).state,
        ),
{
    let after = state.after_failure(failure@).state;
    let k = state.at + 1;
    match state.stage {
        Stage::Push => lemma_push_told(state, k),
        Stage::RemoveWorktree | Stage::DeleteBranch | Stage::DeleteRemote => lemma_prune_told(
            state,
            k,
        ),
        _ => {},
    }
    assert(state.after_failure(failure@).messages =~= told(state, Event::Failed(failure), after));
}

proof fn lemma_select_told(state: State, name: Option<String>)
    requires
        state.valid(),
        state.stage is Locate,
    ensures
        ({
            let turn = state.select(tree::optional_text(name));
            turn.messages == located(state, Event::Name(name)) + planned(state, turn.state)
                && !turn.state.stage.concludes()
        }),
{
    let turn = state.select(tree::optional_text(name));
    let want = located(state, Event::Name(name)) + planned(state, turn.state);
    assert forall|queue: Seq<Seq<char>>| queue.len() > 0 implies (#[trigger] state.begin(
        queue,
    )).messages == planned(state, state.begin(queue).state) && !state.begin(
        queue,
    ).state.stage.concludes() by {
        let begun = state.begin(queue);
        assert(begun.messages =~= planned(state, begun.state));
    }
    if state.opts.all {
        assert(turn.messages =~= want);
    } else if let Some(branch) = name {
        assert(turn.messages =~= want);
    } else {
        assert(turn.messages =~= want);
    }
}

proof fn lemma_name_told(state: State, name: Option<String>)
    requires
        state.valid(),
        state.accepts(Event::Name(name)),
    ensures
        state.after_name(tree::optional_text(name)).messages == told(
            state,
            Event::Name(name),
            state.after_name(tree::optional_text(name)).state,
        ),
{
    let turn = state.after_name(tree::optional_text(name));
    match state.stage {
        Stage::Locate => lemma_select_told(state, name),
        Stage::FindBase => lemma_rebase_told(state, state.at + 1),
        _ => {},
    }
    assert(turn.messages =~= told(state, Event::Name(name), turn.state));
}

proof fn lemma_output_told(state: State, output: String)
    requires
        state.valid(),
        state.accepts(Event::Output(output)),
    ensures
        state.after_output(output@).messages == told(
            state,
            Event::Output(output),
            state.after_output(output@).state,
        ),
{
    let tipped = State { tip: text::trim(output@), ..state };
    let turn = state.after_output(output@);
    if state.stage is FindTip && tipped.merge_base == tipped.tip {
        lemma_rebase_told(State { skipped: tipped.skipped + 1, ..tipped.settle() }, state.at + 1);
    }
    assert(turn.messages =~= told(state, Event::Output(output), turn.state));
}

proof fn lemma_flag_told(state: State, yes: bool)
    requires
        state.valid(),
        state.accepts(Event::Flag(yes)),
    ensures
        state.after_flag(yes).messages == told(
            state,
            Event::Flag(yes),
            state.after_flag(yes).state,
        ),
{
    let turn = state.after_flag(yes);
    if state.stage is AskUpstream {
        lemma_push_told(state, state.at + 1);
        lemma_push_told(
            State { pushable: state.pushable.push(state.branch()), ..state },
            state.at + 1,
        );
    }
    assert(turn.messages =~= told(state, Event::Flag(yes), turn.state));
}

proof fn lemma_points_told(state: State, content: Option<String>)
    requires
        state.valid(),
        state.accepts(Event::Contents(content)),
    ensures
        state.after_points(state::points_in(content)).messages == told(
            state,
            Event::Contents(content),
            state.after_points(state::points_in(content)).state,
        ),
{
    let points = state::points_in(content);
    let turn = state.after_points(points);
    if state.stage is ReadPoints {
        lemma_rebase_told(State { points, ..state }, 0);
    }
    assert(turn.messages =~= told(state, Event::Contents(content), turn.state));
}

/// What comes of an action that failed. A push or a removal that failed does not end the sync. A
/// rebase that failed is looked at once more. All else ends the sync, and what went wrong is
/// reported, summed up where the action was one of the sync itself.
pub proof fn law_failures(state: State, failure: Failure)
    requires
        state.valid(),
        state.accepts(Event::Failed(failure)),
    ensures
        ({
            let after = state.after_failure(failure@).state;
            let causes = seq![failure.message@] + text::texts(failure.causes@);
            match state.stage {
                Stage::Push
                | Stage::RemoveWorktree
                | Stage::DeleteBranch
                | Stage::DeleteRemote => after.stage.concludes(),
                Stage::Rebase => after.stage is AskConflict && after.at == state.at && after.fault
                    == failure@,
                Stage::Fetch => after.stage is Failed && after.fault == (Fault {
                    message: "git fetch failed"@,
                    causes,
                }),
                Stage::MakeDataDir => after.stage is Failed && after.fault == (Fault {
                    message: "Failed to create .git/wt directory"@,
                    causes,
                }),
                Stage::WriteStack => after.stage is Failed && after.fault == (Fault {
                    message: "Failed to write stack file"@,
                    causes,
                }),
                Stage::SavePoints | Stage::SaveAfterConflict => after.stage is Failed
                    && after.fault == (Fault {
                    message: "Failed to write fork-points file"@,
                    causes,
                }),
                _ => after.stage is Failed && after.fault.message == failure.message@
                    && after.fault.causes == text::texts(failure.causes@),
            }
        }),
{
}

/// What ends a sync though no action failed: a rebase in progress in a worktree, a current worktree
/// without a branch, and a rebase that failed for another reason than a conflict.
pub proof fn law_refusals(state: State)
    requires
        state.valid(),
    ensures
        state.stage is CheckRebase ==> {
            let after = state.after_flag(true).state;
            &&& after.stage is Failed
            &&& after.fault.message == "branch '"@ + state.queue[state.at]
                + "' has a rebase in progress"@
            &&& after.fault.causes == seq![
                "Resolve it with `git rebase --continue` or `git rebase --abort` first."@,
            ]
        },
        state.stage is Locate && !state.opts.all ==> {
            let after = state.after_name(None).state;
            &&& after.stage is Failed
            &&& after.fault.message
                == "Current worktree has no branch. Use --all to sync all branches."@
            &&& after.fault.causes.len() == 0
        },
        state.stage is AskConflict ==> {
            let after = state.after_flag(false).state;
            &&& after.stage is Failed
            &&& after.fault.message == "Failed to rebase "@ + state.queue[state.at] + " onto "@
                + state.tree.nodes[state.queue[state.at]].parent->0
            &&& after.fault.causes == seq![state.fault.message] + state.fault.causes
        },
        state.stage is SaveAfterConflict ==> {
            let after = state.after_done().state;
            &&& after.stage is Failed
            &&& after.fault.message == "rebase conflict — resolve and re-run `wt sync`"@
            &&& after.fault.causes.len() == 0
        },
{
    assert(state.stage is CheckRebase ==> state.after_flag(true).state.fault.causes =~= seq![
        "Resolve it with `git rebase --continue` or `git rebase --abort` first."@,
    ]);
}

/// A fault is reported line by line: what went wrong, and then each of its causes.
pub proof fn law_report(fault: Fault)
    ensures
        fault.lines().len() == 1 + fault.causes.len(),
        fault.lines()[0] == "Error: "@ + fault.message,
        forall|i: int|
            0 <= i < fault.causes.len() ==> #[trigger] fault.lines()[i + 1] == "  caused by: "@
                + fault.causes[i],
{
}

/// What sums a fault up becomes its message; all that was said before stays, as its causes.
pub proof fn law_under(fault: Fault, message: Seq<char>)
    ensures
        fault.under(message).message == message,
        fault.under(message).causes.len() == fault.causes.len() + 1,
        fault.under(message).causes[0] == fault.message,
        forall|i: int|
            0 <= i < fault.causes.len() ==> #[trigger] fault.under(message).causes[i + 1]
                == fault.causes[i],
        failure::plain_fault(message).message == message,
        failure::plain_fault(message).causes.len() == 0,
{
}

} // verus!
