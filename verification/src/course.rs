//! The course of a sync: what has happened on the way to where it stands.

use std::path::PathBuf;

use vstd::prelude::*;

use crate::checks;
use crate::failure;
use crate::fork_points;
use crate::ledger;
use crate::ledger::Ledger;
use crate::moves;
use crate::options::SyncOptions;
use crate::pushes;
use crate::stack_file;
use crate::state;
use crate::state::{Action, Event, Stage, State};
use crate::text;
use crate::tree;
use crate::turns;
use crate::wiring;

verus! {

/// What a sync has got to after `events`.
pub open spec fn run(opts: SyncOptions, events: Seq<Event>) -> State
    decreases events.len(),
{
    if events.len() == 0 {
        State::start(opts).state
    } else {
        next(run(opts, events.drop_last()), events.last())
    }
}

/// What a sync that has got to `state` gets to by `event`.
#[verifier::opaque]
pub open spec fn next(state: State, event: Event) -> State {
    state.after(event).state
}

/// Whether each of `events` can come of the action that it follows.
pub open spec fn proper(opts: SyncOptions, events: Seq<Event>) -> bool
    decreases events.len(),
{
    events.len() > 0 ==> proper(opts, events.drop_last()) && run(
        opts,
        events.drop_last(),
    ).accepts(events.last())
}

/// Which branches of the queue were found to be without tracked changes.
pub open spec fn found_clean(opts: SyncOptions, events: Seq<Event>) -> Set<int>
    decreases events.len(),
{
    if events.len() == 0 {
        Set::empty()
    } else {
        checks::clean_after(
            run(opts, events.drop_last()),
            events.last(),
            found_clean(opts, events.drop_last()),
        )
    }
}

/// Which branches of the queue were found to be without a rebase in progress.
pub open spec fn found_idle(opts: SyncOptions, events: Seq<Event>) -> Set<int>
    decreases events.len(),
{
    if events.len() == 0 {
        Set::empty()
    } else {
        checks::idle_after(
            run(opts, events.drop_last()),
            events.last(),
            found_idle(opts, events.drop_last()),
        )
    }
}

/// The current branch, once it was asked for.
pub open spec fn current(opts: SyncOptions, events: Seq<Event>) -> Option<Seq<char>>
    decreases events.len(),
{
    if events.len() == 0 {
        None
    } else {
        turns::current_after(
            run(opts, events.drop_last()),
            events.last(),
            current(opts, events.drop_last()),
        )
    }
}

/// For each branch of the queue, in order, whether it was found to have an upstream.
pub open spec fn upstreams(opts: SyncOptions, events: Seq<Event>) -> Seq<bool>
    decreases events.len(),
{
    if events.len() == 0 {
        seq![]
    } else {
        pushes::answers_after(
            run(opts, events.drop_last()),
            events.last(),
            upstreams(opts, events.drop_last()),
        )
    }
}

/// Which branches of the queue were dealt with: rebased, found to be up to date, or passed over
/// because they share no history with their parent.
pub open spec fn dealt_with(opts: SyncOptions, events: Seq<Event>) -> Set<int>
    decreases events.len(),
{
    if events.len() == 0 {
        Set::empty()
    } else {
        turns::dealt_after(
            run(opts, events.drop_last()),
            events.last(),
            dealt_with(opts, events.drop_last()),
        )
    }
}

/// What was asked to be previewed, pushed and removed, in order.
pub open spec fn asked_for(opts: SyncOptions, events: Seq<Event>) -> Ledger
    decreases events.len(),
{
    if events.len() == 0 {
        ledger::empty_ledger()
    } else {
        ledger::noted(
            run(opts, events.drop_last()),
            events.last(),
            asked_for(opts, events.drop_last()),
        )
    }
}

#[verifier::spinoff_prover]
#[verifier::rlimit(60)]
proof fn lemma_step(
    state: State,
    event: Event,
    clean: Set<int>,
    idle: Set<int>,
    current: Option<Seq<char>>,
    dealt: Set<int>,
    answers: Seq<bool>,
    log: Ledger,
)
    requires
        state.valid(),
        state.accepts(event),
        checks::shown(state, clean, idle),
        turns::ordered(state, current, dealt),
        pushes::polled(state, answers),
        ledger::right(state, log),
    ensures
        next(state, event).valid(),
        checks::shown(
            next(state, event),
            checks::clean_after(state, event, clean),
            checks::idle_after(state, event, idle),
        ),
        turns::ordered(
            next(state, event),
            turns::current_after(state, event, current),
            turns::dealt_after(state, event, dealt),
        ),
        pushes::polled(next(state, event), pushes::answers_after(state, event, answers)),
        ledger::right(next(state, event), ledger::noted(state, event, log)),
        moves::moves(state, event, next(state, event)),
{
    reveal(next);
    state::law_stays_valid(state, event);
    match event {
        Event::Done => {
            checks::lemma_done_shows(state, clean, idle);
            turns::lemma_done_ordered(state, current, dealt);
            pushes::lemma_done_polled(state, answers);
            moves::lemma_done_moves(state);
            ledger::lemma_done_noted(state, log);
        },
        Event::Failed(failure) => {
            checks::lemma_failure_shows(state, failure@, clean, idle);
            turns::lemma_failure_ordered(state, failure@, current, dealt);
            pushes::lemma_failure_polled(state, failure@, answers);
            moves::lemma_failure_moves(state, failure);
            ledger::lemma_failure_noted(state, failure, log);
        },
        Event::Surveyed { .. } => ledger::lemma_surveyed_noted(
            state,
            state.after(event).state,
            log,
        ),
        Event::Name(name) => {
            let told = tree::optional_text(name);
            checks::lemma_name_shows(state, told, clean, idle);
            turns::lemma_name_ordered(state, told, current, dealt);
            pushes::lemma_name_polled(state, told, answers);
            moves::lemma_name_moves(state, name);
            ledger::lemma_name_noted(state, name, log);
        },
        Event::Output(output) => {
            checks::lemma_output_shows(state, output@, clean, idle);
            turns::lemma_output_ordered(state, output@, current, dealt);
            pushes::lemma_output_polled(state, output@, answers);
            moves::lemma_output_moves(state, output);
            ledger::lemma_output_noted(state, output, log);
        },
        Event::Flag(yes) => {
            checks::lemma_flag_shows(state, yes, clean, idle);
            turns::lemma_flag_ordered(state, yes, current, dealt);
            pushes::lemma_flag_polled(state, yes, answers);
            moves::lemma_flag_moves(state, yes);
            ledger::lemma_flag_noted(state, yes, log);
        },
        Event::Contents(content) => {
            let points = state::points_in(content);
            checks::lemma_points_show(state, points, clean, idle);
            turns::lemma_points_ordered(state, points, current, dealt);
            pushes::lemma_points_polled(state, points, answers);
            moves::lemma_points_move(state, content);
            ledger::lemma_points_noted(state, content, log);
        },
    }
}

pub proof fn lemma_run(opts: SyncOptions, events: Seq<Event>)
    requires
        proper(opts, events),
    ensures
        run(opts, events).valid(),
        run(opts, events).opts == opts,
        checks::shown(run(opts, events), found_clean(opts, events), found_idle(opts, events)),
        turns::ordered(run(opts, events), current(opts, events), dealt_with(opts, events)),
        pushes::polled(run(opts, events), upstreams(opts, events)),
        ledger::right(run(opts, events), asked_for(opts, events)),
        events.len() > 0 ==> moves::moves(
            run(opts, events.drop_last()),
            events.last(),
            run(opts, events),
        ),
    decreases events.len(),
{
    if events.len() == 0 {
        state::law_valid_start(opts);
        let start = run(opts, events);
        assert(start.pushable =~= pushes::picked(start.queue, seq![]));
        ledger::lemma_right_start(start);
    } else {
        let front = events.drop_last();
        lemma_run(opts, front);
        lemma_step(
            run(opts, front),
            events.last(),
            found_clean(opts, front),
            found_idle(opts, front),
            current(opts, front),
            dealt_with(opts, front),
            upstreams(opts, front),
            asked_for(opts, front),
        );
    }
}

/// Nothing is changed before all checks are passed: when an action changes a branch, a worktree
/// or a persisted file, every worktree that takes part was found to be without tracked changes
/// and without a rebase in progress.
pub proof fn law_checks_first(opts: SyncOptions, events: Seq<Event>)
    requires
        proper(opts, events),
        run(opts, events).stage.changes(),
    ensures
        checks::covers(
            run(opts, events),
            found_clean(opts, events),
            run(opts, events).queue.len() as int,
        ),
        checks::covers(
            run(opts, events),
            found_idle(opts, events),
            run(opts, events).queue.len() as int,
        ),
{
    lemma_run(opts, events);
}

/// What is synced is what was asked for: all branches, or only the stack of the current one, which
/// is the branch that was named when it was asked for.
pub proof fn law_queue(opts: SyncOptions, events: Seq<Event>)
    requires
        proper(opts, events),
        turns::chosen(run(opts, events)),
    ensures
        turns::queue_fits(run(opts, events), current(opts, events)),
{
    lemma_run(opts, events);
}

/// With `--all`, in a wired tree, every branch that has a node is synced once, but for the default
/// branch.
pub proof fn law_all_queued(opts: SyncOptions, events: Seq<Event>)
    requires
        proper(opts, events),
        opts.all,
        turns::chosen(run(opts, events)),
        run(opts, events).tree.wired(),
    ensures
        run(opts, events).queue.no_duplicates(),
        forall|b: Seq<char>| #[trigger]
            run(opts, events).queue.contains(b) <==> run(opts, events).tree.nodes.contains_key(b)
                && b != run(opts, events).tree.root,
{
    lemma_run(opts, events);
    wiring::law_sync_order(run(opts, events).tree);
}

/// Branches are taken in the order of the queue: when one is being rebased, all before it that
/// have a parent were dealt with. When branches are pushed, worktrees removed or fork points
/// saved, all were.
pub proof fn law_in_turn(opts: SyncOptions, events: Seq<Event>)
    requires
        proper(opts, events),
    ensures
        run(opts, events).stage.rebases() ==> turns::in_turn(
            run(opts, events),
            dealt_with(opts, events),
            run(opts, events).at,
        ),
        run(opts, events).stage.concludes() ==> turns::in_turn(
            run(opts, events),
            dealt_with(opts, events),
            run(opts, events).queue.len() as int,
        ),
{
    lemma_run(opts, events);
}

/// What is pushed was synced. The branches to push are those of the queue that were found to have
/// an upstream, each position at most once and in order. When they are pushed, all branches of the
/// queue were asked for, and each branch that has a parent was dealt with.
pub proof fn law_pushed_were_synced(opts: SyncOptions, events: Seq<Event>)
    requires
        proper(opts, events),
    ensures
        ({
            let state = run(opts, events);
            let answers = upstreams(opts, events);
            let at = pushes::agreed(answers);
            &&& answers.len() <= state.queue.len()
            &&& state.pushable.len() == at.len()
            &&& forall|i: int|
                0 <= i < at.len() ==> 0 <= #[trigger] at[i] < state.queue.len() && answers[at[i]]
                    && state.pushable[i] == state.queue[at[i]]
            &&& forall|i: int, j: int| 0 <= i < j < at.len() ==> #[trigger] at[i] < #[trigger] at[j]
            &&& forall|p: int| 0 <= p < answers.len() && #[trigger] answers[p] ==> at.contains(p)
            &&& state.stage is AskRemote || state.stage is Push ==> answers.len()
                == state.queue.len() && 0 <= state.at < at.len() && (state.is_child(at[state.at])
                ==> dealt_with(opts, events).contains(at[state.at]))
        }),
{
    lemma_run(opts, events);
    pushes::lemma_agreed(upstreams(opts, events));
}

/// When a sync that was asked to push comes to its end, a push was asked for every branch of the
/// queue that was found to have an upstream, each once and in order, however many branches were
/// rebased. It goes to the remote that was named for the branch, or to `origin`. Without that
/// request nothing was pushed.
pub proof fn law_all_pushed(opts: SyncOptions, events: Seq<Event>)
    requires
        proper(opts, events),
        !opts.dry_run,
        run(opts, events).stage is Finished,
    ensures
        ({
            let queue = run(opts, events).queue;
            let answers = upstreams(opts, events);
            let at = pushes::agreed(answers);
            let log = asked_for(opts, events);
            &&& !opts.push ==> log.pushes.len() == 0
            &&& opts.push ==> {
                &&& answers.len() == queue.len()
                &&& log.pushes.len() == at.len()
                &&& log.push_remotes.len() == at.len()
                &&& forall|i: int|
                    0 <= i < at.len() ==> #[trigger] log.pushes[i] == (
                        log.push_remotes[i],
                        queue[at[i]],
                    )
                &&& forall|i: int|
                    0 <= i < at.len() ==> 0 <= #[trigger] at[i] < queue.len() && answers[at[i]]
                &&& forall|i: int, j: int|
                    0 <= i < j < at.len() ==> #[trigger] at[i] < #[trigger] at[j]
                &&& forall|p: int|
                    0 <= p < answers.len() && #[trigger] answers[p] ==> at.contains(p)
            }
        }),
{
    lemma_run(opts, events);
    lemma_run(opts, events.drop_last());
    ledger::lemma_ended(run(opts, events), asked_for(opts, events));
    pushes::lemma_agreed(upstreams(opts, events));
}

/// When a sync that was asked to prune comes to its end, the removal of every integrated worktree
/// was asked for, each position once and in order. For each that was removed the deletion of its
/// local branch was asked for, in the same order; and of its remote branch where it has an
/// upstream, at the remote that was named for it. Without that request nothing was removed.
pub proof fn law_all_pruned(opts: SyncOptions, events: Seq<Event>)
    requires
        proper(opts, events),
        !opts.dry_run,
        run(opts, events).stage is Finished,
    ensures
        ({
            let sites = run(opts, events).integrated;
            let log = asked_for(opts, events);
            let local = pushes::agreed(log.removed);
            let remote = pushes::agreed(ledger::both(log.removed, log.upstreams));
            &&& log.locals.len() == local.len()
            &&& log.deletions.len() == remote.len()
            &&& !opts.prune ==> log.asked.len() == 0 && log.removed.len() == 0
            &&& opts.prune ==> {
                &&& log.asked.len() == sites.len()
                &&& log.removed.len() == sites.len()
                &&& log.upstreams.len() == sites.len()
                &&& forall|k: int| 0 <= k < sites.len() ==> #[trigger] log.asked[k] == sites[k]
                &&& forall|i: int|
                    0 <= i < local.len() ==> #[trigger] log.locals[i] == sites[local[i]].branch
                &&& forall|k: int|
                    0 <= k < sites.len() && #[trigger] log.removed[k] ==> local.contains(k)
                &&& forall|i: int|
                    0 <= i < remote.len() ==> #[trigger] log.deletions[i] == (
                        log.remotes[remote[i]],
                        sites[remote[i]].branch,
                    )
                &&& forall|k: int|
                    0 <= k < sites.len() && #[trigger] log.removed[k] && log.upstreams[k]
                        ==> remote.contains(k)
            }
        }),
{
    let sites = run(opts, events).integrated;
    let log = asked_for(opts, events);
    lemma_run(opts, events);
    ledger::lemma_ended(run(opts, events), log);
    if opts.prune {
        ledger::lemma_locals(sites, log.removed);
        ledger::lemma_deletions(sites, log.removed, log.upstreams, log.remotes);
        pushes::lemma_agreed(log.removed);
        let both = ledger::both(log.removed, log.upstreams);
        pushes::lemma_agreed(both);
        assert forall|k: int|
            0 <= k < sites.len() && #[trigger] log.removed[k]
                && log.upstreams[k] implies pushes::agreed(both).contains(k) by {
            assert(both[k]);
        }
    } else {
        assert(ledger::both(log.removed, log.upstreams) =~= seq![]);
    }
}

/// Whether the action after the first `i` of `events` was to remove the worktree at `path`, by force
/// if that was asked for.
pub open spec fn removal_at(opts: SyncOptions, events: Seq<Event>, path: PathBuf, i: int) -> bool {
    &&& 0 <= i < events.len()
    &&& run(opts, events.take(i)).stage is RemoveWorktree
    &&& forall|action: Action| #[trigger]
        run(opts, events.take(i)).calls_for(action) ==> action == (Action::RemoveWorktree {
            path,
            force: opts.force,
        })
}

/// Every removal that is noted was asked for: at some point the action was to remove that worktree.
pub proof fn law_removal_asked(opts: SyncOptions, events: Seq<Event>, k: int)
    requires
        proper(opts, events),
        0 <= k < asked_for(opts, events).asked.len(),
    ensures
        exists|i: int| removal_at(opts, events, asked_for(opts, events).asked[k].path, i),
    decreases events.len(),
{
    let front = events.drop_last();
    let last = events.len() - 1;
    let path = asked_for(opts, events).asked[k].path;
    assert(events.take(last) =~= front);
    if k < asked_for(opts, front).asked.len() {
        law_removal_asked(opts, front, k);
        let i = choose|i: int| removal_at(opts, front, asked_for(opts, front).asked[k].path, i);
        assert(events.take(i) =~= front.take(i));
        assert(removal_at(opts, events, path, i));
    } else {
        lemma_run(opts, front);
        assert(run(opts, front).stage is RemoveWorktree);
        assert(removal_at(opts, events, path, last));
    }
}

/// Whether the action after the first `i` of `events` was to push `branch` to `remote`.
pub open spec fn push_at(
    opts: SyncOptions,
    events: Seq<Event>,
    remote: Seq<char>,
    branch: Seq<char>,
    i: int,
) -> bool {
    &&& 0 <= i < events.len()
    &&& run(opts, events.take(i)).stage is Push
    &&& forall|action: Action| #[trigger]
        run(opts, events.take(i)).calls_for(action) ==> (action matches Action::Push {
            remote: to,
            branch: of,
        } && to@ == remote && of@ == branch)
}

/// Every push that is noted was asked for: at some point the action was to push that branch to that
/// remote.
pub proof fn law_push_asked(opts: SyncOptions, events: Seq<Event>, k: int)
    requires
        proper(opts, events),
        0 <= k < asked_for(opts, events).pushes.len(),
    ensures
        exists|i: int|
            push_at(
                opts,
                events,
                asked_for(opts, events).pushes[k].0,
                asked_for(opts, events).pushes[k].1,
                i,
            ),
    decreases events.len(),
{
    let front = events.drop_last();
    let last = events.len() - 1;
    let (remote, branch) = asked_for(opts, events).pushes[k];
    assert(events.take(last) =~= front);
    if k < asked_for(opts, front).pushes.len() {
        law_push_asked(opts, front, k);
        assert(asked_for(opts, front).pushes[k] == asked_for(opts, events).pushes[k]);
        let i = choose|i: int| push_at(opts, front, remote, branch, i);
        assert(events.take(i) =~= front.take(i));
        assert(push_at(opts, events, remote, branch, i));
    } else {
        lemma_run(opts, front);
        assert(run(opts, front).stage is Push);
        assert(push_at(opts, events, remote, branch, last));
    }
}

/// Worktrees and branches are asked to be removed one after the other: when one is at hand, all
/// before it were asked for; a branch is deleted only when its worktree was removed, and a remote
/// branch only where there is an upstream.
pub proof fn law_prunes_in_turn(opts: SyncOptions, events: Seq<Event>)
    requires
        proper(opts, events),
    ensures
        ({
            let state = run(opts, events);
            let log = asked_for(opts, events);
            &&& state.stage is RemoveWorktree ==> log.asked.len() == state.at
            &&& state.stage is DeleteBranch || state.stage is DeleteRemote ==> log.asked.len()
                == state.at + 1 && log.removed.last() && log.remotes.last() == state.remote
            &&& state.stage is DeleteRemote ==> log.upstreams.last()
            &&& state.stage is Push ==> log.pushes.len() == state.at && log.push_remotes.last()
                == state.remote
        }),
{
    lemma_run(opts, events);
    ledger::lemma_under_way(run(opts, events), asked_for(opts, events));
}

/// A verbose dry run begins its plan with no branch marked for a rebase.
pub proof fn law_no_marks_at_first(opts: SyncOptions, events: Seq<Event>)
    requires
        proper(opts, events),
        run(opts, events).stage.begins() || run(opts, events).stage is PreviewPoints,
    ensures
        forall|b: Seq<char>| !#[trigger] run(opts, events).bases.contains_key(b),
    decreases events.len(),
{
    if events.len() > 0 {
        lemma_run(opts, events);
        law_no_marks_at_first(opts, events.drop_last());
    }
}

/// When a verbose dry run comes to its end, every branch of the queue that has a parent was
/// looked at, each once and in order.
pub proof fn law_all_previewed(opts: SyncOptions, events: Seq<Event>)
    requires
        proper(opts, events),
        opts.dry_run,
        opts.verbose,
        run(opts, events).stage is Finished,
    ensures
        forall|i: int| #[trigger]
            asked_for(opts, events).previews.contains(i) <==> 0 <= i < run(opts, events).queue.len()
                && run(opts, events).is_child(i),
        forall|a: int, b: int|
            0 <= a < b < asked_for(opts, events).previews.len() ==> #[trigger] asked_for(
                opts,
                events,
            ).previews[a] < #[trigger] asked_for(opts, events).previews[b],
{
    lemma_run(opts, events);
    ledger::lemma_planned(run(opts, events), asked_for(opts, events));
}

/// A branch is rebased only after its parent: the parent is the default branch, or stands before
/// it in the queue and was dealt with. The exceptions are a parent that has no node, and parents
/// that run in a circle.
pub proof fn law_parent_first(opts: SyncOptions, events: Seq<Event>)
    requires
        proper(opts, events),
        run(opts, events).stage.rebases(),
        run(opts, events).tree.wired(),
    ensures
        ({
            let state = run(opts, events);
            ||| state.parent() == state.tree.root
            ||| !state.tree.nodes.contains_key(state.parent())
            ||| wiring::on_circle(state.tree, state.branch())
            ||| exists|i: int|
                0 <= i < state.at && #[trigger] state.queue[i] == state.parent() && dealt_with(
                    opts,
                    events,
                ).contains(i)
        }),
{
    let state = run(opts, events);
    let queue = state.queue;
    let tree = state.tree;
    lemma_run(opts, events);
    if state.opts.all {
        wiring::law_sync_order(tree);
        assert(wiring::parent_first(tree, queue, state.at));
    } else {
        wiring::law_stack_parents_first(tree, current(opts, events)->0, state.at);
    }
    let p = state.parent();
    if wiring::stands_before(queue, p, state.at) && tree.nodes.contains_key(p) && p != tree.root {
        let i = choose|i: int| 0 <= i < state.at && #[trigger] queue[i] == p;
        assert(state.is_child(i));
    }
}

/// Whether event `i` tells of something that the sync cannot go on with.
pub open spec fn troubled(opts: SyncOptions, events: Seq<Event>, i: int) -> bool {
    0 <= i < events.len() && moves::trouble(run(opts, events.take(i)), events[i])
}

/// A sync fails only for a reason: an action failed, a worktree has tracked changes or a rebase in
/// progress, or there is no current branch whose stack it could sync.
pub proof fn law_fails_for_a_reason(opts: SyncOptions, events: Seq<Event>)
    requires
        proper(opts, events),
        run(opts, events).stage is Failed,
    ensures
        exists|i: int| troubled(opts, events, i),
{
    lemma_trouble(opts, events);
}

proof fn lemma_trouble(opts: SyncOptions, events: Seq<Event>)
    requires
        proper(opts, events),
        moves::in_trouble(run(opts, events)),
    ensures
        exists|i: int| troubled(opts, events, i),
    decreases events.len(),
{
    lemma_run(opts, events);
    if events.len() > 0 {
        let front = events.drop_last();
        let last = events.len() - 1;
        assert(events.take(last) =~= front);
        if moves::in_trouble(run(opts, front)) {
            lemma_trouble(opts, front);
            let i = choose|i: int| troubled(opts, front, i);
            assert(events.take(i) =~= front.take(i));
            assert(troubled(opts, events, i));
        } else {
            assert(troubled(opts, events, last));
        }
    }
}

/// Whether the action after the first `i` of `events` was the one of `stage`, and was done.
pub open spec fn was_done(opts: SyncOptions, events: Seq<Event>, stage: Stage, i: int) -> bool {
    0 <= i < events.len() && run(opts, events.take(i)).stage == stage && events[i] is Done
}

/// Whether the stack file was written for the tree of `state`.
pub open spec fn wrote_stack_file(opts: SyncOptions, events: Seq<Event>, state: State) -> bool {
    exists|i: int| #[trigger]
        was_done(opts, events, Stage::WriteStack, i) && run(opts, events.take(i)).tree == state.tree
}

/// Whether the fork points of `state` were written.
pub open spec fn wrote_fork_points(opts: SyncOptions, events: Seq<Event>, state: State) -> bool {
    exists|i: int| #[trigger]
        was_done(opts, events, Stage::SavePoints, i) && run(opts, events.take(i)).points
            == state.points
}

proof fn lemma_done_earlier(opts: SyncOptions, events: Seq<Event>, stage: Stage, i: int)
    requires
        events.len() > 0,
        was_done(opts, events.drop_last(), stage, i),
    ensures
        was_done(opts, events, stage, i),
        events.take(i) == events.drop_last().take(i),
{
    assert(events.take(i) =~= events.drop_last().take(i));
}

proof fn lemma_writes(opts: SyncOptions, events: Seq<Event>)
    requires
        proper(opts, events),
        !opts.dry_run,
    ensures
        moves::follows_stack_file(run(opts, events).stage) ==> wrote_stack_file(
            opts,
            events,
            run(opts, events),
        ),
        run(opts, events).stage is Finished ==> wrote_fork_points(
            opts,
            events,
            run(opts, events),
        ),
    decreases events.len(),
{
    if events.len() > 0 {
        let front = events.drop_last();
        let last = events.len() - 1;
        lemma_writes(opts, front);
        lemma_run(opts, events);
        lemma_run(opts, front);
        assert(events.take(last) =~= front);
        let before = run(opts, front);
        if moves::follows_stack_file(run(opts, events).stage) {
            if moves::follows_stack_file(before.stage) {
                let i = choose|i: int| #[trigger]
                    was_done(opts, front, Stage::WriteStack, i) && run(opts, front.take(i)).tree
                        == before.tree;
                lemma_done_earlier(opts, events, Stage::WriteStack, i);
            } else {
                assert(was_done(opts, events, Stage::WriteStack, last));
            }
        }
        if run(opts, events).stage is Finished {
            assert(was_done(opts, events, Stage::SavePoints, last));
        }
    }
}

/// Every sync that comes to its end, other than a dry run, has written both files: the stack file
/// for its tree, and its fork points. This holds even if there was nothing to sync.
pub proof fn law_files_written(opts: SyncOptions, events: Seq<Event>)
    requires
        proper(opts, events),
        !opts.dry_run,
        run(opts, events).stage is Finished,
    ensures
        wrote_stack_file(opts, events, run(opts, events)),
        wrote_fork_points(opts, events, run(opts, events)),
{
    lemma_writes(opts, events);
}

/// Whether each branch that git is asked about stands on the tip of its parent: the merge base of
/// the two is that tip.
pub open spec fn on_parent_tips(opts: SyncOptions, events: Seq<Event>) -> bool {
    forall|i: int|
        0 <= i < events.len() && (#[trigger] run(opts, events.take(i))).stage is FindTip ==> (
        events[i] matches Event::Output(tip) ==> text::trim(tip@) == run(
            opts,
            events.take(i),
        ).merge_base)
}

/// If every branch that git is asked about stands on the tip of its parent, then a sync asks for no
/// rebase.
pub proof fn law_nothing_to_rebase(opts: SyncOptions, events: Seq<Event>)
    requires
        proper(opts, events),
        on_parent_tips(opts, events),
    ensures
        !(run(opts, events).stage is Rebase),
        !(run(opts, events).stage is AskConflict),
        !(run(opts, events).stage is SaveAfterConflict),
        run(opts, events).rebased == 0,
    decreases events.len(),
{
    if events.len() > 0 {
        let front = events.drop_last();
        let last = events.len() - 1;
        assert(events.take(last) =~= front);
        assert(on_parent_tips(opts, front)) by {
            assert forall|i: int|
                0 <= i < front.len() && (#[trigger] run(
                    opts,
                    front.take(i),
                )).stage is FindTip implies (front[i] matches Event::Output(tip) ==> text::trim(
                tip@,
            ) == run(opts, front.take(i)).merge_base) by {
                assert(events.take(i) =~= front.take(i));
                assert(run(opts, events.take(i)).stage is FindTip);
            }
        }
        law_nothing_to_rebase(opts, front);
        lemma_run(opts, events);
        assert(run(opts, events.take(last)) == run(opts, front));
    }
}

/// Whether the first `i` of `events` led to a branch that the next one settled.
pub open spec fn was_settled(opts: SyncOptions, events: Seq<Event>, i: int) -> bool {
    0 <= i < events.len() && moves::settled_by(run(opts, events.take(i)), events[i])
}

proof fn lemma_settled(opts: SyncOptions, events: Seq<Event>, i: int)
    requires
        proper(opts, events),
        was_settled(opts, events, i),
    ensures
        ({
            let then = run(opts, events.take(i));
            let now = run(opts, events);
            &&& now.queue == then.queue
            &&& 0 <= then.at < then.queue.len()
            &&& now.stage.rebases() || now.stage.concludes() || now.stage.ends()
            &&& now.stage.rebases() ==> then.at < now.at
        }),
    decreases events.len(),
{
    let front = events.drop_last();
    let last = events.len() - 1;
    lemma_run(opts, front);
    lemma_run(opts, events);
    assert(events.take(last) =~= front);
    if i < last {
        assert(events.take(i) =~= front.take(i));
        assert(front[i] == events[i]);
        lemma_settled(opts, front, i);
    }
}

/// Every branch that was rebased or found to be up to date keeps the tip of its parent as its fork
/// point, to the end of the sync and also if it stops at a conflict further on.
pub proof fn law_settled_points(opts: SyncOptions, events: Seq<Event>, i: int)
    requires
        proper(opts, events),
        was_settled(opts, events, i),
        run(opts, events).queue.no_duplicates(),
    ensures
        run(opts, events).points.contains_key(run(opts, events.take(i)).branch()),
        run(opts, events).points[run(opts, events.take(i)).branch()] == moves::settled_tip(
            run(opts, events.take(i)),
        ),
    decreases events.len(),
{
    let front = events.drop_last();
    let last = events.len() - 1;
    lemma_run(opts, front);
    lemma_run(opts, events);
    assert(events.take(last) =~= front);
    if i < last {
        assert(events.take(i) =~= front.take(i));
        assert(front[i] == events[i]);
        lemma_settled(opts, front, i);
        lemma_settled(opts, events, i);
        law_settled_points(opts, front, i);
    }
}

/// How many branches were rebased, and how many were found to be up to date.
pub open spec fn tally(opts: SyncOptions, events: Seq<Event>) -> (nat, nat)
    decreases events.len(),
{
    if events.len() == 0 {
        (0, 0)
    } else {
        let front = events.drop_last();
        let state = run(opts, front);
        let (rebased, skipped) = tally(opts, front);
        if state.stage is Rebase && events.last() is Done {
            (rebased + 1, skipped)
        } else if moves::found_settled(state, events.last()) {
            (rebased, skipped + 1)
        } else {
            (rebased, skipped)
        }
    }
}

/// The numbers in the summary are those of the rebases that were done and of the branches that were
/// up to date.
pub proof fn law_counts(opts: SyncOptions, events: Seq<Event>)
    requires
        proper(opts, events),
    ensures
        run(opts, events).rebased == tally(opts, events).0,
        run(opts, events).skipped == tally(opts, events).1,
    decreases events.len(),
{
    if events.len() > 0 {
        law_counts(opts, events.drop_last());
        lemma_run(opts, events);
    }
}

/// The fork points of a sync: those of the file, and above them the tips on which branches were
/// found or put.
pub open spec fn known_points(opts: SyncOptions, events: Seq<Event>) -> Map<Seq<char>, Seq<char>>
    decreases events.len(),
{
    if events.len() == 0 {
        Map::empty()
    } else {
        let front = events.drop_last();
        let state = run(opts, front);
        if state.stage is ReadPoints {
            match events.last() {
                Event::Contents(content) => state::points_in(content),
                _ => known_points(opts, front),
            }
        } else if moves::settled_by(state, events.last()) {
            known_points(opts, front).insert(state.branch(), moves::settled_tip(state))
        } else {
            known_points(opts, front)
        }
    }
}

/// From when they are read to when they are saved, the fork points of a sync are those of the file,
/// but for the branches that were rebased or found to be up to date: these have the tip of their
/// parent.
pub proof fn law_known_points(opts: SyncOptions, events: Seq<Event>)
    requires
        proper(opts, events),
        run(opts, events).stage.rebases() || run(opts, events).stage.concludes(),
    ensures
        run(opts, events).points == known_points(opts, events),
    decreases events.len(),
{
    lemma_run(opts, events);
    if events.len() > 0 {
        let front = events.drop_last();
        lemma_run(opts, front);
        let before = run(opts, front);
        if before.stage.rebases() || before.stage.concludes() {
            law_known_points(opts, front);
        }
    }
}

/// A fetch is asked for exactly if it was to be done, and then before all else. The repository is
/// surveyed at the start, or once the fetch was done.
pub proof fn law_fetch_first(opts: SyncOptions, events: Seq<Event>, action: Action)
    requires
        proper(opts, events),
        run(opts, events).calls_for(action),
    ensures
        events.len() == 0 ==> action is Fetch == opts.fetch && action is Survey == !opts.fetch,
        action is Fetch ==> events.len() == 0 && opts.fetch,
        action is Survey ==> events.len() == (if opts.fetch {
            1int
        } else {
            0int
        }),
{
    lemma_run(opts, events);
    if events.len() > 0 {
        let front = events.drop_last();
        lemma_run(opts, front);
        if action is Survey && front.len() > 0 {
            lemma_run(opts, front.drop_last());
        }
    }
}

/// What a rebase is asked for: the branch and its parent in the tree, in the worktree of the
/// branch. The last two events are the merge base of the two and the tip of the parent, and they
/// differ. The base is the parent that the branch was taken from, if that was integrated; else the
/// fork point that is known of the branch; else that merge base.
pub proof fn law_rebase_of(opts: SyncOptions, events: Seq<Event>, action: Action)
    requires
        proper(opts, events),
        run(opts, events).calls_for(action),
        action is Rebase,
    ensures
        ({
            let state = run(opts, events);
            let n = events.len() as int;
            let node = state.tree.nodes[state.queue[state.at]];
            &&& n >= 2
            &&& events[n - 2] matches Event::Name(Some(merge_base))
            &&& events[n - 1] matches Event::Output(tip)
            &&& merge_base@ != text::trim(tip@)
            &&& action matches Action::Rebase { path, parent, base, branch }
            &&& path == node.path
            &&& branch@ == state.queue[state.at]
            &&& Some(parent@) == node.parent
            &&& match node.original_parent {
                Some(original) => base@ == original,
                None => if known_points(opts, events).contains_key(branch@) {
                    base@ == known_points(opts, events)[branch@]
                } else {
                    base@ == merge_base@
                },
            }
        }),
{
    lemma_run(opts, events);
    let front = events.drop_last();
    lemma_run(opts, front);
    assert(front.len() > 0 ==> proper(opts, front.drop_last())) by {
        reveal_with_fuel(proper, 2);
    }
    if front.len() > 0 {
        lemma_run(opts, front.drop_last());
    }
    law_known_points(opts, events);
    assert(events[events.len() - 2] == front.last());
}

/// The stack file is written right after its directory was made, and the fork points are read right
/// after the stack file was written.
pub proof fn law_files_in_turn(opts: SyncOptions, events: Seq<Event>)
    requires
        proper(opts, events),
    ensures
        run(opts, events).stage is WriteStack ==> events.len() > 0 && events.last() is Done && run(
            opts,
            events.drop_last(),
        ).stage is MakeDataDir,
        events.len() > 0 && run(opts, events.drop_last()).stage is WriteStack
            && events.last() is Done ==> run(opts, events).stage is ReadPoints,
{
    lemma_run(opts, events);
    if events.len() > 0 {
        lemma_run(opts, events.drop_last());
    }
}

/// The stack file is written before any branch is rebased or pushed and any worktree removed.
pub proof fn law_stack_file_first(opts: SyncOptions, events: Seq<Event>)
    requires
        proper(opts, events),
        run(opts, events).stage.rebases() || run(opts, events).stage.concludes(),
    ensures
        wrote_stack_file(opts, events, run(opts, events)),
{
    lemma_run(opts, events);
    lemma_writes(opts, events);
}

#[verifier::spinoff_prover]
#[verifier::rlimit(60)]
proof fn lemma_next_output(state: State, output: String)
    ensures
        next(state, Event::Output(output)) == state.after_output(output@).state,
{
    reveal(next);
}

/// If worktrees have tracked changes, the sync fails before anything is changed, and says so of all
/// of them: every worktree that takes part was looked at, and the branches of those with tracked
/// changes are named in order.
pub proof fn law_dirty_named(opts: SyncOptions, events: Seq<Event>)
    requires
        proper(opts, events),
        events.len() > 0,
        events.last() is Output,
        run(opts, events.drop_last()).stage is CheckStatus,
        run(opts, events).stage is Failed,
    ensures
        ({
            let state = run(opts, events);
            let log = asked_for(opts, events);
            &&& log.dirty.len() > 0
            &&& state.fault == failure::uncommitted(
                Seq::new(log.dirty.len(), |i: int| state.queue[log.dirty[i]]),
            )
            &&& forall|i: int| #[trigger]
                log.looked.contains(i) <==> 0 <= i < state.queue.len() && run(
                    opts,
                    events.drop_last(),
                ).is_node(i)
        }),
{
    let front = events.drop_last();
    lemma_run(opts, front);
    if let Event::Output(output) = events.last() {
        lemma_next_output(run(opts, front), output);
        ledger::lemma_reported(run(opts, front), output, asked_for(opts, front));
    }
}

/// What a sync asks of the branches and worktrees that it pushes and removes: the branch to push is
/// the next one of the queue that was found to have an upstream, and goes to the remote that was
/// named for it; the worktree to remove is the next integrated one; a branch to delete is that of
/// the worktree just removed, and at the remote that was named for it.
pub proof fn law_requests(opts: SyncOptions, events: Seq<Event>, action: Action)
    requires
        proper(opts, events),
        run(opts, events).calls_for(action),
    ensures
        ({
            let state = run(opts, events);
            let log = asked_for(opts, events);
            let at = pushes::agreed(upstreams(opts, events));
            let sites = state.integrated;
            match action {
                Action::Push { remote, branch } => {
                    &&& log.pushes.len() < at.len()
                    &&& branch@ == state.queue[at[log.pushes.len() as int]]
                    &&& remote@ == log.push_remotes.last()
                },
                Action::RemoveWorktree { path, force } => {
                    &&& log.asked.len() < sites.len()
                    &&& path == sites[log.asked.len() as int].path
                    &&& force == opts.force
                },
                Action::DeleteBranch { branch } => {
                    &&& log.asked.len() > 0
                    &&& branch@ == sites[log.asked.len() - 1].branch
                    &&& log.removed.last()
                },
                Action::DeleteRemoteBranch { remote, branch } => {
                    &&& log.asked.len() > 0
                    &&& branch@ == sites[log.asked.len() - 1].branch
                    &&& remote@ == log.remotes.last()
                    &&& log.removed.last() && log.upstreams.last()
                },
                _ => true,
            }
        }),
{
    lemma_run(opts, events);
    ledger::lemma_under_way(run(opts, events), asked_for(opts, events));
}

/// What a sync asks of the branches and worktrees that it looks at. Each question is on the branch
/// at hand: on its worktree, on it and its parent in the tree, or on its upstream and its remote.
pub proof fn law_questions(opts: SyncOptions, events: Seq<Event>, action: Action)
    requires
        proper(opts, events),
        run(opts, events).calls_for(action),
    ensures
        ({
            let state = run(opts, events);
            let node = state.tree.nodes[state.queue[state.at]];
            let log = asked_for(opts, events);
            let at = pushes::agreed(upstreams(opts, events));
            match action {
                Action::Status { path } => path == node.path && state.stage is CheckStatus,
                Action::RebaseState { path } => path == node.path,
                Action::MergeBase { parent, branch } => branch@ == state.queue[state.at] && Some(
                    parent@,
                ) == node.parent,
                Action::Tip { branch } => Some(branch@) == node.parent,
                Action::Upstream { branch } => if state.stage is AskUpstream {
                    branch@ == state.queue[upstreams(opts, events).len() as int]
                } else {
                    branch@ == state.integrated[log.upstreams.len() as int].branch
                },
                Action::PushRemote { branch } => if state.stage is AskRemote {
                    branch@ == state.queue[at[log.pushes.len() as int]]
                } else {
                    branch@ == state.integrated[log.remotes.len() as int].branch
                },
                Action::WriteStackFile { content } => content@ == stack_file::stack_text(
                    state.tree,
                ),
                Action::WriteForkPoints { content } => fork_points::writes_points(
                    content@,
                    known_points(opts, events),
                ),
                Action::Fail { failure } => state.stage is Failed && failure@ == state.fault,
                Action::Finish => state.stage is Finished,
                _ => true,
            }
        }),
{
    lemma_run(opts, events);
    ledger::lemma_under_way(run(opts, events), asked_for(opts, events));
    if action is WriteForkPoints {
        law_known_points(opts, events);
    }
}

} // verus!
