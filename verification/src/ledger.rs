//! What a sync previews, pushes and removes, in order.

use vstd::prelude::*;

use crate::checks;
use crate::failure;
use crate::failure::Failure;
use crate::ground::Site;
use crate::pushes;
use crate::state;
use crate::state::{Event, Stage, State, Turn};
use crate::text;
use crate::tree;

verus! {

/// What was asked for, and the replies on which it depends.
pub struct Ledger {
    /// The positions of the branches whose worktrees were looked at for tracked changes.
    pub looked: Seq<int>,
    /// Those for which there were some.
    pub dirty: Seq<int>,
    /// The positions of the branches that were previewed.
    pub previews: Seq<int>,
    /// The remotes that were named for the branches to push.
    pub push_remotes: Seq<Seq<char>>,
    /// Each push: the remote and the branch.
    pub pushes: Seq<(Seq<char>, Seq<char>)>,
    /// Whether the integrated branches have an upstream.
    pub upstreams: Seq<bool>,
    /// The remotes that were named for them.
    pub remotes: Seq<Seq<char>>,
    /// The worktrees that were asked to be removed, and whether that was done.
    pub asked: Seq<Site>,
    pub removed: Seq<bool>,
    /// The local branches that were asked to be deleted.
    pub locals: Seq<Seq<char>>,
    /// The remote branches that were asked to be deleted: the remote and the branch.
    pub deletions: Seq<(Seq<char>, Seq<char>)>,
}

/// Nothing yet.
pub open spec fn empty_ledger() -> Ledger {
    Ledger {
        looked: seq![],
        dirty: seq![],
        previews: seq![],
        push_remotes: seq![],
        pushes: seq![],
        upstreams: seq![],
        remotes: seq![],
        asked: seq![],
        removed: seq![],
        locals: seq![],
        deletions: seq![],
    }
}

/// The remote that a reply names; `origin` if it names none.
pub open spec fn named_remote(name: Option<String>) -> Seq<char> {
    match name {
        Some(remote) => remote@,
        None => "origin"@,
    }
}

/// The action at hand is noted, with what came of it.
pub open spec fn noted(state: State, event: Event, log: Ledger) -> Ledger {
    let at = state.at;
    match state.stage {
        Stage::CheckStatus => match event {
            Event::Output(output) => Ledger {
                looked: log.looked.push(at),
                dirty: if text::trim(output@).len() > 0 {
                    log.dirty.push(at)
                } else {
                    log.dirty
                },
                ..log
            },
            _ => log,
        },
        Stage::PreviewBase => Ledger { previews: log.previews.push(at), ..log },
        Stage::AskRemote => match event {
            Event::Name(name) => Ledger {
                push_remotes: log.push_remotes.push(named_remote(name)),
                ..log
            },
            _ => log,
        },
        Stage::Push => Ledger {
            pushes: log.pushes.push((state.remote, state.pushable[at])),
            ..log
        },
        Stage::PruneUpstream => match event {
            Event::Flag(yes) => Ledger { upstreams: log.upstreams.push(yes), ..log },
            _ => log,
        },
        Stage::PruneRemote => match event {
            Event::Name(name) => Ledger { remotes: log.remotes.push(named_remote(name)), ..log },
            _ => log,
        },
        Stage::RemoveWorktree => Ledger {
            asked: log.asked.push(state.integrated[at]),
            removed: log.removed.push(event is Done),
            ..log
        },
        Stage::DeleteBranch => Ledger {
            locals: log.locals.push(state.integrated[at].branch),
            ..log
        },
        Stage::DeleteRemote => Ledger {
            deletions: log.deletions.push((state.remote, state.integrated[at].branch)),
            ..log
        },
        _ => log,
    }
}

/// The branches of those of `sites` that were removed.
pub open spec fn locals_of(sites: Seq<Site>, removed: Seq<bool>) -> Seq<Seq<char>>
    decreases removed.len(),
{
    if removed.len() == 0 {
        seq![]
    } else if removed.last() {
        locals_of(sites, removed.drop_last()).push(sites[removed.len() - 1].branch)
    } else {
        locals_of(sites, removed.drop_last())
    }
}

/// The branches of those of `sites` that were removed and have an upstream, with their remotes.
pub open spec fn deletions_of(
    sites: Seq<Site>,
    removed: Seq<bool>,
    upstreams: Seq<bool>,
    remotes: Seq<Seq<char>>,
) -> Seq<(Seq<char>, Seq<char>)>
    decreases removed.len(),
{
    let last = removed.len() - 1;
    if removed.len() == 0 {
        seq![]
    } else if removed.last() && upstreams[last] {
        deletions_of(sites, removed.drop_last(), upstreams, remotes).push(
            (remotes[last], sites[last].branch),
        )
    } else {
        deletions_of(sites, removed.drop_last(), upstreams, remotes)
    }
}

/// Replies for what comes later make no difference.
proof fn lemma_deletions_same(
    sites: Seq<Site>,
    removed: Seq<bool>,
    upstreams: Seq<bool>,
    remotes: Seq<Seq<char>>,
    more: Seq<bool>,
    others: Seq<Seq<char>>,
)
    requires
        removed.len() <= upstreams.len() <= more.len(),
        removed.len() <= remotes.len() <= others.len(),
        forall|i: int| 0 <= i < removed.len() ==> #[trigger] upstreams[i] == more[i],
        forall|i: int| 0 <= i < removed.len() ==> #[trigger] remotes[i] == others[i],
    ensures
        deletions_of(sites, removed, upstreams, remotes) == deletions_of(
            sites,
            removed,
            more,
            others,
        ),
    decreases removed.len(),
{
    if removed.len() > 0 {
        let last = removed.len() - 1;
        lemma_deletions_same(sites, removed.drop_last(), upstreams, remotes, more, others);
        assert(upstreams[last] == more[last]);
        assert(remotes[last] == others[last]);
    }
}

/// Whether nothing is noted of pushes.
spec fn unpushed(log: Ledger) -> bool {
    log.pushes.len() == 0 && log.push_remotes.len() == 0
}

/// Whether all is pushed that was to be.
spec fn all_pushed(state: State, log: Ledger) -> bool {
    if state.opts.push {
        log.pushes.len() == state.pushable.len() && log.push_remotes.len() == state.pushable.len()
    } else {
        unpushed(log)
    }
}

/// Whether nothing is noted of removals.
spec fn unpruned(log: Ledger) -> bool {
    &&& log.upstreams.len() == 0
    &&& log.remotes.len() == 0
    &&& log.asked.len() == 0
    &&& log.removed.len() == 0
    &&& log.locals.len() == 0
    &&& log.deletions.len() == 0
}

/// Whether the first `k` integrated branches are dealt with.
spec fn pruned_to(state: State, log: Ledger, k: int) -> bool {
    &&& k <= state.integrated.len()
    &&& log.upstreams.len() == k
    &&& log.remotes.len() == k
    &&& log.removed.len() == k
    &&& log.locals == locals_of(state.integrated, log.removed)
    &&& log.deletions == deletions_of(state.integrated, log.removed, log.upstreams, log.remotes)
}

/// What holds of the notes.
spec fn kept(state: State, log: Ledger) -> bool {
    let at = state.at;
    let sites = state.integrated;
    &&& log.asked.len() == log.removed.len() <= sites.len()
    &&& forall|k: int| 0 <= k < log.asked.len() ==> #[trigger] log.asked[k] == sites[k]
    &&& log.pushes.len() <= log.push_remotes.len() <= state.pushable.len()
    &&& forall|k: int|
        0 <= k < log.pushes.len() ==> #[trigger] log.pushes[k] == (
            log.push_remotes[k],
            state.pushable[k],
        )
    &&& state.stage.prepares() || state.stage.rebases() || state.stage is AskUpstream ==> unpushed(
        log,
    ) && unpruned(log)
    &&& state.stage is AskRemote ==> log.pushes.len() == at && log.push_remotes.len() == at
        && unpruned(log)
    &&& state.stage is Push ==> log.pushes.len() == at && log.push_remotes.len() == at + 1
        && log.push_remotes.last() == state.remote && unpruned(log)
    &&& state.stage.prunes() || state.stage is SavePoints || (state.stage is Finished
        && !state.opts.dry_run) ==> all_pushed(state, log)
    &&& state.stage is PruneUpstream ==> pruned_to(state, log, at)
    &&& state.stage is PruneRemote ==> log.upstreams.len() == at + 1 && log.upstreams.last()
        == state.has_upstream && pruned_to(
        state,
        (Ledger { upstreams: log.upstreams.drop_last(), ..log }),
        at,
    )
    &&& state.stage is RemoveWorktree || state.stage is DeleteBranch || state.stage is DeleteRemote
        ==> log.upstreams.len() == at + 1 && log.upstreams.last() == state.has_upstream
        && log.remotes.len() == at + 1 && log.remotes.last() == state.remote
    &&& state.stage is RemoveWorktree ==> log.removed.len() == at && log.locals == locals_of(
        sites,
        log.removed,
    ) && log.deletions == deletions_of(sites, log.removed, log.upstreams, log.remotes)
    &&& state.stage is DeleteBranch || state.stage is DeleteRemote ==> log.removed.len() == at + 1
        && log.removed.last() && log.deletions == deletions_of(
        sites,
        log.removed.drop_last(),
        log.upstreams,
        log.remotes,
    )
    &&& state.stage is DeleteBranch ==> log.locals == locals_of(sites, log.removed.drop_last())
    &&& state.stage is DeleteRemote ==> log.locals == locals_of(sites, log.removed)
        && state.has_upstream
    &&& state.stage is SavePoints || (state.stage is Finished && !state.opts.dry_run) ==> (
    if state.opts.prune {
        pruned_to(state, log, sites.len() as int)
    } else {
        unpruned(log)
    })
}

/// What holds of the previews.
spec fn previewed(state: State, log: Ledger) -> bool {
    let seen = log.previews;
    &&& forall|a: int, b: int| 0 <= a < b < seen.len() ==> #[trigger] seen[a] < #[trigger] seen[b]
    &&& state.stage is PreviewBase ==> forall|i: int| #[trigger]
        seen.contains(i) <==> 0 <= i < state.at && state.is_child(i)
    &&& state.stage is PreviewTip ==> forall|i: int| #[trigger]
        seen.contains(i) <==> 0 <= i <= state.at && state.is_child(i)
    &&& state.stage is Finished && state.opts.dry_run && state.opts.verbose ==> forall|i: int| #[trigger]
        seen.contains(i) <==> 0 <= i < state.queue.len() && state.is_child(i)
    &&& state.stage.begins() || state.stage is PreviewPoints ==> seen.len() == 0
}

/// What holds of the worktrees that were looked at.
spec fn inspected(state: State, log: Ledger) -> bool {
    &&& log.dirty.len() == state.dirty.len()
    &&& forall|i: int|
        0 <= i < log.dirty.len() ==> #[trigger] state.dirty[i] == state.queue[log.dirty[i]]
    &&& state.stage is CheckStatus ==> inspected_to(state, log, state.at)
    &&& state.stage.begins() ==> log.looked.len() == 0
    &&& checks::acts(state.stage) || state.stage is CheckRebase ==> inspected_to(
        state,
        log,
        state.queue.len() as int,
    )
}

/// Whether the worktrees of all branches before `k` were looked at, in order.
spec fn inspected_to(state: State, log: Ledger, k: int) -> bool {
    &&& forall|i: int| #[trigger]
        log.looked.contains(i) <==> 0 <= i < k && i < state.queue.len() && state.is_node(i)
    &&& forall|a: int, b: int|
        0 <= a < b < log.looked.len() ==> #[trigger] log.looked[a] < #[trigger] log.looked[b]
}

proof fn lemma_inspected_same(state: State, after: State, log: Ledger, k: int)
    requires
        inspected_to(state, log, k),
        after.queue == state.queue,
        after.tree == state.tree,
    ensures
        inspected_to(after, log, k),
{
    assert forall|i: int| #[trigger] log.looked.contains(i) <==> 0 <= i < k && i
        < after.queue.len() && after.is_node(i) by {
        assert(after.is_node(i) == state.is_node(i));
    }
}

proof fn lemma_inspected_on(state: State, after: State, log: Ledger)
    requires
        inspected(state, log),
        checks::acts(state.stage),
        after.queue == state.queue,
        after.tree == state.tree,
        after.dirty == state.dirty,
        checks::acts(after.stage) || after.stage.ends(),
    ensures
        inspected(after, log),
{
    lemma_inspected_same(state, after, log, state.queue.len() as int);
}

proof fn lemma_check_inspected(state: State, k: int, log: Ledger)
    requires
        0 <= k <= state.queue.len(),
        log.dirty.len() == state.dirty.len(),
        forall|i: int|
            0 <= i < log.dirty.len() ==> #[trigger] state.dirty[i] == state.queue[log.dirty[i]],
        inspected_to(state, log, k),
    ensures
        inspected(state.check_status(k).state, log),
        state.check_status(k).state.stage is Failed ==> inspected_to(
            state.check_status(k).state,
            log,
            state.queue.len() as int,
        ),
{
    state::lemma_next_node(state, k);
    state::lemma_next_node(state, 0);
    let after = state.check_status(k).state;
    let next = state.next_node(k);
    assert(inspected_to(state, log, next)) by {
        assert forall|i: int| #[trigger] log.looked.contains(i) <==> 0 <= i < next && i
            < state.queue.len() && state.is_node(i) by {
            if k <= i < next {
                assert(!state.is_node(i));
            }
        }
    }
    lemma_inspected_same(state, after, log, next);
}

/// When the worktree at hand is looked at, all up to it were.
proof fn lemma_looked(state: State, log: Ledger, then: Ledger)
    requires
        state.valid(),
        state.stage is CheckStatus,
        inspected_to(state, log, state.at),
        then.looked == log.looked.push(state.at),
    ensures
        inspected_to(state, then, state.at + 1),
{
    let looked = then.looked;
    let at = state.at;
    assert forall|i: int| #[trigger] looked.contains(i) <==> 0 <= i < at + 1 && i
        < state.queue.len() && state.is_node(i) by {
        if log.looked.contains(i) {
            let x = choose|x: int| 0 <= x < log.looked.len() && log.looked[x] == i;
            assert(looked[x] == i);
        }
        if looked.contains(i) && i != at {
            let x = choose|x: int| 0 <= x < looked.len() && looked[x] == i;
            assert(log.looked[x] == i);
            assert(log.looked.contains(i));
        }
        assert(looked[log.looked.len() as int] == at);
    }
    assert forall|a: int, b: int| 0 <= a < b < looked.len() implies #[trigger] looked[a]
        < #[trigger] looked[b] by {
        assert(log.looked[a] == looked[a]);
        assert(log.looked.contains(looked[a]));
        if b < log.looked.len() {
            assert(log.looked[b] == looked[b]);
        }
    }
}

/// What is noted when the worktree at hand is looked at. If that ends the sync, none is left that
/// was not looked at, and the fault names the branches with tracked changes.
proof fn lemma_look_noted(state: State, output: String, log: Ledger)
    requires
        state.valid(),
        state.stage is CheckStatus,
        inspected(state, log),
    ensures
        ({
            let after = state.after_output(output@).state;
            let then = noted(state, Event::Output(output), log);
            &&& inspected(after, then)
            &&& after.queue == state.queue
            &&& after.tree == state.tree
            &&& after.stage is Failed ==> after.fault == failure::uncommitted(after.dirty)
                && after.dirty.len() > 0 && inspected_to(after, then, state.queue.len() as int)
        }),
{
    let then = noted(state, Event::Output(output), log);
    let after = state.after_output(output@).state;
    let next = if text::trim(output@).len() == 0 {
        state
    } else {
        State { dirty: state.dirty.push(state.branch()), ..state }
    };
    lemma_looked(state, log, then);
    lemma_inspected_same(state, next, then, state.at + 1);
    lemma_check_inspected(next, state.at + 1, then);
}

/// The same, of all notes.
pub proof fn lemma_reported(state: State, output: String, log: Ledger)
    requires
        state.valid(),
        state.stage is CheckStatus,
        right(state, log),
        state.after_output(output@).state.stage is Failed,
    ensures
        ({
            let after = state.after_output(output@).state;
            let then = noted(state, Event::Output(output), log);
            &&& after.fault == failure::uncommitted(
                Seq::new(then.dirty.len(), |i: int| state.queue[then.dirty[i]]),
            )
            &&& after.queue == state.queue
            &&& then.dirty.len() > 0
            &&& forall|i: int| #[trigger]
                then.looked.contains(i) <==> 0 <= i < state.queue.len() && state.is_node(i)
        }),
{
    let after = state.after_output(output@).state;
    let then = noted(state, Event::Output(output), log);
    lemma_look_noted(state, output, log);
    assert(after.dirty =~= Seq::new(then.dirty.len(), |i: int| state.queue[then.dirty[i]]));
    assert forall|i: int| after.is_node(i) == state.is_node(i) by {}
}

/// What holds of a ledger.
pub closed spec fn right(state: State, log: Ledger) -> bool {
    kept(state, log) && previewed(state, log) && inspected(state, log)
}

pub proof fn lemma_right_start(state: State)
    requires
        state.stage is Fetch || state.stage is Survey,
        state.integrated.len() == 0,
        state.pushable.len() == 0,
        state.dirty.len() == 0,
    ensures
        right(state, empty_ledger()),
{
}

/// Whether `turn` keeps what the notes are about.
spec fn holds_on(state: State, turn: Turn) -> bool {
    &&& turn.state.integrated == state.integrated
    &&& turn.state.pushable == state.pushable
    &&& turn.state.opts == state.opts
    &&& turn.state.queue == state.queue
    &&& turn.state.tree == state.tree
    &&& turn.state.dirty == state.dirty
}

spec fn noted_right(state: State, log: Ledger) -> bool {
    &&& log.asked.len() == log.removed.len() <= state.integrated.len()
    &&& forall|k: int| 0 <= k < log.asked.len() ==> #[trigger] log.asked[k] == state.integrated[k]
    &&& log.pushes.len() <= log.push_remotes.len() <= state.pushable.len()
    &&& forall|k: int|
        0 <= k < log.pushes.len() ==> #[trigger] log.pushes[k] == (
            log.push_remotes[k],
            state.pushable[k],
        )
}

proof fn lemma_prune_from_kept(state: State, k: int, log: Ledger)
    requires
        noted_right(state, log),
        all_pushed(state, log),
        state.opts.prune,
        0 <= k <= state.integrated.len(),
        pruned_to(state, log, k),
    ensures
        kept(state.prune_from(k).state, log),
        holds_on(state, state.prune_from(k)),
        state.prune_from(k).state.stage.concludes(),
{
}

proof fn lemma_prune_kept(state: State, log: Ledger)
    requires
        noted_right(state, log),
        all_pushed(state, log),
        unpruned(log),
    ensures
        kept(state.prune().state, log),
        holds_on(state, state.prune()),
        state.prune().state.stage.concludes(),
{
    assert(log.locals =~= locals_of(state.integrated, log.removed));
    assert(log.deletions =~= deletions_of(
        state.integrated,
        log.removed,
        log.upstreams,
        log.remotes,
    ));
    if state.opts.prune && state.integrated.len() > 0 {
        lemma_prune_from_kept(state, 0, log);
    }
}

proof fn lemma_push_from_kept(state: State, k: int, log: Ledger)
    requires
        noted_right(state, log),
        unpruned(log),
        state.opts.push,
        0 <= k <= state.pushable.len(),
        log.pushes.len() == k,
        log.push_remotes.len() == k,
    ensures
        kept(state.push_from(k).state, log),
        holds_on(state, state.push_from(k)),
        state.push_from(k).state.stage.concludes(),
{
    if k == state.pushable.len() {
        lemma_prune_kept(state, log);
    }
}

proof fn lemma_ask_upstream_kept(state: State, k: int, log: Ledger)
    requires
        noted_right(state, log),
        unpruned(log),
        unpushed(log),
        state.opts.push,
    ensures
        kept(state.ask_upstream(k).state, log),
        holds_on(state, state.ask_upstream(k)),
        state.ask_upstream(k).state.stage.concludes(),
{
    if state.pushable.len() == 0 {
        lemma_prune_kept(state, log);
    } else {
        lemma_push_from_kept(state, 0, log);
    }
}

proof fn lemma_push_kept(state: State, log: Ledger)
    requires
        noted_right(state, log),
        unpruned(log),
        unpushed(log),
    ensures
        kept(state.push().state, log),
        holds_on(state, state.push()),
        state.push().state.stage.concludes(),
{
    if state.opts.push {
        lemma_ask_upstream_kept(state, 0, log);
    } else {
        lemma_prune_kept(state, log);
    }
}

proof fn lemma_rebase_kept(state: State, k: int, log: Ledger)
    requires
        noted_right(state, log),
        unpruned(log),
        unpushed(log),
    ensures
        kept(state.rebase(k).state, log),
        holds_on(state, state.rebase(k)),
        state.rebase(k).state.stage is FindBase || state.rebase(k).state.stage.concludes(),
{
    lemma_push_kept(state, log);
}

/// The removal of the branch at hand is over.
proof fn lemma_pruned_kept(state: State, log: Ledger)
    requires
        state.valid(),
        state.stage.prunes(),
        noted_right(state, log),
        all_pushed(state, log),
        pruned_to(state, log, state.at + 1),
    ensures
        kept(state.prune_from(state.at + 1).state, log),
        holds_on(state, state.prune_from(state.at + 1)),
        state.prune_from(state.at + 1).state.stage.concludes(),
{
    lemma_prune_from_kept(state, state.at + 1, log);
}

/// What is noted when the worktree at hand is asked to be removed.
proof fn lemma_removal_noted(state: State, done: bool, log: Ledger)
    requires
        state.valid(),
        state.stage is RemoveWorktree,
        kept(state, log),
    ensures
        ({
            let removed = log.removed.push(done);
            let after = Ledger {
                asked: log.asked.push(state.integrated[state.at]),
                removed,
                ..log
            };
            &&& noted_right(state, after)
            &&& removed.drop_last() == log.removed
            &&& !done ==> pruned_to(state, after, state.at + 1)
        }),
{
    let removed = log.removed.push(done);
    assert(removed.drop_last() =~= log.removed);
    let after = Ledger { asked: log.asked.push(state.integrated[state.at]), removed, ..log };
    assert forall|k: int| 0 <= k < after.asked.len() implies #[trigger] after.asked[k]
        == state.integrated[k] by {
        if k < log.asked.len() {
            assert(log.asked[k] == state.integrated[k]);
        }
    }
    if !done {
        assert(after.locals == locals_of(state.integrated, removed));
        assert(after.deletions == deletions_of(
            state.integrated,
            removed,
            after.upstreams,
            after.remotes,
        ));
    }
}

/// What is noted when the local branch at hand is asked to be deleted.
proof fn lemma_local_noted(state: State, log: Ledger)
    requires
        state.valid(),
        state.stage is DeleteBranch,
        kept(state, log),
    ensures
        ({
            let after = Ledger { locals: log.locals.push(state.integrated[state.at].branch), ..log };
            &&& after.locals == locals_of(state.integrated, log.removed)
            &&& kept(state.branch_deleted().state, after)
            &&& holds_on(state, state.branch_deleted())
            &&& state.branch_deleted().state.stage.concludes()
        }),
{
    let after = Ledger { locals: log.locals.push(state.integrated[state.at].branch), ..log };
    assert(after.locals == locals_of(state.integrated, log.removed));
    if !state.has_upstream {
        lemma_pruned_kept(state, after);
    }
}

/// What is noted when the remote branch at hand is asked to be deleted.
proof fn lemma_deletion_noted(state: State, log: Ledger)
    requires
        state.valid(),
        state.stage is DeleteRemote,
        kept(state, log),
    ensures
        ({
            let after = Ledger {
                deletions: log.deletions.push((state.remote, state.integrated[state.at].branch)),
                ..log
            };
            &&& kept(state.prune_from(state.at + 1).state, after)
            &&& holds_on(state, state.prune_from(state.at + 1))
            &&& state.prune_from(state.at + 1).state.stage.concludes()
        }),
{
    let after = Ledger {
        deletions: log.deletions.push((state.remote, state.integrated[state.at].branch)),
        ..log
    };
    assert(after.deletions == deletions_of(
        state.integrated,
        log.removed,
        log.upstreams,
        log.remotes,
    ));
    lemma_pruned_kept(state, after);
}

/// What is noted when the branch at hand is pushed.
proof fn lemma_push_noted(state: State, log: Ledger)
    requires
        state.valid(),
        state.stage is Push,
        kept(state, log),
    ensures
        ({
            let after = Ledger {
                pushes: log.pushes.push((state.remote, state.pushable[state.at])),
                ..log
            };
            &&& kept(state.push_from(state.at + 1).state, after)
            &&& holds_on(state, state.push_from(state.at + 1))
            &&& state.push_from(state.at + 1).state.stage.concludes()
        }),
{
    let after = Ledger {
        pushes: log.pushes.push((state.remote, state.pushable[state.at])),
        ..log
    };
    assert forall|k: int| 0 <= k < after.pushes.len() implies #[trigger] after.pushes[k] == (
        after.push_remotes[k],
        state.pushable[k],
    ) by {
        if k < log.pushes.len() {
            assert(log.pushes[k] == (log.push_remotes[k], state.pushable[k]));
        }
    }
    lemma_push_from_kept(state, state.at + 1, after);
}

/// What is noted when the branch at hand is previewed.
proof fn lemma_seen(state: State, log: Ledger)
    requires
        state.valid(),
        state.stage is PreviewBase,
        previewed(state, log),
    ensures
        ({
            let seen = log.previews.push(state.at);
            &&& forall|i: int| #[trigger]
                seen.contains(i) <==> 0 <= i <= state.at && state.is_child(i)
            &&& forall|a: int, b: int|
                0 <= a < b < seen.len() ==> #[trigger] seen[a] < #[trigger] seen[b]
        }),
{
    let seen = log.previews.push(state.at);
    assert forall|i: int| #[trigger] seen.contains(i) <==> 0 <= i <= state.at
        && state.is_child(i) by {
        if log.previews.contains(i) {
            let x = choose|x: int|
                0 <= x < log.previews.len() && log.previews[x] == i;
            assert(seen[x] == i);
        }
        if seen.contains(i) && i != state.at {
            let x = choose|x: int| 0 <= x < seen.len() && seen[x] == i;
            assert(log.previews[x] == i);
            assert(log.previews.contains(i));
        }
        assert(seen[log.previews.len() as int] == state.at);
    }
    assert forall|a: int, b: int| 0 <= a < b < seen.len() implies #[trigger] seen[a]
        < #[trigger] seen[b] by {
        assert(log.previews[a] == seen[a]);
        assert(log.previews.contains(seen[a]));
        if b < log.previews.len() {
            assert(log.previews[b] == seen[b]);
        }
    }
}

pub proof fn lemma_done_noted(state: State, log: Ledger)
    requires
        state.valid(),
        state.accepts(Event::Done),
        right(state, log),
    ensures
        right(state.after_done().state, noted(state, Event::Done, log)),
{
    match state.stage {
        Stage::Rebase => lemma_rebase_kept(
            State { rebased: state.rebased + 1, ..state.settle() },
            state.at + 1,
            log,
        ),
        Stage::Push => lemma_push_noted(state, log),
        Stage::RemoveWorktree => lemma_removal_noted(state, true, log),
        Stage::DeleteBranch => lemma_local_noted(state, log),
        Stage::DeleteRemote => lemma_deletion_noted(state, log),
        _ => {},
    }
}

pub proof fn lemma_failure_noted(state: State, failure: Failure, log: Ledger)
    requires
        state.valid(),
        state.accepts(Event::Failed(failure)),
        right(state, log),
    ensures
        right(
            state.after_failure(failure@).state,
            noted(state, Event::Failed(failure), log),
        ),
{
    match state.stage {
        Stage::PreviewBase => lemma_seen(state, log),
        Stage::Push => lemma_push_noted(state, log),
        Stage::RemoveWorktree => {
            lemma_removal_noted(state, false, log);
            let after = noted(state, Event::Failed(failure), log);
            lemma_pruned_kept(state, after);
        },
        Stage::DeleteBranch => lemma_local_noted(state, log),
        Stage::DeleteRemote => lemma_deletion_noted(state, log),
        _ => {},
    }
}

pub proof fn lemma_surveyed_noted(state: State, after: State, log: Ledger)
    requires
        state.valid(),
        state.stage is Survey,
        right(state, log),
        after.stage is Locate,
        after.pushable == state.pushable,
        after.queue == state.queue,
        after.dirty == state.dirty,
    ensures
        right(after, log),
{
    assert(state.dirty.len() == 0);
}

proof fn lemma_preview_noted(state: State, k: int, log: Ledger)
    requires
        0 <= k <= state.queue.len(),
        kept(state, log),
        forall|a: int, b: int|
            0 <= a < b < log.previews.len() ==> #[trigger] log.previews[a]
                < #[trigger] log.previews[b],
        forall|i: int| #[trigger]
            log.previews.contains(i) <==> 0 <= i < k && state.is_child(i),
        unpushed(log),
        unpruned(log),
        state.opts.dry_run,
        log.dirty.len() == 0,
        state.dirty.len() == 0,
    ensures
        right(state.preview(k).state, log),
{
    state::lemma_next_child(state, k);
    let later = state.preview(k).state;
    assert forall|i: int| state.is_child(i) == #[trigger] later.is_child(i) by {}
}

proof fn lemma_begin_noted(state: State, queue: Seq<Seq<char>>, log: Ledger)
    requires
        state.valid(),
        state.stage is Locate,
        right(state, log),
    ensures
        right(state.begin(queue).state, log),
{
    assert(log.looked =~= seq![]);
    if !state.opts.dry_run {
        lemma_check_inspected(State { queue, ..state }, 0, log);
    }
}

proof fn lemma_located_noted(state: State, name: Option<Seq<char>>, log: Ledger)
    requires
        state.valid(),
        state.stage is Locate,
        right(state, log),
    ensures
        right(state.select(name).state, log),
{
    assert forall|queue: Seq<Seq<char>>| right((#[trigger] state.begin(queue)).state, log) by {
        lemma_begin_noted(state, queue, log);
    }
    let idle = state.nothing_to_sync().state;
    assert(log.looked =~= seq![]);
    assert(right(idle, log));
}

pub proof fn lemma_name_noted(state: State, name: Option<String>, log: Ledger)
    requires
        state.valid(),
        state.accepts(Event::Name(name)),
        right(state, log),
    ensures
        right(
            state.after_name(tree::optional_text(name)).state,
            noted(state, Event::Name(name), log),
        ),
{
    let told = tree::optional_text(name);
    let after = noted(state, Event::Name(name), log);
    match state.stage {
        Stage::Locate => lemma_located_noted(state, told, log),
        Stage::PreviewBase => {
            lemma_seen(state, log);
            if told is None {
                lemma_preview_noted(state, state.at + 1, after);
            } else {
                let later = state.after_name(told).state;
                assert forall|i: int| state.is_child(i) == #[trigger] later.is_child(i) by {}
            }
        },
        Stage::FindBase => {
            if told is None {
                lemma_rebase_kept(state, state.at + 1, log);
            }
            lemma_inspected_on(state, state.after_name(told).state, log);
        },
        Stage::AskRemote => {
            assert forall|k: int| 0 <= k < after.pushes.len() implies #[trigger] after.pushes[k]
                == (after.push_remotes[k], state.pushable[k]) by {
                assert(log.pushes[k] == (log.push_remotes[k], state.pushable[k]));
            }
        },
        _ => {
            let before = Ledger { upstreams: log.upstreams.drop_last(), ..log };
            lemma_deletions_same(
                state.integrated,
                log.removed,
                before.upstreams,
                log.remotes,
                log.upstreams,
                after.remotes,
            );
        },
    }
}

pub proof fn lemma_output_noted(state: State, output: String, log: Ledger)
    requires
        state.valid(),
        state.accepts(Event::Output(output)),
        right(state, log),
    ensures
        right(
            state.after_output(output@).state,
            noted(state, Event::Output(output), log),
        ),
{
    let told = State { tip: text::trim(output@), ..state };
    match state.stage {
        Stage::CheckStatus => lemma_look_noted(state, output, log),
        Stage::PreviewTip => {
            let marked = State { bases: told.bases.insert(told.branch(), told.base()), ..told };
            assert forall|i: int| state.is_child(i) == #[trigger] told.is_child(i) by {}
            assert forall|i: int| state.is_child(i) == #[trigger] marked.is_child(i) by {}
            lemma_preview_noted(told, state.at + 1, log);
            lemma_preview_noted(marked, state.at + 1, log);
        },
        Stage::FindTip => {
            if told.merge_base == told.tip {
                lemma_rebase_kept(
                    State { skipped: told.skipped + 1, ..told.settle() },
                    state.at + 1,
                    log,
                );
            }
        },
        _ => {},
    }
}

pub proof fn lemma_flag_noted(state: State, yes: bool, log: Ledger)
    requires
        state.valid(),
        state.accepts(Event::Flag(yes)),
        right(state, log),
    ensures
        right(state.after_flag(yes).state, noted(state, Event::Flag(yes), log)),
{
    match state.stage {
        Stage::AskUpstream => {
            lemma_ask_upstream_kept(state, state.at + 1, log);
            lemma_ask_upstream_kept(
                State { pushable: state.pushable.push(state.branch()), ..state },
                state.at + 1,
                log,
            );
        },
        Stage::PruneUpstream => {
            let after = noted(state, Event::Flag(yes), log);
            assert(after.upstreams.drop_last() =~= log.upstreams);
        },
        _ => {},
    }
}

pub proof fn lemma_points_noted(state: State, content: Option<String>, log: Ledger)
    requires
        state.valid(),
        state.accepts(Event::Contents(content)),
        right(state, log),
    ensures
        right(
            state.after_points(state::points_in(content)).state,
            noted(state, Event::Contents(content), log),
        ),
{
    let read = State { points: state::points_in(content), ..state };
    if state.stage is ReadPoints {
        lemma_rebase_kept(read, 0, log);
    } else {
        assert(log.previews =~= seq![]);
        lemma_preview_noted(read, 0, log);
    }
}

/// What the notes hold once all is pushed and removed.
pub proof fn lemma_ended(state: State, log: Ledger)
    requires
        right(state, log),
        state.stage is Finished,
        !state.opts.dry_run,
    ensures
        state.opts.push ==> log.pushes.len() == state.pushable.len() && log.push_remotes.len()
            == state.pushable.len(),
        !state.opts.push ==> log.pushes.len() == 0,
        forall|k: int|
            0 <= k < log.pushes.len() ==> #[trigger] log.pushes[k] == (
                log.push_remotes[k],
                state.pushable[k],
            ),
        state.opts.prune ==> log.asked == state.integrated && log.removed.len()
            == state.integrated.len() && log.upstreams.len() == state.integrated.len()
            && log.remotes.len() == state.integrated.len(),
        !state.opts.prune ==> log.asked.len() == 0 && log.removed.len() == 0,
        log.locals == locals_of(state.integrated, log.removed),
        log.deletions == deletions_of(
            state.integrated,
            log.removed,
            log.upstreams,
            log.remotes,
        ),
{
    if state.opts.prune {
        assert(log.asked =~= state.integrated);
    } else {
        assert(log.locals =~= locals_of(state.integrated, log.removed));
        assert(log.deletions =~= deletions_of(
            state.integrated,
            log.removed,
            log.upstreams,
            log.remotes,
        ));
    }
}

/// What the notes hold when a branch is being previewed, pushed or removed.
pub proof fn lemma_under_way(state: State, log: Ledger)
    requires
        right(state, log),
    ensures
        state.stage is Push ==> log.pushes.len() == state.at && log.push_remotes.len() == state.at
            + 1 && log.push_remotes.last() == state.remote,
        state.stage is AskRemote ==> log.pushes.len() == state.at,
        state.stage is PruneUpstream ==> log.upstreams.len() == state.at,
        state.stage is PruneRemote ==> log.remotes.len() == state.at,
        state.stage is RemoveWorktree ==> log.asked.len() == state.at,
        state.stage is DeleteBranch || state.stage is DeleteRemote ==> log.asked.len() == state.at
            + 1 && log.removed.last() && log.upstreams.len() == state.at + 1 && log.remotes.len()
            == state.at + 1 && log.remotes.last() == state.remote,
        state.stage is DeleteRemote ==> log.upstreams.last(),
{
}

/// What the previews hold once the plan is shown.
pub proof fn lemma_planned(state: State, log: Ledger)
    requires
        right(state, log),
        state.stage is Finished,
        state.opts.dry_run,
        state.opts.verbose,
    ensures
        forall|i: int| #[trigger]
            log.previews.contains(i) <==> 0 <= i < state.queue.len() && state.is_child(i),
        forall|a: int, b: int|
            0 <= a < b < log.previews.len() ==> #[trigger] log.previews[a]
                < #[trigger] log.previews[b],
{
}

/// Where each of the branches of removed worktrees stands among `sites`.
pub proof fn lemma_locals(sites: Seq<Site>, removed: Seq<bool>)
    requires
        removed.len() <= sites.len(),
    ensures
        ({
            let at = pushes::agreed(removed);
            let locals = locals_of(sites, removed);
            &&& locals.len() == at.len()
            &&& forall|i: int| 0 <= i < at.len() ==> #[trigger] locals[i] == sites[at[i]].branch
        }),
    decreases removed.len(),
{
    if removed.len() > 0 {
        let front = removed.drop_last();
        lemma_locals(sites, front);
        let at = pushes::agreed(removed);
        let locals = locals_of(sites, removed);
        let older = locals_of(sites, front);
        assert forall|i: int| 0 <= i < at.len() implies #[trigger] locals[i]
            == sites[at[i]].branch by {
            if i < older.len() {
                assert(locals[i] == older[i]);
                assert(at[i] == pushes::agreed(front)[i]);
            }
        }
    }
}

/// Which worktrees were removed and have an upstream.
pub open spec fn both(removed: Seq<bool>, upstreams: Seq<bool>) -> Seq<bool> {
    Seq::new(removed.len(), |i: int| removed[i] && upstreams[i])
}

/// Where each of the remote branches of removed worktrees stands among `sites`.
pub proof fn lemma_deletions(
    sites: Seq<Site>,
    removed: Seq<bool>,
    upstreams: Seq<bool>,
    remotes: Seq<Seq<char>>,
)
    requires
        removed.len() <= sites.len(),
        removed.len() <= upstreams.len(),
        removed.len() <= remotes.len(),
    ensures
        ({
            let at = pushes::agreed(both(removed, upstreams));
            let deletions = deletions_of(sites, removed, upstreams, remotes);
            &&& deletions.len() == at.len()
            &&& forall|i: int|
                0 <= i < at.len() ==> #[trigger] deletions[i] == (
                    remotes[at[i]],
                    sites[at[i]].branch,
                )
        }),
    decreases removed.len(),
{
    if removed.len() > 0 {
        let front = removed.drop_last();
        lemma_deletions(sites, front, upstreams, remotes);
        assert(both(removed, upstreams).drop_last() =~= both(front, upstreams));
        let at = pushes::agreed(both(removed, upstreams));
        let deletions = deletions_of(sites, removed, upstreams, remotes);
        let older = deletions_of(sites, front, upstreams, remotes);
        assert forall|i: int| 0 <= i < at.len() implies #[trigger] deletions[i] == (
            remotes[at[i]],
            sites[at[i]].branch,
        ) by {
            if i < older.len() {
                assert(deletions[i] == older[i]);
                assert(at[i] == pushes::agreed(both(front, upstreams))[i]);
            }
        }
    }
}

} // verus!
