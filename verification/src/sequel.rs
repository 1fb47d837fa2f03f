//! What a sync leaves behind, and what the next one finds.

use std::path::PathBuf;

use vstd::prelude::*;

use crate::branch_map;
use crate::branch_map::BranchMap;
use crate::course;
use crate::ground::{Ground, Site};
use crate::history;
use crate::history::World;
use crate::likeness;
use crate::moves;
use crate::options::SyncOptions;
use crate::round_trip;
use crate::stack_file;
use crate::state;
use crate::state::{Event, Stage, State};
use crate::text;
use crate::tree;
use crate::tree::{DependencyTree, Tree};
use crate::turns;
use crate::wiring;

verus! {

/// What git says of the local branches.
pub struct Refs {
    /// The tip of a branch.
    pub tip: spec_fn(Seq<char>) -> Seq<char>,
    /// The commit at which a branch, the second, parts from another.
    pub merge_base: spec_fn(Seq<char>, Seq<char>) -> Option<Seq<char>>,
}

/// Whether nothing changes but what `gone` stands for.
pub open spec fn spared(before: Refs, after: Refs, gone: Seq<char>) -> bool {
    &&& forall|b: Seq<char>| b != gone ==> #[trigger] (after.tip)(b) == (before.tip)(b)
    &&& forall|p: Seq<char>, b: Seq<char>|
        p != gone && b != gone ==> #[trigger] (after.merge_base)(p, b) == (before.merge_base)(p, b)
}

/// Whether `event` tells of the branches what git says.
pub open spec fn truthful(state: State, event: Event, refs: Refs) -> bool {
    match event {
        Event::Name(name) => state.stage is FindBase ==> tree::optional_text(name) == (
        refs.merge_base)(state.parent(), state.branch()),
        Event::Output(output) => state.stage is FindTip ==> text::trim(output@) == (refs.tip)(
            state.parent(),
        ),
        _ => true,
    }
}

/// What an action leaves of the branches. A rebase that is done puts the branch at hand on the tip
/// of its parent and touches no other. The removal of an integrated branch touches no other. No
/// other action touches a local branch. Nothing is said of a rebase that fails.
pub open spec fn leaves(state: State, event: Event, before: Refs, after: Refs) -> bool {
    match state.stage {
        Stage::Rebase => event is Done ==> spared(before, after, state.branch()) && (
        after.merge_base)(state.parent(), state.branch()) == Some((after.tip)(state.parent())),
        Stage::DeleteBranch => spared(before, after, state.integrated[state.at].branch),
        _ => after == before,
    }
}

/// Whether event `i` is truthful and its action leaves the branches as it should.
pub open spec fn seen_at(
    opts: SyncOptions,
    events: Seq<Event>,
    refs: Seq<Refs>,
    i: int,
) -> bool {
    let state = course::run(opts, events.take(i));
    truthful(state, events[i], refs[i]) && leaves(state, events[i], refs[i], refs[i + 1])
}

/// Whether `refs` are what git says before the first of `events` and after each of them.
pub open spec fn witnessed(opts: SyncOptions, events: Seq<Event>, refs: Seq<Refs>) -> bool {
    &&& refs.len() == events.len() + 1
    &&& forall|i: int| 0 <= i < events.len() ==> #[trigger] seen_at(opts, events, refs, i)
}

/// Whether `b` stands on the tip of `p`, or shares no history with it.
pub open spec fn stands_on(refs: Refs, p: Seq<char>, b: Seq<char>) -> bool {
    match (refs.merge_base)(p, b) {
        Some(merge_base) => merge_base == (refs.tip)(p),
        None => true,
    }
}

/// Whether the tree is wired and every branch hangs below its root.
pub open spec fn rooted(tree: Tree) -> bool {
    &&& tree.wired()
    &&& forall|b: Seq<char>| #[trigger]
        tree.nodes.contains_key(b) && b != tree.root ==> tree.topological_order().contains(b)
}

/// Whether no integrated branch is in the tree.
pub open spec fn apart(tree: Tree, integrated: Seq<Site>) -> bool {
    forall|k: int|
        0 <= k < integrated.len() ==> !tree.nodes.contains_key((#[trigger] integrated[k]).branch)
}

/// The parent of branch `i` of the queue.
pub open spec fn parent_at(state: State, i: int) -> Seq<char> {
    state.tree.nodes[state.queue[i]].parent->0
}

/// Whether branch `i` has a parent in the tree that comes before it.
spec fn follows_parent(state: State, i: int) -> bool {
    &&& state.is_child(i)
    &&& state.queue[i] != state.tree.root
    &&& state.tree.nodes.contains_key(parent_at(state, i))
    &&& parent_at(state, i) == state.tree.root || wiring::stands_before(
        state.queue,
        parent_at(state, i),
        i,
    )
}

proof fn lemma_rooted(tree: Tree, b: Seq<char>) -> (d: nat)
    requires
        rooted(tree),
        tree.nodes.contains_key(b),
        b != tree.root,
    ensures
        1 <= d,
        tree.hangs(b, d),
        tree.nodes[b].parent is Some,
        tree.nodes.contains_key(tree.nodes[b].parent->0),
        !wiring::on_circle(tree, b),
{
    wiring::law_topological_order(tree);
    assert(tree.topological_order().contains(b));
    let d = choose|n: nat| 1 <= n && #[trigger] tree.hangs(b, n);
    assert(tree.hangs(tree.nodes[b].parent->0, (d - 1) as nat));
    if wiring::on_circle(tree, b) {
        let n = choose|n: nat| 1 <= n && #[trigger] tree.below(b, b, n);
        wiring::lemma_below_adds(tree, tree.root, b, b, d, n);
        wiring::lemma_one_depth(tree, b, d, d + n);
    }
    d
}

/// In a rooted tree a queue holds each branch once and its parent before it.
proof fn lemma_rooted_queue(state: State, current: Option<Seq<char>>)
    requires
        rooted(state.tree),
        turns::queue_fits(state, current),
    ensures
        state.queue.no_duplicates(),
        forall|i: int| 0 <= i < state.queue.len() ==> #[trigger] follows_parent(state, i),
{
    let tree = state.tree;
    let queue = state.queue;
    wiring::law_sync_order(tree);
    if !state.opts.all {
        let branch = current->0;
        wiring::law_topological_order(tree);
        if tree.nodes.contains_key(branch) && branch != tree.root {
            let d = lemma_rooted(tree, branch);
            wiring::law_stack_containing(tree, branch, d);
        } else if branch == tree.root {
            let start = set![branch];
            assert(tree.climb(branch, start) == Some(branch));
        }
    }
    assert forall|i: int| 0 <= i < queue.len() implies #[trigger] follows_parent(state, i) by {
        if state.opts.all {
            assert(wiring::parent_first(tree, queue, i));
        } else {
            wiring::law_stack_parents_first(tree, current->0, i);
        }
        lemma_rooted(tree, queue[i]);
    }
}

/// Whether a rebase has gone wrong.
spec fn upset(stage: Stage) -> bool {
    stage is AskConflict || stage is SaveAfterConflict || stage is Failed
}

/// What holds of the branches that were dealt with.
spec fn steady(state: State, dealt: Set<int>, refs: Refs) -> bool {
    &&& state.stage.prepares() ==> forall|i: int| !dealt.contains(i)
    &&& forall|i: int| #[trigger]
        dealt.contains(i) ==> 0 <= i < state.queue.len() && (state.stage.rebases() ==> i < state.at)
    &&& !upset(state.stage) ==> forall|i: int| #[trigger]
        dealt.contains(i) ==> stands_on(refs, parent_at(state, i), state.queue[i])
    &&& state.stage is FindTip ==> (refs.merge_base)(state.parent(), state.branch()) == Some(
        state.merge_base,
    )
}

/// What stays of the branches that were dealt with when another is rebased or removed.
proof fn lemma_spared(state: State, i: int, before: Refs, after: Refs, gone: Seq<char>)
    requires
        follows_parent(state, i),
        spared(before, after, gone),
        state.queue[i] != gone,
        parent_at(state, i) != gone,
        stands_on(before, parent_at(state, i), state.queue[i]),
    ensures
        stands_on(after, parent_at(state, i), state.queue[i]),
{
    let p = parent_at(state, i);
    assert((after.merge_base)(p, state.queue[i]) == (before.merge_base)(p, state.queue[i]));
    assert((after.tip)(p) == (before.tip)(p));
}

proof fn lemma_steady_step(
    state: State,
    event: Event,
    after: State,
    current: Option<Seq<char>>,
    dealt: Set<int>,
    before: Refs,
    refs: Refs,
)
    requires
        state.valid(),
        state.accepts(event),
        moves::moves(state, event, after),
        turns::chosen(state) ==> turns::queue_fits(state, current),
        rooted(state.tree),
        apart(state.tree, state.integrated),
        state.stage.rebases() || state.stage.concludes(),
        steady(state, dealt, before),
        truthful(state, event, before),
        leaves(state, event, before, refs),
    ensures
        steady(after, turns::dealt_after(state, event, dealt), refs),
{
    let now = turns::dealt_after(state, event, dealt);
    lemma_rooted_queue(state, current);
    assert(moves::settles(state, event, after));
    if state.stage.rebases() {
        assert(follows_parent(state, state.at));
    }
    assert forall|i: int| #[trigger] now.contains(i) implies 0 <= i < after.queue.len() && (
    after.stage.rebases() ==> i < after.at) by {
        if i != state.at {
            assert(dealt.contains(i));
        }
    }
    if !upset(after.stage) {
        assert forall|i: int| #[trigger] now.contains(i) implies stands_on(
            refs,
            parent_at(after, i),
            after.queue[i],
        ) by {
            assert(parent_at(after, i) == parent_at(state, i));
            if dealt.contains(i) {
                let b = state.queue[i];
                let p = parent_at(state, i);
                assert(stands_on(before, p, b));
                assert(follows_parent(state, i));
                if state.stage is Rebase {
                    if p != state.tree.root {
                        let j = choose|j: int| 0 <= j < i && #[trigger] state.queue[j] == p;
                        assert(state.queue[j] != state.queue[state.at]);
                    }
                    lemma_spared(state, i, before, refs, state.branch());
                } else if state.stage is DeleteBranch {
                    lemma_spared(state, i, before, refs, state.integrated[state.at].branch);
                }
            }
        }
    }
}

proof fn lemma_front(opts: SyncOptions, events: Seq<Event>, refs: Seq<Refs>)
    requires
        witnessed(opts, events, refs),
        events.len() > 0,
    ensures
        witnessed(opts, events.drop_last(), refs.drop_last()),
        refs.drop_last().last() == refs[events.len() - 1],
        refs.last() == refs[events.len() as int],
        truthful(
            course::run(opts, events.drop_last()),
            events.last(),
            refs.drop_last().last(),
        ),
        leaves(
            course::run(opts, events.drop_last()),
            events.last(),
            refs.drop_last().last(),
            refs.last(),
        ),
{
    let front = events.drop_last();
    let fewer = refs.drop_last();
    let last = events.len() - 1;
    assert forall|i: int| 0 <= i < front.len() implies #[trigger] seen_at(opts, front, fewer, i) by {
        assert(seen_at(opts, events, refs, i));
        assert(front.take(i) =~= events.take(i));
    }
    assert(seen_at(opts, events, refs, last));
    assert(events.take(last) =~= front);
}

proof fn lemma_steady(opts: SyncOptions, events: Seq<Event>, refs: Seq<Refs>)
    requires
        course::proper(opts, events),
        witnessed(opts, events, refs),
        rooted(course::run(opts, events).tree),
        apart(course::run(opts, events).tree, course::run(opts, events).integrated),
    ensures
        steady(course::run(opts, events), course::dealt_with(opts, events), refs.last()),
    decreases events.len(),
{
    course::lemma_run(opts, events);
    if events.len() > 0 {
        let front = events.drop_last();
        let before = course::run(opts, front);
        let fewer = refs.drop_last();
        course::lemma_run(opts, front);
        lemma_front(opts, events, refs);
        if before.stage.rebases() || before.stage.concludes() {
            lemma_steady(opts, front, fewer);
            lemma_steady_step(
                before,
                events.last(),
                course::run(opts, events),
                course::current(opts, front),
                course::dealt_with(opts, front),
                fewer.last(),
                refs.last(),
            );
        } else {
            lemma_nothing_dealt(opts, front);
        }
    }
}

/// Before branches are rebased none is dealt with.
proof fn lemma_nothing_dealt(opts: SyncOptions, events: Seq<Event>)
    requires
        course::proper(opts, events),
        course::run(opts, events).stage.prepares(),
    ensures
        forall|i: int| !course::dealt_with(opts, events).contains(i),
    decreases events.len(),
{
    if events.len() > 0 {
        let front = events.drop_last();
        course::lemma_run(opts, events);
        course::lemma_run(opts, front);
        lemma_nothing_dealt(opts, front);
    }
}

/// A sync that comes to its end, other than a dry run, leaves every branch that it took on the tip
/// of its parent, unless the two share no history. This holds for a tree in which all branches hang
/// below the default branch and none is integrated.
pub proof fn law_stands_after_sync(opts: SyncOptions, events: Seq<Event>, refs: Seq<Refs>, i: int)
    requires
        course::proper(opts, events),
        !opts.dry_run,
        course::run(opts, events).stage is Finished,
        witnessed(opts, events, refs),
        rooted(course::run(opts, events).tree),
        apart(course::run(opts, events).tree, course::run(opts, events).integrated),
        0 <= i < course::run(opts, events).queue.len(),
    ensures
        stands_on(
            refs.last(),
            parent_at(course::run(opts, events), i),
            course::run(opts, events).queue[i],
        ),
{
    let state = course::run(opts, events);
    course::lemma_run(opts, events);
    lemma_steady(opts, events, refs);
    lemma_rooted_queue(state, course::current(opts, events));
    assert(follows_parent(state, i));
    assert(events.len() > 0);
    let front = events.drop_last();
    let before = course::run(opts, front);
    course::lemma_run(opts, front);
    assert(before.stage is SavePoints);
    assert(before.is_child(i));
    assert(course::dealt_with(opts, front).contains(i));
    assert(course::dealt_with(opts, events).contains(i));
}

/// Whether nothing has changed since a sync that worked on `tree` from `current`: the survey gives
/// a tree like it, with no integrated branch in it, and the current branch is the same.
pub open spec fn unchanged(
    opts: SyncOptions,
    events: Seq<Event>,
    tree: Tree,
    current: Option<Seq<char>>,
) -> bool {
    forall|i: int|
        0 <= i < events.len() ==> #[trigger] unchanged_at(
            course::run(opts, events.take(i)),
            events[i],
            tree,
            current,
        )
}

/// Whether `event` tells of no change.
pub open spec fn unchanged_at(
    state: State,
    event: Event,
    tree: Tree,
    current: Option<Seq<char>>,
) -> bool {
    match event {
        Event::Surveyed { tree: found, integrated } => likeness::alike(found@, tree) && apart(
            found@,
            state::listing(integrated),
        ),
        Event::Name(name) => state.stage is Locate ==> tree::optional_text(name) == current,
        _ => true,
    }
}

/// No branch that a survey finds integrated is in the tree that it finds.
pub proof fn law_integrated_apart(
    ground: Ground,
    world: World,
    tree: Tree,
    integrated: BranchMap<PathBuf>,
)
    requires
        ground.bears(world, tree, integrated@),
    ensures
        apart(tree, state::listing(integrated)),
{
    let sites = state::listing(integrated);
    assert forall|k: int| 0 <= k < sites.len() implies !tree.nodes.contains_key(
        (#[trigger] sites[k]).branch,
    ) by {
        let branch = sites[k].branch;
        branch_map::law_names_held(integrated, k);
        history::law_integrated(ground, world, branch);
        history::law_tree_of_repository(ground, world, tree, integrated@, branch);
    }
}

/// The survey after a sync tells of no change: if the stack file of a tree was written, the tree
/// is rooted with plain names, and the same branches count as integrated, then the next survey
/// gives a tree like it, with no integrated branch in it.
pub proof fn law_survey_unchanged(
    root: Seq<char>,
    sites: Seq<Site>,
    world: World,
    tree: Tree,
    integrated: Map<Seq<char>, PathBuf>,
    later: World,
    state: State,
    found: DependencyTree,
    gone: BranchMap<PathBuf>,
    current: Option<Seq<char>>,
)
    requires
        world.ground(root, sites).bears(world, tree, integrated),
        rooted(tree),
        forall|b: Seq<char>| #[trigger]
            tree.nodes.contains_key(b) && b != root ==> round_trip::plain(b),
        later.stack_file == Some(stack_file::stack_text(tree)),
        later.ground(root, sites).bears(later, found@, gone@),
        gone@.dom() == integrated.dom(),
    ensures
        unchanged_at(state, Event::Surveyed { tree: found, integrated: gone }, tree, current),
{
    history::law_tree_of_repository(world.ground(root, sites), world, tree, integrated, root);
    round_trip::law_second_survey(root, sites, world, tree, integrated, later, found@, gone@);
    law_integrated_apart(later.ground(root, sites), later, found@, gone);
}

/// Whether git says the same of the branches of `tree`.
pub open spec fn still(tree: Tree, before: Refs, after: Refs) -> bool {
    &&& forall|b: Seq<char>| #[trigger]
        tree.nodes.contains_key(b) ==> (after.tip)(b) == (before.tip)(b)
    &&& forall|p: Seq<char>, b: Seq<char>|
        #![trigger (after.merge_base)(p, b)]
        tree.nodes.contains_key(p) && tree.nodes.contains_key(b) ==> (after.merge_base)(p, b) == (
        before.merge_base)(p, b)
}

/// What holds of the second sync.
spec fn idle(
    state: State,
    found: Option<Seq<char>>,
    refs: Refs,
    first: State,
    current: Option<Seq<char>>,
    left: Refs,
) -> bool {
    &&& state.rebased == 0
    &&& !(state.stage is Rebase || state.stage is AskConflict || state.stage is SaveAfterConflict)
    &&& still(first.tree, left, refs)
    &&& state.stage is Locate || turns::chosen(state) ==> likeness::alike(state.tree, first.tree)
        && apart(state.tree, state.integrated)
    &&& turns::chosen(state) ==> found == current
    &&& state.stage is FindTip ==> (refs.merge_base)(state.parent(), state.branch()) == Some(
        state.merge_base,
    )
}

proof fn lemma_same_queue(
    state: State,
    found: Option<Seq<char>>,
    first: State,
    current: Option<Seq<char>>,
)
    requires
        rooted(first.tree),
        turns::queue_fits(first, current),
        turns::queue_fits(state, found),
        likeness::alike(state.tree, first.tree),
        found == current,
        state.opts.all == first.opts.all,
    ensures
        state.queue == first.queue,
        forall|i: int|
            0 <= i < state.queue.len() ==> #[trigger] parent_at(state, i) == parent_at(first, i)
                && state.tree.nodes.contains_key(state.queue[i])
                && state.tree.nodes.contains_key(parent_at(state, i)),
        first.tree.nodes.dom() == state.tree.nodes.dom(),
{
    assert(state.tree.nodes.dom().finite());
    let branch = match current {
        Some(branch) => branch,
        None => seq![],
    };
    likeness::law_alike_walks(state.tree, first.tree, branch);
    lemma_rooted_queue(first, current);
    assert forall|i: int| 0 <= i < state.queue.len() implies #[trigger] parent_at(state, i)
        == parent_at(first, i) && state.tree.nodes.contains_key(state.queue[i])
        && state.tree.nodes.contains_key(parent_at(state, i)) by {
        assert(follows_parent(first, i));
        assert(first.tree.nodes.dom().contains(first.queue[i]));
        assert(first.tree.nodes.dom().contains(parent_at(first, i)));
        assert(state.tree.nodes.contains_key(state.queue[i]));
    }
}

proof fn lemma_idle_step(
    state: State,
    event: Event,
    after: State,
    found: Option<Seq<char>>,
    before: Refs,
    refs: Refs,
    first: State,
    current: Option<Seq<char>>,
    left: Refs,
)
    requires
        state.valid(),
        state.accepts(event),
        moves::moves(state, event, after),
        turns::chosen(state) ==> turns::queue_fits(state, found),
        state.opts.all == first.opts.all,
        rooted(first.tree),
        turns::queue_fits(first, current),
        forall|i: int|
            0 <= i < first.queue.len() ==> stands_on(
                left,
                #[trigger] parent_at(first, i),
                first.queue[i],
            ),
        idle(state, found, before, first, current, left),
        truthful(state, event, before),
        leaves(state, event, before, refs),
        unchanged_at(state, event, first.tree, current),
    ensures
        idle(after, turns::current_after(state, event, found), refs, first, current, left),
{
    if state.stage.rebases() || state.stage.concludes() {
        assert(turns::chosen(state));
        lemma_same_queue(state, found, first, current);
    }
    assert(still(first.tree, left, refs)) by {
        if state.stage is DeleteBranch {
            let gone = state.integrated[state.at].branch;
            assert(!state.tree.nodes.contains_key(gone));
            assert(!first.tree.nodes.dom().contains(gone));
            assert forall|b: Seq<char>| #[trigger] first.tree.nodes.contains_key(b) implies (
            refs.tip)(b) == (left.tip)(b) by {
                assert((before.tip)(b) == (left.tip)(b));
            }
            assert forall|p: Seq<char>, b: Seq<char>|
                #![trigger (refs.merge_base)(p, b)]
                first.tree.nodes.contains_key(p) && first.tree.nodes.contains_key(b) implies (
            refs.merge_base)(p, b) == (left.merge_base)(p, b) by {
                assert((before.merge_base)(p, b) == (left.merge_base)(p, b));
            }
        }
    }
    if state.stage is FindTip {
        let i = state.at;
        let p = parent_at(state, i);
        let b = state.queue[i];
        assert(p == parent_at(first, i));
        assert(stands_on(left, p, b));
        assert(first.tree.nodes.dom().contains(p) && first.tree.nodes.dom().contains(b));
        assert(first.tree.nodes.contains_key(p));
        assert((before.merge_base)(p, b) == (left.merge_base)(p, b));
        assert((before.tip)(p) == (left.tip)(p));
    }
}

proof fn lemma_idle(
    opts: SyncOptions,
    events: Seq<Event>,
    refs: Seq<Refs>,
    first: State,
    current: Option<Seq<char>>,
    left: Refs,
)
    requires
        course::proper(opts, events),
        witnessed(opts, events, refs),
        refs[0] == left,
        opts.all == first.opts.all,
        rooted(first.tree),
        turns::queue_fits(first, current),
        forall|i: int|
            0 <= i < first.queue.len() ==> stands_on(
                left,
                #[trigger] parent_at(first, i),
                first.queue[i],
            ),
        unchanged(opts, events, first.tree, current),
    ensures
        idle(
            course::run(opts, events),
            course::current(opts, events),
            refs.last(),
            first,
            current,
            left,
        ),
    decreases events.len(),
{
    course::lemma_run(opts, events);
    if events.len() > 0 {
        let front = events.drop_last();
        let fewer = refs.drop_last();
        let last = events.len() - 1;
        course::lemma_run(opts, front);
        lemma_front(opts, events, refs);
        assert(events.take(last) =~= front);
        assert(unchanged_at(
            course::run(opts, events.take(last)),
            events[last],
            first.tree,
            current,
        ));
        assert(unchanged(opts, front, first.tree, current)) by {
            assert forall|i: int| 0 <= i < front.len() implies #[trigger] unchanged_at(
                course::run(opts, front.take(i)),
                front[i],
                first.tree,
                current,
            ) by {
                assert(front.take(i) =~= events.take(i));
                assert(unchanged_at(
                    course::run(opts, events.take(i)),
                    events[i],
                    first.tree,
                    current,
                ));
            }
        }
        lemma_idle(opts, front, fewer, first, current, left);
        lemma_idle_step(
            course::run(opts, front),
            events.last(),
            course::run(opts, events),
            course::current(opts, front),
            fewer.last(),
            refs.last(),
            first,
            current,
            left,
        );
    }
}

/// Nothing is rebased twice. If a sync came to its end and nothing has changed since, then another
/// that takes the same branches asks for no rebase, and every branch of the tree keeps its tip. It
/// fails only if an action fails, or if a worktree is found to have changes or a rebase in
/// progress. This holds for a tree in which all branches hang below the default branch and none is
/// integrated.
pub proof fn law_second_sync(
    opts: SyncOptions,
    first: Seq<Event>,
    first_refs: Seq<Refs>,
    again: SyncOptions,
    second: Seq<Event>,
    second_refs: Seq<Refs>,
)
    requires
        course::proper(opts, first),
        !opts.dry_run,
        course::run(opts, first).stage is Finished,
        witnessed(opts, first, first_refs),
        rooted(course::run(opts, first).tree),
        apart(course::run(opts, first).tree, course::run(opts, first).integrated),
        again.all == opts.all,
        course::proper(again, second),
        witnessed(again, second, second_refs),
        second_refs[0] == first_refs.last(),
        unchanged(again, second, course::run(opts, first).tree, course::current(opts, first)),
    ensures
        !(course::run(again, second).stage is Rebase),
        !(course::run(again, second).stage is AskConflict),
        !(course::run(again, second).stage is SaveAfterConflict),
        course::run(again, second).rebased == 0,
        still(course::run(opts, first).tree, first_refs.last(), second_refs.last()),
        course::run(again, second).stage is Failed ==> exists|i: int|
            course::troubled(again, second, i),
{
    let state = course::run(opts, first);
    course::lemma_run(opts, first);
    assert forall|i: int| 0 <= i < state.queue.len() implies stands_on(
        first_refs.last(),
        #[trigger] parent_at(state, i),
        state.queue[i],
    ) by {
        law_stands_after_sync(opts, first, first_refs, i);
    }
    lemma_idle(
        again,
        second,
        second_refs,
        state,
        course::current(opts, first),
        first_refs.last(),
    );
    if course::run(again, second).stage is Failed {
        course::law_fails_for_a_reason(again, second);
    }
}

} // verus!
