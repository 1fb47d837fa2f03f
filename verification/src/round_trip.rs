//! What is written to the persisted files is read back.

use std::path::PathBuf;

use vstd::prelude::*;

use crate::fork_points;
use crate::ground::Site;
use crate::history;
use crate::history::World;
use crate::likeness;
use crate::order;
use crate::stack_file;
use crate::stack_file::Entry;
use crate::state;
use crate::state::{Action, State};
use crate::text;
use crate::tree;
use crate::tree::{Rung, Tree};
use crate::wiring;

verus! {

/// Whether a line with nothing but `name` names that branch: it is not empty, holds no white space
/// and does not begin a comment.
pub open spec fn plain(name: Seq<char>) -> bool {
    &&& name.len() > 0
    &&& text::free_of_white(name)
    &&& name[0] != '#'
}

/// What the line of `rung` says.
pub open spec fn rung_entry(rung: Rung) -> Entry {
    Entry { indent: (rung.lasts.len() - 1) as nat, name: rung.branch }
}

/// What the lines of `outline` say.
pub open spec fn outline_entries(outline: Seq<Rung>) -> Seq<Entry> {
    Seq::new(outline.len(), |i: int| rung_entry(outline[i]))
}

proof fn lemma_tabs_skipped(count: nat, name: Seq<char>)
    requires
        plain(name),
    ensures
        text::trim_start(stack_file::tabs(count) + name) == name,
        stack_file::leading_tabs(stack_file::tabs(count) + name) == count,
    decreases count,
{
    let line = stack_file::tabs(count) + name;
    if count > 0 {
        assert(line[0] == '\t');
        assert(line.drop_first() == stack_file::tabs((count - 1) as nat) + name);
        lemma_tabs_skipped((count - 1) as nat, name);
    } else {
        assert(line == name);
        assert(!text::is_white(name[0]));
    }
}

proof fn lemma_word_whole(name: Seq<char>)
    requires
        text::free_of_white(name),
    ensures
        text::word(name) == name,
    decreases name.len(),
{
    if name.len() > 0 {
        let rest = name.drop_first();
        assert forall|i: int| 0 <= i < rest.len() implies !text::is_white(rest[i]) by {
            assert(name[i + 1] == rest[i]);
        }
        lemma_word_whole(rest);
        assert(name == seq![name[0]] + rest);
    } else {
        assert(text::word(name) == name);
    }
}

/// The line of a plain name says what it was written for.
proof fn lemma_line_read(name: Seq<char>, depth: nat)
    requires
        plain(name),
        depth >= 1,
    ensures
        text::lines(stack_file::branch_line(name, depth)) == seq![
            stack_file::tabs((depth - 1) as nat) + name,
        ],
        stack_file::entry_of(stack_file::tabs((depth - 1) as nat) + name) == Some(
            Entry { indent: (depth - 1) as nat, name },
        ),
{
    let line = stack_file::tabs((depth - 1) as nat) + name;
    assert(stack_file::branch_line(name, depth) == line.push('\n') + Seq::<char>::empty());
    assert(line.last() == name.last());
    assert(!text::is_white(name[name.len() - 1]));
    assert forall|i: int| 0 <= i < line.len() implies line[i] != '\n' by {
        if i >= depth - 1 {
            assert(!text::is_white(name[i - (depth - 1)]));
        }
    }
    text::lemma_lines_step(line, seq![]);
    assert(text::lines(seq![]) =~= seq![]);
    assert(seq![line] + Seq::<Seq<char>>::empty() == seq![line]);
    lemma_tabs_skipped((depth - 1) as nat, name);
    lemma_word_whole(name);
    if depth == 1 {
        assert(line == name);
        assert(!text::is_white(name[0]));
    } else {
        assert(line[0] == '\t');
    }
}

/// The lines of an outline of plain names say what they were written for.
proof fn lemma_outline_read(outline: Seq<Rung>)
    requires
        forall|i: int|
            0 <= i < outline.len() ==> plain((#[trigger] outline[i]).branch)
                && outline[i].lasts.len() >= 1,
    ensures
        stack_file::entries(text::lines(stack_file::outline_text(outline))) == outline_entries(
            outline,
        ),
        stack_file::outline_text(outline).len() == 0 || stack_file::outline_text(outline).last()
            == '\n',
    decreases outline.len(),
{
    if outline.len() == 0 {
        assert(text::lines(stack_file::outline_text(outline)) =~= seq![]);
        assert(outline_entries(outline) =~= seq![]);
    } else {
        let front = outline.drop_last();
        let last = outline.last();
        assert(outline[outline.len() - 1] == last);
        assert forall|i: int| 0 <= i < front.len() implies plain((#[trigger] front[i]).branch)
            && front[i].lasts.len() >= 1 by {
            assert(outline[i] == front[i]);
        }
        lemma_outline_read(front);
        let depth = last.lasts.len();
        let head = stack_file::outline_text(front);
        let line = stack_file::branch_line(last.branch, depth);
        text::lemma_lines_append(head, line);
        lemma_line_read(last.branch, depth);
        let found = text::lines(head + line);
        assert(found.drop_last() =~= text::lines(head));
        assert(found.last() == stack_file::tabs((depth - 1) as nat) + last.branch);
        assert(outline_entries(outline) =~= outline_entries(front).push(rung_entry(last)));
        assert((head + line).last() == line.last());
    }
}

/// The stated parent of a well placed rung is its parent in the tree.
proof fn lemma_parent_read(tree: Tree, outline: Seq<Rung>, i: int)
    requires
        tree.wired(),
        0 <= i < outline.len(),
        forall|j: int|
            0 <= j < outline.len() ==> #[trigger] wiring::well_placed(tree, tree.root, 0, outline, j),
    ensures
        tree.child_of(
            outline[i].branch,
            stack_file::parent_of(outline_entries(outline), i, tree.root),
        ),
{
    let found = outline_entries(outline);
    let rung = outline[i];
    assert(wiring::well_placed(tree, tree.root, 0, outline, i));
    assert(found[i].indent == rung.lasts.len() - 1);
    stack_file::lemma_nearest_below(found, i, found[i].indent);
    if rung.lasts.len() == 1 && tree.child_of(rung.branch, tree.root) {
    } else {
        let j = choose|j: int| wiring::under(tree, outline, j, i);
        assert(wiring::well_placed(tree, tree.root, 0, outline, j));
        assert(found[j].indent < found[i].indent);
        match stack_file::nearest(found, i, found[i].indent) {
            Some(other) => {
                if other < j {
                    assert(found[j].indent >= found[i].indent);
                } else if other > j {
                    assert(outline[other].lasts.len() >= rung.lasts.len());
                    assert(wiring::well_placed(tree, tree.root, 0, outline, other));
                }
            },
            None => {},
        }
    }
}

proof fn lemma_parents_read(tree: Tree, outline: Seq<Rung>, k: int)
    requires
        tree.wired(),
        0 <= k <= outline.len(),
        forall|j: int|
            0 <= j < outline.len() ==> #[trigger] wiring::well_placed(tree, tree.root, 0, outline, j),
    ensures
        forall|b: Seq<char>| #[trigger]
            stack_file::parents(outline_entries(outline), k, tree.root).contains_key(b)
                <==> exists|i: int| 0 <= i < k && #[trigger] outline[i].branch == b,
        forall|b: Seq<char>| #[trigger]
            stack_file::parents(outline_entries(outline), k, tree.root).contains_key(b)
                ==> tree.child_of(
                b,
                stack_file::parents(outline_entries(outline), k, tree.root)[b],
            ),
    decreases k,
{
    let found = outline_entries(outline);
    let map = stack_file::parents(found, k, tree.root);
    if k > 0 {
        let before = stack_file::parents(found, k - 1, tree.root);
        lemma_parents_read(tree, outline, k - 1);
        lemma_parent_read(tree, outline, k - 1);
        let name = outline[k - 1].branch;
        assert(found[k - 1].name == name);
        assert(name != tree.root);
        assert forall|b: Seq<char>| #[trigger] map.contains_key(b) <==> exists|i: int|
            0 <= i < k && #[trigger] outline[i].branch == b by {
            if map.contains_key(b) && b != name {
                assert(before.contains_key(b));
                let i = choose|i: int| 0 <= i < k - 1 && #[trigger] outline[i].branch == b;
                assert(outline[i].branch == b);
            }
            if exists|i: int| 0 <= i < k && #[trigger] outline[i].branch == b {
                let i = choose|i: int| 0 <= i < k && #[trigger] outline[i].branch == b;
                if i < k - 1 {
                    assert(before.contains_key(b));
                }
            }
            assert(outline[k - 1].branch == name);
        }
        assert forall|b: Seq<char>| #[trigger] map.contains_key(b) implies tree.child_of(
            b,
            map[b],
        ) by {
            if b != name {
                assert(before.contains_key(b));
            }
        }
    }
}

/// Reading back the stack file of a wired tree with plain names gives every branch below the root
/// its parent, and states nothing else.
pub proof fn law_stack_file_round_trip(tree: Tree)
    requires
        tree.wired(),
        forall|b: Seq<char>| #[trigger]
            tree.topological_order().contains(b) ==> plain(b),
    ensures
        forall|b: Seq<char>| #[trigger]
            stack_file::stated_parents(stack_file::stack_text(tree), tree.root).contains_key(b)
                <==> tree.topological_order().contains(b),
        forall|b: Seq<char>|
            tree.topological_order().contains(b) ==> tree.nodes[b].parent == Some(
                #[trigger] stack_file::stated_parents(
                    stack_file::stack_text(tree),
                    tree.root,
                )[b],
            ),
{
    let outline = tree.outline();
    let order = tree.topological_order();
    assert(order == tree::rung_branches(outline));
    let none = Set::<Seq<char>>::empty();
    let way = none.insert(tree.root);
    let children = tree.children(tree.root);
    wiring::lemma_well_placed(tree, way, tree.root, children.len(), seq![]);
    assert forall|i: int| 0 <= i < outline.len() implies #[trigger] wiring::well_placed(
        tree,
        tree.root,
        0,
        outline,
        i,
    ) by {
        assert(outline == tree.forest(way, children, children.len(), seq![]));
        assert(wiring::well_placed(
            tree,
            tree.root,
            Seq::<bool>::empty().len(),
            tree.forest(way, children, children.len(), seq![]),
            i,
        ));
    }
    assert forall|i: int| 0 <= i < outline.len() implies plain((#[trigger] outline[i]).branch)
        && outline[i].lasts.len() >= 1 by {
        assert(wiring::well_placed(tree, tree.root, 0, outline, i));
        wiring::lemma_rung_below(tree, tree.root, outline, i);
        assert(order[i] == outline[i].branch);
        assert(order.contains(order[i]));
    }
    lemma_outline_read(outline);
    let found = outline_entries(outline);
    lemma_parents_read(tree, outline, outline.len() as int);
    let map = stack_file::stated_parents(stack_file::stack_text(tree), tree.root);
    assert(map == stack_file::parents(found, found.len() as int, tree.root));
    assert forall|b: Seq<char>| #[trigger] map.contains_key(b) <==> order.contains(b) by {
        if map.contains_key(b) {
            let i = choose|i: int| 0 <= i < outline.len() && #[trigger] outline[i].branch == b;
            assert(order[i] == b);
        }
        if order.contains(b) {
            let i = choose|i: int| 0 <= i < order.len() && order[i] == b;
            assert(outline[i].branch == b);
        }
    }
    assert forall|b: Seq<char>| order.contains(b) implies tree.nodes[b].parent == Some(
        #[trigger] map[b],
    ) by {
        assert(map.contains_key(b));
    }
}

/// The stack file that a sync writes keeps every branch on its parent: a survey that finds the file
/// gives each branch below the root the parent that it had.
pub proof fn law_parents_kept(tree: Tree, world: World, sites: Seq<Site>, branch: Seq<char>)
    requires
        tree.wired(),
        forall|b: Seq<char>| #[trigger]
            tree.topological_order().contains(b) ==> plain(b),
        world.stack_file == Some(stack_file::stack_text(tree)),
        tree.topological_order().contains(branch),
    ensures
        world.ground(tree.root, sites).has_stack(),
        world.ground(tree.root, sites).parent(world, branch) == tree.nodes[branch].parent,
{
    law_stack_file_round_trip(tree);
    let ground = world.ground(tree.root, sites);
    assert(ground.stated.contains_key(branch));
    assert(!Map::<Seq<char>, Seq<char>>::empty().contains_key(branch));
}

/// A survey right after a sync finds the same tree: if the stack file of a tree is written and
/// the same branches count as integrated, then the next survey gives the same default branch and
/// the same nodes, each with its worktree, its parent and its children. Only the parents that
/// branches were taken from are forgotten.
pub proof fn law_second_survey(
    root: Seq<char>,
    sites: Seq<Site>,
    world: World,
    tree: Tree,
    integrated: Map<Seq<char>, PathBuf>,
    later: World,
    again: Tree,
    again_integrated: Map<Seq<char>, PathBuf>,
)
    requires
        world.ground(root, sites).bears(world, tree, integrated),
        later.ground(root, sites).bears(later, again, again_integrated),
        later.stack_file == Some(stack_file::stack_text(tree)),
        again_integrated.dom() == integrated.dom(),
        forall|b: Seq<char>| #[trigger]
            tree.nodes.contains_key(b) && b != root ==> tree.topological_order().contains(b)
                && plain(b),
    ensures
        likeness::alike(again, tree),
        forall|b: Seq<char>| #[trigger]
            again.nodes.contains_key(b) ==> again.nodes[b].original_parent is None,
{
    let ground = world.ground(root, sites);
    let later_ground = later.ground(root, sites);
    let n = sites.len() as int;
    assert forall|b: Seq<char>| integrated.contains_key(b) == again_integrated.contains_key(b) by {
        assert(integrated.dom().contains(b) == again_integrated.dom().contains(b));
    }
    assert forall|b: Seq<char>| #[trigger] tree.nodes.contains_key(b) == again.nodes.contains_key(
        b,
    ) by {
        history::law_tree_of_repository(ground, world, tree, integrated, b);
        history::law_tree_of_repository(later_ground, later, again, again_integrated, b);
    }
    history::law_tree_of_repository(ground, world, tree, integrated, root);
    wiring::law_topological_order(tree);
    assert forall|b: Seq<char>| #[trigger] tree.topological_order().contains(b) implies plain(
        b,
    ) by {
        let order = tree.topological_order();
        let i = choose|i: int| 0 <= i < order.len() && order[i] == b;
        assert(wiring::parent_before(tree, tree.root, order, order[i], i));
        assert(tree.nodes.contains_key(b));
    }
    assert forall|b: Seq<char>| #[trigger] tree.nodes.contains_key(b) implies again.nodes[b].parent
        == tree.nodes[b].parent && again.nodes[b].original_parent is None && again.nodes[b].path
        == tree.nodes[b].path && again.nodes[b].branch == tree.nodes[b].branch by {
        history::law_tree_of_repository(ground, world, tree, integrated, b);
        history::law_tree_of_repository(later_ground, later, again, again_integrated, b);
        assert(again.nodes.contains_key(b));
        if b != root {
            law_parents_kept(tree, later, sites, b);
        }
    }
    assert forall|b: Seq<char>| #[trigger]
        again.nodes.contains_key(b) implies again.nodes[b].children == tree.nodes[b].children by {
        assert(tree.nodes.contains_key(b));
        let left = tree.nodes[b].children;
        let right = again.nodes[b].children;
        assert forall|c: Seq<char>| left.contains(c) <==> right.contains(c) by {
            assert(left.contains(c) <==> tree.child_of(c, b));
            assert(right.contains(c) <==> again.child_of(c, b));
            assert(tree.nodes.contains_key(c) == again.nodes.contains_key(c));
        }
        order::law_one_order(left, right);
    }
    assert(again.nodes.dom() =~= tree.nodes.dom()) by {
        assert forall|b: Seq<char>| again.nodes.dom().contains(b) == tree.nodes.dom().contains(
            b,
        ) by {
            assert(tree.nodes.contains_key(b) == again.nodes.contains_key(b));
        }
    }
}

/// The fork points that a sync writes are those that the next one reads.
pub proof fn law_fork_points_kept(state: State, content: String)
    requires
        state.valid(),
        state.calls_for(Action::WriteForkPoints { content }),
        forall|b: Seq<char>| #[trigger]
            state.points.contains_key(b) ==> fork_points::tidy(b) && text::free_of(b, '=')
                && fork_points::tidy(state.points[b]),
    ensures
        state::points_in(Some(content)) == state.points,
{
    fork_points::law_fork_points_round_trip(content@, state.points);
}

} // verus!
