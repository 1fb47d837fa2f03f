//! What the plan shows of the tree, and that it agrees with what a sync does.

use vstd::prelude::*;

use crate::notice::Message;
use crate::plan;
use crate::state;
use crate::state::{Action, State};
use crate::text;
use crate::tree;
use crate::tree::{Rung, Tree};
use crate::wiring;

verus! {

/// The line planned for a branch names it and the parent that it has in the tree. If the branch was
/// taken from an integrated parent, the line says so and cuts it off there.
pub proof fn law_operation(tree: Tree, branch: Seq<char>, parent: Seq<char>)
    requires
        tree.nodes.contains_key(branch),
        tree.nodes[branch].parent == Some(parent),
    ensures
        tree.nodes[branch].original_parent is None ==> plan::operation(tree, branch) == Some(
            "  rebase "@ + branch + " onto "@ + parent,
        ),
        tree.nodes[branch].original_parent matches Some(original) ==> plan::operation(tree, branch)
            == Some(
            "  rebase --onto "@ + parent + " "@ + original + " "@ + branch
                + "  (reparented from integrated "@ + original + ")"@,
        ),
{
}

/// The plan and the sync agree: for the rebase that a sync asks for, the plan has a line that names
/// the same branch and the same parent and, where it names where the branch is cut off, the same
/// base. The git command that is shown is the one that is run.
pub proof fn law_plan_agrees(state: State, action: Action)
    requires
        state.valid(),
        state.stage is Rebase,
        state.calls_for(action),
    ensures
        action matches Action::Rebase { path, parent, base, branch } && (match state.tree.nodes[
        branch@].original_parent {
            None => plan::operation(state.tree, branch@) == Some(
                "  rebase "@ + branch@ + " onto "@ + parent@,
            ),
            Some(original) => original == base@ && plan::operation(state.tree, branch@) == Some(
                "  rebase --onto "@ + parent@ + " "@ + base@ + " "@ + branch@
                    + "  (reparented from integrated "@ + base@ + ")"@,
            ),
        }) && plan::command(parent@, base@, branch@) == "    $ git rebase --onto "@ + parent@ + " "@
            + base@ + " "@ + branch@,
{
}

/// The plan for one more branch is the plan so far, followed by the line for that branch and, where
/// a base is known for it, by the git command. A branch without a parent adds nothing.
pub proof fn law_plan_grows(
    tree: Tree,
    branches: Seq<Seq<char>>,
    branch: Seq<char>,
    bases: Map<Seq<char>, Seq<char>>,
)
    ensures
        ({
            let before = plan::operations(tree, branches, bases, branches.len() as int);
            let all = plan::operations(
                tree,
                branches.push(branch),
                bases,
                branches.len() as int + 1,
            );
            if !tree.nodes.contains_key(branch) || tree.nodes[branch].parent is None {
                all == before
            } else {
                let parent = tree.nodes[branch].parent->0;
                &&& all.len() == before.len() + (if bases.contains_key(branch) {
                    2int
                } else {
                    1
                })
                &&& all.take(before.len() as int) == before
                &&& plan::operation(tree, branch) == Some(all[before.len() as int])
                &&& bases.contains_key(branch) ==> all.last() == "    $ git rebase --onto "@ + parent
                    + " "@ + bases[branch] + " "@ + branch
            }
        }),
{
    let n = branches.len() as int;
    let longer = branches.push(branch);
    lemma_operations_prefix(tree, branches, branch, bases, n);
    let before = plan::operations(tree, branches, bases, n);
    let all = plan::operations(tree, longer, bases, n + 1);
    assert(longer[n] == branch);
    assert(all == before + plan::branch_plan(tree, branch, bases));
    assert(all.take(before.len() as int) =~= before);
    if !tree.nodes.contains_key(branch) || tree.nodes[branch].parent is None {
        assert(all =~= before);
    }
}

proof fn lemma_operations_prefix(
    tree: Tree,
    branches: Seq<Seq<char>>,
    branch: Seq<char>,
    bases: Map<Seq<char>, Seq<char>>,
    k: int,
)
    requires
        0 <= k <= branches.len(),
    ensures
        plan::operations(tree, branches.push(branch), bases, k) == plan::operations(
            tree,
            branches,
            bases,
            k,
        ),
    decreases k,
{
    if k > 0 {
        lemma_operations_prefix(tree, branches, branch, bases, k - 1);
        assert(branches.push(branch)[k - 1] == branches[k - 1]);
    }
}

/// The plan is a heading, the drawing of the tree, an empty line, a heading and the operations; it
/// says so if there are none.
pub proof fn law_plan_parts(
    tree: Tree,
    branches: Seq<Seq<char>>,
    bases: Map<Seq<char>, Seq<char>>,
)
    ensures
        ({
            let lines = plan::plan(tree, branches, bases);
            let drawn = plan::drawing(tree);
            let todo = plan::operations(tree, branches, bases, branches.len() as int);
            let n = drawn.len() as int;
            &&& lines[0] == "Dependency tree:"@
            &&& lines.subrange(1, 1 + n) == drawn
            &&& lines[1 + n].len() == 0
            &&& lines[2 + n] == "Planned operations:"@
            &&& branches.len() == 0 ==> todo.len() == 0
            &&& lines.skip(3 + n) == (if todo.len() == 0 {
                seq!["  (none)"@]
            } else {
                todo
            })
        }),
{
    let lines = plan::plan(tree, branches, bases);
    let drawn = plan::drawing(tree);
    let todo = plan::operations(tree, branches, bases, branches.len() as int);
    let n = drawn.len() as int;
    let rest = if todo.len() == 0 {
        seq!["  (none)"@]
    } else {
        todo
    };
    assert(lines.subrange(1, 1 + n) =~= drawn);
    assert(lines.skip(3 + n) =~= rest);
}

/// What a dry run tells when it ends is the plan for the branches that it took, line by line.
pub proof fn law_dry_run_tells_the_plan(state: State, i: int)
    requires
        0 <= i < plan::plan(state.tree, state.queue, state.bases).len(),
    ensures
        state.show_plan().state.stage is Finished,
        state.show_plan().messages.len() == plan::plan(state.tree, state.queue, state.bases).len(),
        state.show_plan().messages[i] == Message::line(
            plan::plan(state.tree, state.queue, state.bases)[i],
        ),
{
}

/// For the plan, the fork points of the file are taken as they are, and the merge base that is named
/// for a branch is held against the tip of its parent next; a branch for which none is named is
/// passed over. Neither marks a branch.
pub proof fn law_preview_looks(
    state: State,
    points: Map<Seq<char>, Seq<char>>,
    name: Option<Seq<char>>,
)
    requires
        state.valid(),
    ensures
        state.stage is PreviewPoints ==> {
            let after = state.after_points(points).state;
            &&& after.points == points
            &&& after.bases == state.bases
            &&& after.stage is PreviewBase || after.stage is Finished
        },
        state.stage is PreviewBase ==> {
            let after = state.after_name(name).state;
            &&& after.points == state.points
            &&& after.bases == state.bases
            &&& name is None ==> after.stage is PreviewBase && state.at < after.at
                || after.stage is Finished
            &&& name matches Some(merge_base) ==> after.stage is PreviewTip && after.at == state.at
                && after.merge_base == merge_base
        },
{
    state::lemma_next_child(state, state.at + 1);
}

/// For the plan, a branch is marked for a rebase exactly if it does not stand on the tip of its
/// parent, or if its parent is marked. It is marked with the base that a sync would use: the
/// integrated parent that it was taken from, else the stored fork point, else the merge base.
pub proof fn law_preview_marks(state: State, output: Seq<char>)
    requires
        state.valid(),
        state.stage is PreviewTip,
    ensures
        ({
            let branch = state.queue[state.at];
            let node = state.tree.nodes[branch];
            let after = state.after_output(output).state;
            &&& forall|b: Seq<char>| b != branch ==> (#[trigger] after.bases.contains_key(b)
                == state.bases.contains_key(b)) && (state.bases.contains_key(b) ==> after.bases[b]
                == state.bases[b])
            &&& state.merge_base != text::trim(output) || state.bases.contains_key(node.parent->0)
                ==> after.bases.contains_key(branch) && after.bases[branch] == (
            match node.original_parent {
                Some(original) => original,
                None => if state.points.contains_key(branch) {
                    state.points[branch]
                } else {
                    state.merge_base
                },
            })
            &&& state.merge_base == text::trim(output) && !state.bases.contains_key(
                node.parent->0,
            ) ==> after.bases == state.bases
        }),
{
}

/// Whether rung `i` of the forest of `parent` says rightly which steps to it lead to a last child.
pub open spec fn last_shown(
    tree: Tree,
    parent: Seq<char>,
    lasts: Seq<bool>,
    outline: Seq<Rung>,
    i: int,
) -> bool {
    ||| shows_last(tree, parent, lasts, outline[i])
    ||| exists|j: int|
        0 <= j < i && shows_last(tree, (#[trigger] outline[j]).branch, outline[j].lasts, outline[i])
}

/// Whether `rung` names a child of `parent`, one step further than `lasts`, and says whether it is
/// the last one.
pub open spec fn shows_last(tree: Tree, parent: Seq<char>, lasts: Seq<bool>, rung: Rung) -> bool {
    &&& tree.child_of(rung.branch, parent)
    &&& rung.lasts == lasts.push(rung.branch == tree.children(parent).last())
}

proof fn lemma_last_shown(
    tree: Tree,
    way: Set<Seq<char>>,
    parent: Seq<char>,
    k: nat,
    lasts: Seq<bool>,
)
    requires
        tree.wired(),
        tree.nodes.contains_key(parent),
    ensures
        forall|i: int|
            0 <= i < tree.forest(way, tree.children(parent), k, lasts).len() ==> #[trigger]
                last_shown(
                tree,
                parent,
                lasts,
                tree.forest(way, tree.children(parent), k, lasts),
                i,
            ),
    decreases tree.nodes.dom().difference(way).len(), k,
{
    let children = tree.children(parent);
    let all = tree.forest(way, children, k, lasts);
    if 0 < k <= children.len() {
        let front = tree.forest(way, children, (k - 1) as nat, lasts);
        let child = children[k - 1];
        let mine = lasts.push(k == children.len());
        lemma_last_shown(tree, way, parent, (k - 1) as nat, lasts);
        if !way.contains(child) {
            assert(children.contains(child));
            assert(tree.child_of(child, parent));
            tree::lemma_way_grows(tree, way, child);
            let own = tree.children(child);
            let below = tree.forest(way.insert(child), own, own.len(), mine);
            lemma_last_shown(tree, way.insert(child), child, own.len(), mine);
            let n = front.len() as int;
            let rung = Rung { lasts: mine, branch: child };
            assert(all == front.push(rung) + below);
            assert((k == children.len()) == (child == children.last()));
            assert(shows_last(tree, parent, lasts, rung));
            assert forall|i: int| 0 <= i < all.len() implies #[trigger] last_shown(
                tree,
                parent,
                lasts,
                all,
                i,
            ) by {
                if i < n {
                    assert(all[i] == front[i]);
                    assert(last_shown(tree, parent, lasts, front, i));
                    if !shows_last(tree, parent, lasts, front[i]) {
                        let j = choose|j: int|
                            0 <= j < i && shows_last(
                                tree,
                                (#[trigger] front[j]).branch,
                                front[j].lasts,
                                front[i],
                            );
                        assert(all[j] == front[j]);
                    }
                } else if i == n {
                    assert(all[i] == rung);
                } else {
                    let t = i - n - 1;
                    assert(all[i] == below[t]);
                    assert(last_shown(tree, child, mine, below, t));
                    if shows_last(tree, child, mine, below[t]) {
                        assert(all[n] == rung);
                    } else {
                        let j = choose|j: int|
                            0 <= j < t && shows_last(
                                tree,
                                (#[trigger] below[j]).branch,
                                below[j].lasts,
                                below[t],
                            );
                        assert(all[n + 1 + j] == below[j]);
                    }
                }
            }
        } else {
            assert(all == front);
        }
    }
}

proof fn lemma_columns(lasts: Seq<bool>)
    ensures
        plan::columns(lasts).len() == 4 * lasts.len(),
        forall|k: int|
            0 <= k < lasts.len() ==> plan::columns(lasts).subrange(4 * k, 4 * k + 4) == (
            if #[trigger] lasts[k] {
                "    "@
            } else {
                "│   "@
            }),
    decreases lasts.len(),
{
    reveal_strlit("    ");
    reveal_strlit("│   ");
    if lasts.len() > 0 {
        let front = lasts.drop_last();
        let n = front.len() as int;
        let all = plan::columns(lasts);
        let head = plan::columns(front);
        lemma_columns(front);
        assert forall|k: int| 0 <= k < lasts.len() implies all.subrange(4 * k, 4 * k + 4) == (
        if #[trigger] lasts[k] {
            "    "@
        } else {
            "│   "@
        }) by {
            if k < n {
                assert(front[k] == lasts[k]);
                assert(all.subrange(4 * k, 4 * k + 4) =~= head.subrange(4 * k, 4 * k + 4));
            } else if lasts[k] {
                assert(all.subrange(4 * k, 4 * k + 4) =~= "    "@);
            } else {
                assert(all.subrange(4 * k, 4 * k + 4) =~= "│   "@);
            }
        }
    }
}

/// Whether `line` draws `rung`: four characters for each step to it, then the branch. The last step
/// is an angle if it leads to a last child, else a branching; each step before it is drawn on as a
/// bar unless it leads to a last child.
pub open spec fn draws(line: Seq<char>, rung: Rung) -> bool {
    let d = rung.lasts.len() as int;
    &&& line.len() == 4 * d + rung.branch.len()
    &&& line.skip(4 * d) == rung.branch
    &&& line.subrange(4 * d - 4, 4 * d) == (if rung.lasts.last() {
        "└── "@
    } else {
        "├── "@
    })
    &&& forall|k: int|
        0 <= k < d - 1 ==> line.subrange(4 * k, 4 * k + 4) == (if #[trigger] rung.lasts[k] {
            "    "@
        } else {
            "│   "@
        })
}

/// The drawing of a wired tree begins with the root and has a line for each branch of the
/// topological order, in that order. A line shows how many steps below the root the branch stands,
/// and which of the steps to it lead to a last child.
pub proof fn law_drawing(tree: Tree)
    requires
        tree.wired(),
    ensures
        plan::drawing(tree).len() == 1 + tree.topological_order().len(),
        plan::drawing(tree)[0] == tree.root,
        tree::rung_branches(tree.outline()) == tree.topological_order(),
        forall|i: int|
            0 <= i < tree.outline().len() ==> draws(
                plan::drawing(tree)[i + 1],
                #[trigger] tree.outline()[i],
            ) && tree.hangs(tree.outline()[i].branch, tree.outline()[i].lasts.len()),
        forall|i: int|
            0 <= i < tree.outline().len() ==> #[trigger] last_shown(
                tree,
                tree.root,
                seq![],
                tree.outline(),
                i,
            ),
{
    let outline = tree.outline();
    let lines = plan::drawing(tree);
    let way = Set::<Seq<char>>::empty().insert(tree.root);
    let children = tree.children(tree.root);
    assert(outline == tree.forest(way, children, children.len(), seq![]));
    lemma_last_shown(tree, way, tree.root, children.len(), seq![]);
    wiring::lemma_outline_placed(tree, tree.root);
    reveal_strlit("└── ");
    reveal_strlit("├── ");
    assert forall|i: int| 0 <= i < outline.len() implies draws(
        lines[i + 1],
        #[trigger] outline[i],
    ) && tree.hangs(outline[i].branch, outline[i].lasts.len()) by {
        wiring::lemma_rung_below(tree, tree.root, outline, i);
        let rung = outline[i];
        let line = lines[i + 1];
        let d = rung.lasts.len() as int;
        let head = plan::columns(rung.lasts.drop_last());
        assert(line == plan::rung_line(rung));
        lemma_columns(rung.lasts.drop_last());
        assert(line.skip(4 * d) =~= rung.branch);
        if rung.lasts.last() {
            assert(line.subrange(4 * d - 4, 4 * d) =~= "└── "@);
        } else {
            assert(line.subrange(4 * d - 4, 4 * d) =~= "├── "@);
        }
        assert forall|k: int| 0 <= k < d - 1 implies line.subrange(4 * k, 4 * k + 4) == (
        if #[trigger] rung.lasts[k] {
            "    "@
        } else {
            "│   "@
        }) by {
            assert(rung.lasts.drop_last()[k] == rung.lasts[k]);
            assert(line.subrange(4 * k, 4 * k + 4) =~= head.subrange(4 * k, 4 * k + 4));
        }
    }
}

} // verus!
