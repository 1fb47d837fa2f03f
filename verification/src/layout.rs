//! How the stack file is laid out.

use vstd::prelude::*;

use crate::stack_file;
use crate::tree;
use crate::tree::{Rung, Tree};
use crate::wiring;

verus! {

/// `lines`, each with a line feed at its end.
pub open spec fn ended(lines: Seq<Seq<char>>) -> Seq<char>
    decreases lines.len(),
{
    if lines.len() == 0 {
        seq![]
    } else {
        ended(lines.drop_last()) + lines.last().push('\n')
    }
}

/// `lines`, each with one more tab in front.
pub open spec fn tabbed(lines: Seq<Seq<char>>) -> Seq<Seq<char>> {
    Seq::new(lines.len(), |i: int| seq!['\t'] + lines[i])
}

/// The line of a rung: one tab for each step below the first, then the branch.
pub open spec fn rung_line(rung: Rung) -> Seq<char> {
    stack_file::tabs((rung.lasts.len() - 1) as nat) + rung.branch
}

/// The lines of `outline`.
pub open spec fn outline_lines(outline: Seq<Rung>) -> Seq<Seq<char>> {
    Seq::new(outline.len(), |i: int| rung_line(outline[i]))
}

/// The lines for `branch`, with the branches of `way` above it, and for all below it.
pub open spec fn node_lines(tree: Tree, way: Seq<Seq<char>>, branch: Seq<char>) -> Seq<Seq<char>> {
    let lasts = Seq::new(way.len(), |i: int| true);
    let own = if way.len() > 0 {
        seq![stack_file::tabs((way.len() - 1) as nat) + branch]
    } else {
        seq![]
    };
    own + outline_lines(tree.outline_below(way.to_set(), branch, lasts))
}

/// Whether the way down from `branch` never meets `way`.
pub open spec fn off_way(tree: Tree, way: Seq<Seq<char>>, branch: Seq<char>) -> bool {
    forall|b: Seq<char>, n: nat| #[trigger] tree.leads(branch, b, n) ==> !way.contains(b)
}

/// The text of an outline is its lines, each ended.
pub proof fn law_outline_text(outline: Seq<Rung>)
    ensures
        stack_file::outline_text(outline) == ended(outline_lines(outline)),
    decreases outline.len(),
{
    let lines = outline_lines(outline);
    if outline.len() > 0 {
        let front = outline.drop_last();
        let rung = outline.last();
        law_outline_text(front);
        assert(lines.drop_last() =~= outline_lines(front));
        assert(lines.last() == rung_line(rung));
        let line = stack_file::branch_line(rung.branch, rung.lasts.len());
        assert(line =~= rung_line(rung).push('\n'));
    }
}

proof fn lemma_ended_first(line: Seq<char>, lines: Seq<Seq<char>>)
    ensures
        ended(seq![line] + lines) == line.push('\n') + ended(lines),
    decreases lines.len(),
{
    let all = seq![line] + lines;
    if lines.len() == 0 {
        assert(all.drop_last() =~= lines);
        assert(all.last() == line);
        assert(ended(lines) =~= seq![]);
        assert(ended(all) =~= line.push('\n') + ended(lines));
    } else {
        lemma_ended_first(line, lines.drop_last());
        assert(all.drop_last() =~= seq![line] + lines.drop_last());
        assert(all.last() == lines.last());
        assert(ended(all) =~= line.push('\n') + ended(lines));
    }
}

/// What is appended to the stack file for a branch is a series of lines, each ended.
pub proof fn law_node_text(tree: Tree, way: Seq<Seq<char>>, branch: Seq<char>)
    ensures
        stack_file::node_text(tree, way, branch) == ended(node_lines(tree, way, branch)),
{
    let lasts = Seq::new(way.len(), |i: int| true);
    let below = tree.outline_below(way.to_set(), branch, lasts);
    law_outline_text(below);
    if way.len() > 0 {
        let line = stack_file::tabs((way.len() - 1) as nat) + branch;
        lemma_ended_first(line, outline_lines(below));
        assert(stack_file::branch_line(branch, way.len()) =~= line.push('\n'));
    } else {
        assert(node_lines(tree, way, branch) =~= outline_lines(below));
        assert(stack_file::node_text(tree, way, branch) =~= stack_file::outline_text(below));
    }
}

/// One step further down, every line of a forest has one more tab.
proof fn lemma_deeper(
    tree: Tree,
    way: Set<Seq<char>>,
    children: Seq<Seq<char>>,
    k: nat,
    lasts: Seq<bool>,
    more: Seq<bool>,
)
    requires
        more.len() == lasts.len() + 1,
        tree.nodes.dom().finite(),
    ensures
        outline_lines(tree.forest(way, children, k, more)) == tabbed(
            outline_lines(tree.forest(way, children, k, lasts)),
        ),
    decreases tree.nodes.dom().difference(way).len(), k,
{
    let upper = tree.forest(way, children, k, lasts);
    let lower = tree.forest(way, children, k, more);
    if 0 < k <= children.len() {
        let child = children[k - 1];
        let last = k == children.len();
        let upper_front = tree.forest(way, children, (k - 1) as nat, lasts);
        let lower_front = tree.forest(way, children, (k - 1) as nat, more);
        lemma_deeper(tree, way, children, (k - 1) as nat, lasts, more);
        assert(tabbed(outline_lines(upper_front)).len() == upper_front.len());
        assert(lower_front.len() == upper_front.len()) by {
            assert(outline_lines(lower_front).len() == lower_front.len());
        }
        assert forall|i: int| 0 <= i < upper_front.len() implies rung_line(
            #[trigger] lower_front[i],
        ) == seq!['\t'] + rung_line(upper_front[i]) by {
            assert(outline_lines(lower_front)[i] == tabbed(outline_lines(upper_front))[i]);
        }
        if !way.contains(child) {
            let upper_own = Rung { lasts: lasts.push(last), branch: child };
            let lower_own = Rung { lasts: more.push(last), branch: child };
            assert(rung_line(lower_own) =~= seq!['\t'] + rung_line(upper_own));
            if tree.nodes.contains_key(child) {
                let below = tree.nodes[child].children;
                tree::lemma_way_grows(tree, way, child);
                let wider = way.insert(child);
                let upper_below = tree.forest(wider, below, below.len(), lasts.push(last));
                let lower_below = tree.forest(wider, below, below.len(), more.push(last));
                lemma_deeper(
                    tree,
                    way.insert(child),
                    below,
                    below.len(),
                    lasts.push(last),
                    more.push(last),
                );
                assert(lower_below.len() == upper_below.len()) by {
                    assert(outline_lines(lower_below).len() == lower_below.len());
                    assert(tabbed(outline_lines(upper_below)).len() == upper_below.len());
                }
                assert forall|i: int| 0 <= i < upper_below.len() implies rung_line(
                    #[trigger] lower_below[i],
                ) == seq!['\t'] + rung_line(upper_below[i]) by {
                    assert(outline_lines(lower_below)[i] == tabbed(outline_lines(upper_below))[i]);
                }
                assert(upper == upper_front.push(upper_own) + upper_below);
                assert(lower == lower_front.push(lower_own) + lower_below);
            } else {
                assert(upper == upper_front.push(upper_own));
                assert(lower == lower_front.push(lower_own));
            }
        }
    }
    assert(outline_lines(lower) =~= tabbed(outline_lines(upper)));
}

/// Two ways that are never met guard against nothing.
proof fn lemma_ways_alike(
    tree: Tree,
    one: Seq<Seq<char>>,
    other: Seq<Seq<char>>,
    branch: Seq<char>,
    lasts: Seq<bool>,
)
    requires
        tree.nodes.dom().finite(),
        off_way(tree, one, branch),
        off_way(tree, other, branch),
    ensures
        tree.outline_below(one.to_set(), branch, lasts) == tree.outline_below(
            other.to_set(),
            branch,
            lasts,
        ),
{
    let children = tree.children(branch);
    assert forall|c: Seq<char>, b: Seq<char>, n: nat|
        children.contains(c) && #[trigger] tree.leads(c, b, n) implies one.to_set().insert(
        branch,
    ).contains(b) == other.to_set().insert(branch).contains(b) by {
        tree::lemma_leads_on(tree, branch, c, b, n);
    }
    tree::lemma_guards_agree(
        tree,
        one.to_set().insert(branch),
        other.to_set().insert(branch),
        children,
        children.len(),
        lasts,
    );
}

/// One step further down, the lines for a branch and all below it each have one more tab in front
/// and are otherwise the same.
pub proof fn law_one_step_deeper(
    tree: Tree,
    way: Seq<Seq<char>>,
    deeper: Seq<Seq<char>>,
    branch: Seq<char>,
)
    requires
        tree.nodes.dom().finite(),
        1 <= way.len(),
        deeper.len() == way.len() + 1,
        off_way(tree, way, branch),
        off_way(tree, deeper, branch),
    ensures
        node_lines(tree, deeper, branch) == tabbed(node_lines(tree, way, branch)),
{
    let lasts = Seq::new(way.len(), |i: int| true);
    let more = Seq::new(deeper.len(), |i: int| true);
    let children = tree.children(branch);
    lemma_ways_alike(tree, way, deeper, branch, more);
    lemma_deeper(tree, way.to_set().insert(branch), children, children.len(), lasts, more);
    let upper = outline_lines(tree.outline_below(way.to_set(), branch, lasts));
    let lower = outline_lines(tree.outline_below(deeper.to_set(), branch, more));
    assert(lower == tabbed(upper));
    let upper_own = stack_file::tabs((way.len() - 1) as nat) + branch;
    let lower_own = stack_file::tabs((deeper.len() - 1) as nat) + branch;
    assert(lower_own =~= seq!['\t'] + upper_own);
    assert(node_lines(tree, deeper, branch) =~= tabbed(node_lines(tree, way, branch)));
}

/// The root has no line. What is below it is written as one step below any other branch would be,
/// without the tab in front.
pub proof fn law_root_has_no_line(tree: Tree, way: Seq<Seq<char>>, branch: Seq<char>)
    requires
        tree.nodes.dom().finite(),
        way.len() == 1,
        off_way(tree, way, branch),
    ensures
        node_lines(tree, way, branch).len() > 0,
        node_lines(tree, way, branch)[0] == branch,
        tabbed(node_lines(tree, seq![], branch)) == node_lines(tree, way, branch).drop_first(),
{
    let none = Seq::<Seq<char>>::empty();
    let lasts = Seq::new(none.len(), |i: int| true);
    let more = Seq::new(way.len(), |i: int| true);
    let children = tree.children(branch);
    assert(off_way(tree, none, branch));
    lemma_ways_alike(tree, none, way, branch, more);
    lemma_deeper(tree, none.to_set().insert(branch), children, children.len(), lasts, more);
    let upper = outline_lines(tree.outline_below(none.to_set(), branch, lasts));
    let lower = outline_lines(tree.outline_below(way.to_set(), branch, more));
    assert(lower == tabbed(upper));
    assert(stack_file::tabs(0) + branch =~= branch);
    assert(node_lines(tree, none, branch) =~= upper);
    assert(node_lines(tree, way, branch).drop_first() =~= lower);
}

/// A branch without a node has its line and nothing below it.
pub proof fn law_lone_line(tree: Tree, way: Seq<Seq<char>>, branch: Seq<char>)
    requires
        way.len() == 1,
        !tree.nodes.contains_key(branch),
    ensures
        stack_file::node_text(tree, way, branch) == branch.push('\n'),
{
    let lasts = Seq::new(way.len(), |i: int| true);
    assert(tree.outline_below(way.to_set(), branch, lasts) =~= seq![]);
    assert(stack_file::node_text(tree, way, branch) =~= branch.push('\n'));
}

/// Whether line `i` of an outline stands below the line of its parent: the nearest line above with
/// fewer tabs. Above the line of a child of the root no line has fewer.
pub open spec fn below_parent_line(tree: Tree, outline: Seq<Rung>, i: int) -> bool {
    if tree.child_of(outline[i].branch, tree.root) {
        forall|j: int|
            0 <= j < i ==> (#[trigger] outline[j]).lasts.len() >= outline[i].lasts.len()
    } else {
        exists|j: int| wiring::under(tree, outline, j, i)
    }
}

/// The stack file of a wired tree has one line for each branch of the topological order, in that
/// order. The line has one tab less than the branch is steps below the root. The nearest line
/// above with fewer tabs is that of the parent; for a child of the root there is none. Siblings
/// stand in the order of their parent's children.
pub proof fn law_stack_file_lines(tree: Tree)
    requires
        tree.wired(),
    ensures
        stack_file::stack_text(tree) == ended(outline_lines(tree.outline())),
        tree::rung_branches(tree.outline()) == tree.topological_order(),
        forall|i: int|
            0 <= i < tree.outline().len() ==> 1 <= (#[trigger] tree.outline()[i]).lasts.len()
                && tree.hangs(tree.outline()[i].branch, tree.outline()[i].lasts.len()),
        forall|i: int|
            0 <= i < tree.outline().len() ==> #[trigger] below_parent_line(tree, tree.outline(), i),
        forall|p: Seq<char>, s: int, t: int, i: int, j: int|
            tree.nodes.contains_key(p) && 0 <= s < t < tree.children(p).len() && 0 <= i
                < tree.outline().len() && 0 <= j < tree.outline().len()
                && #[trigger] tree.outline()[i].branch == #[trigger] tree.children(p)[s]
                && #[trigger] tree.outline()[j].branch == #[trigger] tree.children(p)[t] ==> i < j,
{
    let outline = tree.outline();
    let way = Set::<Seq<char>>::empty().insert(tree.root);
    let children = tree.children(tree.root);
    let none = Seq::<bool>::empty();
    assert(outline == tree.forest(way, children, children.len(), none));
    law_outline_text(outline);
    wiring::lemma_well_placed(tree, way, tree.root, children.len(), none);
    assert forall|i: int| 0 <= i < outline.len() implies #[trigger] wiring::well_placed(
        tree,
        tree.root,
        0,
        outline,
        i,
    ) by {
        assert(wiring::well_placed(
            tree,
            tree.root,
            none.len(),
            tree.forest(way, children, children.len(), none),
            i,
        ));
    }
    assert forall|i: int| 0 <= i < outline.len() implies 1 <= (
    #[trigger] outline[i]).lasts.len() && tree.hangs(
        outline[i].branch,
        outline[i].lasts.len(),
    ) by {
        wiring::lemma_rung_below(tree, tree.root, outline, i);
    }
    assert forall|i: int| 0 <= i < outline.len() implies #[trigger] below_parent_line(
        tree,
        outline,
        i,
    ) by {
        assert(wiring::well_placed(tree, tree.root, 0, outline, i));
        let b = outline[i].branch;
        if tree.child_of(b, tree.root) {
            assert(tree.hangs(tree.root, 0));
            assert(tree.hangs(b, 1));
            wiring::lemma_one_depth(tree, b, 1, outline[i].lasts.len());
        }
    }
    assert(tree.hangs(tree.root, 0));
    assert forall|p: Seq<char>, s: int, t: int, i: int, j: int|
        tree.nodes.contains_key(p) && 0 <= s < t < tree.children(p).len() && 0 <= i < outline.len()
            && 0 <= j < outline.len() && #[trigger] outline[i].branch
            == #[trigger] tree.children(p)[s] && #[trigger] outline[j].branch
            == #[trigger] tree.children(p)[t] implies i < j by {
        wiring::lemma_siblings_in_order(
            tree,
            way,
            tree.root,
            0,
            children.len(),
            none,
            p,
            s,
            t,
            i,
            j,
        );
    }
}

} // verus!
