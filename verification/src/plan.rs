//! What a sync would do, as text.

use vstd::prelude::*;
use vstd::string::StringExecFns;

use crate::branch_map;
use crate::branch_map::BranchMap;
use crate::text;
use crate::tree;
use crate::tree::{DependencyTree, Rung, Tree};

verus! {

/// What stands before the branches below a rung: a column for each step on the way to it.
pub open spec fn columns(lasts: Seq<bool>) -> Seq<char>
    decreases lasts.len(),
{
    if lasts.len() == 0 {
        seq![]
    } else if lasts.last() {
        columns(lasts.drop_last()) + "    "@
    } else {
        columns(lasts.drop_last()) + "│   "@
    }
}

/// The line of `rung`.
pub open spec fn rung_line(rung: Rung) -> Seq<char> {
    columns(rung.lasts.drop_last()) + if rung.lasts.last() {
        "└── "@
    } else {
        "├── "@
    } + rung.branch
}

/// The lines of `outline`.
pub open spec fn rung_lines(outline: Seq<Rung>) -> Seq<Seq<char>> {
    Seq::new(outline.len(), |i: int| rung_line(outline[i]))
}

/// The lines that draw `tree`.
pub open spec fn drawing(tree: Tree) -> Seq<Seq<char>> {
    seq![tree.root] + rung_lines(tree.outline())
}

/// The line for the rebase of `branch`, if it has a parent.
pub open spec fn operation(tree: Tree, branch: Seq<char>) -> Option<Seq<char>> {
    if !tree.nodes.contains_key(branch) {
        None
    } else {
        match tree.nodes[branch].parent {
            None => None,
            Some(parent) => Some(
                match tree.nodes[branch].original_parent {
                    Some(original) => "  rebase --onto "@ + parent + " "@ + original + " "@ + branch
                        + "  (reparented from integrated "@ + original + ")"@,
                    None => "  rebase "@ + branch + " onto "@ + parent,
                },
            ),
        }
    }
}

/// The line that shows the git command for a rebase.
pub open spec fn command(parent: Seq<char>, base: Seq<char>, branch: Seq<char>) -> Seq<char> {
    "    $ git rebase --onto "@ + parent + " "@ + base + " "@ + branch
}

/// The lines for `branch`: its rebase and, where a base is given for it, the git command.
pub open spec fn branch_plan(
    tree: Tree,
    branch: Seq<char>,
    bases: Map<Seq<char>, Seq<char>>,
) -> Seq<Seq<char>> {
    match operation(tree, branch) {
        None => seq![],
        Some(line) => if bases.contains_key(branch) {
            seq![line, command(tree.nodes[branch].parent->0, bases[branch], branch)]
        } else {
            seq![line]
        },
    }
}

/// The lines for the first `k` of `branches`.
pub open spec fn operations(
    tree: Tree,
    branches: Seq<Seq<char>>,
    bases: Map<Seq<char>, Seq<char>>,
    k: int,
) -> Seq<Seq<char>>
    decreases k,
{
    if k <= 0 {
        seq![]
    } else {
        operations(tree, branches, bases, k - 1) + branch_plan(tree, branches[k - 1], bases)
    }
}

/// The lines of the plan: the tree, then what is to be done.
pub open spec fn plan(
    tree: Tree,
    branches: Seq<Seq<char>>,
    bases: Map<Seq<char>, Seq<char>>,
) -> Seq<Seq<char>> {
    let todo = operations(tree, branches, bases, branches.len() as int);
    seq!["Dependency tree:"@] + drawing(tree) + seq![seq![], "Planned operations:"@] + if todo.len()
        == 0 {
        seq!["  (none)"@]
    } else {
        todo
    }
}

proof fn lemma_texts_push(lines: Seq<String>, line: String)
    ensures
        text::texts(lines.push(line)) == text::texts(lines).push(line@),
{
    assert(text::texts(lines.push(line)) =~= text::texts(lines).push(line@));
}

proof fn lemma_rung_lines_append(left: Seq<Rung>, right: Seq<Rung>)
    ensures
        rung_lines(left + right) == rung_lines(left) + rung_lines(right),
{
    assert(rung_lines(left + right) =~= rung_lines(left) + rung_lines(right));
}

/// The lines of a forest end with those of its last tree.
proof fn lemma_forest_lines(
    tree: Tree,
    way: Set<Seq<char>>,
    children: Seq<Seq<char>>,
    k: nat,
    lasts: Seq<bool>,
)
    requires
        0 < k <= children.len(),
        !way.contains(children[k - 1]),
        tree.nodes.dom().finite(),
    ensures
        rung_lines(tree.forest(way, children, k, lasts)) == rung_lines(
            tree.forest(way, children, (k - 1) as nat, lasts),
        ).push(
            rung_line(Rung { lasts: lasts.push(k == children.len()), branch: children[k - 1] }),
        ) + rung_lines(
            tree.outline_below(way, children[k - 1], lasts.push(k == children.len())),
        ),
{
    let front = tree.forest(way, children, (k - 1) as nat, lasts);
    let child = children[k - 1];
    let mine = lasts.push(k == children.len());
    let rung = Rung { lasts: mine, branch: child };
    let own = front.push(rung);
    let below = tree.outline_below(way, child, mine);
    assert(rung_lines(own) =~= rung_lines(front).push(rung_line(rung)));
    if tree.nodes.contains_key(child) {
        lemma_rung_lines_append(own, below);
    } else {
        assert(below =~= seq![]);
        assert(rung_lines(own) + rung_lines(below) =~= rung_lines(own));
    }
}

/// Adds the lines of all below `branch`, which the branches of `way` lead to.
fn draw_below<'a>(
    tree: &'a DependencyTree,
    branch: &'a str,
    way: &mut Vec<&'a str>,
    prefix: &str,
    lines: &mut Vec<String>,
    Ghost(lasts): Ghost<Seq<bool>>,
)
    requires
        !tree::slice_texts(old(way)@).contains(branch@),
        prefix@ == columns(lasts),
    ensures
        final(way)@ == old(way)@,
        text::texts(final(lines)@) == text::texts(old(lines)@) + rung_lines(
            tree@.outline_below(tree::slice_texts(old(way)@).to_set(), branch@, lasts),
        ),
    decreases tree@.nodes.dom().difference(tree::slice_texts(old(way)@).to_set()).len(),
{
    let ghost model = tree@;
    let ghost above = way@;
    let ghost outer = tree::slice_texts(way@);
    let ghost inner = outer.push(branch@);
    let ghost inside = outer.to_set().insert(branch@);
    let ghost children = model.children(branch@);
    let ghost begun = text::texts(lines@);
    // The map is finite.
    let _ = tree.nodes.len();
    assert(model.nodes.dom() =~= tree.nodes@.dom());
    if let Some(node) = tree.nodes.get(branch) {
        assert(model.nodes[branch@] == node@);
        way.push(branch);
        proof {
            assert(tree::slice_texts(way@) =~= inner);
            tree::lemma_to_set_push(outer, branch@);
            assert(inner.to_set() =~= inside);
            tree::lemma_way_grows(model, outer.to_set(), branch@);
            assert(rung_lines(model.forest(inside, children, 0, lasts)) =~= seq![]);
            assert(text::texts(lines@) =~= begun + rung_lines(
                model.forest(inside, children, 0, lasts),
            ));
        }
        let ghost pushed = way@;
        let count: usize = node.children.len();
        let mut i: usize = 0;
        while i < count
            invariant
                i <= count,
                count == node.children@.len(),
                way@ == pushed,
                model == tree@,
                prefix@ == columns(lasts),
                tree::slice_texts(pushed) == inner,
                inner.to_set() == inside,
                model.nodes.dom().finite(),
                model.nodes.dom().difference(inside).len() < model.nodes.dom().difference(
                    outer.to_set(),
                ).len(),
                outer == tree::slice_texts(above),
                old(way)@ == above,
                children == text::texts(node.children@),
                text::texts(lines@) == begun + rung_lines(
                    model.forest(inside, children, i as nat, lasts),
                ),
            decreases count - i,
        {
            let child = node.children[i].as_str();
            let met = tree::listed(way, child);
            assert(children[i as int] == child@);
            assert(inner.contains(child@) == inside.contains(child@));
            if !met {
                let last = i + 1 == count;
                let ghost mine = lasts.push(last);
                let ghost rung = Rung { lasts: mine, branch: child@ };
                let ghost front = model.forest(inside, children, i as nat, lasts);
                proof {
                    lemma_forest_lines(model, inside, children, (i + 1) as nat, lasts);
                    assert(mine.drop_last() =~= lasts);
                }
                let mut line = prefix.to_owned();
                let mut columns_below = prefix.to_owned();
                if last {
                    line.append("└── ");
                    columns_below.append("    ");
                } else {
                    line.append("├── ");
                    columns_below.append("│   ");
                }
                line.append(child);
                let ghost held = lines@;
                assert(line@ == rung_line(rung));
                lines.push(line);
                proof {
                    lemma_texts_push(held, line);
                }
                draw_below(tree, child, way, columns_below.as_str(), lines, Ghost(mine));
                assert(text::texts(lines@) =~= begun + rung_lines(
                    model.forest(inside, children, (i + 1) as nat, lasts),
                ));
            }
            i = i + 1;
        }
        let _ = way.pop();
        assert(way@ =~= above);
    } else {
        assert(rung_lines(model.outline_below(outer.to_set(), branch@, lasts)) =~= seq![]);
        assert(text::texts(lines@) =~= begun + Seq::<Seq<char>>::empty());
    }
}

/// The lines that draw `tree`.
pub fn draw_tree(tree: &DependencyTree) -> (lines: Vec<String>)
    ensures
        text::texts(lines@) == drawing(tree@),
{
    let mut lines: Vec<String> = Vec::new();
    lines.push(tree.root.clone());
    let mut way: Vec<&str> = Vec::new();
    let ghost lasts: Seq<bool> = seq![];
    proof {
        assert(tree::slice_texts(way@) =~= seq![]);
        assert(tree::slice_texts(way@).to_set() =~= Set::empty());
        reveal_strlit("");
        assert(""@ =~= columns(lasts));
        assert(text::texts(lines@) =~= seq![tree@.root]);
    }
    draw_below(tree, tree.root.as_str(), &mut way, "", &mut lines, Ghost(lasts));
    lines
}

/// The line for the rebase of `branch`, if it has a parent.
pub fn operation_line(tree: &DependencyTree, branch: &str) -> (line: Option<String>)
    ensures
        tree::optional_text(line) == operation(tree@, branch@),
{
    match tree.nodes.get(branch) {
        None => None,
        Some(node) => {
            assert(tree@.nodes[branch@] == node@);
            match &node.parent {
                None => None,
                Some(parent) => {
                    let line = match &node.original_parent {
                        Some(original) => {
                            let mut line = text::joined("  rebase --onto ", parent.as_str());
                            line.append(" ");
                            line.append(original.as_str());
                            line.append(" ");
                            line.append(branch);
                            line.append("  (reparented from integrated ");
                            line.append(original.as_str());
                            line.append(")");
                            line
                        },
                        None => {
                            let mut line = text::joined("  rebase ", branch);
                            line.append(" onto ");
                            line.append(parent.as_str());
                            line
                        },
                    };
                    Some(line)
                },
            }
        },
    }
}

/// The line that shows the git command for a rebase.
pub fn command_line(parent: &str, base: &str, branch: &str) -> (line: String)
    ensures
        line@ == command(parent@, base@, branch@),
{
    let mut line = text::joined("    $ git rebase --onto ", parent);
    line.append(" ");
    line.append(base);
    line.append(" ");
    line.append(branch);
    line
}

/// The lines of the plan: the tree, then what is to be done. The git command is shown where
/// `bases` gives the base of a branch.
pub fn sync_plan(
    tree: &DependencyTree,
    branches: &Vec<String>,
    bases: &BranchMap<String>,
) -> (lines: Vec<String>)
    ensures
        text::texts(lines@) == plan(
            tree@,
            text::texts(branches@),
            branch_map::text_map(bases@),
        ),
{
    let ghost names = text::texts(branches@);
    let ghost known = branch_map::text_map(bases@);
    let mut lines: Vec<String> = Vec::new();
    lines.push("Dependency tree:".to_owned());
    let mut drawn = draw_tree(tree);
    assert(text::texts(lines@) =~= seq!["Dependency tree:"@]);
    let ghost drawn_lines = drawn@;
    lines.append(&mut drawn);
    assert(text::texts(lines@) =~= seq!["Dependency tree:"@] + drawing(tree@));
    lines.push(String::new());
    lines.push("Planned operations:".to_owned());
    let ghost head = seq!["Dependency tree:"@] + drawing(tree@) + seq![
        seq![],
        "Planned operations:"@,
    ];
    assert(text::texts(lines@) =~= head);
    let ghost before = lines@;
    let mut any = false;
    let mut i: usize = 0;
    assert(head + operations(tree@, names, known, 0) =~= head);
    while i < branches.len()
        invariant
            i <= branches@.len(),
            names == text::texts(branches@),
            known == branch_map::text_map(bases@),
            text::texts(lines@) == head + operations(tree@, names, known, i as int),
            any == (operations(tree@, names, known, i as int).len() > 0),
        decreases branches@.len() - i,
    {
        let branch = branches[i].as_str();
        let ghost so_far = text::texts(lines@);
        assert(names[i as int] == branch@);
        if let Some(line) = operation_line(tree, branch) {
            any = true;
            let ghost first = line@;
            lines.push(line);
            assert(text::texts(lines@) =~= so_far.push(first));
            if let Some(base) = bases.get(branch) {
                assert(known[branch@] == base@);
                if let Some(node) = tree.nodes.get(branch) {
                    assert(tree@.nodes[branch@] == node@);
                    if let Some(parent) = &node.parent {
                        let second = command_line(parent.as_str(), base.as_str(), branch);
                        let ghost shown = second@;
                        lines.push(second);
                        assert(text::texts(lines@) =~= so_far.push(first).push(shown));
                    }
                }
            }
        }
        assert(text::texts(lines@) =~= so_far + branch_plan(tree@, branch@, known));
        assert(text::texts(lines@) =~= head + operations(tree@, names, known, i + 1));
        i = i + 1;
    }
    if !any {
        lines.push("  (none)".to_owned());
        assert(operations(tree@, names, known, names.len() as int) =~= seq![]);
        assert(text::texts(lines@) =~= head + seq!["  (none)"@]);
    }
    lines
}

/// The rebase of every branch that has a parent is in the plan; a branch without one has none.
pub proof fn law_plan_is_complete(
    tree: Tree,
    branches: Seq<Seq<char>>,
    bases: Map<Seq<char>, Seq<char>>,
    k: int,
    i: int,
)
    requires
        0 <= i < k <= branches.len(),
    ensures
        operation(tree, branches[i]) matches Some(line) ==> operations(
            tree,
            branches,
            bases,
            k,
        ).contains(line),
        operation(tree, branches[i]) is None <==> !tree.nodes.contains_key(branches[i])
            || tree.nodes[branches[i]].parent is None,
    decreases k,
{
    let front = operations(tree, branches, bases, k - 1);
    let more = branch_plan(tree, branches[k - 1], bases);
    if let Some(line) = operation(tree, branches[i]) {
        if i < k - 1 {
            law_plan_is_complete(tree, branches, bases, k - 1, i);
            let at = choose|at: int| 0 <= at < front.len() && front[at] == line;
            assert((front + more)[at] == line);
        } else {
            assert((front + more)[front.len() as int] == line);
        }
    }
}

} // verus!
