//! The order of branches: the walk of a tree by families, and that of a stack by generations.

use vstd::prelude::*;

use crate::branch_map;
use crate::generations;
use crate::order;
use crate::tree;
use crate::tree::Tree;
use crate::wiring;

verus! {

/// In a wired tree steps from parents to children are steps down.
proof fn lemma_leads_below(tree: Tree, from: Seq<char>, b: Seq<char>, n: nat)
    requires
        tree.wired(),
        tree.leads(from, b, n),
    ensures
        tree.below(from, b, n),
    decreases n,
{
    if n > 0 {
        let mid = choose|mid: Seq<char>|
            tree.leads(from, mid, (n - 1) as nat) && #[trigger] tree.children(mid).contains(b);
        lemma_leads_below(tree, from, mid, (n - 1) as nat);
        assert(tree.nodes.contains_key(mid));
        assert(tree.nodes[mid].children.contains(b) <==> tree.child_of(b, mid));
    }
}

/// In a wired tree nothing below a branch that hangs below the root leads back to itself.
proof fn lemma_no_circle(tree: Tree, from: Seq<char>, d: nat)
    requires
        tree.wired(),
        tree.hangs(from, d),
    ensures
        forall|b: Seq<char>, n: nat, m: nat| #[trigger]
            tree.leads(from, b, n) && m > 0 ==> !#[trigger] tree.leads(b, b, m),
{
    assert forall|b: Seq<char>, n: nat, m: nat| #[trigger]
        tree.leads(from, b, n) && m > 0 implies !#[trigger] tree.leads(b, b, m) by {
        if tree.leads(b, b, m) {
            lemma_leads_below(tree, from, b, n);
            lemma_leads_below(tree, b, b, m);
            wiring::lemma_below_adds(tree, tree.root, from, b, d, n);
            wiring::lemma_below_adds(tree, tree.root, b, b, d + n, m);
            wiring::lemma_one_depth(tree, b, d + n, d + n + m);
        }
    }
}

proof fn lemma_offspring_adds(tree: Tree, left: Seq<Seq<char>>, right: Seq<Seq<char>>)
    ensures
        generations::offspring(tree, left + right) == generations::offspring(tree, left)
            + generations::offspring(tree, right),
    decreases right.len(),
{
    if right.len() == 0 {
        assert(left + right =~= left);
        assert(generations::offspring(tree, right) =~= seq![]);
    } else {
        assert((left + right).drop_last() =~= left + right.drop_last());
        lemma_offspring_adds(tree, left, right.drop_last());
        assert(generations::offspring(tree, left + right) =~= generations::offspring(tree, left)
            + generations::offspring(tree, right));
    }
}

proof fn lemma_generations_step(tree: Tree, top: Seq<char>, k: nat)
    requires
        tree.nodes.dom().finite(),
        forall|b: Seq<char>, n: nat, m: nat| #[trigger]
            tree.leads(top, b, n) && m > 0 ==> !#[trigger] tree.leads(b, b, m),
    ensures
        ({
            let outline = tree.outline_below(Set::empty(), top, seq![]);
            generations::offspring(tree, seq![top] + tree::generations(outline, k))
                == tree::generations(outline, k + 1)
        }),
    decreases k,
{
    let outline = tree.outline_below(Set::empty(), top, seq![]);
    if k == 0 {
        generations::law_generations(tree, top, 1);
        assert(seq![top] + tree::generations(outline, 0) =~= seq![top]);
        assert(seq![top].drop_last() =~= seq![]);
        assert(generations::offspring(tree, seq![]) =~= seq![]);
        assert(tree::generations(outline, 0) =~= seq![]);
        assert(generations::offspring(tree, seq![top]) =~= tree.children(top));
        assert(tree::generations(outline, 1) =~= tree.children(top));
    } else {
        let older = (k - 1) as nat;
        lemma_generations_step(tree, top, older);
        generations::law_generations(tree, top, k);
        let front = seq![top] + tree::generations(outline, older);
        assert(seq![top] + tree::generations(outline, k) =~= front + tree::generation(outline, k));
        lemma_offspring_adds(tree, front, tree::generation(outline, k));
    }
}

/// A stack whose top leads to no circle is in the order of generations.
proof fn lemma_stack_order(tree: Tree, branch: Seq<char>, top: Seq<char>)
    requires
        tree.nodes.dom().finite(),
        tree.stack_top(branch) == Some(top),
        top != tree.root,
        forall|b: Seq<char>, n: nat, m: nat| #[trigger]
            tree.leads(top, b, n) && m > 0 ==> !#[trigger] tree.leads(b, b, m),
    ensures
        tree.stack_containing(branch).len() > 0,
        tree.stack_containing(branch)[0] == top,
        tree.stack_containing(branch).drop_first() == generations::offspring(
            tree,
            tree.stack_containing(branch),
        ),
{
    let stack = tree.stack_containing(branch);
    let outline = tree.outline_below(Set::empty(), top, seq![]);
    let n = outline.len();
    lemma_generations_step(tree, top, n);
    generations::law_generations(tree, top, n + 1);
    assert(tree::generations(outline, n + 1) =~= tree::generations(outline, n));
    assert(stack =~= seq![top] + tree::generations(outline, n));
    assert(stack.drop_first() =~= tree::generations(outline, n));
}

/// In a wired tree the stack of a branch that hangs below the root stands in the order of
/// generations: its top, followed by the children of all its branches, taken in the order of the
/// stack and each family in its own.
pub proof fn law_stack_by_generation(tree: Tree, branch: Seq<char>, d: nat)
    requires
        tree.wired(),
        1 <= d,
        tree.hangs(branch, d),
    ensures
        tree.stack_containing(branch).len() > 0,
        tree.stack_containing(branch).drop_first() == generations::offspring(
            tree,
            tree.stack_containing(branch),
        ),
{
    let seen = set![branch];
    assert(tree.nodes[branch].branch == branch);
    assert forall|s: Seq<char>| #[trigger] seen.contains(s) implies exists|m: nat|
        d <= m && tree.hangs(s, m) by {
        assert(tree.hangs(branch, d));
    }
    wiring::lemma_climb(tree, branch, seen, d);
    let top = tree.stack_top(branch)->0;
    if top == tree.root {
        assert(tree.hangs(top, 0));
        wiring::lemma_one_depth(tree, top, 0, 1);
    }
    lemma_no_circle(tree, top, 1);
    lemma_stack_order(tree, branch, top);
}

/// In a wired tree the walk below a branch that hangs below the root, or below the root itself,
/// goes by families: each child in turn, followed at once by all below it.
pub proof fn law_walk_by_family(tree: Tree, from: Seq<char>, d: nat)
    requires
        tree.wired(),
        tree.hangs(from, d),
    ensures
        tree.descendants(from) == tree.families(tree.children(from), tree.children(from).len()),
{
    lemma_no_circle(tree, from, d);
    assert(tree.leads(from, from, 0));
    assert forall|n: nat| n > 0 implies !#[trigger] tree.leads(from, from, n) by {
        assert(tree.leads(from, from, 0));
    }
    tree::law_walk_is_plain(tree, from);
}

/// The stack of the root is the whole tree below it; that of a branch without a node is empty.
pub proof fn law_other_stacks(tree: Tree, branch: Seq<char>)
    requires
        tree.wired(),
    ensures
        tree.stack_containing(tree.root) == tree.topological_order(),
        tree.topological_order() == tree.families(
            tree.children(tree.root),
            tree.children(tree.root).len(),
        ),
        !tree.nodes.contains_key(branch) ==> tree.stack_containing(branch).len() == 0,
{
    let start = tree.nodes[tree.root].branch;
    assert(tree.climb(start, set![start]) == Some(tree.root));
    assert(tree.hangs(tree.root, 0));
    law_walk_by_family(tree, tree.root, 0);
}

/// Below a branch whose parent has no node, a branch stands at one depth only.
proof fn lemma_one_depth_below(tree: Tree, top: Seq<char>, b: Seq<char>, m: nat, n: nat)
    requires
        tree.nodes.contains_key(top),
        tree.nodes[top].parent matches Some(p) && !tree.nodes.contains_key(p),
        tree.below(top, b, m),
        tree.below(top, b, n),
    ensures
        m == n,
    decreases m,
{
    if m > 0 && n > 0 {
        lemma_one_depth_below(tree, top, tree.nodes[b].parent->0, (m - 1) as nat, (n - 1) as nat);
    } else if m != n {
        let more = if m > n {
            m
        } else {
            n
        };
        assert(tree.below(top, tree.nodes[top].parent->0, (more - 1) as nat));
    }
}

/// A path up from a branch below `top` stays below `top` as far as it has no more steps.
proof fn lemma_path_below(tree: Tree, path: Seq<Seq<char>>, top: Seq<char>, n: nat, i: int)
    requires
        wiring::leads_up(tree, path),
        tree.below(top, path[0], n),
        0 <= i < path.len(),
        i <= n,
    ensures
        tree.below(top, path[i], (n - i) as nat),
    decreases i,
{
    if i > 0 {
        lemma_path_below(tree, path, top, n, i - 1);
        assert(tree.nodes[path[i - 1]].parent == Some(path[i]));
    }
}

/// In a wired tree a branch that stands below one whose parent has no node has that one at the top
/// of its stack, followed by the children of all branches of the stack, one generation after the
/// other.
pub proof fn law_stack_of_orphan(tree: Tree, top: Seq<char>, branch: Seq<char>, n: nat)
    requires
        tree.wired(),
        tree.nodes.contains_key(branch),
        tree.nodes.contains_key(top),
        tree.nodes[top].parent matches Some(p) && !tree.nodes.contains_key(p),
        tree.below(top, branch, n),
    ensures
        tree.stack_containing(branch).len() > 0,
        tree.stack_containing(branch)[0] == top,
        tree.stack_containing(branch).drop_first() == generations::offspring(
            tree,
            tree.stack_containing(branch),
        ),
{
    if branch == tree.root {
        assert(n == 0);
    }
    let start = seq![branch];
    assert(start.to_set() =~= set![branch]) by {
        assert(start[0] == branch);
    }
    let path = wiring::lemma_climb_path(tree, start);
    let last = path.len() - 1;
    if last < n {
        lemma_path_below(tree, path, top, n, last);
        let p = tree.nodes[path[last]].parent->0;
        let left = (n - last - 1) as nat;
        assert(tree.below(top, p, left));
        assert(path.last() == path[last]);
        if left == 0 {
            assert(p == top);
        }
        assert(tree.nodes.contains_key(p));
        assert(p != tree.root);
        let j = choose|j: int| 0 <= j < path.len() && path[j] == p;
        lemma_path_below(tree, path, top, n, j);
        lemma_one_depth_below(tree, top, p, (n - j) as nat, left);
    } else if last > n {
        lemma_path_below(tree, path, top, n, n as int);
        assert(path[n as int] == top);
        let over = n as int + 1;
        assert(tree.nodes[path[over - 1]].parent == Some(path[over]));
        assert(tree.nodes.contains_key(path[over]));
    } else {
        lemma_path_below(tree, path, top, n, last);
    }
    assert(path.last() == top);
    assert(tree.nodes[branch].branch == branch);
    assert(tree.stack_top(branch) == Some(top));
    assert forall|b: Seq<char>, i: nat, m: nat| #[trigger]
        tree.leads(top, b, i) && m > 0 implies !#[trigger] tree.leads(b, b, m) by {
        if tree.leads(b, b, m) {
            lemma_leads_below(tree, top, b, i);
            lemma_leads_below(tree, b, b, m);
            wiring::lemma_below_adds(tree, top, b, b, i, m);
            lemma_one_depth_below(tree, top, b, i, i + m);
        }
    }
    lemma_stack_order(tree, branch, top);
}

/// In a wired tree the stack of a branch other than the root begins with one that the branch stands
/// below, or with the branch itself. That one is a child of the root, or its parent has no node, or
/// its parents run in a circle.
pub proof fn law_stack_top(tree: Tree, branch: Seq<char>)
    requires
        tree.wired(),
        tree.nodes.contains_key(branch),
        branch != tree.root,
    ensures
        tree.stack_containing(branch).len() > 0,
        ({
            let top = tree.stack_containing(branch)[0];
            &&& tree.nodes.contains_key(top)
            &&& top != tree.root
            &&& exists|n: nat| #[trigger] tree.below(top, branch, n)
            &&& tree.nodes[top].parent matches Some(p) && (p == tree.root
                || !tree.nodes.contains_key(p) || wiring::on_circle(tree, top))
        }),
{
    let start = seq![branch];
    assert(start.to_set() =~= set![branch]) by {
        assert(start[0] == branch);
    }
    let path = wiring::lemma_climb_path(tree, start);
    let top = path.last();
    let last = path.len() - 1;
    assert(path[last] == top);
    assert(tree.nodes[branch].branch == branch);
    assert(tree.stack_top(branch) == Some(top));
    assert(tree.stack_containing(branch)[0] == top);
    wiring::lemma_path_below(tree, path, 0);
    assert(tree.below(top, branch, last as nat));
    let p = tree.nodes[top].parent->0;
    if p != tree.root && tree.nodes.contains_key(p) {
        let j = choose|j: int| 0 <= j < path.len() && path[j] == p;
        wiring::lemma_path_below(tree, path, j);
        assert(tree.below(top, top, (last - j + 1) as nat));
    }
}

proof fn lemma_more_keeps(front: Seq<Seq<char>>, more: Seq<Seq<char>>)
    ensures
        front.len() <= tree::with_more(front, more).len(),
        tree::with_more(front, more).take(front.len() as int) == front,
    decreases more.len(),
{
    let all = tree::with_more(front, more);
    if more.len() > 0 {
        let longer = tree::with_more(front, more.drop_last());
        lemma_more_keeps(front, more.drop_last());
        assert(all.take(front.len() as int) =~= longer.take(front.len() as int));
    }
    assert(all.take(front.len() as int) =~= front);
}

proof fn lemma_more_first(front: Seq<Seq<char>>, more: Seq<Seq<char>>)
    requires
        more.len() > 0,
        !front.contains(more[0]),
    ensures
        front.len() < tree::with_more(front, more).len(),
        tree::with_more(front, more)[front.len() as int] == more[0],
    decreases more.len(),
{
    let fewer = more.drop_last();
    if fewer.len() == 0 {
        assert(tree::with_more(front, fewer) == front);
    } else {
        lemma_more_first(front, fewer);
    }
}

proof fn lemma_gathered_keeps(tree: Tree, names: Seq<Seq<char>>, j: nat, k: nat)
    requires
        j <= k <= names.len(),
    ensures
        tree.gathered(names, j).len() <= tree.gathered(names, k).len(),
        tree.gathered(names, k).take(tree.gathered(names, j).len() as int) == tree.gathered(
            names,
            j,
        ),
    decreases k - j,
{
    let few = tree.gathered(names, j);
    let all = tree.gathered(names, k);
    if j < k {
        let front = tree.gathered(names, (k - 1) as nat);
        lemma_gathered_keeps(tree, names, j, (k - 1) as nat);
        lemma_more_keeps(front, tree.stack_containing(names[k - 1]));
        assert(all.take(few.len() as int) =~= all.take(front.len() as int).take(few.len() as int));
        assert(front.take(front.len() as int) =~= front);
    }
    assert(all.take(few.len() as int) =~= few);
}

proof fn lemma_gathered_early(tree: Tree, names: Seq<Seq<char>>, k: nat)
    requires
        k <= names.len(),
        forall|i: int|
            0 <= i < k ==> names[i] == tree.root || tree.topological_order().contains(
                #[trigger] names[i],
            ),
    ensures
        tree.gathered(names, k) == tree.topological_order(),
    decreases k,
{
    if k > 0 {
        lemma_gathered_early(tree, names, (k - 1) as nat);
        assert(names[k - 1] == names[k - 1]);
    }
}

proof fn lemma_sorted_names(tree: Tree)
    requires
        tree.nodes.dom().finite(),
    ensures
        order::in_order(tree.sorted_names()),
        branch_map::lists_names(tree.sorted_names(), tree.nodes),
{
    let listed = order::lemma_can_be_listed(tree.nodes.dom());
    assert forall|name: Seq<char>| listed.contains(name) <==> #[trigger] tree.nodes.contains_key(
        name,
    ) by {
        assert(listed.contains(name) <==> tree.nodes.dom().contains(name));
    }
    assert(order::in_order(listed) && branch_map::lists_names(listed, tree.nodes));
}

/// In a wired tree the branches that do not hang below the root come after those that do, beginning
/// with the stack of the one whose name comes first.
pub proof fn law_sync_order_off_root(tree: Tree, least: Seq<char>)
    requires
        tree.wired(),
        tree.nodes.contains_key(least),
        least != tree.root,
        !tree.topological_order().contains(least),
        forall|b: Seq<char>| #[trigger]
            tree.nodes.contains_key(b) && b != tree.root && !tree.topological_order().contains(b)
                ==> !order::precedes(b, least),
    ensures
        tree.topological_order().len() < tree.sync_order().len(),
        tree.stack_containing(least).len() > 0,
        tree.sync_order()[tree.topological_order().len() as int] == tree.stack_containing(least)[0],
{
    let topo = tree.topological_order();
    let names = tree.sorted_names();
    let stack = tree.stack_containing(least);
    lemma_sorted_names(tree);
    assert(names.contains(least));
    let p = choose|p: int| 0 <= p < names.len() && names[p] == least;
    assert forall|i: int| 0 <= i < p implies names[i] == tree.root || topo.contains(
        #[trigger] names[i],
    ) by {
        assert(names.contains(names[i]));
        assert(tree.nodes.contains_key(names[i]));
        assert(!order::precedes(names[p], names[i]));
        assert(names[i] != names[p]);
        order::law_order_total(names[i], names[p]);
    }
    lemma_gathered_early(tree, names, p as nat);
    law_stack_top(tree, least);
    let top = stack[0];
    wiring::law_topological_order(tree);
    if topo.contains(top) {
        let m = choose|m: nat| 1 <= m && #[trigger] tree.hangs(top, m);
        let n = choose|n: nat| #[trigger] tree.below(top, least, n);
        wiring::lemma_below_adds(tree, tree.root, top, least, m, n);
        assert(tree.hangs(least, m + n));
    }
    let next = (p + 1) as nat;
    assert(tree.gathered(names, next) == tree::with_more(topo, stack));
    lemma_more_first(topo, stack);
    lemma_gathered_keeps(tree, names, next, names.len());
    let some = tree.gathered(names, next);
    assert(tree.sync_order().take(some.len() as int)[topo.len() as int] == some[
        topo.len() as int]);
}

/// Whether what follows the first `t` of `all` was added stack by stack, where `whose` says for each
/// branch in whose stack it stands. The stacks are in the order of the names that they are for, and
/// each was added whole, as far as it was not there, in its own order, when the branch that it is
/// for was not there.
pub open spec fn stack_by_stack(
    tree: Tree,
    all: Seq<Seq<char>>,
    t: int,
    whose: Seq<Seq<char>>,
) -> bool {
    &&& t + whose.len() == all.len()
    &&& order::in_order(whose)
    &&& forall|i: int|
        0 <= i < whose.len() ==> tree.stack_containing(#[trigger] whose[i]).contains(all[t + i])
    &&& forall|i: int, j: int|
        0 <= i < j < whose.len() && #[trigger] whose[i] == #[trigger] whose[j] ==> stands_earlier(
            tree.stack_containing(whose[i]),
            all[t + i],
            all[t + j],
        )
    &&& forall|i: int, j: int|
        0 <= i < whose.len() && 0 <= j < t + i && #[trigger] all[j] == #[trigger] whose[i] ==> j
            >= t && whose[j - t] == whose[i]
    &&& forall|i: int, s: int|
        0 <= i < whose.len() && 0 <= s < tree.stack_containing(#[trigger] whose[i]).len()
            ==> placed_by(
            all,
            t,
            whose,
            #[trigger] tree.stack_containing(whose[i])[s],
            whose[i],
        )
}

/// Whether `a` stands before `b` in `names`.
pub open spec fn stands_earlier(names: Seq<Seq<char>>, a: Seq<char>, b: Seq<char>) -> bool {
    exists|x: int, y: int| 0 <= x < y < names.len() && #[trigger] names[x] == a && #[trigger] names[y] == b
}

/// Whether `b` is among the first `t` of `all`, or was added with the stack for `name` or with one
/// before that.
pub open spec fn placed_by(
    all: Seq<Seq<char>>,
    t: int,
    whose: Seq<Seq<char>>,
    b: Seq<char>,
    name: Seq<char>,
) -> bool {
    exists|j: int|
        0 <= j < all.len() && #[trigger] all[j] == b && (j < t || !order::precedes(
            name,
            whose[j - t],
        ))
}

/// The first `m` of the stack for `name` are added.
proof fn lemma_stack_joins(
    tree: Tree,
    front: Seq<Seq<char>>,
    t: int,
    whose: Seq<Seq<char>>,
    name: Seq<char>,
    m: int,
) -> (then: Seq<Seq<char>>)
    requires
        0 <= t,
        stack_by_stack(tree, front, t, whose),
        !front.contains(name),
        !whose.contains(name),
        forall|i: int| 0 <= i < whose.len() ==> !order::precedes(name, #[trigger] whose[i]),
        0 <= m <= tree.stack_containing(name).len(),
    ensures
        ({
            let stack = tree.stack_containing(name);
            let all = tree::with_more(front, stack.take(m));
            &&& t + then.len() == all.len()
            &&& whose.len() <= then.len()
            &&& front.len() <= all.len()
            &&& forall|i: int| 0 <= i < whose.len() ==> #[trigger] then[i] == whose[i]
            &&& forall|i: int| whose.len() <= i < then.len() ==> #[trigger] then[i] == name
            &&& forall|j: int| 0 <= j < front.len() ==> #[trigger] all[j] == front[j]
            &&& forall|j: int|
                front.len() <= j < all.len() ==> exists|x: int|
                    0 <= x < m && #[trigger] stack[x] == #[trigger] all[j]
            &&& forall|i: int, j: int|
                front.len() <= i < j < all.len() ==> stands_earlier(
                    stack,
                    #[trigger] all[i],
                    #[trigger] all[j],
                )
            &&& forall|x: int| 0 <= x < m ==> all.contains(#[trigger] stack[x])
        }),
    decreases m,
{
    let stack = tree.stack_containing(name);
    let all = tree::with_more(front, stack.take(m));
    if m == 0 {
        assert(stack.take(0) =~= seq![]);
        whose
    } else {
        let older = lemma_stack_joins(tree, front, t, whose, name, m - 1);
        let longer = tree::with_more(front, stack.take(m - 1));
        let b = stack[m - 1];
        assert(stack.take(m).drop_last() =~= stack.take(m - 1));
        assert(stack.take(m).last() == b);
        let then = if longer.contains(b) {
            older
        } else {
            older.push(name)
        };
        assert forall|j: int| front.len() <= j < all.len() implies exists|x: int|
            0 <= x < m && #[trigger] stack[x] == #[trigger] all[j] by {
            if j < longer.len() {
                assert(all[j] == longer[j]);
                let x = choose|x: int| 0 <= x < m - 1 && #[trigger] stack[x] == longer[j];
                assert(stack[x] == all[j]);
            } else {
                assert(stack[m - 1] == all[j]);
            }
        }
        assert forall|i: int, j: int| front.len() <= i < j < all.len() implies stands_earlier(
            stack,
            #[trigger] all[i],
            #[trigger] all[j],
        ) by {
            assert(all[i] == longer[i]);
            if j < longer.len() {
                assert(all[j] == longer[j]);
                assert(stands_earlier(stack, longer[i], longer[j]));
            } else {
                let x = choose|x: int| 0 <= x < m - 1 && #[trigger] stack[x] == longer[i];
                assert(stack[x] == all[i] && stack[m - 1] == all[j]);
            }
        }
        assert forall|x: int| 0 <= x < m implies all.contains(#[trigger] stack[x]) by {
            if x < m - 1 {
                let j = choose|j: int| 0 <= j < longer.len() && longer[j] == stack[x];
                assert(all[j] == stack[x]);
            } else if !longer.contains(b) {
                assert(all[longer.len() as int] == b);
            }
        }
        then
    }
}

proof fn lemma_stack_joined(
    tree: Tree,
    front: Seq<Seq<char>>,
    t: int,
    whose: Seq<Seq<char>>,
    name: Seq<char>,
) -> (then: Seq<Seq<char>>)
    requires
        0 <= t,
        stack_by_stack(tree, front, t, whose),
        !front.contains(name),
        !whose.contains(name),
        forall|i: int| 0 <= i < whose.len() ==> !order::precedes(name, #[trigger] whose[i]),
    ensures
        stack_by_stack(tree, tree::with_more(front, tree.stack_containing(name)), t, then),
        forall|i: int| 0 <= i < then.len() ==> #[trigger] then[i] == name || whose.contains(then[i]),
{
    let stack = tree.stack_containing(name);
    let then = lemma_stack_joins(tree, front, t, whose, name, stack.len() as int);
    assert(stack.take(stack.len() as int) =~= stack);
    let all = tree::with_more(front, stack);
    order::law_order_irreflexive(name);
    assert forall|i: int| 0 <= i < then.len() implies (#[trigger] then[i] == name || whose.contains(
        then[i],
    )) && !order::precedes(name, then[i]) by {
        if i < whose.len() {
            assert(then[i] == whose[i]);
        }
    }
    assert forall|i: int, j: int| 0 <= i < j < then.len() implies !order::precedes(
        #[trigger] then[j],
        #[trigger] then[i],
    ) by {
        if j < whose.len() {
            assert(then[i] == whose[i] && then[j] == whose[j]);
        } else {
            assert(then[j] == name);
        }
    }
    assert forall|i: int| 0 <= i < then.len() implies tree.stack_containing(
        #[trigger] then[i],
    ).contains(all[t + i]) by {
        if i < whose.len() {
            assert(then[i] == whose[i]);
            assert(all[t + i] == front[t + i]);
            assert(tree.stack_containing(whose[i]).contains(front[t + i]));
        } else {
            assert(then[i] == name);
            let at = t + i;
            let x = choose|x: int| 0 <= x < stack.len() && #[trigger] stack[x] == all[at];
            assert(stack[x] == all[at]);
        }
    }
    assert forall|i: int, j: int|
        0 <= i < j < then.len() && #[trigger] then[i] == #[trigger] then[j] implies stands_earlier(
        tree.stack_containing(then[i]),
        all[t + i],
        all[t + j],
    ) by {
        if j < whose.len() {
            assert(then[i] == whose[i] && then[j] == whose[j]);
            assert(all[t + i] == front[t + i] && all[t + j] == front[t + j]);
        } else {
            assert(then[j] == name);
            if i < whose.len() {
                assert(then[i] == whose[i]);
                assert(whose.contains(name));
            }
        }
    }
    assert forall|i: int, j: int|
        0 <= i < then.len() && 0 <= j < t + i && #[trigger] all[j] == #[trigger] then[i] implies j
        >= t && then[j - t] == then[i] by {
        if i < whose.len() {
            assert(then[i] == whose[i]);
            assert(all[j] == front[j]);
            assert(j >= t && whose[j - t] == whose[i]);
            assert(then[j - t] == whose[j - t]);
        } else {
            assert(then[i] == name);
            if j < front.len() {
                assert(all[j] == front[j]);
                assert(front.contains(name));
            }
            assert(then[j - t] == name);
        }
    }
    assert forall|i: int, s: int|
        0 <= i < then.len() && 0 <= s < tree.stack_containing(
            #[trigger] then[i],
        ).len() implies placed_by(
        all,
        t,
        then,
        #[trigger] tree.stack_containing(then[i])[s],
        then[i],
    ) by {
        let b = tree.stack_containing(then[i])[s];
        if i < whose.len() {
            assert(then[i] == whose[i]);
            assert(placed_by(front, t, whose, tree.stack_containing(whose[i])[s], whose[i]));
            let j = choose|j: int|
                0 <= j < front.len() && #[trigger] front[j] == b && (j < t || !order::precedes(
                    whose[i],
                    whose[j - t],
                ));
            assert(all[j] == b);
            if j >= t {
                assert(then[j - t] == whose[j - t]);
            }
        } else {
            assert(then[i] == name);
            assert(all.contains(stack[s]));
            let j = choose|j: int| 0 <= j < all.len() && all[j] == b;
            if j >= t {
                assert(!order::precedes(name, then[j - t]));
            }
        }
    }
    then
}

proof fn lemma_gathered_by_stack(tree: Tree, names: Seq<Seq<char>>, k: nat) -> (whose: Seq<
    Seq<char>,
>)
    requires
        order::in_order(names),
        names.no_duplicates(),
        k <= names.len(),
    ensures
        stack_by_stack(
            tree,
            tree.gathered(names, k),
            tree.topological_order().len() as int,
            whose,
        ),
        forall|i: int| 0 <= i < whose.len() ==> names.take(k as int).contains(#[trigger] whose[i]),
    decreases k,
{
    let topo = tree.topological_order();
    let t = topo.len() as int;
    if k == 0 {
        seq![]
    } else {
        let front = tree.gathered(names, (k - 1) as nat);
        let name = names[k - 1];
        let whose = lemma_gathered_by_stack(tree, names, (k - 1) as nat);
        let few = names.take(k - 1);
        let more = names.take(k as int);
        assert forall|i: int| 0 <= i < whose.len() implies more.contains(#[trigger] whose[i])
            && whose[i] != name && !order::precedes(name, whose[i]) by {
            let x = choose|x: int| 0 <= x < few.len() && few[x] == whose[i];
            assert(more[x] == whose[i]);
            assert(names[x] == whose[i]);
        }
        if name == tree.root || front.contains(name) {
            whose
        } else {
            let then = lemma_stack_joined(tree, front, t, whose, name);
            assert(more[k - 1] == name);
            assert forall|i: int| 0 <= i < then.len() implies more.contains(#[trigger] then[i]) by {
                if then[i] != name {
                    let x = choose|x: int| 0 <= x < whose.len() && whose[x] == then[i];
                    assert(more.contains(whose[x]));
                }
            }
            then
        }
    }
}

/// All branches are taken in this order: first the topological order; then, stack by stack, those
/// that do not hang below the root, in the order of the names whose stacks they are.
pub proof fn law_sync_order_by_stack(tree: Tree)
    requires
        tree.wired(),
    ensures
        exists|whose: Seq<Seq<char>>| #[trigger]
            stack_by_stack(
                tree,
                tree.sync_order(),
                tree.topological_order().len() as int,
                whose,
            ) && !whose.contains(tree.root),
{
    let names = tree.sorted_names();
    let topo = tree.topological_order();
    let t = topo.len() as int;
    lemma_sorted_names(tree);
    let whose = lemma_gathered_by_stack(tree, names, names.len());
    wiring::law_sync_order(tree);
    let all = tree.sync_order();
    if whose.contains(tree.root) {
        let i = choose|i: int| 0 <= i < whose.len() && whose[i] == tree.root;
        law_other_stacks(tree, tree.root);
        assert(tree.stack_containing(whose[i]).contains(all[t + i]));
        let x = choose|x: int| 0 <= x < topo.len() && topo[x] == all[t + i];
        assert(all.take(t)[x] == topo[x]);
        assert(all[x] == all[t + i]);
    }
}

} // verus!
