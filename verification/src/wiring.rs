//! Wired trees: those whose child lists and parents say the same. What the walks find there.

use vstd::prelude::*;

use crate::branch_map;
use crate::generations;
use crate::order;
use crate::tree;
use crate::tree::{Rung, Tree};

verus! {

impl Tree {
    /// Whether the root is a node without a parent, every other node has one, and the children of
    /// a node are, each once, the branches whose parent it is.
    pub open spec fn wired(self) -> bool {
        &&& self.nodes.dom().finite()
        &&& self.nodes.contains_key(self.root)
        &&& self.nodes[self.root].parent is None
        &&& forall|b: Seq<char>| #[trigger]
            self.nodes.contains_key(b) ==> self.nodes[b].branch == b && (b != self.root
                ==> self.nodes[b].parent is Some)
        &&& forall|p: Seq<char>| #[trigger]
            self.nodes.contains_key(p) ==> self.nodes[p].children.no_duplicates()
        &&& forall|p: Seq<char>, c: Seq<char>|
            self.nodes.contains_key(p) ==> (#[trigger] self.nodes[p].children.contains(c)
                <==> self.child_of(c, p))
    }

    /// Whether `p` is the parent of the node `c`.
    pub open spec fn child_of(self, c: Seq<char>, p: Seq<char>) -> bool {
        self.nodes.contains_key(c) && self.nodes[c].parent == Some(p)
    }

    /// Whether `b` is `n` steps below `from`.
    pub open spec fn below(self, from: Seq<char>, b: Seq<char>, n: nat) -> bool
        decreases n,
    {
        if n == 0 {
            b == from
        } else {
            self.nodes.contains_key(b) && match self.nodes[b].parent {
                Some(p) => self.below(from, p, (n - 1) as nat),
                None => false,
            }
        }
    }

    /// Whether `b` is `n` steps below the root.
    pub open spec fn hangs(self, b: Seq<char>, n: nat) -> bool {
        self.below(self.root, b, n)
    }
}

pub proof fn lemma_below_adds(tree: Tree, top: Seq<char>, from: Seq<char>, b: Seq<char>, m: nat, n: nat)
    requires
        tree.below(top, from, m),
        tree.below(from, b, n),
    ensures
        tree.below(top, b, m + n),
    decreases n,
{
    if n > 0 {
        lemma_below_adds(tree, top, from, tree.nodes[b].parent->0, m, (n - 1) as nat);
    }
}

/// The first step of a way down leads to a child.
pub proof fn lemma_below_first_step(tree: Tree, from: Seq<char>, b: Seq<char>, n: nat) -> (child: Seq<
    char,
>)
    requires
        n > 0,
        tree.below(from, b, n),
    ensures
        tree.child_of(child, from),
        tree.below(child, b, (n - 1) as nat),
    decreases n,
{
    let p = tree.nodes[b].parent->0;
    assert(tree.below(from, p, (n - 1) as nat));
    if n == 1 {
        b
    } else {
        lemma_below_first_step(tree, from, p, (n - 1) as nat)
    }
}

/// A branch hangs at one depth only.
pub proof fn lemma_one_depth(tree: Tree, b: Seq<char>, m: nat, n: nat)
    requires
        tree.wired(),
        tree.hangs(b, m),
        tree.hangs(b, n),
    ensures
        m == n,
    decreases m,
{
    if m > 0 && n > 0 {
        lemma_one_depth(tree, tree.nodes[b].parent->0, (m - 1) as nat, (n - 1) as nat);
    }
}

/// Whether rung `i` names a child of `parent` one step below it, or a child of what a rung before
/// it names, with nothing between the two that is not further in.
pub open spec fn well_placed(tree: Tree, parent: Seq<char>, depth: nat, outline: Seq<Rung>, i: int) -> bool {
    let rung = outline[i];
    &&& rung.lasts.len() > depth
    &&& tree.nodes.contains_key(rung.branch)
    &&& (rung.lasts.len() == depth + 1 && tree.child_of(rung.branch, parent)) || exists|j: int|
        under(tree, outline, j, i)
}

/// Whether rung `j` is the one that rung `i` is written under.
pub open spec fn under(tree: Tree, outline: Seq<Rung>, j: int, i: int) -> bool {
    &&& 0 <= j < i
    &&& outline[j].lasts.len() + 1 == outline[i].lasts.len()
    &&& tree.child_of(outline[i].branch, outline[j].branch)
    &&& forall|l: int|
        j < l < i ==> (#[trigger] outline[l]).lasts.len() >= outline[i].lasts.len()
}

/// In a wired tree every rung stands below its parent.
pub proof fn lemma_well_placed(
    tree: Tree,
    way: Set<Seq<char>>,
    parent: Seq<char>,
    k: nat,
    lasts: Seq<bool>,
)
    requires
        tree.wired(),
        tree.nodes.contains_key(parent),
    ensures
        forall|i: int|
            0 <= i < tree.forest(way, tree.children(parent), k, lasts).len() ==> #[trigger]
                well_placed(
                tree,
                parent,
                lasts.len(),
                tree.forest(way, tree.children(parent), k, lasts),
                i,
            ),
    decreases tree.nodes.dom().difference(way).len(), k,
{
    let children = tree.children(parent);
    let all = tree.forest(way, children, k, lasts);
    if 0 < k <= children.len() {
        let front = tree.forest(way, children, (k - 1) as nat, lasts);
        let child = children[k - 1];
        let mine = lasts.push(k == children.len());
        lemma_well_placed(tree, way, parent, (k - 1) as nat, lasts);
        if !way.contains(child) {
            assert(children.contains(child));
            assert(tree.child_of(child, parent));
            tree::lemma_way_grows(tree, way, child);
            let below = tree.forest(
                way.insert(child),
                tree.children(child),
                tree.children(child).len(),
                mine,
            );
            lemma_well_placed(
                tree,
                way.insert(child),
                child,
                tree.children(child).len(),
                mine,
            );
            let n = front.len() as int;
            assert(all == front.push(Rung { lasts: mine, branch: child }) + below);
            assert forall|i: int| 0 <= i < all.len() implies #[trigger] well_placed(
                tree,
                parent,
                lasts.len(),
                all,
                i,
            ) by {
                if i < n {
                    assert(all[i] == front[i]);
                    assert(well_placed(tree, parent, lasts.len(), front, i));
                    if !(front[i].lasts.len() == lasts.len() + 1 && tree.child_of(
                        front[i].branch,
                        parent,
                    )) {
                        let j = choose|j: int| under(tree, front, j, i);
                        assert(all[j] == front[j]);
                        assert forall|l: int| j < l < i implies (#[trigger] all[l]).lasts.len()
                            >= all[i].lasts.len() by {
                            assert(all[l] == front[l]);
                        }
                        assert(under(tree, all, j, i));
                    }
                } else if i > n {
                    let t = i - n - 1;
                    assert(all[i] == below[t]);
                    assert(well_placed(tree, child, mine.len(), below, t));
                    if below[t].lasts.len() == mine.len() + 1 && tree.child_of(
                        below[t].branch,
                        child,
                    ) {
                        assert forall|l: int| n < l < i implies (#[trigger] all[l]).lasts.len()
                            >= all[i].lasts.len() by {
                            assert(all[l] == below[l - n - 1]);
                            assert(well_placed(tree, child, mine.len(), below, l - n - 1));
                        }
                        assert(all[n].branch == child);
                        assert(under(tree, all, n, i));
                    } else {
                        let j = choose|j: int| under(tree, below, j, t);
                        assert(all[j + n + 1] == below[j]);
                        assert forall|l: int| j + n + 1 < l < i implies (
                        #[trigger] all[l]).lasts.len() >= all[i].lasts.len() by {
                            assert(all[l] == below[l - n - 1]);
                        }
                        assert(under(tree, all, j + n + 1, i));
                    }
                }
            }
        }
    }
}

/// Every branch below one of the first `k` children has its rung.
pub proof fn lemma_all_placed(
    tree: Tree,
    way: Set<Seq<char>>,
    parent: Seq<char>,
    d: nat,
    k: nat,
    lasts: Seq<bool>,
    t: int,
    b: Seq<char>,
    n: nat,
)
    requires
        tree.wired(),
        tree.nodes.contains_key(parent),
        tree.hangs(parent, d),
        forall|a: Seq<char>| #[trigger]
            way.contains(a) ==> exists|m: nat| m <= d && tree.hangs(a, m),
        0 <= t < k <= tree.children(parent).len(),
        tree.below(tree.children(parent)[t], b, n),
    ensures
        exists|i: int|
            0 <= i < tree.forest(way, tree.children(parent), k, lasts).len()
                && #[trigger] tree.forest(way, tree.children(parent), k, lasts)[i].branch == b,
    decreases tree.nodes.dom().difference(way).len(), k,
{
    let children = tree.children(parent);
    let all = tree.forest(way, children, k, lasts);
    let front = tree.forest(way, children, (k - 1) as nat, lasts);
    let child = children[k - 1];
    let mine = lasts.push(k == children.len());
    if t < k - 1 {
        lemma_all_placed(tree, way, parent, d, (k - 1) as nat, lasts, t, b, n);
        let i = choose|i: int| 0 <= i < front.len() && #[trigger] front[i].branch == b;
        assert(all[i] == front[i]);
    } else {
        assert(children.contains(child));
        assert(tree.child_of(child, parent));
        assert(tree.hangs(child, d + 1));
        if way.contains(child) {
            let m = choose|m: nat| m <= d && tree.hangs(child, m);
            lemma_one_depth(tree, child, m, d + 1);
        }
        tree::lemma_way_grows(tree, way, child);
        let wider = way.insert(child);
        let below = tree.forest(wider, tree.children(child), tree.children(child).len(), mine);
        assert(all == front.push(Rung { lasts: mine, branch: child }) + below);
        if n == 0 {
            assert(all[front.len() as int].branch == b);
        } else {
            let first = lemma_below_first_step(tree, child, b, n);
            assert(tree.nodes[child].children.contains(first));
            let s = choose|s: int|
                0 <= s < tree.children(child).len() && tree.children(child)[s] == first;
            assert forall|a: Seq<char>| #[trigger] wider.contains(a) implies exists|m: nat|
                m <= d + 1 && tree.hangs(a, m) by {
                if a == child {
                    assert(tree.hangs(child, d + 1));
                } else {
                    assert(way.contains(a));
                    let m = choose|m: nat| m <= d && tree.hangs(a, m);
                    assert(tree.hangs(a, m));
                }
            }
            lemma_all_placed(
                tree,
                wider,
                child,
                d + 1,
                tree.children(child).len(),
                mine,
                s,
                b,
                (n - 1) as nat,
            );
            let i = choose|i: int| 0 <= i < below.len() && #[trigger] below[i].branch == b;
            assert(all[front.len() + 1 + i] == below[i]);
        }
    }
}

/// A rung stands as many steps below `from` as its depth says.
pub proof fn lemma_rung_below(tree: Tree, from: Seq<char>, outline: Seq<Rung>, i: int)
    requires
        0 <= i < outline.len(),
        forall|j: int|
            0 <= j < outline.len() ==> #[trigger] well_placed(tree, from, 0, outline, j),
    ensures
        outline[i].lasts.len() >= 1,
        tree.below(from, outline[i].branch, outline[i].lasts.len()),
    decreases i,
{
    assert(well_placed(tree, from, 0, outline, i));
    let rung = outline[i];
    if rung.lasts.len() == 1 && tree.child_of(rung.branch, from) {
        assert(tree.below(from, from, 0));
    } else {
        let j = choose|j: int| under(tree, outline, j, i);
        lemma_rung_below(tree, from, outline, j);
    }
}

/// Whether `b` is below the child at `t`.
spec fn stems(tree: Tree, children: Seq<Seq<char>>, b: Seq<char>, t: int, n: nat) -> bool {
    0 <= t < children.len() && tree.below(children[t], b, n)
}

/// Whether `b` is below one of the first `k` children.
spec fn stemmed(tree: Tree, children: Seq<Seq<char>>, b: Seq<char>, k: int) -> bool {
    exists|t: int, n: nat| t < k && #[trigger] stems(tree, children, b, t, n)
}

/// Whether `b` is below `from`.
spec fn somewhere_below(tree: Tree, from: Seq<char>, b: Seq<char>) -> bool {
    exists|n: nat| 1 <= n && #[trigger] tree.below(from, b, n)
}

/// Every rung of a forest stems from one of its children.
proof fn lemma_stems(tree: Tree, way: Set<Seq<char>>, parent: Seq<char>, k: nat, lasts: Seq<bool>)
    requires
        tree.wired(),
        tree.nodes.contains_key(parent),
    ensures
        forall|i: int|
            0 <= i < tree.forest(way, tree.children(parent), k, lasts).len() ==> stemmed(
                tree,
                tree.children(parent),
                (#[trigger] tree.forest(way, tree.children(parent), k, lasts)[i]).branch,
                k as int,
            ),
    decreases tree.nodes.dom().difference(way).len(), k,
{
    let children = tree.children(parent);
    let all = tree.forest(way, children, k, lasts);
    if 0 < k <= children.len() {
        let front = tree.forest(way, children, (k - 1) as nat, lasts);
        let child = children[k - 1];
        let mine = lasts.push(k == children.len());
        lemma_stems(tree, way, parent, (k - 1) as nat, lasts);
        if !way.contains(child) {
            assert(children.contains(child));
            assert(tree.child_of(child, parent));
            tree::lemma_way_grows(tree, way, child);
            let below = tree.forest(
                way.insert(child),
                tree.children(child),
                tree.children(child).len(),
                mine,
            );
            lemma_stems(tree, way.insert(child), child, tree.children(child).len(), mine);
            assert(all == front.push(Rung { lasts: mine, branch: child }) + below);
            assert forall|i: int| 0 <= i < all.len() implies stemmed(
                tree,
                children,
                (#[trigger] all[i]).branch,
                k as int,
            ) by {
                if i < front.len() {
                    assert(all[i] == front[i]);
                    assert(stemmed(tree, children, front[i].branch, k - 1));
                    let (t, n) = choose|t: int, n: nat|
                        t < k - 1 && #[trigger] stems(tree, children, front[i].branch, t, n);
                    assert(stems(tree, children, all[i].branch, t, n));
                } else if i == front.len() {
                    assert(tree.below(child, child, 0));
                    assert(stems(tree, children, all[i].branch, k - 1, 0));
                } else {
                    let j = i - front.len() - 1;
                    assert(all[i] == below[j]);
                    let own = tree.children(child);
                    assert(stemmed(tree, own, below[j].branch, own.len() as int));
                    let (t, n) = choose|t: int, n: nat|
                        t < tree.children(child).len() && #[trigger] stems(
                            tree,
                            tree.children(child),
                            below[j].branch,
                            t,
                            n,
                        );
                    let step = tree.children(child)[t];
                    assert(tree.nodes[child].children.contains(step));
                    assert(tree.child_of(step, child));
                    assert(tree.below(child, child, 0));
                    assert(tree.below(child, step, 1));
                    lemma_below_adds(tree, child, step, below[j].branch, 1, n);
                    assert(stems(tree, children, all[i].branch, k - 1, 1 + n));
                }
            }
        } else {
            assert forall|i: int| 0 <= i < all.len() implies stemmed(
                tree,
                children,
                (#[trigger] all[i]).branch,
                k as int,
            ) by {
                assert(stemmed(tree, children, front[i].branch, k - 1));
                let (t, n) = choose|t: int, n: nat|
                    t < k - 1 && #[trigger] stems(tree, children, front[i].branch, t, n);
                assert(stems(tree, children, all[i].branch, t, n));
            }
        }
    }
}

/// What is below two children of a branch that hangs below the root is below one child.
proof fn lemma_one_family(
    tree: Tree,
    parent: Seq<char>,
    d: nat,
    b: Seq<char>,
    s: int,
    m: nat,
    t: int,
    n: nat,
)
    requires
        tree.wired(),
        tree.nodes.contains_key(parent),
        tree.hangs(parent, d),
        stems(tree, tree.children(parent), b, s, m),
        stems(tree, tree.children(parent), b, t, n),
    ensures
        s == t,
{
    let children = tree.children(parent);
    assert(children.contains(children[s]) && children.contains(children[t]));
    assert(tree.child_of(children[s], parent) && tree.child_of(children[t], parent));
    assert(tree.hangs(children[s], d + 1) && tree.hangs(children[t], d + 1));
    lemma_below_adds(tree, tree.root, children[s], b, d + 1, m);
    lemma_below_adds(tree, tree.root, children[t], b, d + 1, n);
    lemma_one_depth(tree, b, d + 1 + m, d + 1 + n);
    lemma_one_above(tree, children[s], children[t], b, m);
}

/// No branch has two rungs below one that hangs below the root.
proof fn lemma_rungs_differ(
    tree: Tree,
    way: Set<Seq<char>>,
    parent: Seq<char>,
    d: nat,
    k: nat,
    lasts: Seq<bool>,
)
    requires
        tree.wired(),
        tree.nodes.contains_key(parent),
        tree.hangs(parent, d),
    ensures
        tree::rung_branches(
            tree.forest(way, tree.children(parent), k, lasts),
        ).no_duplicates(),
    decreases tree.nodes.dom().difference(way).len(), k,
{
    let children = tree.children(parent);
    let all = tree.forest(way, children, k, lasts);
    if 0 < k <= children.len() {
        let front = tree.forest(way, children, (k - 1) as nat, lasts);
        let child = children[k - 1];
        let mine = lasts.push(k == children.len());
        lemma_rungs_differ(tree, way, parent, d, (k - 1) as nat, lasts);
        if !way.contains(child) {
            assert(children.contains(child));
            assert(tree.child_of(child, parent));
            assert(tree.hangs(child, d + 1));
            tree::lemma_way_grows(tree, way, child);
            let own = tree.children(child);
            let below = tree.forest(way.insert(child), own, own.len(), mine);
            lemma_rungs_differ(tree, way.insert(child), child, d + 1, own.len(), mine);
            lemma_stems(tree, way, parent, (k - 1) as nat, lasts);
            lemma_stems(tree, way.insert(child), child, own.len(), mine);
            assert(all == front.push(Rung { lasts: mine, branch: child }) + below);
            let names = tree::rung_branches(all);
            let n = front.len() as int;
            assert forall|i: int, j: int| 0 <= i < j < names.len() implies names[i]
                != names[j] by {
                assert(tree.below(child, child, 0));
                if j > n {
                    assert(names[j] == below[j - n - 1].branch);
                    assert(stemmed(tree, own, below[j - n - 1].branch, own.len() as int));
                    let (t, m) = choose|t: int, m: nat|
                        t < own.len() && #[trigger] stems(
                            tree,
                            own,
                            below[j - n - 1].branch,
                            t,
                            m,
                        );
                    assert(tree.nodes[child].children.contains(own[t]));
                    assert(tree.child_of(own[t], child));
                    assert(tree.below(child, own[t], 1));
                    lemma_below_adds(tree, child, own[t], below[j - n - 1].branch, 1, m);
                    assert(stems(tree, children, names[j], k - 1, 1 + m));
                    if i == n && names[i] == names[j] {
                        lemma_below_adds(tree, tree.root, child, child, d + 1, 1 + m);
                        lemma_one_depth(tree, child, d + 1, d + 1 + (1 + m));
                    }
                    if i > n {
                        assert(names[i] == tree::rung_branches(below)[i - n - 1]);
                        assert(names[j] == tree::rung_branches(below)[j - n - 1]);
                    }
                    if i < n && names[i] == names[j] {
                        assert(front[i].branch == names[i]);
                        assert(stemmed(tree, children, front[i].branch, k - 1));
                        let (s, l) = choose|s: int, l: nat|
                            s < k - 1 && #[trigger] stems(tree, children, front[i].branch, s, l);
                        lemma_one_family(tree, parent, d, names[j], s, l, k - 1, 1 + m);
                    }
                } else if j == n {
                    assert(stems(tree, children, names[j], k - 1, 0));
                    assert(front[i].branch == names[i]);
                    if names[i] == names[j] {
                        assert(stemmed(tree, children, front[i].branch, k - 1));
                        let (s, l) = choose|s: int, l: nat|
                            s < k - 1 && #[trigger] stems(tree, children, front[i].branch, s, l);
                        lemma_one_family(tree, parent, d, names[j], s, l, k - 1, 0);
                    }
                } else {
                    assert(names[i] == tree::rung_branches(front)[i]);
                    assert(names[j] == tree::rung_branches(front)[j]);
                }
            }
        }
    }
}

/// Siblings below a branch that hangs below the root stand in the order of their parent's children.
pub proof fn lemma_siblings_in_order(
    tree: Tree,
    way: Set<Seq<char>>,
    parent: Seq<char>,
    d: nat,
    k: nat,
    lasts: Seq<bool>,
    p: Seq<char>,
    s: int,
    t: int,
    i: int,
    j: int,
)
    requires
        tree.wired(),
        tree.nodes.contains_key(parent),
        tree.hangs(parent, d),
        tree.nodes.contains_key(p),
        0 <= s < t < tree.children(p).len(),
        0 <= i < tree.forest(way, tree.children(parent), k, lasts).len(),
        0 <= j < tree.forest(way, tree.children(parent), k, lasts).len(),
        tree.forest(way, tree.children(parent), k, lasts)[i].branch == tree.children(p)[s],
        tree.forest(way, tree.children(parent), k, lasts)[j].branch == tree.children(p)[t],
    ensures
        i < j,
    decreases tree.nodes.dom().difference(way).len(), k,
{
    let children = tree.children(parent);
    let all = tree.forest(way, children, k, lasts);
    let front = tree.forest(way, children, (k - 1) as nat, lasts);
    let child = children[k - 1];
    let mine = lasts.push(k == children.len());
    let first = tree.children(p)[s];
    let second = tree.children(p)[t];
    assert(tree.nodes[p].children.contains(first) && tree.nodes[p].children.contains(second));
    assert(tree.child_of(first, p) && tree.child_of(second, p));
    if way.contains(child) {
        lemma_siblings_in_order(tree, way, parent, d, (k - 1) as nat, lasts, p, s, t, i, j);
    } else {
        assert(children.contains(child));
        assert(tree.child_of(child, parent));
        assert(tree.hangs(child, d + 1));
        tree::lemma_way_grows(tree, way, child);
        let own = tree.children(child);
        let wider = way.insert(child);
        let below = tree.forest(wider, own, own.len(), mine);
        let n = front.len() as int;
        assert(all == front.push(Rung { lasts: mine, branch: child }) + below);
        lemma_stems(tree, way, parent, (k - 1) as nat, lasts);
        lemma_stems(tree, wider, child, own.len(), mine);
        if j < n && i < n {
            assert(all[i] == front[i] && all[j] == front[j]);
            lemma_siblings_in_order(tree, way, parent, d, (k - 1) as nat, lasts, p, s, t, i, j);
        } else if j > n && i > n {
            assert(all[i] == below[i - n - 1] && all[j] == below[j - n - 1]);
            lemma_siblings_in_order(
                tree,
                wider,
                child,
                d + 1,
                own.len(),
                mine,
                p,
                s,
                t,
                i - n - 1,
                j - n - 1,
            );
        } else if j < n {
            assert(all[j] == front[j]);
            assert(stemmed(tree, children, second, k - 1));
            let (x, m) = choose|x: int, m: nat|
                x < k - 1 && #[trigger] stems(tree, children, second, x, m);
            assert(children.contains(children[x]));
            assert(tree.child_of(children[x], parent));
            if i == n {
                assert(p == parent);
                if m > 0 {
                    assert(tree.below(children[x], parent, (m - 1) as nat));
                    assert(tree.hangs(children[x], d + 1));
                    lemma_below_adds(tree, tree.root, children[x], parent, d + 1, (m - 1) as nat);
                    lemma_one_depth(tree, parent, d, d + 1 + (m - 1) as nat);
                }
                assert(second == children[x]);
            } else {
                let q = lemma_family_of(tree, wider, child, own.len(), mine, i - n - 1);
                assert(all[i] == below[i - n - 1]);
                assert(tree.below(child, p, q));
                assert(stems(tree, children, p, k - 1, q));
                if m > 0 {
                    assert(stems(tree, children, p, x, (m - 1) as nat));
                    lemma_one_family(tree, parent, d, p, k - 1, q, x, (m - 1) as nat);
                } else {
                    assert(p == parent);
                    lemma_below_adds(tree, tree.root, child, parent, d + 1, q);
                    lemma_one_depth(tree, parent, d, d + 1 + q);
                }
            }
        } else if j == n && i > n {
            assert(p == parent);
            let q = lemma_family_of(tree, wider, child, own.len(), mine, i - n - 1);
            assert(all[i] == below[i - n - 1]);
            assert(tree.below(child, p, q));
            lemma_below_adds(tree, tree.root, child, parent, d + 1, q);
            lemma_one_depth(tree, parent, d, d + 1 + q);
        }
    }
}

/// How far the parent of what a rung names is below the branch that the forest is of.
proof fn lemma_family_of(
    tree: Tree,
    way: Set<Seq<char>>,
    parent: Seq<char>,
    k: nat,
    lasts: Seq<bool>,
    i: int,
) -> (q: nat)
    requires
        tree.wired(),
        tree.nodes.contains_key(parent),
        0 <= i < tree.forest(way, tree.children(parent), k, lasts).len(),
    ensures
        ({
            let b = tree.forest(way, tree.children(parent), k, lasts)[i].branch;
            tree.nodes.contains_key(b) && tree.nodes[b].parent is Some && tree.below(
                parent,
                tree.nodes[b].parent->0,
                q,
            )
        }),
{
    let children = tree.children(parent);
    let b = tree.forest(way, children, k, lasts)[i].branch;
    lemma_stems(tree, way, parent, k, lasts);
    assert(stemmed(tree, children, b, k as int));
    let (x, m) = choose|x: int, m: nat| x < k && #[trigger] stems(tree, children, b, x, m);
    assert(children.contains(children[x]));
    assert(tree.child_of(children[x], parent));
    assert(tree.below(parent, parent, 0));
    assert(tree.below(parent, children[x], 1));
    lemma_below_adds(tree, parent, children[x], b, 1, m);
    m
}

/// Whether `names` are those below `from`, each once and none before its parent.
pub open spec fn lists_below(tree: Tree, from: Seq<char>, names: Seq<Seq<char>>) -> bool {
    &&& names.no_duplicates()
    &&& forall|b: Seq<char>| #[trigger]
        names.contains(b) <==> exists|n: nat| 1 <= n && #[trigger] tree.below(from, b, n)
    &&& forall|i: int|
        0 <= i < names.len() ==> parent_before(tree, from, names, #[trigger] names[i], i)
}

/// Whether the parent of `b` is `from` or one of the first `i` names.
pub open spec fn parent_before(
    tree: Tree,
    from: Seq<char>,
    names: Seq<Seq<char>>,
    b: Seq<char>,
    i: int,
) -> bool {
    &&& tree.nodes.contains_key(b)
    &&& tree.nodes[b].parent is Some
    &&& tree.nodes[b].parent->0 == from || exists|j: int|
        0 <= j < i && #[trigger] names[j] == tree.nodes[b].parent->0
}

/// In a wired tree every rung of an outline stands below its parent.
pub proof fn lemma_outline_placed(tree: Tree, from: Seq<char>)
    requires
        tree.wired(),
        tree.nodes.contains_key(from),
    ensures
        forall|i: int|
            0 <= i < tree.outline_below(Set::empty(), from, seq![]).len() ==> #[trigger] well_placed(
                tree,
                from,
                0,
                tree.outline_below(Set::empty(), from, seq![]),
                i,
            ),
{
    let outline = tree.outline_below(Set::empty(), from, seq![]);
    let way = Set::<Seq<char>>::empty().insert(from);
    let children = tree.children(from);
    let none = Seq::<bool>::empty();
    lemma_well_placed(tree, way, from, children.len(), none);
    assert forall|i: int| 0 <= i < outline.len() implies #[trigger] well_placed(
        tree,
        from,
        0,
        outline,
        i,
    ) by {
        assert(outline == tree.forest(way, children, children.len(), none));
        assert(well_placed(
            tree,
            from,
            none.len(),
            tree.forest(way, children, children.len(), none),
            i,
        ));
    }
}

/// In a wired tree the descendants of a branch are below it, none before its parent.
proof fn lemma_parents_before(tree: Tree, from: Seq<char>)
    requires
        tree.wired(),
        tree.nodes.contains_key(from),
    ensures
        forall|i: int|
            0 <= i < tree.descendants(from).len() ==> parent_before(
                tree,
                from,
                tree.descendants(from),
                #[trigger] tree.descendants(from)[i],
                i,
            ),
        forall|i: int|
            0 <= i < tree.descendants(from).len() ==> somewhere_below(
                tree,
                from,
                #[trigger] tree.descendants(from)[i],
            ),
{
    let names = tree.descendants(from);
    let outline = tree.outline_below(Set::empty(), from, seq![]);
    lemma_outline_placed(tree, from);
    assert forall|i: int| 0 <= i < names.len() implies parent_before(
        tree,
        from,
        names,
        #[trigger] names[i],
        i,
    ) by {
        assert(well_placed(tree, from, 0, outline, i));
        if !tree.child_of(names[i], from) {
            let j = choose|j: int| under(tree, outline, j, i);
            assert(names[j] == outline[j].branch);
        }
    }
    assert forall|i: int| 0 <= i < names.len() implies somewhere_below(
        tree,
        from,
        #[trigger] names[i],
    ) by {
        lemma_rung_below(tree, from, outline, i);
        assert(tree.below(from, names[i], outline[i].lasts.len()));
    }
}

/// In a wired tree the descendants of a branch that hangs below the root are all below it.
proof fn lemma_descendants(tree: Tree, from: Seq<char>, d: nat)
    requires
        tree.wired(),
        tree.nodes.contains_key(from),
        tree.hangs(from, d),
    ensures
        lists_below(tree, from, tree.descendants(from)),
{
    let names = tree.descendants(from);
    let way = Set::<Seq<char>>::empty().insert(from);
    let children = tree.children(from);
    let none = Seq::<bool>::empty();
    let outline = tree.forest(way, children, children.len(), none);
    assert(names == tree::rung_branches(outline));
    lemma_parents_before(tree, from);
    lemma_rungs_differ(tree, way, from, d, children.len(), none);
    assert forall|b: Seq<char>| #[trigger] names.contains(b) <==> exists|n: nat|
        1 <= n && #[trigger] tree.below(from, b, n) by {
        if names.contains(b) {
            let i = choose|i: int| 0 <= i < names.len() && names[i] == b;
            assert(somewhere_below(tree, from, names[i]));
        }
        if exists|n: nat| 1 <= n && #[trigger] tree.below(from, b, n) {
            let n = choose|n: nat| 1 <= n && #[trigger] tree.below(from, b, n);
            let first = lemma_below_first_step(tree, from, b, n);
            assert(tree.nodes[from].children.contains(first));
            let t = choose|t: int| 0 <= t < children.len() && children[t] == first;
            assert forall|a: Seq<char>| #[trigger] way.contains(a) implies exists|m: nat|
                m <= d && tree.hangs(a, m) by {
                assert(tree.hangs(from, d));
            }
            lemma_all_placed(
                tree,
                way,
                from,
                d,
                children.len(),
                none,
                t,
                b,
                (n - 1) as nat,
            );
            let i = choose|i: int| 0 <= i < outline.len() && #[trigger] outline[i].branch == b;
            assert(names[i] == b);
        }
    }
}

/// In a wired tree no descendant of a branch stands before its parent, one generation after the
/// other.
proof fn lemma_generations_before(tree: Tree, from: Seq<char>, k: nat)
    requires
        tree.wired(),
        tree.nodes.contains_key(from),
    ensures
        ({
            let outline = tree.outline_below(Set::empty(), from, seq![]);
            let names = tree::generations(outline, k);
            forall|i: int|
                0 <= i < names.len() ==> parent_before(tree, from, names, #[trigger] names[i], i)
        }),
    decreases k,
{
    let outline = tree.outline_below(Set::empty(), from, seq![]);
    let names = tree::generations(outline, k);
    if k > 0 {
        let older = tree::generations(outline, (k - 1) as nat);
        let newer = tree::generation(outline, k);
        lemma_generations_before(tree, from, (k - 1) as nat);
        lemma_outline_placed(tree, from);
        assert forall|i: int| 0 <= i < names.len() implies parent_before(
            tree,
            from,
            names,
            #[trigger] names[i],
            i,
        ) by {
            let b = names[i];
            if i < older.len() {
                assert(older[i] == b);
                assert(parent_before(tree, from, older, older[i], i));
                let p = tree.nodes[b].parent->0;
                if p != from {
                    let j = choose|j: int| 0 <= j < i && #[trigger] older[j] == p;
                    assert(names[j] == p);
                }
            } else {
                assert(newer[i - older.len()] == b);
                assert(newer.contains(b));
                generations::lemma_generation(outline, k, b);
                let x = choose|x: int| generations::rung_at(outline, b, k, x);
                assert(well_placed(tree, from, 0, outline, x));
                if !tree.child_of(b, from) {
                    let y = choose|y: int| under(tree, outline, y, x);
                    assert(well_placed(tree, from, 0, outline, y));
                    let p = outline[y].branch;
                    assert(generations::rung_at(outline, p, (k - 1) as nat, y));
                    generations::lemma_generations(outline, (k - 1) as nat, p);
                    let j = choose|j: int| 0 <= j < older.len() && older[j] == p;
                    assert(names[j] == p);
                }
            }
        }
    }
}

/// One generation after the other, the same branches are below a branch of a wired tree, none
/// before its parent.
proof fn lemma_by_generation(tree: Tree, from: Seq<char>)
    requires
        tree.wired(),
        tree.nodes.contains_key(from),
    ensures
        forall|i: int|
            0 <= i < tree.by_generation(from).len() ==> parent_before(
                tree,
                from,
                tree.by_generation(from),
                #[trigger] tree.by_generation(from)[i],
                i,
            ),
        forall|b: Seq<char>| #[trigger]
            tree.by_generation(from).contains(b) <==> tree.descendants(from).contains(b),
        tree.descendants(from).no_duplicates() ==> tree.by_generation(from).no_duplicates(),
{
    let outline = tree.outline_below(Set::empty(), from, seq![]);
    lemma_generations_before(tree, from, outline.len());
    assert forall|b: Seq<char>| #[trigger] tree.by_generation(from).contains(b)
        <==> tree.descendants(from).contains(b) by {
        generations::lemma_by_generation(tree, from, b);
    }
    if tree.descendants(from).no_duplicates() {
        generations::lemma_generations_distinct(outline, outline.len());
    }
}

/// In a wired tree the topological order lists exactly the branches that hang below the root,
/// each once, none before its parent, and not the root.
pub proof fn law_topological_order(tree: Tree)
    requires
        tree.wired(),
    ensures
        tree.topological_order().no_duplicates(),
        !tree.topological_order().contains(tree.root),
        forall|b: Seq<char>| #[trigger]
            tree.topological_order().contains(b) <==> exists|n: nat| 1 <= n && #[trigger] tree.hangs(
                b,
                n,
            ),
        forall|i: int|
            0 <= i < tree.topological_order().len() ==> parent_before(
                tree,
                tree.root,
                tree.topological_order(),
                #[trigger] tree.topological_order()[i],
                i,
            ),
{
    let order = tree.topological_order();
    assert(tree.hangs(tree.root, 0));
    lemma_descendants(tree, tree.root, 0);
    assert(lists_below(tree, tree.root, order));
    assert forall|b: Seq<char>| #[trigger] order.contains(b) <==> exists|m: nat|
        1 <= m && #[trigger] tree.hangs(b, m) by {
        if order.contains(b) {
            let m = choose|m: nat| 1 <= m && #[trigger] tree.below(tree.root, b, m);
            assert(tree.hangs(b, m));
        }
        if exists|m: nat| 1 <= m && #[trigger] tree.hangs(b, m) {
            let m = choose|m: nat| 1 <= m && #[trigger] tree.hangs(b, m);
            assert(tree.below(tree.root, b, m));
        }
    }
    if order.contains(tree.root) {
        let m = choose|m: nat| 1 <= m && #[trigger] tree.hangs(tree.root, m);
        lemma_one_depth(tree, tree.root, 0, m);
    }
}

/// From a branch that hangs `d` steps below the root the climb ends one step below the root.
pub proof fn lemma_climb(tree: Tree, current: Seq<char>, seen: Set<Seq<char>>, d: nat)
    requires
        tree.wired(),
        1 <= d,
        tree.hangs(current, d),
        forall|s: Seq<char>| #[trigger] seen.contains(s) ==> exists|m: nat| d <= m && tree.hangs(s, m),
    ensures
        tree.climb(current, seen) is Some,
        tree.hangs(tree.climb(current, seen)->0, 1),
        tree.below(tree.climb(current, seen)->0, current, (d - 1) as nat),
    decreases d,
{
    let p = tree.nodes[current].parent->0;
    assert(tree.hangs(p, (d - 1) as nat));
    if d == 1 {
        assert(p == tree.root);
    } else {
        if p == tree.root {
            lemma_one_depth(tree, p, 0, (d - 1) as nat);
        }
        if seen.contains(p) {
            let m = choose|m: nat| d <= m && tree.hangs(p, m);
            lemma_one_depth(tree, p, m, (d - 1) as nat);
        }
        let wider = seen.insert(p);
        assert forall|s: Seq<char>| #[trigger] wider.contains(s) implies exists|m: nat|
            d - 1 <= m && tree.hangs(s, m) by {
            if s == p {
                assert(tree.hangs(p, (d - 1) as nat));
            } else {
                assert(seen.contains(s));
                let m = choose|m: nat| d <= m && tree.hangs(s, m);
                assert(tree.hangs(s, m));
            }
        }
        lemma_climb(tree, p, wider, (d - 1) as nat);
    }
}

/// In a wired tree, the stack of a branch that hangs below the root is a child of the root with
/// all below it: each branch once, none before its parent, and the given branch among them.
pub proof fn law_stack_containing(tree: Tree, branch: Seq<char>, d: nat)
    requires
        tree.wired(),
        1 <= d,
        tree.hangs(branch, d),
    ensures
        tree.stack_containing(branch).no_duplicates(),
        tree.stack_containing(branch).contains(branch),
        !tree.stack_containing(branch).contains(tree.root),
        tree.stack_containing(branch).len() > 0,
        tree.nodes[tree.stack_containing(branch)[0]].parent == Some(tree.root),
        forall|b: Seq<char>| #[trigger]
            tree.stack_containing(branch).contains(b) <==> exists|n: nat| #[trigger]
                tree.below(tree.stack_containing(branch)[0], b, n),
        forall|i: int|
            1 <= i < tree.stack_containing(branch).len() ==> parent_before(
                tree,
                tree.stack_containing(branch)[0],
                tree.stack_containing(branch),
                #[trigger] tree.stack_containing(branch)[i],
                i,
            ),
{
    let stack = tree.stack_containing(branch);
    assert(tree.nodes.contains_key(branch));
    let seen = set![branch];
    assert forall|s: Seq<char>| #[trigger] seen.contains(s) implies exists|m: nat|
        d <= m && tree.hangs(s, m) by {
        assert(tree.hangs(branch, d));
    }
    lemma_climb(tree, branch, seen, d);
    let top = tree.stack_top(branch)->0;
    assert(tree.below(tree.root, tree.nodes[top].parent->0, 0));
    if top == tree.root {
        lemma_one_depth(tree, top, 0, 1);
    }
    let rest = tree.by_generation(top);
    lemma_descendants(tree, top, 1);
    lemma_by_generation(tree, top);
    assert(lists_below(tree, top, rest)) by {
        let walked = tree.descendants(top);
        assert(lists_below(tree, top, walked));
        assert forall|b: Seq<char>| #[trigger] rest.contains(b) <==> exists|n: nat|
            1 <= n && #[trigger] tree.below(top, b, n) by {
            assert(rest.contains(b) <==> walked.contains(b));
        }
    }
    assert(stack == seq![top] + rest);
    assert(stack[0] == top);
    assert forall|b: Seq<char>| #[trigger] stack.contains(b) <==> exists|m: nat| #[trigger]
        tree.below(top, b, m) by {
        if stack.contains(b) {
            let i = choose|i: int| 0 <= i < stack.len() && stack[i] == b;
            if i == 0 {
                assert(tree.below(top, b, 0));
            } else {
                assert(rest[i - 1] == b);
                assert(rest.contains(b));
                let m = choose|m: nat| 1 <= m && #[trigger] tree.below(top, b, m);
                assert(tree.below(top, b, m));
            }
        }
        if exists|m: nat| #[trigger] tree.below(top, b, m) {
            let m = choose|m: nat| #[trigger] tree.below(top, b, m);
            if m > 0 {
                assert(rest.contains(b));
                let i = choose|i: int| 0 <= i < rest.len() && rest[i] == b;
                assert(stack[i + 1] == b);
            }
        }
    }
    assert(!rest.contains(top)) by {
        if rest.contains(top) {
            let m = choose|m: nat| 1 <= m && #[trigger] tree.below(top, top, m);
            lemma_below_adds(tree, tree.root, top, top, 1, m);
            lemma_one_depth(tree, top, 1, 1 + m);
        }
    }
    assert forall|i: int, j: int|
        0 <= i < stack.len() && 0 <= j < stack.len() && i != j implies stack[i] != stack[j] by {
        assert(i > 0 ==> stack[i] == rest[i - 1] && rest.contains(stack[i]));
        assert(j > 0 ==> stack[j] == rest[j - 1] && rest.contains(stack[j]));
    }
    assert forall|i: int| 1 <= i < stack.len() implies parent_before(
        tree,
        top,
        stack,
        #[trigger] stack[i],
        i,
    ) by {
        assert(parent_before(tree, top, rest, rest[i - 1], i - 1));
        let p = tree.nodes[stack[i]].parent->0;
        if p != top {
            let j = choose|j: int| 0 <= j < i - 1 && #[trigger] rest[j] == p;
            assert(stack[j + 1] == p);
        }
    }
    if stack.contains(tree.root) {
        let m = choose|m: nat| #[trigger] tree.below(top, tree.root, m);
        lemma_below_adds(tree, tree.root, top, tree.root, 1, m);
        lemma_one_depth(tree, tree.root, 0, 1 + m);
    }
}

/// All branches of a stack have that stack.
pub proof fn law_stack_shared(tree: Tree, branch: Seq<char>, other: Seq<char>, d: nat)
    requires
        tree.wired(),
        1 <= d,
        tree.hangs(branch, d),
        tree.stack_containing(branch).contains(other),
    ensures
        tree.stack_containing(other) == tree.stack_containing(branch),
{
    law_stack_containing(tree, branch, d);
    let top = tree.stack_containing(branch)[0];
    let n = choose|n: nat| #[trigger] tree.below(top, other, n);
    lemma_stack_top_is_node(tree, branch, d);
    lemma_below_adds(tree, tree.root, top, other, 1, n);
    law_stack_containing(tree, other, 1 + n);
    lemma_stack_top_is_node(tree, other, 1 + n);
    let second = tree.stack_containing(other)[0];
    assert(tree.stack_containing(other).contains(other));
    let m = choose|m: nat| #[trigger] tree.below(second, other, m);
    lemma_below_adds(tree, tree.root, second, other, 1, m);
    lemma_one_depth(tree, other, 1 + n, 1 + m);
    lemma_one_above(tree, top, second, other, n);
    assert(tree.stack_top(branch)->0 == top && tree.stack_top(other)->0 == top);
}

pub proof fn lemma_stack_top_is_node(tree: Tree, branch: Seq<char>, d: nat)
    requires
        tree.wired(),
        1 <= d,
        tree.hangs(branch, d),
    ensures
        tree.stack_top(branch) is Some,
        tree.stack_top(branch)->0 != tree.root,
        tree.stack_containing(branch)[0] == tree.stack_top(branch)->0,
        tree.hangs(tree.stack_containing(branch)[0], 1),
{
    let seen = set![branch];
    assert forall|s: Seq<char>| #[trigger] seen.contains(s) implies exists|m: nat|
        d <= m && tree.hangs(s, m) by {
        assert(tree.hangs(branch, d));
    }
    lemma_climb(tree, branch, seen, d);
    let top = tree.stack_top(branch)->0;
    if top == tree.root {
        lemma_one_depth(tree, top, 0, 1);
    }
}

/// Only one branch is `n` steps above another.
proof fn lemma_one_above(tree: Tree, left: Seq<char>, right: Seq<char>, b: Seq<char>, n: nat)
    requires
        tree.below(left, b, n),
        tree.below(right, b, n),
    ensures
        left == right,
    decreases n,
{
    if n > 0 {
        lemma_one_above(tree, left, right, tree.nodes[b].parent->0, (n - 1) as nat);
    }
}

/// Whether `path` leads up from parent to parent through nodes, none of them twice.
pub open spec fn leads_up(tree: Tree, path: Seq<Seq<char>>) -> bool {
    &&& path.len() > 0
    &&& path.no_duplicates()
    &&& forall|i: int| 0 <= i < path.len() ==> tree.nodes.contains_key(#[trigger] path[i])
    &&& forall|i: int|
        0 < i < path.len() ==> tree.nodes[path[i - 1]].parent == Some(#[trigger] path[i])
}

/// A climb that has come along `path` ends at the end of a path that goes on from it.
pub proof fn lemma_climb_path(tree: Tree, path: Seq<Seq<char>>) -> (whole: Seq<Seq<char>>)
    requires
        tree.wired(),
        leads_up(tree, path),
        path[0] != tree.root,
        forall|i: int| 0 <= i < path.len() ==> #[trigger] path[i] != tree.root,
    ensures
        leads_up(tree, whole),
        whole[0] == path[0],
        whole.last() != tree.root,
        tree.climb(path.last(), path.to_set()) == Some(whole.last()),
        ({
            let p = tree.nodes[whole.last()].parent->0;
            p == tree.root || !tree.nodes.contains_key(p) || whole.contains(p)
        }),
    decreases tree.labels().difference(path.to_set()).len(),
{
    let current = path.last();
    let seen = path.to_set();
    assert(path[path.len() - 1] == current);
    let p = tree.nodes[current].parent->0;
    if p == tree.root || !tree.nodes.contains_key(p) || seen.contains(p) {
        path
    } else {
        let longer = path.push(p);
        assert forall|i: int| 0 <= i < longer.len() implies tree.nodes.contains_key(
            #[trigger] longer[i],
        ) && longer[i] != tree.root by {
            if i < path.len() {
                assert(longer[i] == path[i]);
            }
        }
        assert forall|i: int| 0 < i < longer.len() implies tree.nodes[longer[i - 1]].parent == Some(
            #[trigger] longer[i],
        ) by {
            if i < path.len() {
                assert(longer[i] == path[i] && longer[i - 1] == path[i - 1]);
            }
        }
        assert forall|i: int, j: int|
            0 <= i < longer.len() && 0 <= j < longer.len() && i != j implies longer[i]
            != longer[j] by {
            assert(i < path.len() ==> path.contains(longer[i]));
            assert(j < path.len() ==> path.contains(longer[j]));
        }
        assert(longer.to_set() =~= seen.insert(p)) by {
            assert(longer[path.len() as int] == p);
            assert forall|x: Seq<char>| #[trigger] seen.insert(p).contains(x) implies longer.contains(
                x,
            ) by {
                if x != p {
                    let i = choose|i: int| 0 <= i < path.len() && path[i] == x;
                    assert(longer[i] == x);
                }
            }
        }
        tree::lemma_label_seen(tree, p, seen);
        lemma_climb_path(tree, longer)
    }
}

/// What a path leads up from has its rung below the end of the path.
proof fn lemma_path_down(tree: Tree, path: Seq<Seq<char>>, at: int, k: nat, lasts: Seq<bool>, i: int)
    requires
        tree.wired(),
        leads_up(tree, path),
        0 <= i < at < path.len(),
        k <= tree.children(path[at]).len(),
        tree.children(path[at]).take(k as int).contains(path[at - 1]),
    ensures
        tree::rung_branches(
            tree.forest(path.skip(at).to_set(), tree.children(path[at]), k, lasts),
        ).contains(path[i]),
    decreases at, k,
{
    let children = tree.children(path[at]);
    let way = path.skip(at).to_set();
    let all = tree.forest(way, children, k, lasts);
    let front = tree.forest(way, children, (k - 1) as nat, lasts);
    let child = children[k - 1];
    let mine = lasts.push(k == children.len());
    let few = children.take(k as int);
    let s = choose|s: int| 0 <= s < few.len() && few[s] == path[at - 1];
    assert(children[s] == path[at - 1]);
    let names = tree::rung_branches(all);
    if s < k - 1 {
        assert(children.take(k - 1)[s] == path[at - 1]);
        lemma_path_down(tree, path, at, (k - 1) as nat, lasts, i);
        let older = tree::rung_branches(front);
        let t = choose|t: int| 0 <= t < older.len() && older[t] == path[i];
        assert(names[t] == path[i]);
    } else {
        assert(child == path[at - 1]);
        if way.contains(child) {
            let upper = path.skip(at);
            let t = choose|t: int| 0 <= t < upper.len() && upper[t] == child;
            assert(path[at + t] == path[at - 1]);
        }
        assert(tree.nodes.contains_key(path[at - 1]));
        let wider = way.insert(child);
        let own = tree.children(child);
        let below = tree.forest(wider, own, own.len(), mine);
        assert(all == front.push(Rung { lasts: mine, branch: child }) + below);
        if i == at - 1 {
            assert(names[front.len() as int] == path[i]);
        } else {
            assert(path.skip(at - 1).to_set() =~= wider) by {
                let more = path.skip(at - 1);
                let upper = path.skip(at);
                assert(more =~= seq![child] + upper);
                assert forall|x: Seq<char>| more.contains(x) == (x == child || upper.contains(x)) by {
                    if upper.contains(x) {
                        let t = choose|t: int| 0 <= t < upper.len() && upper[t] == x;
                        assert(more[t + 1] == x);
                    }
                    if more.contains(x) {
                        let t = choose|t: int| 0 <= t < more.len() && more[t] == x;
                        if t > 0 {
                            assert(upper[t - 1] == x);
                        }
                    }
                    assert(more[0] == child);
                }
            }
            assert(tree.nodes[path[at - 2]].parent == Some(path[at - 1])) by {
                assert(path[at - 1] == path[(at - 1) as int]);
            }
            assert(tree.nodes.contains_key(path[at - 2]));
            assert(tree.child_of(path[at - 2], child));
            assert(tree.nodes[child].children.contains(path[at - 2]));
            assert(own.take(own.len() as int) =~= own);
            lemma_path_down(tree, path, at - 1, own.len(), mine, i);
            let deeper = tree::rung_branches(below);
            let t = choose|t: int| 0 <= t < deeper.len() && deeper[t] == path[i];
            assert(names[front.len() + 1 + t] == path[i]);
        }
    }
}

/// In a wired tree every branch but the root is in its own stack, also where the parents run in a
/// circle or lead to a branch that is not in the tree.
pub proof fn law_in_own_stack(tree: Tree, branch: Seq<char>)
    requires
        tree.wired(),
        tree.nodes.contains_key(branch),
        branch != tree.root,
    ensures
        tree.stack_containing(branch).contains(branch),
{
    let start = seq![branch];
    assert(start.to_set() =~= set![branch]) by {
        assert(start[0] == branch);
    }
    let path = lemma_climb_path(tree, start);
    let top = path.last();
    let at = path.len() - 1;
    let stack = tree.stack_containing(branch);
    assert(tree.stack_top(branch) == Some(top));
    assert(stack == seq![top] + tree.by_generation(top));
    if at == 0 {
        assert(stack[0] == branch);
    } else {
        let children = tree.children(top);
        assert(tree.nodes.contains_key(path[at - 1]) && tree.nodes.contains_key(path[at]));
        assert(tree.nodes[path[at - 1]].parent == Some(path[at]));
        assert(tree.child_of(path[at - 1], top));
        assert(tree.nodes[top].children.contains(path[at - 1]));
        assert(children.take(children.len() as int) =~= children);
        lemma_path_down(tree, path, at, children.len(), seq![], 0);
        assert(path.skip(at).to_set() =~= Set::empty().insert(top)) by {
            let upper = path.skip(at);
            assert(upper =~= seq![top]);
            assert(upper[0] == top);
        }
        let rest = tree.by_generation(top);
        assert(tree.descendants(top).contains(branch));
        generations::lemma_by_generation(tree, top, branch);
        let t = choose|t: int| 0 <= t < rest.len() && rest[t] == branch;
        assert(stack[t + 1] == branch);
    }
}

/// Whether the parents of `b` run in a circle that it is on.
pub open spec fn on_circle(tree: Tree, b: Seq<char>) -> bool {
    exists|n: nat| 1 <= n && #[trigger] tree.below(b, b, n)
}

/// Whether `p` stands among the first `i` names.
pub open spec fn stands_before(names: Seq<Seq<char>>, p: Seq<char>, i: int) -> bool {
    exists|j: int| 0 <= j < i && #[trigger] names[j] == p
}

/// Whether the branch at `i` has a parent that is dealt with before it, unless that is the root
/// or has no node, or the parents run in a circle.
pub open spec fn parent_first(tree: Tree, names: Seq<Seq<char>>, i: int) -> bool {
    &&& tree.nodes.contains_key(names[i])
    &&& names[i] != tree.root
    &&& tree.nodes[names[i]].parent is Some
    &&& {
        let p = tree.nodes[names[i]].parent->0;
        ||| p == tree.root
        ||| !tree.nodes.contains_key(p)
        ||| stands_before(names, p, i)
        ||| on_circle(tree, names[i])
    }
}

/// Whether `names` are nodes other than the root, each once, parents first.
spec fn well_ordered(tree: Tree, names: Seq<Seq<char>>) -> bool {
    &&& names.no_duplicates()
    &&& forall|i: int| 0 <= i < names.len() ==> #[trigger] parent_first(tree, names, i)
}

pub proof fn lemma_path_below(tree: Tree, path: Seq<Seq<char>>, j: int)
    requires
        leads_up(tree, path),
        0 <= j < path.len(),
    ensures
        tree.below(path.last(), path[j], (path.len() - 1 - j) as nat),
    decreases path.len() - j,
{
    if j < path.len() - 1 {
        lemma_path_below(tree, path, j + 1);
        assert(tree.nodes.contains_key(path[j]));
        assert(tree.nodes[path[j + 1 - 1]].parent == Some(path[j + 1]));
    }
}

/// The stack of a branch other than the root is a top and what is below it. The top has no parent
/// that could come first, or hangs right below the root.
proof fn lemma_stack_shape(tree: Tree, name: Seq<char>) -> (top: Seq<char>)
    requires
        tree.wired(),
        tree.nodes.contains_key(name),
        name != tree.root,
    ensures
        tree.stack_containing(name) == seq![top] + tree.by_generation(top),
        tree.nodes.contains_key(top),
        top != tree.root,
        ({
            let p = tree.nodes[top].parent->0;
            p == tree.root || !tree.nodes.contains_key(p) || on_circle(tree, top)
        }),
{
    let start = seq![name];
    assert(start.to_set() =~= set![name]) by {
        assert(start[0] == name);
    }
    let path = lemma_climb_path(tree, start);
    let top = path.last();
    assert(path[path.len() - 1] == top);
    assert(tree.stack_top(name) == Some(top));
    let p = tree.nodes[top].parent->0;
    if path.contains(p) {
        let j = choose|j: int| 0 <= j < path.len() && path[j] == p;
        lemma_path_below(tree, path, j);
        let m = (path.len() - 1 - j) as nat;
        assert(tree.below(p, p, 0));
        assert(tree.below(p, top, 1));
        lemma_below_adds(tree, top, p, top, m, 1);
        assert(tree.below(top, top, m + 1));
    }
    top
}

proof fn lemma_push_ordered(tree: Tree, names: Seq<Seq<char>>, name: Seq<char>)
    requires
        well_ordered(tree, names),
        !names.contains(name),
        parent_first(tree, names.push(name), names.len() as int),
    ensures
        well_ordered(tree, names.push(name)),
{
    let all = names.push(name);
    assert forall|i: int| 0 <= i < all.len() implies #[trigger] parent_first(tree, all, i) by {
        if i < names.len() {
            assert(parent_first(tree, names, i));
            let p = tree.nodes[names[i]].parent->0;
            if stands_before(names, p, i) {
                let j = choose|j: int| 0 <= j < i && #[trigger] names[j] == p;
                assert(all[j] == p);
            }
        }
    }
    assert forall|i: int, j: int|
        0 <= i < all.len() && 0 <= j < all.len() && i != j implies all[i] != all[j] by {
        assert(i < names.len() ==> names.contains(all[i]));
        assert(j < names.len() ==> names.contains(all[j]));
    }
}

/// A stack that is added keeps the parents first.
proof fn lemma_stack_added(tree: Tree, front: Seq<Seq<char>>, name: Seq<char>, m: int)
    requires
        tree.wired(),
        tree.nodes.contains_key(name),
        name != tree.root,
        well_ordered(tree, front),
        0 <= m <= tree.stack_containing(name).len(),
    ensures
        ({
            let stack = tree.stack_containing(name);
            let all = tree::with_more(front, stack.take(m));
            &&& well_ordered(tree, all)
            &&& front.len() <= all.len()
            &&& all.take(front.len() as int) == front
            &&& forall|j: int| 0 <= j < m ==> all.contains(#[trigger] stack[j])
        }),
    decreases m,
{
    let stack = tree.stack_containing(name);
    let all = tree::with_more(front, stack.take(m));
    if m == 0 {
        assert(stack.take(0) =~= seq![]);
        assert(all.take(front.len() as int) =~= front);
    } else {
        let longer = tree::with_more(front, stack.take(m - 1));
        let b = stack[m - 1];
        lemma_stack_added(tree, front, name, m - 1);
        assert(stack.take(m).drop_last() =~= stack.take(m - 1));
        assert(stack.take(m).last() == b);
        if !longer.contains(b) {
            let top = lemma_stack_shape(tree, name);
            assert(all == longer.push(b));
            if m > 1 {
                let rest = tree.by_generation(top);
                lemma_by_generation(tree, top);
                assert(rest[m - 2] == b);
                assert(parent_before(tree, top, rest, rest[m - 2], m - 2));
                let p = tree.nodes[b].parent->0;
                if p == top {
                    assert(stack[0] == p);
                } else {
                    let j = choose|j: int| 0 <= j < m - 2 && #[trigger] rest[j] == p;
                    assert(stack[j + 1] == p);
                }
                assert(longer.contains(p));
                let at = choose|at: int| 0 <= at < longer.len() && longer[at] == p;
                assert(all[at] == p);
                assert(stands_before(all, p, longer.len() as int));
            } else {
                assert(b == top);
            }
            assert(all[longer.len() as int] == b);
            assert(parent_first(tree, all, longer.len() as int));
            lemma_push_ordered(tree, longer, b);
            assert(all.take(front.len() as int) =~= longer.take(front.len() as int));
        }
        assert forall|j: int| 0 <= j < m implies all.contains(#[trigger] stack[j]) by {
            if j < m - 1 {
                let at = choose|at: int| 0 <= at < longer.len() && longer[at] == stack[j];
                assert(all[at] == stack[j]);
            } else if !longer.contains(b) {
                assert(all[longer.len() as int] == b);
            }
        }
    }
}

proof fn lemma_topological_ordered(tree: Tree)
    requires
        tree.wired(),
    ensures
        well_ordered(tree, tree.topological_order()),
{
    let order = tree.topological_order();
    law_topological_order(tree);
    assert forall|i: int| 0 <= i < order.len() implies #[trigger] parent_first(tree, order, i) by {
        assert(order.contains(order[i]));
        assert(parent_before(tree, tree.root, order, order[i], i));
    }
}

proof fn lemma_gathered(tree: Tree, names: Seq<Seq<char>>, k: nat)
    requires
        tree.wired(),
        branch_map::lists_names(names, tree.nodes),
        k <= names.len(),
    ensures
        well_ordered(tree, tree.gathered(names, k)),
        tree.topological_order().len() <= tree.gathered(names, k).len(),
        tree.gathered(names, k).take(tree.topological_order().len() as int)
            == tree.topological_order(),
        forall|j: int|
            0 <= j < k && names[j] != tree.root ==> tree.gathered(names, k).contains(
                #[trigger] names[j],
            ),
    decreases k,
{
    let order = tree.topological_order();
    let all = tree.gathered(names, k);
    if k == 0 {
        lemma_topological_ordered(tree);
        assert(order.take(order.len() as int) =~= order);
    } else {
        let front = tree.gathered(names, (k - 1) as nat);
        let name = names[k - 1];
        lemma_gathered(tree, names, (k - 1) as nat);
        assert(names.contains(name));
        assert(tree.nodes.contains_key(name));
        if name != tree.root && !front.contains(name) {
            let stack = tree.stack_containing(name);
            lemma_stack_added(tree, front, name, stack.len() as int);
            assert(stack.take(stack.len() as int) =~= stack);
            law_in_own_stack(tree, name);
            let s = choose|s: int| 0 <= s < stack.len() && stack[s] == name;
            assert(all.contains(stack[s]));
            assert(all.take(order.len() as int) =~= all.take(front.len() as int).take(
                order.len() as int,
            ));
            assert forall|j: int| 0 <= j < k && names[j] != tree.root implies all.contains(
                #[trigger] names[j],
            ) by {
                if j < k - 1 {
                    assert(front.contains(names[j]));
                    let at = choose|at: int| 0 <= at < front.len() && front[at] == names[j];
                    assert(all.take(front.len() as int)[at] == names[j]);
                    assert(all[at] == names[j]);
                }
            }
        }
    }
}

/// In a wired tree, a parent that has a node stands before its children in a stack, except in a
/// circle of parents.
pub proof fn law_stack_parents_first(tree: Tree, name: Seq<char>, i: int)
    requires
        tree.wired(),
        0 <= i < tree.stack_containing(name).len(),
    ensures
        parent_first(tree, tree.stack_containing(name), i),
{
    let stack = tree.stack_containing(name);
    if name == tree.root {
        lemma_topological_ordered(tree);
        assert(parent_first(tree, tree.topological_order(), i));
    } else {
        let top = lemma_stack_shape(tree, name);
        if i > 0 {
            let rest = tree.by_generation(top);
            lemma_by_generation(tree, top);
            assert(stack[i] == rest[i - 1]);
            assert(parent_before(tree, top, rest, rest[i - 1], i - 1));
            let p = tree.nodes[stack[i]].parent->0;
            if p == top {
                assert(stack[0] == p);
            } else {
                let j = choose|j: int| 0 <= j < i - 1 && #[trigger] rest[j] == p;
                assert(stack[j + 1] == p);
            }
            assert(stands_before(stack, p, i));
        }
    }
}

/// In a wired tree the order of all branches holds every node but the root, each once. It begins
/// with the branches below the root. A parent that has a node stands before its children, except
/// in a circle of parents.
pub proof fn law_sync_order(tree: Tree)
    requires
        tree.wired(),
    ensures
        tree.sync_order().no_duplicates(),
        forall|b: Seq<char>| #[trigger]
            tree.sync_order().contains(b) <==> tree.nodes.contains_key(b) && b != tree.root,
        tree.topological_order().len() <= tree.sync_order().len(),
        tree.sync_order().take(tree.topological_order().len() as int) == tree.topological_order(),
        forall|i: int|
            0 <= i < tree.sync_order().len() ==> #[trigger] parent_first(
                tree,
                tree.sync_order(),
                i,
            ),
{
    let listed = order::lemma_can_be_listed(tree.nodes.dom());
    assert forall|name: Seq<char>| listed.contains(name) <==> #[trigger] tree.nodes.contains_key(
        name,
    ) by {
        assert(listed.contains(name) <==> tree.nodes.dom().contains(name));
    }
    assert(order::in_order(listed) && branch_map::lists_names(listed, tree.nodes));
    let names = tree.sorted_names();
    assert(branch_map::lists_names(names, tree.nodes));
    let all = tree.sync_order();
    lemma_gathered(tree, names, names.len());
    assert forall|b: Seq<char>| #[trigger] all.contains(b) <==> tree.nodes.contains_key(b) && b
        != tree.root by {
        if all.contains(b) {
            let i = choose|i: int| 0 <= i < all.len() && all[i] == b;
            assert(parent_first(tree, all, i));
        }
        if tree.nodes.contains_key(b) && b != tree.root {
            assert(names.contains(b));
            let j = choose|j: int| 0 <= j < names.len() && names[j] == b;
            assert(all.contains(names[j]));
        }
    }
}

/// Where every branch hangs below the root, the order of all branches is the topological one.
pub proof fn law_sync_order_of_hanging(tree: Tree)
    requires
        tree.wired(),
        forall|b: Seq<char>| #[trigger]
            tree.nodes.contains_key(b) && b != tree.root ==> tree.topological_order().contains(b),
    ensures
        tree.sync_order() == tree.topological_order(),
{
    let names = tree.sorted_names();
    let listed = order::lemma_can_be_listed(tree.nodes.dom());
    assert forall|name: Seq<char>| listed.contains(name) <==> #[trigger] tree.nodes.contains_key(
        name,
    ) by {
        assert(listed.contains(name) <==> tree.nodes.dom().contains(name));
    }
    assert(order::in_order(listed) && branch_map::lists_names(listed, tree.nodes));
    lemma_nothing_to_gather(tree, names, names.len());
}

proof fn lemma_nothing_to_gather(tree: Tree, names: Seq<Seq<char>>, k: nat)
    requires
        branch_map::lists_names(names, tree.nodes),
        forall|b: Seq<char>| #[trigger]
            tree.nodes.contains_key(b) && b != tree.root ==> tree.topological_order().contains(b),
        k <= names.len(),
    ensures
        tree.gathered(names, k) == tree.topological_order(),
    decreases k,
{
    if k > 0 {
        lemma_nothing_to_gather(tree, names, (k - 1) as nat);
        assert(names.contains(names[k - 1]));
        assert(tree.nodes.contains_key(names[k - 1]));
    }
}

} // verus!
