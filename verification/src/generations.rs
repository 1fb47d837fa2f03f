//! What a walk by generations finds.

use vstd::prelude::*;

use crate::tree;
use crate::tree::{Rung, Tree};

verus! {

/// The children of `branches`, one family after the other.
pub open spec fn offspring(tree: Tree, branches: Seq<Seq<char>>) -> Seq<Seq<char>>
    decreases branches.len(),
{
    if branches.len() == 0 {
        seq![]
    } else {
        offspring(tree, branches.drop_last()) + tree.children(branches.last())
    }
}

/// Whether rung `i` names `b`, `depth` steps down.
pub open spec fn rung_at(outline: Seq<Rung>, b: Seq<char>, depth: nat, i: int) -> bool {
    0 <= i < outline.len() && outline[i].branch == b && outline[i].lasts.len() == depth
}

/// A generation holds what the rungs at its depth name.
pub proof fn lemma_generation(outline: Seq<Rung>, depth: nat, b: Seq<char>)
    ensures
        tree::generation(outline, depth).contains(b) <==> exists|i: int|
            rung_at(outline, b, depth, i),
    decreases outline.len(),
{
    let all = tree::generation(outline, depth);
    if outline.len() > 0 {
        let front = outline.drop_last();
        let older = tree::generation(front, depth);
        let last = outline.len() - 1;
        lemma_generation(front, depth, b);
        if all.contains(b) {
            if older.contains(b) {
                let i = choose|i: int| rung_at(front, b, depth, i);
                assert(rung_at(outline, b, depth, i));
            } else {
                let x = choose|x: int| 0 <= x < all.len() && all[x] == b;
                if x < older.len() {
                    assert(older[x] == b);
                }
                assert(rung_at(outline, b, depth, last));
            }
        }
        if exists|i: int| rung_at(outline, b, depth, i) {
            let i = choose|i: int| rung_at(outline, b, depth, i);
            if i < last {
                assert(rung_at(front, b, depth, i));
                let x = choose|x: int| 0 <= x < older.len() && older[x] == b;
                assert(all[x] == b);
            } else {
                assert(all[older.len() as int] == b);
            }
        }
    }
}

/// Some generations hold what the rungs from one to `k` steps down name.
pub proof fn lemma_generations(outline: Seq<Rung>, k: nat, b: Seq<char>)
    ensures
        tree::generations(outline, k).contains(b) <==> exists|d: nat, i: int|
            1 <= d <= k && #[trigger] rung_at(outline, b, d, i),
    decreases k,
{
    let all = tree::generations(outline, k);
    if k > 0 {
        let older = tree::generations(outline, (k - 1) as nat);
        let newer = tree::generation(outline, k);
        lemma_generations(outline, (k - 1) as nat, b);
        lemma_generation(outline, k, b);
        if all.contains(b) {
            let x = choose|x: int| 0 <= x < all.len() && all[x] == b;
            if x < older.len() {
                assert(older[x] == b);
                let (d, i) = choose|d: nat, i: int|
                    1 <= d <= k - 1 && #[trigger] rung_at(outline, b, d, i);
                assert(rung_at(outline, b, d, i));
            } else {
                assert(newer[x - older.len()] == b);
                let i = choose|i: int| rung_at(outline, b, k, i);
                assert(rung_at(outline, b, k, i));
            }
        }
        if exists|d: nat, i: int| 1 <= d <= k && #[trigger] rung_at(outline, b, d, i) {
            let (d, i) = choose|d: nat, i: int|
                1 <= d <= k && #[trigger] rung_at(outline, b, d, i);
            if d < k {
                assert(older.contains(b));
                let x = choose|x: int| 0 <= x < older.len() && older[x] == b;
                assert(all[x] == b);
            } else {
                assert(newer.contains(b));
                let x = choose|x: int| 0 <= x < newer.len() && newer[x] == b;
                assert(all[older.len() + x] == b);
            }
        }
    }
}

proof fn lemma_generation_distinct(outline: Seq<Rung>, depth: nat)
    requires
        tree::rung_branches(outline).no_duplicates(),
    ensures
        tree::generation(outline, depth).no_duplicates(),
    decreases outline.len(),
{
    if outline.len() > 0 {
        let front = outline.drop_last();
        let older = tree::generation(front, depth);
        let names = tree::rung_branches(outline);
        let last = outline.last().branch;
        assert(tree::rung_branches(front) =~= names.drop_last());
        lemma_generation_distinct(front, depth);
        if older.contains(last) {
            lemma_generation(front, depth, last);
            let i = choose|i: int| rung_at(front, last, depth, i);
            assert(names[i] == names[outline.len() - 1]);
        }
        assert forall|i: int, j: int|
            0 <= i < older.push(last).len() && 0 <= j < older.push(last).len() && i
                != j implies older.push(last)[i] != older.push(last)[j] by {
            assert(i < older.len() ==> older.contains(older.push(last)[i]));
            assert(j < older.len() ==> older.contains(older.push(last)[j]));
        }
    }
}

/// If no branch has two rungs, none is in the generations twice.
pub proof fn lemma_generations_distinct(outline: Seq<Rung>, k: nat)
    requires
        tree::rung_branches(outline).no_duplicates(),
    ensures
        tree::generations(outline, k).no_duplicates(),
    decreases k,
{
    if k > 0 {
        let older = tree::generations(outline, (k - 1) as nat);
        let newer = tree::generation(outline, k);
        let all = tree::generations(outline, k);
        let names = tree::rung_branches(outline);
        lemma_generations_distinct(outline, (k - 1) as nat);
        lemma_generation_distinct(outline, k);
        assert forall|i: int, j: int|
            0 <= i < older.len() && older.len() <= j < all.len() implies all[i] != all[j] by {
            let b = all[i];
            assert(older[i] == b);
            assert(older.contains(b));
            lemma_generations(outline, (k - 1) as nat, b);
            let (d, x) = choose|d: nat, x: int|
                1 <= d <= k - 1 && #[trigger] rung_at(outline, b, d, x);
            if all[j] == b {
                assert(newer[j - older.len()] == b);
                assert(newer.contains(b));
                lemma_generation(outline, k, b);
                let y = choose|y: int| rung_at(outline, b, k, y);
                assert(names[x] == names[y]);
            }
        }
        assert forall|i: int, j: int|
            0 <= i < all.len() && 0 <= j < all.len() && i != j implies all[i] != all[j] by {
            if i < older.len() && j < older.len() {
                assert(older[i] == all[i] && older[j] == all[j]);
            } else if i >= older.len() && j >= older.len() {
                assert(newer[i - older.len()] == all[i] && newer[j - older.len()] == all[j]);
            }
        }
    }
}

/// A rung stands below where its forest begins, and no further down than there are rungs.
pub proof fn lemma_depths(
    tree: Tree,
    way: Set<Seq<char>>,
    children: Seq<Seq<char>>,
    k: nat,
    lasts: Seq<bool>,
)
    requires
        tree.nodes.dom().finite(),
    ensures
        forall|i: int|
            0 <= i < tree.forest(way, children, k, lasts).len() ==> lasts.len() < (
            #[trigger] tree.forest(way, children, k, lasts)[i]).lasts.len() <= lasts.len() + 1 + i,
    decreases tree.nodes.dom().difference(way).len(), k,
{
    if 0 < k <= children.len() {
        let all = tree.forest(way, children, k, lasts);
        let front = tree.forest(way, children, (k - 1) as nat, lasts);
        let child = children[k - 1];
        let mine = lasts.push(k == children.len());
        lemma_depths(tree, way, children, (k - 1) as nat, lasts);
        if !way.contains(child) && tree.nodes.contains_key(child) {
            let own = tree.nodes[child].children;
            let below = tree.forest(way.insert(child), own, own.len(), mine);
            tree::lemma_way_grows(tree, way, child);
            lemma_depths(tree, way.insert(child), own, own.len(), mine);
            assert(all == front.push(Rung { lasts: mine, branch: child }) + below);
            assert forall|i: int| 0 <= i < all.len() implies lasts.len() < (
            #[trigger] all[i]).lasts.len() <= lasts.len() + 1 + i by {
                if i < front.len() {
                    assert(all[i] == front[i]);
                } else if i > front.len() {
                    assert(all[i] == below[i - front.len() - 1]);
                }
            }
        } else {
            assert forall|i: int| 0 <= i < all.len() implies lasts.len() < (
            #[trigger] all[i]).lasts.len() <= lasts.len() + 1 + i by {
                if i < front.len() {
                    assert(all[i] == front[i]);
                }
            }
        }
    }
}

/// The walk by generations finds what the outline names.
pub proof fn lemma_by_generation(tree: Tree, from: Seq<char>, b: Seq<char>)
    requires
        tree.nodes.dom().finite(),
    ensures
        tree.by_generation(from).contains(b) <==> tree.descendants(from).contains(b),
{
    let outline = tree.outline_below(Set::empty(), from, seq![]);
    let names = tree.descendants(from);
    let children = tree.children(from);
    let none = Seq::<bool>::empty();
    lemma_depths(tree, Set::empty().insert(from), children, children.len(), none);
    lemma_generations(outline, outline.len(), b);
    if tree.by_generation(from).contains(b) {
        let (d, i) = choose|d: nat, i: int|
            1 <= d <= outline.len() && #[trigger] rung_at(outline, b, d, i);
        assert(names[i] == b);
    }
    if names.contains(b) {
        let i = choose|i: int| 0 <= i < names.len() && names[i] == b;
        assert(outline[i].branch == b);
        assert(rung_at(outline, b, outline[i].lasts.len(), i));
    }
}

proof fn lemma_generation_add(left: Seq<Rung>, right: Seq<Rung>, depth: nat)
    ensures
        tree::generation(left + right, depth) == tree::generation(left, depth) + tree::generation(
            right,
            depth,
        ),
    decreases right.len(),
{
    if right.len() == 0 {
        assert(left + right =~= left);
        assert(tree::generation(left, depth) + tree::generation(right, depth) =~= tree::generation(
            left,
            depth,
        ));
    } else {
        lemma_generation_add(left, right.drop_last(), depth);
        assert((left + right).drop_last() =~= left + right.drop_last());
        assert((left + right).last() == right.last());
        assert(tree::generation(left + right, depth) =~= tree::generation(left, depth)
            + tree::generation(right, depth));
    }
}

proof fn lemma_offspring_add(tree: Tree, left: Seq<Seq<char>>, right: Seq<Seq<char>>)
    ensures
        offspring(tree, left + right) == offspring(tree, left) + offspring(tree, right),
    decreases right.len(),
{
    if right.len() == 0 {
        assert(left + right =~= left);
        assert(offspring(tree, left) + offspring(tree, right) =~= offspring(tree, left));
    } else {
        lemma_offspring_add(tree, left, right.drop_last());
        assert((left + right).drop_last() =~= left + right.drop_last());
        assert((left + right).last() == right.last());
        assert(offspring(tree, left + right) =~= offspring(tree, left) + offspring(tree, right));
    }
}

proof fn lemma_offspring_one(tree: Tree, b: Seq<char>)
    ensures
        offspring(tree, seq![b]) == tree.children(b),
{
    let one = seq![b];
    assert(one.drop_last() =~= seq![]);
    assert(one.last() == b);
    assert(offspring(tree, one.drop_last()) =~= seq![]);
    assert(offspring(tree, one) =~= tree.children(b));
}

proof fn lemma_generation_one(rung: Rung, depth: nat)
    ensures
        tree::generation(seq![rung], depth) == (if rung.lasts.len() == depth {
            seq![rung.branch]
        } else {
            seq![]
        }),
{
    let one = seq![rung];
    assert(one.drop_last() =~= seq![]);
    assert(one.last() == rung);
    assert(tree::generation(one.drop_last(), depth) =~= seq![]);
    assert(seq![] =~= Seq::<Seq<char>>::empty());
    assert(Seq::<Seq<char>>::empty().push(rung.branch) =~= seq![rung.branch]);
}

/// Whether the way down from `children` meets no branch of `way` and runs in no circle.
spec fn open_below(tree: Tree, way: Set<Seq<char>>, children: Seq<Seq<char>>) -> bool {
    &&& forall|c: Seq<char>, b: Seq<char>, n: nat|
        children.contains(c) && #[trigger] tree.leads(c, b, n) ==> !way.contains(b)
    &&& forall|c: Seq<char>, b: Seq<char>, n: nat, m: nat|
        children.contains(c) && #[trigger] tree.leads(c, b, n) && m > 0 ==> !#[trigger] tree.leads(
            b,
            b,
            m,
        )
}

proof fn lemma_open_child(tree: Tree, way: Set<Seq<char>>, children: Seq<Seq<char>>, child: Seq<char>)
    requires
        open_below(tree, way, children),
        children.contains(child),
    ensures
        open_below(tree, way.insert(child), tree.children(child)),
        !way.contains(child),
{
    let own = tree.children(child);
    assert(tree.leads(child, child, 0));
    assert forall|c: Seq<char>, b: Seq<char>, n: nat|
        own.contains(c) && #[trigger] tree.leads(c, b, n) implies !way.insert(child).contains(b) by {
        tree::lemma_leads_on(tree, child, c, b, n);
        if b == child {
            assert(tree.leads(child, child, n + 1));
        }
    }
    assert forall|c: Seq<char>, b: Seq<char>, n: nat, m: nat|
        own.contains(c) && #[trigger] tree.leads(c, b, n) && m > 0 implies !#[trigger] tree.leads(
        b,
        b,
        m,
    ) by {
        tree::lemma_leads_on(tree, child, c, b, n);
    }
}

/// Where nothing is passed over, the first generation of a forest are the children, and the next
/// generation are the children of the one before it.
proof fn lemma_bred(
    tree: Tree,
    way: Set<Seq<char>>,
    children: Seq<Seq<char>>,
    k: nat,
    lasts: Seq<bool>,
    depth: nat,
)
    requires
        tree.nodes.dom().finite(),
        open_below(tree, way, children),
        k <= children.len(),
        lasts.len() < depth,
    ensures
        tree::generation(tree.forest(way, children, k, lasts), lasts.len() + 1) == children.take(
            k as int,
        ),
        tree::generation(tree.forest(way, children, k, lasts), depth + 1) == offspring(
            tree,
            tree::generation(tree.forest(way, children, k, lasts), depth),
        ),
    decreases tree.nodes.dom().difference(way).len(), k,
{
    let all = tree.forest(way, children, k, lasts);
    let first = lasts.len() + 1;
    if k == 0 {
        assert(children.take(0) =~= seq![]);
        assert(all =~= seq![]);
    } else {
        let front = tree.forest(way, children, (k - 1) as nat, lasts);
        let child = children[k - 1];
        let mine = lasts.push(k == children.len());
        let own = tree.children(child);
        let rung = Rung { lasts: mine, branch: child };
        lemma_bred(tree, way, children, (k - 1) as nat, lasts, depth);
        assert(children.contains(child));
        lemma_open_child(tree, way, children, child);
        let below = tree.outline_below(way, child, mine);
        assert(below == tree.forest(way.insert(child), own, own.len(), mine));
        assert(all =~= (front + seq![rung]) + below);
        lemma_generation_one(rung, first);
        lemma_generation_one(rung, depth);
        lemma_generation_one(rung, depth + 1);
        lemma_depths(tree, way.insert(child), own, own.len(), mine);
        if tree.nodes.contains_key(child) {
            tree::lemma_way_grows(tree, way, child);
            if depth > mine.len() {
                lemma_bred(tree, way.insert(child), own, own.len(), mine, depth);
            } else {
                lemma_bred(tree, way.insert(child), own, own.len(), mine, mine.len() + 1);
            }
            assert(own.take(own.len() as int) =~= own);
        } else {
            assert(below =~= seq![]);
        }
        lemma_none_above(below, mine.len(), first);
        lemma_generation_add(front + seq![rung], below, first);
        lemma_generation_add(front, seq![rung], first);
        assert(tree::generation(all, first) =~= children.take(k as int));
        lemma_generation_add(front + seq![rung], below, depth);
        lemma_generation_add(front, seq![rung], depth);
        lemma_generation_add(front + seq![rung], below, depth + 1);
        lemma_generation_add(front, seq![rung], depth + 1);
        let g = tree::generation(front, depth);
        let r = tree::generation(seq![rung], depth);
        let h = tree::generation(below, depth);
        lemma_offspring_add(tree, g + r, h);
        lemma_offspring_add(tree, g, r);
        if depth == first {
            lemma_offspring_one(tree, child);
            lemma_none_above(below, mine.len(), depth);
            assert(offspring(tree, h) =~= seq![]);
            assert(tree::generation(below, depth + 1) =~= own);
        } else {
            assert(offspring(tree, r) =~= seq![]);
        }
        assert(tree::generation(all, depth + 1) =~= offspring(tree, tree::generation(all, depth)));
    }
}

proof fn lemma_none_above(outline: Seq<Rung>, depth: nat, above: nat)
    requires
        above <= depth,
        forall|i: int| 0 <= i < outline.len() ==> depth < (#[trigger] outline[i]).lasts.len(),
    ensures
        tree::generation(outline, above) == Seq::<Seq<char>>::empty(),
    decreases outline.len(),
{
    if outline.len() > 0 {
        let front = outline.drop_last();
        assert forall|i: int| 0 <= i < front.len() implies depth < (
        #[trigger] front[i]).lasts.len() by {
            assert(outline[i] == front[i]);
        }
        assert(outline[outline.len() - 1] == outline.last());
        lemma_none_above(front, depth, above);
    }
}

/// Where no circle can be met below `from`, the first generation are its children, and each further
/// generation are the children of the one before it, family by family. With the generation after
/// the last of them nothing is left.
pub proof fn law_generations(tree: Tree, from: Seq<char>, depth: nat)
    requires
        tree.nodes.dom().finite(),
        forall|b: Seq<char>, n: nat, m: nat| #[trigger]
            tree.leads(from, b, n) && m > 0 ==> !#[trigger] tree.leads(b, b, m),
        1 <= depth,
    ensures
        ({
            let outline = tree.outline_below(Set::empty(), from, seq![]);
            &&& tree::generation(outline, 1) == tree.children(from)
            &&& tree::generation(outline, depth + 1) == offspring(
                tree,
                tree::generation(outline, depth),
            )
            &&& depth > outline.len() ==> tree::generation(outline, depth).len() == 0
        }),
{
    let children = tree.children(from);
    let way = Set::<Seq<char>>::empty().insert(from);
    let none = Seq::<bool>::empty();
    let outline = tree.forest(way, children, children.len(), none);
    assert(tree.leads(from, from, 0));
    assert(open_below(tree, way, children)) by {
        assert forall|c: Seq<char>, b: Seq<char>, n: nat|
            children.contains(c) && #[trigger] tree.leads(c, b, n) implies !way.contains(b) by {
            tree::lemma_leads_on(tree, from, c, b, n);
        }
        assert forall|c: Seq<char>, b: Seq<char>, n: nat, m: nat|
            children.contains(c) && #[trigger] tree.leads(c, b, n) && m > 0 implies !#[trigger] tree.leads(
            b,
            b,
            m,
        ) by {
            tree::lemma_leads_on(tree, from, c, b, n);
        }
    }
    lemma_bred(tree, way, children, children.len(), none, depth);
    assert(children.take(children.len() as int) =~= children);
    if depth > outline.len() {
        lemma_depths(tree, way, children, children.len(), none);
        let last = tree::generation(outline, depth);
        if last.len() > 0 {
            lemma_generation(outline, depth, last[0]);
            assert(last.contains(last[0]));
            let i = choose|i: int| rung_at(outline, last[0], depth, i);
            assert(outline[i].lasts.len() <= 1 + i);
        }
    }
}

} // verus!
