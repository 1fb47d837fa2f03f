//! Trees that differ in nothing but the parents that branches were taken from.

use vstd::prelude::*;

use crate::branch_map;
use crate::order;
use crate::tree;
use crate::tree::Tree;

verus! {

/// Whether two trees have the same root and the same nodes, apart from the original parents.
pub open spec fn alike(left: Tree, right: Tree) -> bool {
    &&& left.root == right.root
    &&& left.nodes.dom() == right.nodes.dom()
    &&& forall|b: Seq<char>| #[trigger]
        left.nodes.contains_key(b) ==> left.nodes[b].branch == right.nodes[b].branch
            && left.nodes[b].path == right.nodes[b].path && left.nodes[b].parent
            == right.nodes[b].parent && left.nodes[b].children == right.nodes[b].children
}

proof fn lemma_same_nodes(left: Tree, right: Tree, b: Seq<char>)
    requires
        alike(left, right),
    ensures
        left.nodes.contains_key(b) == right.nodes.contains_key(b),
        left.children(b) == right.children(b),
{
    assert(left.nodes.dom().contains(b) == right.nodes.dom().contains(b));
}

proof fn lemma_same_forest(
    left: Tree,
    right: Tree,
    way: Set<Seq<char>>,
    children: Seq<Seq<char>>,
    k: nat,
    lasts: Seq<bool>,
)
    requires
        alike(left, right),
        left.nodes.dom().finite(),
    ensures
        left.forest(way, children, k, lasts) == right.forest(way, children, k, lasts),
    decreases left.nodes.dom().difference(way).len(), k,
{
    if 0 < k <= children.len() {
        let child = children[k - 1];
        lemma_same_forest(left, right, way, children, (k - 1) as nat, lasts);
        lemma_same_nodes(left, right, child);
        if !way.contains(child) && left.nodes.contains_key(child) {
            let own = left.nodes[child].children;
            tree::lemma_way_grows(left, way, child);
            lemma_same_forest(
                left,
                right,
                way.insert(child),
                own,
                own.len(),
                lasts.push(k == children.len()),
            );
        }
    }
}

proof fn lemma_same_outline(left: Tree, right: Tree, from: Seq<char>)
    requires
        alike(left, right),
        left.nodes.dom().finite(),
    ensures
        left.outline_below(Set::empty(), from, seq![]) == right.outline_below(
            Set::empty(),
            from,
            seq![],
        ),
{
    let children = left.children(from);
    lemma_same_nodes(left, right, from);
    lemma_same_forest(
        left,
        right,
        Set::empty().insert(from),
        children,
        children.len(),
        seq![],
    );
}

proof fn lemma_same_climb(left: Tree, right: Tree, current: Seq<char>, seen: Set<Seq<char>>)
    requires
        alike(left, right),
        left.nodes.dom().finite(),
    ensures
        left.climb(current, seen) == right.climb(current, seen),
    decreases left.labels().difference(seen).len(),
{
    lemma_same_nodes(left, right, current);
    if left.nodes.contains_key(current) && left.nodes[current].parent is Some {
        let parent = left.nodes[current].parent->0;
        lemma_same_nodes(left, right, parent);
        if left.nodes.contains_key(parent) {
            let next = left.nodes[parent].branch;
            if parent != left.root && !seen.contains(next) {
                tree::lemma_label_seen(left, parent, seen);
                lemma_same_climb(left, right, next, seen.insert(next));
            }
        }
    }
}

proof fn lemma_same_stack(left: Tree, right: Tree, branch: Seq<char>)
    requires
        alike(left, right),
        left.nodes.dom().finite(),
    ensures
        left.stack_containing(branch) == right.stack_containing(branch),
{
    lemma_same_nodes(left, right, branch);
    lemma_same_outline(left, right, left.root);
    if left.nodes.contains_key(branch) {
        let start = left.nodes[branch].branch;
        lemma_same_climb(left, right, start, set![start]);
        lemma_same_outline(left, right, left.climb(start, set![start])->0);
    }
}

proof fn lemma_same_names(left: Tree, right: Tree)
    requires
        alike(left, right),
        left.nodes.dom().finite(),
    ensures
        left.sorted_names() == right.sorted_names(),
{
    let listed = order::lemma_can_be_listed(left.nodes.dom());
    assert forall|name: Seq<char>| listed.contains(name) <==> #[trigger] left.nodes.contains_key(
        name,
    ) by {
        assert(listed.contains(name) <==> left.nodes.dom().contains(name));
    }
    assert forall|name: Seq<char>| listed.contains(name) <==> #[trigger] right.nodes.contains_key(
        name,
    ) by {
        lemma_same_nodes(left, right, name);
        assert(listed.contains(name) <==> left.nodes.contains_key(name));
    }
    assert(order::in_order(listed) && branch_map::lists_names(listed, left.nodes));
    assert(order::in_order(listed) && branch_map::lists_names(listed, right.nodes));
    let one = left.sorted_names();
    let other = right.sorted_names();
    assert forall|name: Seq<char>| one.contains(name) <==> other.contains(name) by {
        lemma_same_nodes(left, right, name);
        assert(one.contains(name) <==> left.nodes.contains_key(name));
        assert(other.contains(name) <==> right.nodes.contains_key(name));
    }
    order::law_one_order(one, other);
}

proof fn lemma_same_gathered(left: Tree, right: Tree, names: Seq<Seq<char>>, k: nat)
    requires
        alike(left, right),
        left.nodes.dom().finite(),
    ensures
        left.gathered(names, k) == right.gathered(names, k),
    decreases k,
{
    lemma_same_outline(left, right, left.root);
    if 0 < k <= names.len() {
        lemma_same_gathered(left, right, names, (k - 1) as nat);
        lemma_same_stack(left, right, names[k - 1]);
    }
}

/// Trees that are alike are walked alike: they have the same topological order, the same order of
/// all branches and the same stacks.
pub proof fn law_alike_walks(left: Tree, right: Tree, branch: Seq<char>)
    requires
        alike(left, right),
        left.nodes.dom().finite(),
    ensures
        left.outline() == right.outline(),
        left.topological_order() == right.topological_order(),
        left.sync_order() == right.sync_order(),
        left.stack_containing(branch) == right.stack_containing(branch),
{
    lemma_same_outline(left, right, left.root);
    lemma_same_names(left, right);
    lemma_same_gathered(left, right, left.sorted_names(), left.sorted_names().len());
    lemma_same_stack(left, right, branch);
}

} // verus!
