//! The dependency tree of branches and the orders in which it is walked.

use std::path::PathBuf;

use vstd::prelude::*;

use crate::branch_map;
use crate::branch_map::BranchMap;
use crate::order;
use crate::text;

verus! {

/// `std::path::PathBuf`, carried without being looked into.
#[verifier::external_type_specification]
#[verifier::external_body]
pub struct ExPathBuf(std::path::PathBuf);

/// `PathBuf::clone` gives a path equal to the one cloned.
pub assume_specification[ <std::path::PathBuf as Clone>::clone ](path: &std::path::PathBuf) -> (copy:
    std::path::PathBuf)
    ensures
        copy == *path,
;

/// A node in the dependency tree.
#[derive(Debug)]
pub struct TreeNode {
    pub branch: String,
    pub path: PathBuf,
    pub parent: Option<String>,
    /// If this branch was reparented because its original parent was integrated,
    /// this holds the original parent branch name (for `rebase --onto`).
    pub original_parent: Option<String>,
    pub children: Vec<String>,
}

/// The full dependency tree for sync operations.
#[derive(Debug)]
pub struct DependencyTree {
    /// The root branch (default branch).
    pub root: String,
    /// All nodes indexed by branch name.
    pub nodes: BranchMap<TreeNode>,
}

/// What a `TreeNode` says.
pub struct Node {
    pub branch: Seq<char>,
    pub path: PathBuf,
    pub parent: Option<Seq<char>>,
    pub original_parent: Option<Seq<char>>,
    pub children: Seq<Seq<char>>,
}

/// What a `DependencyTree` says.
pub struct Tree {
    pub root: Seq<char>,
    pub nodes: Map<Seq<char>, Node>,
}

/// The text of an optional string.
pub open spec fn optional_text(value: Option<String>) -> Option<Seq<char>> {
    match value {
        Some(found) => Some(found@),
        None => None,
    }
}

/// The texts of a sequence of string slices.
pub open spec fn slice_texts(slices: Seq<&str>) -> Seq<Seq<char>> {
    Seq::new(slices.len(), |i: int| slices[i]@)
}

impl View for TreeNode {
    type V = Node;

    open spec fn view(&self) -> Node {
        Node {
            branch: self.branch@,
            path: self.path,
            parent: optional_text(self.parent),
            original_parent: optional_text(self.original_parent),
            children: text::texts(self.children@),
        }
    }
}

impl View for DependencyTree {
    type V = Tree;

    open spec fn view(&self) -> Tree {
        Tree { root: self.root@, nodes: self.nodes@.map_values(|node: TreeNode| node@) }
    }
}

/// A branch in an outline of the tree. For each step on the way to it, the first one below the
/// root, `lasts` says whether the step led to a last child.
pub struct Rung {
    pub lasts: Seq<bool>,
    pub branch: Seq<char>,
}

/// `front`, followed by those of `more` that it does not hold, each once.
pub open spec fn with_more(front: Seq<Seq<char>>, more: Seq<Seq<char>>) -> Seq<Seq<char>>
    decreases more.len(),
{
    if more.len() == 0 {
        front
    } else {
        let longer = with_more(front, more.drop_last());
        if longer.contains(more.last()) {
            longer
        } else {
            longer.push(more.last())
        }
    }
}

/// The branches of `outline`.
pub open spec fn rung_branches(outline: Seq<Rung>) -> Seq<Seq<char>> {
    Seq::new(outline.len(), |i: int| outline[i].branch)
}

/// How many steps down the branches of `outline` stand.
pub open spec fn rung_depths(outline: Seq<Rung>) -> Seq<nat> {
    Seq::new(outline.len(), |i: int| outline[i].lasts.len())
}

/// The branches of `outline` that stand `depth` steps down, in order.
pub open spec fn generation(outline: Seq<Rung>, depth: nat) -> Seq<Seq<char>>
    decreases outline.len(),
{
    if outline.len() == 0 {
        seq![]
    } else if outline.last().lasts.len() == depth {
        generation(outline.drop_last(), depth).push(outline.last().branch)
    } else {
        generation(outline.drop_last(), depth)
    }
}

/// The branches of `outline` that stand from one to `k` steps down, one generation after the
/// other.
pub open spec fn generations(outline: Seq<Rung>, k: nat) -> Seq<Seq<char>>
    decreases k,
{
    if k == 0 {
        seq![]
    } else {
        generations(outline, (k - 1) as nat) + generation(outline, k)
    }
}

impl Tree {
    /// The outline of the first `k` of `children` and of all below them, each branch before its
    /// own children. A branch already on the `way` is passed over.
    pub open spec fn forest(
        self,
        way: Set<Seq<char>>,
        children: Seq<Seq<char>>,
        k: nat,
        lasts: Seq<bool>,
    ) -> Seq<Rung>
        decreases self.nodes.dom().difference(way).len(), k,
    {
        if k == 0 || k > children.len() {
            seq![]
        } else {
            let front = self.forest(way, children, (k - 1) as nat, lasts);
            let child = children[k - 1];
            let mine = lasts.push(k == children.len());
            if way.contains(child) {
                front
            } else if !self.nodes.contains_key(child) || !self.nodes.dom().finite() {
                front.push(Rung { lasts: mine, branch: child })
            } else {
                proof {
                    lemma_way_grows(self, way, child);
                }
                front.push(Rung { lasts: mine, branch: child }) + self.forest(
                    way.insert(child),
                    self.nodes[child].children,
                    self.nodes[child].children.len(),
                    mine,
                )
            }
        }
    }

    /// The outline of all below `branch`, where `way` are the branches above it.
    pub open spec fn outline_below(
        self,
        way: Set<Seq<char>>,
        branch: Seq<char>,
        lasts: Seq<bool>,
    ) -> Seq<Rung> {
        self.forest(
            way.insert(branch),
            self.children(branch),
            self.children(branch).len(),
            lasts,
        )
    }

    /// The outline of the tree, without its root.
    pub open spec fn outline(self) -> Seq<Rung> {
        self.outline_below(Set::empty(), self.root, seq![])
    }

    /// The children of `branch`; none if the tree has no such node.
    pub open spec fn children(self, branch: Seq<char>) -> Seq<Seq<char>> {
        if self.nodes.contains_key(branch) {
            self.nodes[branch].children
        } else {
            seq![]
        }
    }

    /// All branches below `from`, each followed at once by those below it.
    pub open spec fn descendants(self, from: Seq<char>) -> Seq<Seq<char>> {
        rung_branches(self.outline_below(Set::empty(), from, seq![]))
    }

    /// All branches below `from`, one generation after the other.
    pub open spec fn by_generation(self, from: Seq<char>) -> Seq<Seq<char>> {
        let outline = self.outline_below(Set::empty(), from, seq![]);
        generations(outline, outline.len())
    }

    /// The branches below the root, each followed at once by those below it.
    pub open spec fn topological_order(self) -> Seq<Seq<char>> {
        self.descendants(self.root)
    }

    /// The first `k` of `children`, each followed at once by all below it.
    pub open spec fn families(self, children: Seq<Seq<char>>, k: nat) -> Seq<Seq<char>>
        decreases k,
    {
        if k == 0 || k > children.len() {
            seq![]
        } else {
            self.families(children, (k - 1) as nat).push(children[k - 1]) + self.descendants(
                children[k - 1],
            )
        }
    }

    /// Whether `n` steps from parents to children lead from `a` to `b`.
    pub open spec fn leads(self, a: Seq<char>, b: Seq<char>, n: nat) -> bool
        decreases n,
    {
        if n == 0 {
            a == b
        } else {
            exists|mid: Seq<char>|
                self.leads(a, mid, (n - 1) as nat) && #[trigger] self.children(mid).contains(b)
        }
    }

    /// The names that the nodes bear.
    pub open spec fn labels(self) -> Set<Seq<char>> {
        self.nodes.dom().map(|key: Seq<char>| self.nodes[key].branch)
    }

    /// Where the climb from `current` towards the root ends: at a child of the root, at a branch
    /// whose parent has no node, at one without a parent, or before a branch that was already
    /// `seen`. There is no end where `current` itself has no node.
    pub open spec fn climb(self, current: Seq<char>, seen: Set<Seq<char>>) -> Option<Seq<char>>
        decreases self.labels().difference(seen).len(),
    {
        if !self.nodes.contains_key(current) {
            None
        } else {
            match self.nodes[current].parent {
                None => Some(current),
                Some(parent) => {
                    let next = self.nodes[parent].branch;
                    if parent == self.root || !self.nodes.contains_key(parent) || seen.contains(next)
                        || !self.nodes.dom().finite() {
                        Some(current)
                    } else {
                        proof {
                            lemma_label_seen(self, parent, seen);
                        }
                        self.climb(next, seen.insert(next))
                    }
                },
            }
        }
    }

    /// The top of the stack that holds `branch`, if the tree has it.
    pub open spec fn stack_top(self, branch: Seq<char>) -> Option<Seq<char>> {
        if self.nodes.contains_key(branch) {
            let start = self.nodes[branch].branch;
            self.climb(start, set![start])
        } else {
            None
        }
    }

    /// The stack that holds `branch`: its top and all that is below, one generation after the
    /// other; for the root, the topological order.
    pub open spec fn stack_containing(self, branch: Seq<char>) -> Seq<Seq<char>> {
        match self.stack_top(branch) {
            None => seq![],
            Some(top) => if top == self.root {
                self.topological_order()
            } else {
                seq![top] + self.by_generation(top)
            },
        }
    }

    /// The names of the nodes, in order.
    pub open spec fn sorted_names(self) -> Seq<Seq<char>> {
        choose|names: Seq<Seq<char>>| #[trigger]
            order::in_order(names) && branch_map::lists_names(names, self.nodes)
    }

    /// The branches below the root, followed by the stacks of those of the first `k` of `names`
    /// that are not yet among them.
    pub open spec fn gathered(self, names: Seq<Seq<char>>, k: nat) -> Seq<Seq<char>>
        decreases k,
    {
        if k == 0 || k > names.len() {
            self.topological_order()
        } else {
            let front = self.gathered(names, (k - 1) as nat);
            let name = names[k - 1];
            if name == self.root || front.contains(name) {
                front
            } else {
                with_more(front, self.stack_containing(name))
            }
        }
    }

    /// All branches but the root: those below the root, then, stack by stack, those that do not
    /// hang below it because a parent has no node or parents run in a circle.
    pub open spec fn sync_order(self) -> Seq<Seq<char>> {
        self.gathered(self.sorted_names(), self.sorted_names().len())
    }
}

/// A node that joins the way leaves fewer nodes off it.
pub proof fn lemma_way_grows(tree: Tree, way: Set<Seq<char>>, branch: Seq<char>)
    requires
        tree.nodes.dom().finite(),
        tree.nodes.contains_key(branch),
        !way.contains(branch),
    ensures
        tree.nodes.dom().difference(way.insert(branch)).len() < tree.nodes.dom().difference(
            way,
        ).len(),
{
    let left = tree.nodes.dom().difference(way);
    assert(tree.nodes.dom().difference(way.insert(branch)) =~= left.remove(branch));
}

pub proof fn lemma_to_set_push(names: Seq<Seq<char>>, name: Seq<char>)
    ensures
        names.push(name).to_set() =~= names.to_set().insert(name),
{
    let longer = names.push(name);
    assert forall|x: Seq<char>| #[trigger] names.to_set().insert(name).contains(x) implies longer.to_set().contains(x) by {
        if x == name {
            assert(longer[names.len() as int] == name);
        } else {
            let i = choose|i: int| 0 <= i < names.len() && names[i] == x;
            assert(longer[i] == x);
        }
    }
}

pub proof fn lemma_leads_on(tree: Tree, a: Seq<char>, mid: Seq<char>, b: Seq<char>, n: nat)
    requires
        tree.children(a).contains(mid),
        tree.leads(mid, b, n),
    ensures
        tree.leads(a, b, n + 1),
    decreases n,
{
    if n == 0 {
        assert(tree.leads(a, a, 0));
    } else {
        let last = choose|last: Seq<char>|
            tree.leads(mid, last, (n - 1) as nat) && #[trigger] tree.children(last).contains(b);
        lemma_leads_on(tree, a, mid, last, (n - 1) as nat);
    }
}

/// Ways that agree on all that can be met give the same outline.
pub proof fn lemma_guards_agree(
    tree: Tree,
    one: Set<Seq<char>>,
    other: Set<Seq<char>>,
    children: Seq<Seq<char>>,
    k: nat,
    lasts: Seq<bool>,
)
    requires
        tree.nodes.dom().finite(),
        forall|c: Seq<char>, b: Seq<char>, n: nat|
            children.contains(c) && #[trigger] tree.leads(c, b, n) ==> one.contains(b)
                == other.contains(b),
    ensures
        tree.forest(one, children, k, lasts) == tree.forest(other, children, k, lasts),
    decreases tree.nodes.dom().difference(one).len(), k,
{
    if 0 < k <= children.len() {
        let child = children[k - 1];
        lemma_guards_agree(tree, one, other, children, (k - 1) as nat, lasts);
        assert(children.contains(child));
        assert(tree.leads(child, child, 0));
        if !one.contains(child) && tree.nodes.contains_key(child) {
            let below = tree.nodes[child].children;
            assert(below == tree.children(child));
            assert forall|c: Seq<char>, b: Seq<char>, n: nat|
                below.contains(c) && #[trigger] tree.leads(c, b, n) implies one.insert(
                child,
            ).contains(b) == other.insert(child).contains(b) by {
                lemma_leads_on(tree, child, c, b, n);
            }
            lemma_way_grows(tree, one, child);
            lemma_guards_agree(
                tree,
                one.insert(child),
                other.insert(child),
                below,
                below.len(),
                lasts.push(k == children.len()),
            );
        }
    }
}

/// Which branches an outline lists does not depend on where it begins.
proof fn lemma_any_lasts(
    tree: Tree,
    way: Set<Seq<char>>,
    children: Seq<Seq<char>>,
    k: nat,
    left: Seq<bool>,
    right: Seq<bool>,
)
    requires
        tree.nodes.dom().finite(),
    ensures
        rung_branches(tree.forest(way, children, k, left)) == rung_branches(
            tree.forest(way, children, k, right),
        ),
    decreases tree.nodes.dom().difference(way).len(), k,
{
    let l = tree.forest(way, children, k, left);
    let r = tree.forest(way, children, k, right);
    if 0 < k <= children.len() {
        let child = children[k - 1];
        let last = k == children.len();
        let lf = tree.forest(way, children, (k - 1) as nat, left);
        let rf = tree.forest(way, children, (k - 1) as nat, right);
        lemma_any_lasts(tree, way, children, (k - 1) as nat, left, right);
        if !way.contains(child) {
            let ln = lf.push(Rung { lasts: left.push(last), branch: child });
            let rn = rf.push(Rung { lasts: right.push(last), branch: child });
            lemma_branches_push(lf, Rung { lasts: left.push(last), branch: child });
            lemma_branches_push(rf, Rung { lasts: right.push(last), branch: child });
            if tree.nodes.contains_key(child) {
                let below = tree.nodes[child].children;
                lemma_way_grows(tree, way, child);
                lemma_any_lasts(
                    tree,
                    way.insert(child),
                    below,
                    below.len(),
                    left.push(last),
                    right.push(last),
                );
                lemma_branches_add(
                    ln,
                    tree.forest(way.insert(child), below, below.len(), left.push(last)),
                );
                lemma_branches_add(
                    rn,
                    tree.forest(way.insert(child), below, below.len(), right.push(last)),
                );
            }
        }
    }
}

/// One more rung is one more branch.
pub proof fn lemma_branches_push(outline: Seq<Rung>, rung: Rung)
    ensures
        rung_branches(outline.push(rung)) == rung_branches(outline).push(rung.branch),
{
    assert(rung_branches(outline.push(rung)) =~= rung_branches(outline).push(rung.branch));
}

/// The branches of two outlines are those of the one behind those of the other.
pub proof fn lemma_branches_add(left: Seq<Rung>, right: Seq<Rung>)
    ensures
        rung_branches(left + right) == rung_branches(left) + rung_branches(right),
{
    assert(rung_branches(left + right) =~= rung_branches(left) + rung_branches(right));
}

proof fn lemma_families(tree: Tree, from: Seq<char>, k: nat)
    requires
        tree.nodes.dom().finite(),
        forall|n: nat| n > 0 ==> !#[trigger] tree.leads(from, from, n),
        k <= tree.children(from).len(),
    ensures
        rung_branches(tree.forest(set![from], tree.children(from), k, seq![])) == tree.families(
            tree.children(from),
            k,
        ),
    decreases k,
{
    let children = tree.children(from);
    if k == 0 {
        assert(rung_branches(tree.forest(set![from], children, 0, seq![])) =~= seq![]);
    } else {
        let child = children[k - 1];
        let mine = Seq::<bool>::empty().push(k == children.len());
        let front = tree.forest(set![from], children, (k - 1) as nat, seq![]);
        lemma_families(tree, from, (k - 1) as nat);
        assert(children.contains(child));
        assert(tree.leads(child, child, 0));
        lemma_leads_on(tree, from, child, child, 0);
        assert(child != from);
        let own = front.push(Rung { lasts: mine, branch: child });
        lemma_branches_push(front, Rung { lasts: mine, branch: child });
        let below = tree.children(child);
        if tree.nodes.contains_key(child) {
            let wide = set![from].insert(child);
            let narrow = Set::<Seq<char>>::empty().insert(child);
            assert forall|c: Seq<char>, b: Seq<char>, n: nat|
                below.contains(c) && #[trigger] tree.leads(c, b, n) implies wide.contains(b)
                == narrow.contains(b) by {
                lemma_leads_on(tree, child, c, b, n);
                lemma_leads_on(tree, from, child, b, n + 1);
                if b == from {
                    assert(tree.leads(from, from, n + 2));
                }
            }
            lemma_guards_agree(tree, wide, narrow, below, below.len(), mine);
            lemma_any_lasts(tree, narrow, below, below.len(), mine, seq![]);
            lemma_branches_add(own, tree.forest(wide, below, below.len(), mine));
        } else {
            assert(tree.descendants(child) =~= seq![]);
            assert(tree.families(children, k) =~= rung_branches(own));
        }
    }
}

/// Where no circle leads back to `from`, what is below it are its children, each followed at once
/// by what is below that child.
pub proof fn law_walk_is_plain(tree: Tree, from: Seq<char>)
    requires
        tree.nodes.dom().finite(),
        forall|n: nat| n > 0 ==> !#[trigger] tree.leads(from, from, n),
    ensures
        tree.descendants(from) == tree.families(tree.children(from), tree.children(from).len()),
{
    assert(Set::<Seq<char>>::empty().insert(from) =~= set![from]);
    lemma_families(tree, from, tree.children(from).len());
}

/// `depths` as numbers.
pub open spec fn as_depths(depths: Seq<usize>) -> Seq<nat> {
    Seq::new(depths.len(), |i: int| depths[i] as nat)
}

/// Whether `name` is one of `names`.
pub fn listed(names: &Vec<&str>, name: &str) -> (found: bool)
    ensures
        found == slice_texts(names@).contains(name@),
{
    let mut i: usize = 0;
    while i < names.len()
        invariant
            i <= names@.len(),
            forall|j: int| 0 <= j < i ==> #[trigger] slice_texts(names@)[j] != name@,
        decreases names@.len() - i,
    {
        if text::same(names[i], name) {
            assert(slice_texts(names@)[i as int] == name@);
            return true;
        }
        i = i + 1;
    }
    false
}

impl DependencyTree {
    /// Adds the branches below `branch`, which the branches of `way` lead to, to `found`, and how
    /// many steps down they stand to `depths`.
    fn walk_below<'a>(
        &'a self,
        branch: &'a str,
        way: &mut Vec<&'a str>,
        found: &mut Vec<&'a str>,
        depths: &mut Vec<usize>,
        Ghost(lasts): Ghost<Seq<bool>>,
    )
        requires
            !slice_texts(old(way)@).contains(branch@),
            lasts.len() == old(way)@.len(),
        ensures
            final(way)@ == old(way)@,
            slice_texts(final(found)@) == slice_texts(old(found)@) + rung_branches(
                self@.outline_below(slice_texts(old(way)@).to_set(), branch@, lasts),
            ),
            as_depths(final(depths)@) == as_depths(old(depths)@) + rung_depths(
                self@.outline_below(slice_texts(old(way)@).to_set(), branch@, lasts),
            ),
        decreases self@.nodes.dom().difference(slice_texts(old(way)@).to_set()).len(),
    {
        let ghost model = self@;
        let ghost above = way@;
        let ghost outer = slice_texts(way@);
        let ghost inner = outer.push(branch@);
        let ghost inside = outer.to_set().insert(branch@);
        let ghost children = model.children(branch@);
        let ghost begun = slice_texts(found@);
        let ghost high = as_depths(depths@);
        // The map is finite.
        let _ = self.nodes.len();
        assert(model.nodes.dom() =~= self.nodes@.dom());
        if let Some(node) = self.nodes.get(branch) {
            assert(model.nodes[branch@] == node@);
            way.push(branch);
            proof {
                assert(slice_texts(way@) =~= inner);
                lemma_to_set_push(outer, branch@);
                assert(inner.to_set() =~= inside);
                lemma_way_grows(model, outer.to_set(), branch@);
                assert(rung_branches(model.forest(inside, children, 0, lasts)) =~= seq![]);
                assert(begun + Seq::<Seq<char>>::empty() =~= begun);
                assert(rung_depths(model.forest(inside, children, 0, lasts)) =~= seq![]);
                assert(high + Seq::<nat>::empty() =~= high);
            }
            let ghost pushed = way@;
            let mut i: usize = 0;
            while i < node.children.len()
                invariant
                    i <= node.children@.len(),
                    way@ == pushed,
                    model == self@,
                    slice_texts(pushed) == inner,
                    inner.to_set() == inside,
                    model.nodes.dom().finite(),
                    model.nodes.dom().difference(inside).len() < model.nodes.dom().difference(
                        outer.to_set(),
                    ).len(),
                    outer == slice_texts(above),
                    old(way)@ == above,
                    children == text::texts(node.children@),
                    lasts.len() + 1 == pushed.len(),
                    slice_texts(found@) == begun + rung_branches(
                        model.forest(inside, children, i as nat, lasts),
                    ),
                    as_depths(depths@) == high + rung_depths(
                        model.forest(inside, children, i as nat, lasts),
                    ),
                decreases node.children@.len() - i,
            {
                let child = node.children[i].as_str();
                let met = listed(way, child);
                assert(children[i as int] == child@);
                assert(inner.contains(child@) == inside.contains(child@));
                if !met {
                    let ghost mine = lasts.push(i + 1 == children.len());
                    let ghost front = model.forest(inside, children, i as nat, lasts);
                    let ghost rung = Rung { lasts: mine, branch: child@ };
                    let ghost held = slice_texts(found@);
                    let ghost heights = as_depths(depths@);
                    found.push(child);
                    depths.push(way.len());
                    proof {
                        assert(slice_texts(found@) =~= held.push(child@));
                        assert(as_depths(depths@) =~= heights.push(mine.len()));
                        lemma_branches_push(front, rung);
                    }
                    self.walk_below(child, way, found, depths, Ghost(mine));
                    proof {
                        let all = model.forest(inside, children, (i + 1) as nat, lasts);
                        let below = model.outline_below(inside, child@, mine);
                        if model.nodes.contains_key(child@) {
                            lemma_branches_add(front.push(rung), below);
                        } else {
                            assert(rung_branches(below) =~= seq![]);
                        }
                        assert(slice_texts(found@) =~= begun + rung_branches(all));
                        assert(as_depths(depths@) =~= high + rung_depths(all));
                    }
                }
                i = i + 1;
            }
            let _ = way.pop();
            assert(way@ =~= above);
        } else {
            assert(rung_branches(model.outline_below(outer.to_set(), branch@, lasts)) =~= seq![]);
            assert(slice_texts(found@) =~= begun + Seq::<Seq<char>>::empty());
            assert(rung_depths(model.outline_below(outer.to_set(), branch@, lasts)) =~= seq![]);
            assert(as_depths(depths@) =~= high + Seq::<nat>::empty());
        }
    }

    /// The branches below `from`, each followed at once by those below it, and how many steps
    /// down they stand.
    fn walk<'a>(&'a self, from: &'a str) -> (walked: (Vec<&'a str>, Vec<usize>))
        ensures
            slice_texts(walked.0@) == rung_branches(
                self@.outline_below(Set::empty(), from@, seq![]),
            ),
            as_depths(walked.1@) == rung_depths(self@.outline_below(Set::empty(), from@, seq![])),
    {
        let mut way: Vec<&'a str> = Vec::new();
        let mut found: Vec<&'a str> = Vec::new();
        let mut depths: Vec<usize> = Vec::new();
        let ghost none: Seq<bool> = seq![];
        let ghost outline = self@.outline_below(Set::empty(), from@, seq![]);
        proof {
            assert(slice_texts(way@) =~= seq![]);
            assert(slice_texts(way@).to_set() =~= Set::empty());
            assert(slice_texts(found@) =~= seq![]);
            assert(as_depths(depths@) =~= seq![]);
        }
        self.walk_below(from, &mut way, &mut found, &mut depths, Ghost(none));
        assert(slice_texts(found@) =~= rung_branches(outline));
        assert(as_depths(depths@) =~= rung_depths(outline));
        (found, depths)
    }

    /// The branches below `from`, one generation after the other.
    fn walk_by_generation<'a>(&'a self, from: &'a str) -> (below: Vec<&'a str>)
        ensures
            slice_texts(below@) == self@.by_generation(from@),
    {
        let ghost outline = self@.outline_below(Set::empty(), from@, seq![]);
        let (found, depths) = self.walk(from);
        let count: usize = found.len();
        let mut below: Vec<&'a str> = Vec::new();
        let mut depth: usize = 0;
        proof {
            assert(rung_branches(outline).len() == outline.len());
            assert(rung_depths(outline).len() == outline.len());
            assert(slice_texts(below@) =~= generations(outline, 0));
        }
        while depth < count
            invariant
                depth <= count,
                count == found@.len(),
                count == depths@.len(),
                count == outline.len(),
                slice_texts(found@) == rung_branches(outline),
                as_depths(depths@) == rung_depths(outline),
                slice_texts(below@) == generations(outline, depth as nat),
            decreases count - depth,
        {
            depth = depth + 1;
            let ghost begun = slice_texts(below@);
            let mut i: usize = 0;
            proof {
                assert(outline.take(0) =~= seq![]);
                assert(begun + generation(outline.take(0), depth as nat) =~= begun);
            }
            while i < count
                invariant
                    i <= count,
                    count == found@.len(),
                    count == depths@.len(),
                    count == outline.len(),
                    slice_texts(found@) == rung_branches(outline),
                    as_depths(depths@) == rung_depths(outline),
                    slice_texts(below@) == begun + generation(
                        outline.take(i as int),
                        depth as nat,
                    ),
                decreases count - i,
            {
                let ghost next = outline.take(i + 1);
                let ghost held = slice_texts(below@);
                proof {
                    assert(next.drop_last() =~= outline.take(i as int));
                    assert(next.last() == outline[i as int]);
                    assert(slice_texts(found@)[i as int] == outline[i as int].branch);
                    assert(as_depths(depths@)[i as int] == outline[i as int].lasts.len());
                }
                if depths[i] == depth {
                    below.push(found[i]);
                    assert(slice_texts(below@) =~= held.push(outline[i as int].branch));
                    assert(held.push(outline[i as int].branch) =~= begun + generation(
                        next,
                        depth as nat,
                    ));
                }
                i = i + 1;
            }
            assert(outline.take(i as int) =~= outline);
        }
        below
    }

    /// Return branches in topological order (parent before children), excluding the root.
    pub fn topological_order(&self) -> (order: Vec<&str>)
        ensures
            slice_texts(order@) == self@.topological_order(),
    {
        self.walk(self.root.as_str()).0
    }

    /// Get all branches in the stack containing the given branch.
    pub fn stack_containing(&self, branch: &str) -> (stack: Vec<&str>)
        ensures
            slice_texts(stack@) == self@.stack_containing(branch@),
    {
        let ghost tree = self@;
        // The map is finite.
        let _ = self.nodes.len();
        assert(tree.nodes.dom() =~= self.nodes@.dom());
        let start = match self.nodes.get(branch) {
            Some(node) => node,
            None => {
                return Vec::new();
            },
        };
        // Climb to the top of the stack (direct child of root). The names seen on the way guard
        // against circular parent chains.
        let mut current: &str = start.branch.as_str();
        let mut seen: Vec<&str> = Vec::new();
        seen.push(current);
        let ghost mut met = set![current@];
        let ghost goal = tree.climb(current@, met);
        assert(slice_texts(seen@)[0] == current@);
        proof {
            tree.nodes.dom().lemma_map_finite(|key: Seq<char>| tree.nodes[key].branch);
        }
        loop
            invariant_except_break
                tree == self@,
                tree.nodes.dom().finite(),
                tree.nodes.dom() == self.nodes@.dom(),
                goal == tree.stack_top(branch@),
                goal == tree.climb(current@, met),
                forall|name: Seq<char>| met.contains(name) <==> slice_texts(seen@).contains(name),
            ensures
                goal == Some(current@),
            decreases tree.labels().difference(met).len(),
        {
            let node = match self.nodes.get(current) {
                Some(node) => node,
                None => {
                    return Vec::new();
                },
            };
            assert(tree.nodes[current@] == node@);
            let parent = match &node.parent {
                Some(parent) => parent.as_str(),
                None => {
                    break;
                },
            };
            if text::same(parent, self.root.as_str()) {
                break;
            }
            let next = match self.nodes.get(parent) {
                Some(above) => above.branch.as_str(),
                None => {
                    break;
                },
            };
            assert(tree.nodes[parent@].branch == next@);
            if listed(&seen, next) {
                // Cycle detected: the branch counts as a direct child of the root.
                break;
            }
            let ghost before = slice_texts(seen@);
            seen.push(next);
            proof {
                lemma_label_seen(tree, parent@, met);
                met = met.insert(next@);
                let after = slice_texts(seen@);
                assert(after =~= before.push(next@));
                assert forall|name: Seq<char>| met.contains(name) <==> after.contains(name) by {
                    if before.contains(name) {
                        let i = choose|i: int| 0 <= i < before.len() && before[i] == name;
                        assert(after[i] == name);
                    }
                    assert(after[after.len() - 1] == next@);
                }
            }
            current = next;
        }
        if text::same(current, self.root.as_str()) {
            return self.topological_order();
        }
        let mut stack: Vec<&str> = Vec::new();
        stack.push(current);
        let mut below = self.walk_by_generation(current);
        let ghost first = stack@;
        let ghost rest = below@;
        stack.append(&mut below);
        assert(slice_texts(stack@) =~= seq![current@] + slice_texts(rest));
        stack
    }
}

/// Adds those of `more` to `list` that it does not hold.
fn add_missing<'a>(list: &mut Vec<&'a str>, more: &Vec<&'a str>)
    ensures
        slice_texts(final(list)@) == with_more(slice_texts(old(list)@), slice_texts(more@)),
{
    let ghost front = slice_texts(list@);
    let ghost all = slice_texts(more@);
    let mut i: usize = 0;
    assert(all.take(0) =~= seq![]);
    while i < more.len()
        invariant
            i <= more@.len(),
            all == slice_texts(more@),
            slice_texts(list@) == with_more(front, all.take(i as int)),
        decreases more@.len() - i,
    {
        let ghost next = all.take(i + 1);
        assert(next.drop_last() =~= all.take(i as int));
        assert(next.last() == more@[i as int]@);
        if !listed(list, more[i]) {
            let ghost held = slice_texts(list@);
            list.push(more[i]);
            assert(slice_texts(list@) =~= held.push(next.last()));
        }
        i = i + 1;
    }
    assert(all.take(i as int) =~= all);
}

impl DependencyTree {
    /// The names of the nodes, in order.
    fn sorted_names(&self) -> (names: Vec<String>)
        ensures
            text::texts(names@) == self@.sorted_names(),
    {
        let count: usize = self.nodes.len();
        let ghost all = self.nodes.names();
        let mut names: Vec<String> = Vec::new();
        let mut i: usize = 0;
        assert(all.take(0) =~= seq![]);
        while i < count
            invariant
                i <= count,
                count == self.nodes.names().len(),
                all == self.nodes.names(),
                branch_map::lists_names(all, self.nodes@),
                order::in_order(text::texts(names@)),
                text::texts(names@).no_duplicates(),
                forall|c: Seq<char>| #[trigger]
                    text::texts(names@).contains(c) <==> all.take(i as int).contains(c),
            decreases count - i,
        {
            let name = self.nodes.name_at(i);
            let ghost before = text::texts(names@);
            let ghost held = names@;
            order::insert_in_order(&mut names, name.clone());
            proof {
                let at = choose|at: int|
                    0 <= at <= held.len() && #[trigger] held.insert(at, *name) == names@;
                assert(text::texts(names@) =~= before.insert(at, name@));
                assert(!before.contains(name@)) by {
                    if before.contains(name@) {
                        let few = all.take(i as int);
                        assert(few.contains(name@));
                        let j = choose|j: int| 0 <= j < few.len() && few[j] == name@;
                        assert(all[j] != all[i as int]);
                    }
                }
                order::lemma_put_in(before, text::texts(names@), at, name@);
                assert forall|c: Seq<char>| #[trigger]
                    text::texts(names@).contains(c) <==> all.take(i + 1).contains(c) by {
                    order::lemma_take_more(all, i as int, c);
                    assert(text::texts(names@).contains(c) <==> before.contains(c) || c == name@);
                }
            }
            i = i + 1;
        }
        proof {
            let found = text::texts(names@);
            assert(all.take(count as int) =~= all);
            assert forall|name: Seq<char>| found.contains(name) <==> #[trigger]
                self@.nodes.contains_key(name) by {
                assert(all.contains(name) <==> self.nodes@.contains_key(name));
            }
            assert(order::in_order(found) && branch_map::lists_names(found, self@.nodes));
            let chosen = self@.sorted_names();
            assert forall|name: Seq<char>| found.contains(name) <==> chosen.contains(name) by {
                assert(found.contains(name) <==> self@.nodes.contains_key(name));
                assert(chosen.contains(name) <==> self@.nodes.contains_key(name));
            }
            order::law_one_order(found, chosen);
        }
        names
    }

    /// All branches but the root: those below the root, then, stack by stack, those that do not
    /// hang below it.
    pub fn sync_order(&self) -> (order: Vec<&str>)
        ensures
            slice_texts(order@) == self@.sync_order(),
    {
        let names = self.sorted_names();
        let ghost all = text::texts(names@);
        let mut found = self.topological_order();
        let mut i: usize = 0;
        while i < names.len()
            invariant
                i <= names@.len(),
                all == text::texts(names@),
                slice_texts(found@) == self@.gathered(all, i as nat),
            decreases names@.len() - i,
        {
            let name = names[i].as_str();
            assert(all[i as int] == name@);
            if !text::same(name, self.root.as_str()) && !listed(&found, name) {
                let stack = self.stack_containing(name);
                add_missing(&mut found, &stack);
            }
            i = i + 1;
        }
        found
    }
}

/// Seeing one more label leaves fewer to see.
pub proof fn lemma_label_seen(tree: Tree, key: Seq<char>, seen: Set<Seq<char>>)
    requires
        tree.nodes.dom().finite(),
        tree.nodes.contains_key(key),
        !seen.contains(tree.nodes[key].branch),
    ensures
        tree.labels().difference(seen.insert(tree.nodes[key].branch)).len()
            < tree.labels().difference(seen).len(),
{
    let label = tree.nodes[key].branch;
    let left = tree.labels().difference(seen);
    tree.nodes.dom().lemma_map_finite(|key: Seq<char>| tree.nodes[key].branch);
    assert(tree.labels().contains(label));
    assert(tree.labels().difference(seen.insert(label)) =~= left.remove(label));
}

} // verus!
