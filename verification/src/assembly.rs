//! From parents to the tree.

use std::path::PathBuf;

use vstd::prelude::*;

use crate::branch_map;
use crate::branch_map::BranchMap;
use crate::ground;
use crate::ground::{Checkout, Ground, Spot};
use crate::order;
use crate::text;
use crate::tree;
use crate::tree::{DependencyTree, Node, Tree, TreeNode};

verus! {

/// Whether `tree` is what grows on `ground`, given the integrated branches and the parents found
/// for the others: the default branch at the root, every branch that takes part at its spot, and
/// below each branch those whose parent it is, in order.
pub open spec fn grown(
    tree: Tree,
    ground: Ground,
    integrated: Map<Seq<char>, PathBuf>,
    parents: Map<Seq<char>, Seq<char>>,
) -> bool {
    let n = ground.sites.len() as int;
    &&& tree.root == ground.root
    &&& tree.wired()
    &&& forall|b: Seq<char>| #[trigger]
        tree.nodes.contains_key(b) <==> ground.takes_part(integrated, b, n)
    &&& forall|b: Seq<char>| #[trigger]
        tree.nodes.contains_key(b) ==> stands_at(
            tree.nodes[b],
            ground.spot(integrated, parents, b, n),
        ) && order::in_order(tree.nodes[b].children)
}

/// Whether `node` stands at `spot`.
pub open spec fn stands_at(node: Node, spot: Spot) -> bool {
    &&& node.path == spot.path
    &&& node.parent == spot.parent
    &&& node.original_parent == spot.original_parent
}

/// Only one tree grows from the same ground, integrated branches and parents.
pub proof fn law_one_tree(
    left: Tree,
    right: Tree,
    ground: Ground,
    integrated: Map<Seq<char>, PathBuf>,
    parents: Map<Seq<char>, Seq<char>>,
)
    requires
        grown(left, ground, integrated, parents),
        grown(right, ground, integrated, parents),
    ensures
        left == right,
{
    assert(left.nodes.dom() =~= right.nodes.dom()) by {
        assert forall|b: Seq<char>|
            left.nodes.dom().contains(b) == right.nodes.dom().contains(b) by {
            assert(left.nodes.contains_key(b) <==> right.nodes.contains_key(b));
        }
    }
    let n = ground.sites.len() as int;
    assert forall|b: Seq<char>| left.nodes.contains_key(b) implies left.nodes[b]
        == right.nodes[b] by {
        assert(right.nodes.contains_key(b));
        assert forall|c: Seq<char>|
            left.nodes[b].children.contains(c) <==> right.nodes[b].children.contains(c) by {
            assert(left.nodes[b].children.contains(c) <==> left.child_of(c, b));
            assert(right.nodes[b].children.contains(c) <==> right.child_of(c, b));
            assert(left.nodes.contains_key(c) <==> right.nodes.contains_key(c));
        }
        order::law_one_order(left.nodes[b].children, right.nodes[b].children);
    }
    assert(left.nodes =~= right.nodes);
}

/// No node of a grown tree is integrated, nor is the parent of one.
pub proof fn law_no_integrated_parent(
    tree: Tree,
    ground: Ground,
    integrated: Map<Seq<char>, PathBuf>,
    parents: Map<Seq<char>, Seq<char>>,
)
    requires
        grown(tree, ground, integrated, parents),
        !integrated.contains_key(ground.root),
    ensures
        forall|b: Seq<char>| #[trigger]
            tree.nodes.contains_key(b) ==> !integrated.contains_key(b) && (tree.nodes[b].parent
                matches Some(parent) ==> !integrated.contains_key(parent)),
{
    assert forall|b: Seq<char>| #[trigger]
        tree.nodes.contains_key(b) implies !integrated.contains_key(b) && (tree.nodes[b].parent
        matches Some(parent) ==> !integrated.contains_key(parent)) by {
        let parent = if parents.contains_key(b) {
            parents[b]
        } else {
            ground.root
        };
        ground::law_heir_not_integrated(ground, integrated, parent);
    }
}

/// A branch that the tree has put elsewhere because its parent was integrated remembers that
/// parent, and only such a branch does.
pub proof fn law_original_parent(
    tree: Tree,
    ground: Ground,
    integrated: Map<Seq<char>, PathBuf>,
    parents: Map<Seq<char>, Seq<char>>,
    branch: Seq<char>,
)
    requires
        grown(tree, ground, integrated, parents),
        tree.nodes.contains_key(branch),
        branch != ground.root,
        parents.contains_key(branch),
    ensures
        integrated.contains_key(parents[branch]) ==> tree.nodes[branch].original_parent == Some(
            parents[branch],
        ) && tree.nodes[branch].parent == Some(ground.heir(integrated, parents[branch])),
        !integrated.contains_key(parents[branch]) ==> tree.nodes[branch].original_parent is None
            && tree.nodes[branch].parent == Some(parents[branch]),
{
}

/// Where a branch comes to stand.
struct Place {
    path: PathBuf,
    parent: Option<String>,
    original_parent: Option<String>,
}

impl Place {
    spec fn spot(&self) -> Spot {
        Spot {
            path: self.path,
            parent: tree::optional_text(self.parent),
            original_parent: tree::optional_text(self.original_parent),
        }
    }
}

/// The places of the branches that take part.
fn place_branches(
    root: &str,
    checkouts: &Vec<Checkout>,
    stated: &BranchMap<String>,
    integrated: &BranchMap<PathBuf>,
    parents: &BranchMap<String>,
) -> (places: BranchMap<Place>)
    requires
        ground::has_site(ground::sites(checkouts@), root@),
    ensures
        forall|target: Seq<char>|
            places_branches(
                places@,
                #[trigger] ground_of(root@, checkouts@, stated@, target),
                integrated@,
                branch_map::text_map(parents@),
                checkouts@.len() as int,
            ),
{
    let ghost sites = ground::sites(checkouts@);
    let ghost base = ground_of(root@, checkouts@, stated@, root@);
    let ghost known = branch_map::text_map(parents@);
    let mut places: BranchMap<Place> = BranchMap::new();
    let count: usize = checkouts.len();
    let mut first: usize = 0;
    proof {
        let at = choose|at: int| 0 <= at < sites.len() && (#[trigger] sites[at]).branch == root@;
        ground::lemma_last_and_first(sites, root@, sites.len() as int);
        assert(ground::first_site(sites, root@, sites.len() as int) >= 0);
    }
    while !text::same(checkouts[first].branch.as_str(), root)
        invariant
            sites == ground::sites(checkouts@),
            count == sites.len(),
            first <= ground::first_site(sites, root@, sites.len() as int) < sites.len(),
            sites[ground::first_site(sites, root@, sites.len() as int)].branch == root@,
        decreases sites.len() - first,
    {
        assert(sites[first as int].branch != root@);
        first = first + 1;
    }
    proof {
        assert(sites[first as int].branch == root@);
    }
    places.insert(
        root.to_owned(),
        Place { path: checkouts[first].path.clone(), parent: None, original_parent: None },
    );
    let mut i: usize = 0;
    while i < checkouts.len()
        invariant
            i <= checkouts@.len(),
            sites == ground::sites(checkouts@),
            base == ground_of(root@, checkouts@, stated@, root@),
            known == branch_map::text_map(parents@),
            places_branches(places@, base, integrated@, known, i as int),
        decreases checkouts@.len() - i,
    {
        let branch = &checkouts[i].branch;
        let ghost before = places@;
        assert(sites[i as int] == checkouts@[i as int]@);
        if !text::same(branch.as_str(), root) && !integrated.contains_key(branch.as_str()) {
            let parent = match parents.get(branch.as_str()) {
                Some(found) => found.clone(),
                None => root.to_owned(),
            };
            let place = if integrated.contains_key(parent.as_str()) {
                let heir = ground::find_heir(parent.as_str(), stated, integrated, root);
                Place {
                    path: checkouts[i].path.clone(),
                    parent: Some(heir),
                    original_parent: Some(parent),
                }
            } else {
                Place {
                    path: checkouts[i].path.clone(),
                    parent: Some(parent),
                    original_parent: None,
                }
            };
            assert(place.spot() == base.spot(integrated@, known, branch@, i + 1));
            places.insert(branch.clone(), place);
        }
        assert(places_branches(places@, base, integrated@, known, i + 1)) by {
            assert forall|b: Seq<char>| #[trigger]
                places@.contains_key(b) <==> base.takes_part(integrated@, b, i + 1) by {
                assert(before.contains_key(b) <==> base.takes_part(integrated@, b, i as int));
            }
            assert forall|b: Seq<char>| #[trigger] places@.contains_key(b) implies places@[b].spot()
                == base.spot(integrated@, known, b, i + 1) by {
                assert(before.contains_key(b) ==> before[b].spot() == base.spot(
                    integrated@,
                    known,
                    b,
                    i as int,
                ));
            }
        }
        i = i + 1;
    }
    proof {
        assert forall|target: Seq<char>|
            places_branches(
                places@,
                #[trigger] ground_of(root@, checkouts@, stated@, target),
                integrated@,
                known,
                checkouts@.len() as int,
            ) by {
            lemma_target_apart(root@, checkouts@, stated@, target, integrated@, known, places@);
        }
    }
    places
}

/// What the tree is built from.
pub open spec fn ground_of(
    root: Seq<char>,
    checkouts: Seq<Checkout>,
    stated: Map<Seq<char>, String>,
    target: Seq<char>,
) -> Ground {
    Ground {
        root,
        sites: ground::sites(checkouts),
        stated: branch_map::text_map(stated),
        target,
    }
}

spec fn places_branches(
    places: Map<Seq<char>, Place>,
    ground: Ground,
    integrated: Map<Seq<char>, PathBuf>,
    parents: Map<Seq<char>, Seq<char>>,
    k: int,
) -> bool {
    &&& forall|b: Seq<char>| #[trigger]
        places.contains_key(b) <==> ground.takes_part(integrated, b, k)
    &&& forall|b: Seq<char>| #[trigger]
        places.contains_key(b) ==> places[b].spot() == ground.spot(integrated, parents, b, k)
}

proof fn lemma_target_apart(
    root: Seq<char>,
    checkouts: Seq<Checkout>,
    stated: Map<Seq<char>, String>,
    target: Seq<char>,
    integrated: Map<Seq<char>, PathBuf>,
    parents: Map<Seq<char>, Seq<char>>,
    places: Map<Seq<char>, Place>,
)
    requires
        places_branches(
            places,
            ground_of(root, checkouts, stated, root),
            integrated,
            parents,
            checkouts.len() as int,
        ),
    ensures
        places_branches(
            places,
            ground_of(root, checkouts, stated, target),
            integrated,
            parents,
            checkouts.len() as int,
        ),
{
    let one = ground_of(root, checkouts, stated, root);
    let other = ground_of(root, checkouts, stated, target);
    let n = checkouts.len() as int;
    assert forall|b: Seq<char>|
        one.spot(integrated, parents, b, n) == other.spot(integrated, parents, b, n) by {
        let parent = if parents.contains_key(b) {
            parents[b]
        } else {
            root
        };
        ground::lemma_heir_by_file(one, integrated, parent);
        assert(other.heir(integrated, parent) == one.heir(integrated, parent));
    }
    assert forall|b: Seq<char>|
        one.takes_part(integrated, b, n) == other.takes_part(integrated, b, n) by {}
}

/// Whether `names` are, in order and each once, those of the first `k` places whose parent is
/// `parent`.
spec fn gathers(
    names: Seq<Seq<char>>,
    places: BranchMap<Place>,
    parent: Seq<char>,
    k: int,
) -> bool {
    &&& order::in_order(names)
    &&& names.no_duplicates()
    &&& forall|c: Seq<char>| #[trigger]
        names.contains(c) <==> (places.names().take(k).contains(c)
            && places@[c].spot().parent == Some(parent))
}

proof fn lemma_gather(
    before: Seq<Seq<char>>,
    after: Seq<Seq<char>>,
    places: BranchMap<Place>,
    parent: Seq<char>,
    k: int,
    at: int,
)
    requires
        0 <= k < places.names().len(),
        places.names().no_duplicates(),
        gathers(before, places, parent, k),
        0 <= at <= before.len(),
        after == before.insert(at, places.names()[k]),
        order::in_order(after),
        places@[places.names()[k]].spot().parent == Some(parent),
    ensures
        gathers(after, places, parent, k + 1),
{
    let names = places.names();
    let more = names[k];
    assert(!before.contains(more)) by {
        if before.contains(more) {
            assert(names.take(k).contains(more));
            let i = choose|i: int| 0 <= i < k && names.take(k)[i] == more;
            assert(names[i] != names[k]);
        }
    }
    order::lemma_put_in(before, after, at, more);
    assert forall|c: Seq<char>| #[trigger]
        after.contains(c) <==> (names.take(k + 1).contains(c) && places@[c].spot().parent == Some(
            parent,
        )) by {
        order::lemma_take_more(names, k, c);
        assert(after.contains(c) <==> before.contains(c) || c == more);
    }
}

/// The branches whose parent is `parent`, in order.
fn gather_children(places: &BranchMap<Place>, parent: &str) -> (children: Vec<String>)
    ensures
        order::in_order(text::texts(children@)),
        text::texts(children@).no_duplicates(),
        forall|c: Seq<char>| #[trigger]
            text::texts(children@).contains(c) <==> (places@.contains_key(c)
                && places@[c].spot().parent == Some(parent@)),
{
    let mut children: Vec<String> = Vec::new();
    let count: usize = places.len();
    let ghost names = places.names();
    let mut i: usize = 0;
    assert(names.take(0) =~= seq![]);
    while i < count
        invariant
            i <= count,
            count == places.names().len(),
            names == places.names(),
            branch_map::lists_names(names, places@),
            gathers(text::texts(children@), *places, parent@, i as int),
        decreases count - i,
    {
        let name = places.name_at(i);
        let ghost before = text::texts(children@);
        let mut mine = false;
        if let Some(found) = &places.value_at(i).parent {
            mine = text::same(found.as_str(), parent);
        }
        if mine {
            let ghost held = children@;
            order::insert_in_order(&mut children, name.clone());
            proof {
                let at = choose|at: int|
                    0 <= at <= held.len() && #[trigger] held.insert(at, *name) == children@;
                assert(text::texts(children@) =~= before.insert(at, name@));
                lemma_gather(before, text::texts(children@), *places, parent@, i as int, at);
            }
        } else {
            assert forall|c: Seq<char>| #[trigger]
                before.contains(c) <==> (names.take(i + 1).contains(c)
                    && places@[c].spot().parent == Some(parent@)) by {
                order::lemma_take_more(names, i as int, c);
            }
        }
        i = i + 1;
    }
    assert(names.take(count as int) =~= names);
    children
}

/// The tree that grows from the worktrees, the stack file, the integrated branches and the
/// parents found for the others.
pub fn assemble(
    root: &str,
    checkouts: &Vec<Checkout>,
    stated: &BranchMap<String>,
    integrated: &BranchMap<PathBuf>,
    parents: &BranchMap<String>,
) -> (tree: DependencyTree)
    requires
        ground::has_site(ground::sites(checkouts@), root@),
    ensures
        forall|target: Seq<char>|
            grown(
                tree@,
                #[trigger] ground_of(root@, checkouts@, stated@, target),
                integrated@,
                branch_map::text_map(parents@),
            ),
{
    let places = place_branches(root, checkouts, stated, integrated, parents);
    let ghost base = ground_of(root@, checkouts@, stated@, root@);
    let count: usize = places.len();
    let ghost names = places.names();
    let mut nodes: BranchMap<TreeNode> = BranchMap::new();
    let mut i: usize = 0;
    assert(names.take(0) =~= seq![]);
    while i < count
        invariant
            i <= count,
            count == places.names().len(),
            names == places.names(),
            branch_map::lists_names(names, places@),
            nodes@.dom().finite(),
            forall|b: Seq<char>| #[trigger]
                nodes@.contains_key(b) <==> names.take(i as int).contains(b),
            forall|b: Seq<char>| #[trigger]
                nodes@.contains_key(b) ==> planted(nodes@[b]@, places@, b),
        decreases count - i,
    {
        let name = places.name_at(i);
        let place = places.value_at(i);
        let children = gather_children(&places, name.as_str());
        let node = TreeNode {
            branch: name.clone(),
            path: place.path.clone(),
            parent: copied(&place.parent),
            original_parent: copied(&place.original_parent),
            children,
        };
        let ghost before = nodes@;
        assert(planted(node@, places@, name@));
        nodes.insert(name.clone(), node);
        assert forall|b: Seq<char>| #[trigger]
            nodes@.contains_key(b) <==> names.take(i + 1).contains(b) by {
            order::lemma_take_more(names, i as int, b);
            assert(before.contains_key(b) <==> names.take(i as int).contains(b));
        }
        i = i + 1;
    }
    let ghost planted_nodes = nodes@;
    let tree = DependencyTree { root: root.to_owned(), nodes };
    proof {
        assert(names.take(count as int) =~= names);
        assert(tree@.nodes.dom() =~= planted_nodes.dom());
        assert forall|target: Seq<char>|
            grown(
                tree@,
                #[trigger] ground_of(root@, checkouts@, stated@, target),
                integrated@,
                branch_map::text_map(parents@),
            ) by {
            lemma_planted_grows(
                tree@,
                places@,
                ground_of(root@, checkouts@, stated@, target),
                integrated@,
                branch_map::text_map(parents@),
            );
        }
    }
    tree
}

fn copied(value: &Option<String>) -> (copy: Option<String>)
    ensures
        tree::optional_text(copy) == tree::optional_text(*value),
{
    match value {
        Some(found) => Some(found.clone()),
        None => None,
    }
}

/// Whether `node` is the node of `b` for its place.
spec fn planted(node: Node, places: Map<Seq<char>, Place>, b: Seq<char>) -> bool {
    &&& node.branch == b
    &&& places.contains_key(b)
    &&& stands_at(node, places[b].spot())
    &&& order::in_order(node.children)
    &&& node.children.no_duplicates()
    &&& forall|c: Seq<char>| #[trigger]
        node.children.contains(c) <==> (places.contains_key(c) && places[c].spot().parent == Some(
            b,
        ))
}

proof fn lemma_planted_grows(
    tree: Tree,
    places: Map<Seq<char>, Place>,
    ground: Ground,
    integrated: Map<Seq<char>, PathBuf>,
    parents: Map<Seq<char>, Seq<char>>,
)
    requires
        tree.root == ground.root,
        tree.nodes.dom().finite(),
        places_branches(places, ground, integrated, parents, ground.sites.len() as int),
        forall|b: Seq<char>| #[trigger]
            tree.nodes.contains_key(b) <==> places.contains_key(b),
        forall|b: Seq<char>| #[trigger]
            tree.nodes.contains_key(b) ==> planted(tree.nodes[b], places, b),
    ensures
        grown(tree, ground, integrated, parents),
{
    assert(places.contains_key(ground.root));
    assert(tree.nodes.contains_key(ground.root));
    assert forall|p: Seq<char>, c: Seq<char>| tree.nodes.contains_key(p) implies (
    #[trigger] tree.nodes[p].children.contains(c) <==> tree.child_of(c, p)) by {
        assert(tree.nodes.contains_key(c) <==> places.contains_key(c));
    }
}

} // verus!
