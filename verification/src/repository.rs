//! What the tree says of the repository, in terms of its worktrees and its stack file.

use std::path::PathBuf;

use vstd::prelude::*;

use crate::assembly;
use crate::branch_map;
use crate::branch_map::BranchMap;
use crate::ground;
use crate::ground::{Ground, Site, Worktree};
use crate::history;
use crate::history::World;
use crate::inquiry;
use crate::inquiry::{Inquiry, Reply};
use crate::nearness;
use crate::notice::Message;
use crate::order;
use crate::stack_file;
use crate::state;
use crate::tree::Tree;

verus! {

/// The branches with a worktree are those of the worktrees that are neither bare nor detached and
/// have a branch, each with the path of its worktree, in the order of the list.
pub proof fn law_worktree_sites(left: Seq<Worktree>, right: Seq<Worktree>, one: Worktree)
    ensures
        ground::worktree_sites(left + right, (left.len() + right.len()) as int)
            == ground::worktree_sites(left, left.len() as int) + ground::worktree_sites(
            right,
            right.len() as int,
        ),
        ground::worktree_sites(seq![], 0).len() == 0,
        !one.bare && !one.detached && one.branch is Some ==> ground::worktree_sites(seq![one], 1)
            == seq![Site { branch: one.branch->0@, path: one.path }],
        one.bare || one.detached || one.branch is None ==> ground::worktree_sites(
            seq![one],
            1,
        ).len() == 0,
{
    reveal_with_fuel(ground::worktree_sites, 2);
    if !one.bare && !one.detached && one.branch is Some {
        assert(ground::worktree_sites(seq![one], 1) =~= seq![
            Site { branch: one.branch->0@, path: one.path },
        ]);
    }
    lemma_sites_join(left, right, right.len() as int);
}

proof fn lemma_sites_front(left: Seq<Worktree>, right: Seq<Worktree>, k: int)
    requires
        0 <= k <= left.len(),
    ensures
        ground::worktree_sites(left + right, k) == ground::worktree_sites(left, k),
    decreases k,
{
    if k > 0 {
        lemma_sites_front(left, right, k - 1);
        assert((left + right)[k - 1] == left[k - 1]);
    }
}

proof fn lemma_sites_join(left: Seq<Worktree>, right: Seq<Worktree>, k: int)
    requires
        0 <= k <= right.len(),
    ensures
        ground::worktree_sites(left + right, left.len() + k) == ground::worktree_sites(
            left,
            left.len() as int,
        ) + ground::worktree_sites(right, k),
    decreases k,
{
    let all = ground::worktree_sites(left + right, left.len() + k);
    let first = ground::worktree_sites(left, left.len() as int);
    if k == 0 {
        lemma_sites_front(left, right, left.len() as int);
        assert(all =~= first + ground::worktree_sites(right, 0));
    } else {
        lemma_sites_join(left, right, k - 1);
        assert((left + right)[left.len() + k - 1] == right[k - 1]);
        assert(all =~= first + ground::worktree_sites(right, k));
    }
}

/// A branch has a worktree if it is that of one of the sites, wherever in the list.
pub proof fn law_has_site(sites: Seq<Site>, i: int, branch: Seq<char>)
    ensures
        0 <= i < sites.len() ==> ground::has_site(sites, sites[i].branch),
        ground::has_site(sites, branch) ==> exists|j: int|
            0 <= j < sites.len() && (#[trigger] sites[j]).branch == branch,
{
}

/// Each branch of a tree has the path of one of its worktrees, the last in the list, but for the
/// default branch, which has that of its first. The default branch is the only one without a
/// parent. Children stand in the order of their names, and a branch is a child of exactly the
/// branch that is its parent.
pub proof fn law_stands(
    tree: Tree,
    ground: Ground,
    integrated: Map<Seq<char>, PathBuf>,
    parents: Map<Seq<char>, Seq<char>>,
    branch: Seq<char>,
)
    requires
        assembly::grown(tree, ground, integrated, parents),
        ground::has_site(ground.sites, ground.root),
        tree.nodes.contains_key(branch),
    ensures
        ({
            let node = tree.nodes[branch];
            let sites = ground.sites;
            &&& branch == ground.root ==> exists|i: int|
                0 <= i < sites.len() && (#[trigger] sites[i]).branch == branch && sites[i].path
                    == node.path && forall|j: int|
                    0 <= j < i ==> (#[trigger] sites[j]).branch != branch
            &&& branch != ground.root ==> exists|i: int|
                0 <= i < sites.len() && (#[trigger] sites[i]).branch == branch && sites[i].path
                    == node.path && forall|j: int|
                    i < j < sites.len() ==> (#[trigger] sites[j]).branch != branch
            &&& node.parent is None <==> branch == ground.root
            &&& branch == ground.root ==> node.original_parent is None
            &&& forall|c: Seq<char>| #[trigger]
                node.children.contains(c) <==> tree.nodes.contains_key(c) && tree.nodes[c].parent
                    == Some(branch)
            &&& node.children.no_duplicates()
            &&& forall|i: int, j: int|
                0 <= i < j < node.children.len() ==> order::precedes(
                    #[trigger] node.children[i],
                    #[trigger] node.children[j],
                )
        }),
{
    let n = ground.sites.len() as int;
    let sites = ground.sites;
    let node = tree.nodes[branch];
    ground::lemma_last_and_first(sites, branch, n);
    assert(ground.takes_part(integrated, branch, n));
    if branch == ground.root {
        let r = choose|i: int| 0 <= i < sites.len() && (#[trigger] sites[i]).branch == ground.root;
        let i = ground::first_site(sites, branch, n);
        assert(sites[i].branch == branch);
    } else {
        let i = ground::last_site(sites, branch, n);
        assert(sites[i].branch == branch);
    }
    assert forall|c: Seq<char>| #[trigger]
        node.children.contains(c) <==> tree.nodes.contains_key(c) && tree.nodes[c].parent == Some(
            branch,
        ) by {
        assert(tree.nodes[branch].children.contains(c) <==> tree.child_of(c, branch));
    }
    assert forall|i: int, j: int| 0 <= i < j < node.children.len() implies order::precedes(
        #[trigger] node.children[i],
        #[trigger] node.children[j],
    ) by {
        order::law_order_total(node.children[i], node.children[j]);
    }
}

/// The worktree that is noted for an integrated branch is one of its own.
pub proof fn law_integrated_worktree(ground: Ground, world: World, branch: Seq<char>)
    requires
        ground.integrated(world).contains_key(branch),
    ensures
        exists|i: int|
            0 <= i < ground.sites.len() && (#[trigger] ground.sites[i]).branch == branch
                && ground.sites[i].path == ground.integrated(world)[branch],
{
    lemma_merged_path(ground, world, ground.sites.len() as int, branch);
}

proof fn lemma_target_path(ground: Ground, world: World, k: int, branch: Seq<char>)
    requires
        0 <= k <= ground.sites.len(),
        ground.merged_into_target(world, k).contains_key(branch),
    ensures
        exists|i: int|
            0 <= i < ground.sites.len() && (#[trigger] ground.sites[i]).branch == branch
                && ground.sites[i].path == ground.merged_into_target(world, k)[branch],
    decreases k,
{
    if k > 0 {
        let site = ground.sites[k - 1];
        if site.branch == branch && (world.integrated)(branch, ground.target) && branch
            != ground.root {
            assert(ground.sites[k - 1].branch == branch);
        } else {
            lemma_target_path(ground, world, k - 1, branch);
        }
    }
}

proof fn lemma_merged_path(ground: Ground, world: World, k: int, branch: Seq<char>)
    requires
        0 <= k <= ground.sites.len(),
        ground.merged(world, k).contains_key(branch),
    ensures
        exists|i: int|
            0 <= i < ground.sites.len() && (#[trigger] ground.sites[i]).branch == branch
                && ground.sites[i].path == ground.merged(world, k)[branch],
    decreases k,
{
    if k <= 0 {
        lemma_target_path(ground, world, ground.sites.len() as int, branch);
    } else {
        let site = ground.sites[k - 1];
        if ground.merged(world, k - 1).contains_key(branch) {
            lemma_merged_path(ground, world, k - 1, branch);
        } else {
            assert(site.branch == branch);
        }
    }
}

/// What the ground takes from the repository: the target where one is set, else the default branch;
/// the parents that the stack file shows, and none if there is no such file. It counts as silent
/// only if it gives no branch a parent.
pub proof fn law_ground(world: World, root: Seq<char>, sites: Seq<Site>, branch: Seq<char>)
    ensures
        ({
            let ground = world.ground(root, sites);
            &&& ground.root == root
            &&& ground.sites == sites
            &&& world.target is None ==> ground.target == root
            &&& world.target is Some ==> ground.target == world.target->0
            &&& world.stack_file is None ==> !ground.stated.contains_key(branch)
                && !ground.has_stack()
            &&& world.stack_file is Some ==> ground.stated == stack_file::stated_parents(
                world.stack_file->0,
                root,
            )
            &&& ground.stated.contains_key(branch) ==> ground.has_stack()
            &&& !ground.has_stack() ==> !ground.stated.contains_key(branch)
        }),
{
}

/// The heir of an integrated branch, on a way up through the stack file: each branch of `way` has
/// the next one as its parent in the file, all between the first and the last are integrated, and
/// the last is not. Then the last is the heir of the first. If the last is integrated too and the
/// file gives it no parent, the heir is the default branch.
pub proof fn law_heir(
    ground: Ground,
    integrated: Map<Seq<char>, PathBuf>,
    way: Seq<Seq<char>>,
)
    requires
        way.len() > 1,
        !integrated.contains_key(ground.root),
        forall|i: int|
            0 <= i < way.len() - 1 ==> ground.stated.contains_key(#[trigger] way[i])
                && ground.stated[way[i]] == way[i + 1],
        forall|i: int| 0 < i < way.len() - 1 ==> integrated.contains_key(#[trigger] way[i]),
    ensures
        !integrated.contains_key(way.last()) ==> ground.heir(integrated, way[0]) == way.last(),
        integrated.contains_key(way.last()) && !ground.stated.contains_key(way.last())
            ==> ground.heir(integrated, way[0]) == ground.root,
{
    let last = way.len() - 1;
    assert forall|k: nat| k < way.len() implies #[trigger] ground.ancestor(way[0], k) == way[
        k as int] by {
        lemma_on_way(ground, way, k);
    }
    if !integrated.contains_key(way.last()) {
        lemma_heir_here(ground, integrated, way[0], last as nat);
    } else if !ground.stated.contains_key(way.last()) {
        assert(ground.ancestor(way[0], way.len()) == ground.root) by {
            assert(ground.ancestor(way[0], last as nat) == way.last());
        }
        lemma_heir_here(ground, integrated, way[0], way.len());
    }
}

proof fn lemma_on_way(ground: Ground, way: Seq<Seq<char>>, k: nat)
    requires
        k < way.len(),
        forall|i: int|
            0 <= i < way.len() - 1 ==> ground.stated.contains_key(#[trigger] way[i])
                && ground.stated[way[i]] == way[i + 1],
    ensures
        ground.ancestor(way[0], k) == way[k as int],
    decreases k,
{
    if k > 0 {
        lemma_on_way(ground, way, (k - 1) as nat);
        assert(ground.stated.contains_key(way[k - 1]));
    }
}

proof fn lemma_heir_here(
    ground: Ground,
    integrated: Map<Seq<char>, PathBuf>,
    branch: Seq<char>,
    k: nat,
)
    requires
        ground.heir_at(integrated, branch, k),
    ensures
        ground.heir(integrated, branch) == ground.ancestor(branch, k),
{
    let other = choose|m: nat| ground.heir_at(integrated, branch, m);
    assert(ground.heir_at(integrated, branch, other));
    if other < k {
        assert(integrated.contains_key(ground.ancestor(branch, other)));
    } else if k < other {
        assert(integrated.contains_key(ground.ancestor(branch, k)));
    }
}

/// If the way up through the stack file runs in a circle of integrated branches, the heir is the
/// default branch.
pub proof fn law_heir_of_circle(
    ground: Ground,
    integrated: Map<Seq<char>, PathBuf>,
    way: Seq<Seq<char>>,
)
    requires
        way.len() > 1,
        way.last() == way[0],
        forall|i: int|
            0 <= i < way.len() - 1 ==> ground.stated.contains_key(#[trigger] way[i])
                && ground.stated[way[i]] == way[i + 1],
        forall|i: int| 0 <= i < way.len() ==> integrated.contains_key(#[trigger] way[i]),
    ensures
        ground.heir(integrated, way[0]) == ground.root,
{
    let n = way.len();
    assert forall|k: nat| k < n implies #[trigger] ground.ancestor(way[0], k) == way[k as int] by {
        lemma_on_way(ground, way, k);
    }
    assert(ground.stated.contains_key(way[0]) && ground.stated[way[0]] == way[1]);
    assert(ground.ancestor(way[0], n) == way[1]) by {
        assert(ground.ancestor(way[0], (n - 1) as nat) == way[0]);
    }
    assert(ground.ancestor(way[0], 1) == way[1]);
    assert forall|j: nat| 0 < j <= n implies integrated.contains_key(
        #[trigger] ground.ancestor(way[0], j),
    ) by {
        if j < n {
            assert(integrated.contains_key(way[j as int]));
        } else {
            assert(integrated.contains_key(way[1]));
        }
    }
    assert forall|m: nat| !ground.heir_at(integrated, way[0], m) by {
        if m > 0 {
            ground::lemma_circle_has_no_heir(ground, integrated, way[0], 1, n, m);
        }
    }
}

/// An integrated branch whose parent is not stated leaves its children to the default branch.
pub proof fn law_heir_unstated(
    ground: Ground,
    integrated: Map<Seq<char>, PathBuf>,
    branch: Seq<char>,
)
    requires
        !ground.stated.contains_key(branch),
        !integrated.contains_key(ground.root),
    ensures
        ground.heir(integrated, branch) == ground.root,
{
    assert(ground.ancestor(branch, 0) == branch);
    assert(ground.ancestor(branch, 1) == ground.root);
    lemma_heir_here(ground, integrated, branch, 1);
}

/// A warning is given exactly when ages are asked for. In a survey that is told the truth it names
/// the branch, all relatives that tie, in order, and the parent that the branch is given.
pub proof fn law_warning(inquiry: Inquiry, reply: Reply, world: World)
    requires
        inquiry.valid(),
        inquiry::fits(inquiry.asked(), reply),
        inquiry.agrees(world),
        inquiry::truthful(world, inquiry.asked(), reply),
    ensures
        inquiry.warning(reply) is Some <==> inquiry.asked() is Timestamps,
        inquiry.warning(reply) matches Some(message) ==> {
            let ground = world.ground(inquiry.root, inquiry.sites);
            let n = inquiry.sites.len() as int;
            let kin = ground.kin(world, inquiry.branch(), n);
            let ties = nearness::nearest(kin);
            &&& ties.len() > 1
            &&& ground.parent(world, inquiry.branch()) matches Some(parent)
            &&& message == Message::equidistant(
                inquiry.branch(),
                Seq::new(ties.len(), |i: int| ties[i].name),
                parent,
            )
        },
{
    if inquiry.asked() is Timestamps {
        let ground = world.ground(inquiry.root, inquiry.sites);
        let kin = inquiry.ties();
        let commits = inquiry::merge_bases(kin);
        if let Reply::Timestamps(stamps) = reply {
            assert(inquiry::gives_stamps(world, commits, stamps@));
            assert forall|i: int| 0 <= i < kin.len() implies nearness::stamps_of(stamps@)(
                (#[trigger] kin[i]).merge_base,
            ) == (world.stamp)(kin[i].merge_base) by {
                assert(commits[i] == kin[i].merge_base);
            }
            nearness::lemma_tie_break_same(kin, nearness::stamps_of(stamps@), world.stamp);
            assert(nearness::kin_names(kin) =~= Seq::new(kin.len(), |i: int| kin[i].name));
            assert(ground.stated == inquiry.stated);
        }
    }
}

/// When ages are asked for, it is those of the merge bases of all that tie.
pub proof fn law_ages_asked(inquiry: Inquiry)
    requires
        inquiry.asked() is Timestamps,
    ensures
        inquiry.asked()->commits.len() == inquiry.ties().len(),
        forall|i: int|
            0 <= i < inquiry.ties().len() ==> #[trigger] inquiry.asked()->commits[i]
                == inquiry.ties()[i].merge_base,
{
}

/// A survey that was told the truth and has nothing left to ask knows the integrated branches with
/// their worktrees, and gives a parent to each other branch that has one.
pub proof fn law_survey_complete(
    root: Seq<char>,
    sites: Seq<Site>,
    replies: Seq<Reply>,
    world: World,
    branch: Seq<char>,
)
    requires
        ground::has_site(sites, root),
        inquiry::honest(root, sites, replies, world),
        inquiry::surveyed(root, sites, replies).asked() is Finished,
    ensures
        ({
            let known = inquiry::surveyed(root, sites, replies);
            let ground = world.ground(root, sites);
            &&& known.integrated.contains_key(branch) <==> branch != root && ground::has_site(
                sites,
                branch,
            ) && ((world.integrated)(branch, ground.target) || (ground.stated.contains_key(branch)
                && (world.integrated)(branch, ground.stated[branch])))
            &&& known.parents.contains_key(branch) ==> !known.integrated.contains_key(branch)
                && Some(known.parents[branch]) == ground.parent(world, branch)
            &&& branch != root && ground::has_site(sites, branch) && !known.integrated.contains_key(
                branch,
            ) && ground.parent(world, branch) is Some ==> known.parents.contains_key(branch)
        }),
{
    let known = inquiry::surveyed(root, sites, replies);
    let ground = world.ground(root, sites);
    inquiry::law_survey_of_repository(root, sites, replies, world);
    history::law_integrated(ground, world, branch);
    history::lemma_parents(ground, world, sites.len() as int, branch);
    ground::lemma_last_and_first(sites, branch, sites.len() as int);
    if ground::has_site(sites, branch) {
        let i = choose|i: int| 0 <= i < sites.len() && (#[trigger] sites[i]).branch == branch;
        assert(sites[i].branch == branch);
    }
}

/// The integrated branches are listed for removal each once, in the order in which they were found,
/// each with the path of its worktree; none is left out.
pub proof fn law_listing(integrated: BranchMap<PathBuf>, branch: Seq<char>)
    requires
        branch_map::lists_names(integrated.names(), integrated@),
    ensures
        ({
            let sites = state::listing(integrated);
            &&& sites.len() == integrated.names().len()
            &&& forall|i: int|
                0 <= i < sites.len() ==> (#[trigger] sites[i]).branch == integrated.names()[i]
                    && integrated@.contains_key(sites[i].branch) && sites[i].path
                    == integrated@[sites[i].branch]
            &&& forall|i: int, j: int|
                0 <= i < j < sites.len() ==> (#[trigger] sites[i]).branch != (
                #[trigger] sites[j]).branch
            &&& integrated@.contains_key(branch) ==> exists|i: int|
                0 <= i < sites.len() && (#[trigger] sites[i]).branch == branch
        }),
{
    let names = integrated.names();
    let sites = state::listing(integrated);
    assert forall|i: int| 0 <= i < sites.len() implies (#[trigger] sites[i]).branch
        == integrated.names()[i] && integrated@.contains_key(sites[i].branch) && sites[i].path
        == integrated@[sites[i].branch] by {
        assert(names.contains(names[i]));
    }
    if integrated@.contains_key(branch) {
        assert(names.contains(branch));
        let i = choose|i: int| 0 <= i < names.len() && names[i] == branch;
        assert(sites[i].branch == branch);
    }
}

} // verus!
