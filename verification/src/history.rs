//! What the history of the repository says about the branches, and the tree that follows.

use std::path::PathBuf;

use vstd::prelude::*;

use crate::assembly;
use crate::ground;
use crate::ground::{Ground, Site};
use crate::nearness;
use crate::nearness::Kin;
use crate::stack_file;
use crate::tree::Tree;

verus! {

/// All that is asked of the repository.
pub struct World {
    /// What branches are integrated into, where that is not the default branch.
    pub target: Option<Seq<char>>,
    /// What the stack file holds, if there is one.
    pub stack_file: Option<Seq<char>>,
    /// Whether a branch is integrated into another.
    pub integrated: spec_fn(Seq<char>, Seq<char>) -> bool,
    /// The commit at which two branches part.
    pub merge_base: spec_fn(Seq<char>, Seq<char>) -> Option<Seq<char>>,
    /// How many commits a branch has since a commit.
    pub depth: spec_fn(Seq<char>, Seq<char>) -> nat,
    /// When a commit was made.
    pub stamp: spec_fn(Seq<char>) -> Option<i64>,
}

impl World {
    /// What the tree is built from, apart from the history.
    pub open spec fn ground(self, root: Seq<char>, sites: Seq<Site>) -> Ground {
        Ground {
            root,
            sites,
            stated: match self.stack_file {
                Some(content) => stack_file::stated_parents(content, root),
                None => Map::empty(),
            },
            target: match self.target {
                Some(target) => target,
                None => root,
            },
        }
    }
}

impl Ground {
    /// Whether the stack file says anything.
    pub open spec fn has_stack(self) -> bool {
        self.stated != Map::<Seq<char>, Seq<char>>::empty()
    }

    /// The branches among the first `k` sites that are integrated into the target.
    pub open spec fn merged_into_target(self, world: World, k: int) -> Map<Seq<char>, PathBuf>
        decreases k,
    {
        if k <= 0 {
            Map::empty()
        } else {
            let front = self.merged_into_target(world, k - 1);
            let site = self.sites[k - 1];
            if site.branch != self.root && (world.integrated)(site.branch, self.target) {
                front.insert(site.branch, site.path)
            } else {
                front
            }
        }
    }

    /// The branches that are integrated into the target and, among the first `k` sites, those
    /// that are integrated into the parent that the stack file gives them.
    pub open spec fn merged(self, world: World, k: int) -> Map<Seq<char>, PathBuf>
        decreases k,
    {
        if k <= 0 {
            self.merged_into_target(world, self.sites.len() as int)
        } else {
            let front = self.merged(world, k - 1);
            let site = self.sites[k - 1];
            if site.branch != self.root && !front.contains_key(site.branch)
                && self.stated.contains_key(site.branch) && self.stated[site.branch] != self.target
                && (world.integrated)(site.branch, self.stated[site.branch]) {
                front.insert(site.branch, site.path)
            } else {
                front
            }
        }
    }

    /// The integrated branches and their worktrees.
    pub open spec fn integrated(self, world: World) -> Map<Seq<char>, PathBuf> {
        self.merged(world, self.sites.len() as int)
    }

    /// What `candidate` is to `branch`: a relative, if they share history and the branch has
    /// commits of its own since.
    pub open spec fn relation(self, world: World, branch: Seq<char>, candidate: Seq<char>) -> Option<
        Kin,
    > {
        if candidate == branch {
            None
        } else {
            match (world.merge_base)(candidate, branch) {
                None => None,
                Some(merge_base) => if (world.depth)(merge_base, branch) == 0 {
                    None
                } else {
                    Some(
                        Kin {
                            name: candidate,
                            merge_base,
                            branch_depth: (world.depth)(merge_base, branch),
                            candidate_depth: (world.depth)(merge_base, candidate),
                        },
                    )
                },
            }
        }
    }

    /// The relatives of `branch` among the first `k` sites.
    pub open spec fn kin(self, world: World, branch: Seq<char>, k: int) -> Seq<Kin>
        decreases k,
    {
        if k <= 0 {
            seq![]
        } else {
            match self.relation(world, branch, self.sites[k - 1].branch) {
                Some(kin) => self.kin(world, branch, k - 1).push(kin),
                None => self.kin(world, branch, k - 1),
            }
        }
    }

    /// The parent of `branch`: what the stack file says, where it says anything, else the nearest
    /// relative.
    pub open spec fn parent(self, world: World, branch: Seq<char>) -> Option<Seq<char>> {
        if self.has_stack() {
            Some(self.above(branch))
        } else {
            nearness::parent_among(
                self.kin(world, branch, self.sites.len() as int),
                world.stamp,
            )
        }
    }

    /// The parents of those branches among the first `k` sites that are neither the default
    /// branch nor integrated.
    pub open spec fn parents(self, world: World, k: int) -> Map<Seq<char>, Seq<char>>
        decreases k,
    {
        if k <= 0 {
            Map::empty()
        } else {
            let front = self.parents(world, k - 1);
            let branch = self.sites[k - 1].branch;
            if branch == self.root || self.integrated(world).contains_key(branch) {
                front
            } else {
                match self.parent(world, branch) {
                    Some(parent) => front.insert(branch, parent),
                    None => front,
                }
            }
        }
    }

    /// Whether `tree` is the tree of the repository, and `integrated` its integrated branches.
    pub open spec fn bears(
        self,
        world: World,
        tree: Tree,
        integrated: Map<Seq<char>, PathBuf>,
    ) -> bool {
        &&& integrated == self.integrated(world)
        &&& assembly::grown(
            tree,
            self,
            integrated,
            self.parents(world, self.sites.len() as int),
        )
    }
}

proof fn lemma_merged_into_target(ground: Ground, world: World, k: int, branch: Seq<char>)
    requires
        0 <= k <= ground.sites.len(),
    ensures
        ground.merged_into_target(world, k).contains_key(branch) <==> branch != ground.root
            && ground::last_site(ground.sites, branch, k) >= 0 && (world.integrated)(
            branch,
            ground.target,
        ),
    decreases k,
{
    if k > 0 {
        lemma_merged_into_target(ground, world, k - 1, branch);
        ground::lemma_last_and_first(ground.sites, branch, k - 1);
    }
}

proof fn lemma_merged(ground: Ground, world: World, k: int, branch: Seq<char>)
    requires
        0 <= k <= ground.sites.len(),
    ensures
        ground.merged(world, k).contains_key(branch) <==> ground.merged_into_target(
            world,
            ground.sites.len() as int,
        ).contains_key(branch) || (branch != ground.root && ground::last_site(
            ground.sites,
            branch,
            k,
        ) >= 0 && ground.stated.contains_key(branch) && ground.stated[branch] != ground.target && (
        world.integrated)(branch, ground.stated[branch])),
    decreases k,
{
    if k > 0 {
        lemma_merged(ground, world, k - 1, branch);
        lemma_merged(ground, world, k - 1, ground.sites[k - 1].branch);
        ground::lemma_last_and_first(ground.sites, branch, k - 1);
    }
}

/// A branch counts as integrated exactly if it has a worktree, is not the default branch, and
/// was merged into the target or into the parent that the stack file gives it.
pub proof fn law_integrated(ground: Ground, world: World, branch: Seq<char>)
    ensures
        ground.integrated(world).contains_key(branch) <==> branch != ground.root
            && ground::has_site(ground.sites, branch) && ((world.integrated)(branch, ground.target)
            || (ground.stated.contains_key(branch) && (world.integrated)(
            branch,
            ground.stated[branch],
        ))),
{
    let n = ground.sites.len() as int;
    lemma_merged(ground, world, n, branch);
    lemma_merged_into_target(ground, world, n, branch);
    ground::lemma_last_and_first(ground.sites, branch, n);
    if ground::last_site(ground.sites, branch, n) >= 0 {
        assert(ground.sites[ground::last_site(ground.sites, branch, n)].branch == branch);
    }
}

pub proof fn lemma_parents(ground: Ground, world: World, k: int, branch: Seq<char>)
    requires
        0 <= k <= ground.sites.len(),
    ensures
        ground.parents(world, k).contains_key(branch) <==> branch != ground.root
            && ground::last_site(ground.sites, branch, k) >= 0 && !ground.integrated(
            world,
        ).contains_key(branch) && ground.parent(world, branch) is Some,
        ground.parents(world, k).contains_key(branch) ==> Some(ground.parents(world, k)[branch])
            == ground.parent(world, branch),
    decreases k,
{
    if k > 0 {
        lemma_parents(ground, world, k - 1, branch);
        ground::lemma_last_and_first(ground.sites, branch, k - 1);
    }
}

/// The tree of a repository holds the default branch and every other branch with a worktree that
/// is not integrated. A branch with a parent hangs below it or, where that is integrated, below
/// the first branch above it that is not; one without hangs below the default branch. No branch
/// hangs below an integrated one.
pub proof fn law_tree_of_repository(
    ground: Ground,
    world: World,
    tree: Tree,
    integrated: Map<Seq<char>, PathBuf>,
    branch: Seq<char>,
)
    requires
        ground.bears(world, tree, integrated),
    ensures
        tree.wired(),
        tree.root == ground.root,
        tree.nodes.contains_key(branch) <==> branch == ground.root || (ground::has_site(
            ground.sites,
            branch,
        ) && !integrated.contains_key(branch)),
        tree.nodes.contains_key(branch) && branch != ground.root ==> tree.nodes[branch].parent
            == match ground.parent(world, branch) {
            None => Some(ground.root),
            Some(parent) => if integrated.contains_key(parent) {
                Some(ground.heir(integrated, parent))
            } else {
                Some(parent)
            },
        },
        tree.nodes.contains_key(branch) && branch != ground.root
            ==> tree.nodes[branch].original_parent == match ground.parent(world, branch) {
            None => None,
            Some(parent) => if integrated.contains_key(parent) {
                Some(parent)
            } else {
                None
            },
        },
        tree.nodes.contains_key(branch) ==> (tree.nodes[branch].parent matches Some(parent)
            ==> !integrated.contains_key(parent)),
{
    let n = ground.sites.len() as int;
    law_integrated(ground, world, ground.root);
    assembly::law_no_integrated_parent(tree, ground, integrated, ground.parents(world, n));
    lemma_parents(ground, world, n, branch);
    ground::lemma_last_and_first(ground.sites, branch, n);
    if ground::last_site(ground.sites, branch, n) >= 0 {
        assert(ground.sites[ground::last_site(ground.sites, branch, n)].branch == branch);
    }
    if tree.nodes.contains_key(branch) {
        assert(ground.takes_part(integrated, branch, n));
    }
}

/// Whether `candidate` is a relative of `branch`: another branch that shares history with it, while
/// the branch has commits of its own since.
pub open spec fn related(world: World, branch: Seq<char>, candidate: Seq<char>) -> bool {
    candidate != branch && ((world.merge_base)(candidate, branch) matches Some(base) && (
    world.depth)(base, branch) > 0)
}

/// How many commits `branch` has since it parted from `candidate`.
pub open spec fn own_commits(world: World, branch: Seq<char>, candidate: Seq<char>) -> nat {
    (world.depth)((world.merge_base)(candidate, branch)->0, branch)
}

/// How many commits `candidate` has since `branch` parted from it.
pub open spec fn other_commits(world: World, branch: Seq<char>, candidate: Seq<char>) -> nat {
    (world.depth)((world.merge_base)(candidate, branch)->0, candidate)
}

/// When the commit was made at which `branch` parted from `candidate`.
pub open spec fn parting_age(world: World, branch: Seq<char>, candidate: Seq<char>) -> Option<i64> {
    (world.stamp)((world.merge_base)(candidate, branch)->0)
}

/// Whether the branch of site `i` is inferred to be the parent of `branch`: it is a relative that
/// has nothing of its own since they parted, if there is such a one; of those the one since which
/// the branch has the fewest commits; then the one that has the fewest itself; then the one from
/// which it parted last.
pub open spec fn inferred(ground: Ground, world: World, branch: Seq<char>, i: int) -> bool {
    let n = ground.sites.len();
    let p = ground.sites[i].branch;
    &&& 0 <= i < n
    &&& related(world, branch, p)
    &&& forall|j: int|
        0 <= j < n && related(world, branch, (#[trigger] ground.sites[j]).branch) ==> {
            let q = ground.sites[j].branch;
            &&& other_commits(world, branch, q) == 0 ==> other_commits(world, branch, p) == 0
            &&& (other_commits(world, branch, q) == 0) == (other_commits(world, branch, p) == 0)
                ==> own_commits(world, branch, p) <= own_commits(world, branch, q)
            &&& (other_commits(world, branch, q) == 0) == (other_commits(world, branch, p) == 0)
                && own_commits(world, branch, p) == own_commits(world, branch, q)
                ==> other_commits(world, branch, p) <= other_commits(world, branch, q)
            &&& own_commits(world, branch, p) == own_commits(world, branch, q) && other_commits(
                world,
                branch,
                p,
            ) == other_commits(world, branch, q) ==> (parting_age(world, branch, q) matches Some(
                age,
            ) ==> age == i64::MIN || (parting_age(world, branch, p) matches Some(own) && own >= age))
        }
}

/// Where the relatives among the first `k` sites stand.
spec fn kin_at(ground: Ground, world: World, branch: Seq<char>, k: int) -> Seq<int>
    decreases k,
{
    if k <= 0 {
        seq![]
    } else if related(world, branch, ground.sites[k - 1].branch) {
        kin_at(ground, world, branch, k - 1).push(k - 1)
    } else {
        kin_at(ground, world, branch, k - 1)
    }
}

proof fn lemma_kin_at(ground: Ground, world: World, branch: Seq<char>, k: int)
    requires
        0 <= k <= ground.sites.len(),
    ensures
        ({
            let at = kin_at(ground, world, branch, k);
            let kin = ground.kin(world, branch, k);
            &&& at.len() == kin.len()
            &&& forall|t: int|
                0 <= t < at.len() ==> 0 <= #[trigger] at[t] < k && related(
                    world,
                    branch,
                    ground.sites[at[t]].branch,
                ) && kin[t] == (Kin {
                    name: ground.sites[at[t]].branch,
                    merge_base: (world.merge_base)(ground.sites[at[t]].branch, branch)->0,
                    branch_depth: own_commits(world, branch, ground.sites[at[t]].branch),
                    candidate_depth: other_commits(world, branch, ground.sites[at[t]].branch),
                })
            &&& forall|j: int|
                0 <= j < k && related(world, branch, (#[trigger] ground.sites[j]).branch)
                    ==> at.contains(j)
        }),
    decreases k,
{
    if k > 0 {
        lemma_kin_at(ground, world, branch, k - 1);
        let front = kin_at(ground, world, branch, k - 1);
        let at = kin_at(ground, world, branch, k);
        assert forall|j: int|
            0 <= j < k && related(world, branch, (#[trigger] ground.sites[j]).branch) implies at.contains(
            j,
        ) by {
            if j < k - 1 {
                let t = choose|t: int| 0 <= t < front.len() && front[t] == j;
                assert(at[t] == j);
            } else {
                assert(at[at.len() - 1] == j);
            }
        }
    }
}

/// Without a stack file the parent of a branch is inferred from the commits alone. There is one
/// exactly if some other branch with a worktree shares history with it, while it has commits of its
/// own since. True ancestors come first, then the branch whose merge base is nearest, then the one
/// that has gone least far from there.
pub proof fn law_inferred_parent(ground: Ground, world: World, branch: Seq<char>)
    requires
        !ground.has_stack(),
    ensures
        ground.parent(world, branch) is None <==> forall|j: int|
            0 <= j < ground.sites.len() ==> !related(
                world,
                branch,
                (#[trigger] ground.sites[j]).branch,
            ),
        ground.parent(world, branch) matches Some(parent) ==> exists|i: int| #[trigger]
            inferred(ground, world, branch, i) && ground.sites[i].branch == parent,
{
    let n = ground.sites.len() as int;
    let kin = ground.kin(world, branch, n);
    let at = kin_at(ground, world, branch, n);
    lemma_kin_at(ground, world, branch, n);
    nearness::law_parent_by_depths(kin, world.stamp);
    if kin.len() > 0 {
        assert(related(world, branch, ground.sites[at[0]].branch));
        let t = choose|t: int| #[trigger]
            nearness::suggested(kin, world.stamp, t) && ground.parent(world, branch) == Some(
                kin[t].name,
            );
        let i = at[t];
        assert forall|j: int|
            0 <= j < n && related(world, branch, (#[trigger] ground.sites[j]).branch) implies {
            let q = ground.sites[j].branch;
            let p = ground.sites[i].branch;
            &&& other_commits(world, branch, q) == 0 ==> other_commits(world, branch, p) == 0
            &&& (other_commits(world, branch, q) == 0) == (other_commits(world, branch, p) == 0)
                ==> own_commits(world, branch, p) <= own_commits(world, branch, q)
            &&& (other_commits(world, branch, q) == 0) == (other_commits(world, branch, p) == 0)
                && own_commits(world, branch, p) == own_commits(world, branch, q)
                ==> other_commits(world, branch, p) <= other_commits(world, branch, q)
            &&& own_commits(world, branch, p) == own_commits(world, branch, q) && other_commits(
                world,
                branch,
                p,
            ) == other_commits(world, branch, q) ==> (parting_age(world, branch, q) matches Some(
                age,
            ) ==> age == i64::MIN || (parting_age(world, branch, p) matches Some(own) && own >= age))
        } by {
            let s = choose|s: int| 0 <= s < at.len() && at[s] == j;
            assert(kin[s].name == ground.sites[j].branch);
        }
        assert(inferred(ground, world, branch, i));
    } else {
        assert forall|j: int| 0 <= j < n implies !related(
            world,
            branch,
            (#[trigger] ground.sites[j]).branch,
        ) by {
            if related(world, branch, ground.sites[j].branch) {
                assert(at.contains(j));
            }
        }
    }
}

/// Without a stack file the children of an integrated branch come to hang below the default
/// branch.
pub proof fn law_heir_without_stack_file(
    ground: Ground,
    integrated: Map<Seq<char>, PathBuf>,
    branch: Seq<char>,
)
    requires
        !ground.has_stack(),
    ensures
        ground.heir(integrated, branch) == ground.root,
{
    assert forall|k: nat| k > 0 implies ground.ancestor(branch, k) == ground.root by {
        let below = ground.ancestor(branch, (k - 1) as nat);
    }
}

/// With a stack file the parent of a branch is what the file says, and the default branch where
/// it says nothing.
pub proof fn law_stack_file_decides(ground: Ground, world: World, branch: Seq<char>)
    requires
        ground.has_stack(),
    ensures
        ground.stated.contains_key(branch) ==> ground.parent(world, branch) == Some(
            ground.stated[branch],
        ),
        !ground.stated.contains_key(branch) ==> ground.parent(world, branch) == Some(ground.root),
{
}

} // verus!
