//! The worktrees that the tree is built from, and what stands in for an integrated parent.

use std::path::PathBuf;

use vstd::prelude::*;

use crate::branch_map;
use crate::branch_map::BranchMap;
use crate::failure::Failure;
use crate::failure;
use crate::text;

verus! {

/// What `git worktree list` tells of a worktree.
#[derive(Debug)]
pub struct Worktree {
    pub path: PathBuf,
    pub branch: Option<String>,
    pub bare: bool,
    pub detached: bool,
}

/// A branch and the worktree in which it is checked out.
#[derive(Debug)]
pub struct Checkout {
    pub branch: String,
    pub path: PathBuf,
}

/// What a `Checkout` says.
pub struct Site {
    pub branch: Seq<char>,
    pub path: PathBuf,
}

impl View for Checkout {
    type V = Site;

    open spec fn view(&self) -> Site {
        Site { branch: self.branch@, path: self.path }
    }
}

/// What a list of checkouts says.
pub open spec fn sites(checkouts: Seq<Checkout>) -> Seq<Site> {
    Seq::new(checkouts.len(), |i: int| checkouts[i]@)
}

/// The sites of the first `k` of `worktrees`: those that are neither bare nor detached and have a
/// branch.
pub open spec fn worktree_sites(worktrees: Seq<Worktree>, k: int) -> Seq<Site>
    decreases k,
{
    if k <= 0 {
        seq![]
    } else {
        let front = worktree_sites(worktrees, k - 1);
        let worktree = worktrees[k - 1];
        if worktree.bare || worktree.detached {
            front
        } else {
            match worktree.branch {
                Some(branch) => front.push(Site { branch: branch@, path: worktree.path }),
                None => front,
            }
        }
    }
}

/// Where `branch` stands last among the first `k` of `sites`; below zero if it does not.
pub open spec fn last_site(sites: Seq<Site>, branch: Seq<char>, k: int) -> int
    decreases k,
{
    if k <= 0 {
        -1
    } else if sites[k - 1].branch == branch {
        k - 1
    } else {
        last_site(sites, branch, k - 1)
    }
}

/// Where `branch` stands first among the first `k` of `sites`; below zero if it does not.
pub open spec fn first_site(sites: Seq<Site>, branch: Seq<char>, k: int) -> int
    decreases k,
{
    if k <= 0 {
        -1
    } else {
        let before = first_site(sites, branch, k - 1);
        if before < 0 && sites[k - 1].branch == branch {
            k - 1
        } else {
            before
        }
    }
}

/// Whether `branch` has a worktree among `sites`.
pub open spec fn has_site(sites: Seq<Site>, branch: Seq<char>) -> bool {
    exists|i: int| 0 <= i < sites.len() && (#[trigger] sites[i]).branch == branch
}

/// Where a branch stands last and first is where it stands.
pub proof fn lemma_last_and_first(sites: Seq<Site>, branch: Seq<char>, k: int)
    requires
        0 <= k <= sites.len(),
    ensures
        -1 <= last_site(sites, branch, k) < k,
        -1 <= first_site(sites, branch, k) < k,
        (last_site(sites, branch, k) >= 0) == (first_site(sites, branch, k) >= 0),
        last_site(sites, branch, k) >= 0 ==> sites[last_site(sites, branch, k)].branch == branch
            && sites[first_site(sites, branch, k)].branch == branch,
        forall|i: int|
            0 <= i < k && (#[trigger] sites[i]).branch == branch ==> first_site(sites, branch, k)
                <= i <= last_site(sites, branch, k),
    decreases k,
{
    if k > 0 {
        lemma_last_and_first(sites, branch, k - 1);
    }
}

/// What the tree is built from, apart from the history.
pub struct Ground {
    /// The default branch.
    pub root: Seq<char>,
    /// The branches with a worktree.
    pub sites: Seq<Site>,
    /// What the stack file says: branches and their parents.
    pub stated: Map<Seq<char>, Seq<char>>,
    /// What branches are integrated into.
    pub target: Seq<char>,
}

/// Where a branch comes to stand in the tree.
pub struct Spot {
    pub path: PathBuf,
    pub parent: Option<Seq<char>>,
    pub original_parent: Option<Seq<char>>,
}

impl Ground {
    /// The parent that the stack file gives to `branch`, else the default branch.
    pub open spec fn above(self, branch: Seq<char>) -> Seq<char> {
        if self.stated.contains_key(branch) {
            self.stated[branch]
        } else {
            self.root
        }
    }

    /// The branch `k` steps above `branch`.
    pub open spec fn ancestor(self, branch: Seq<char>, k: nat) -> Seq<char>
        decreases k,
    {
        if k == 0 {
            branch
        } else {
            self.above(self.ancestor(branch, (k - 1) as nat))
        }
    }

    /// Whether the first branch above `branch` that is not integrated is `k` steps above it.
    pub open spec fn heir_at(
        self,
        integrated: Map<Seq<char>, PathBuf>,
        branch: Seq<char>,
        k: nat,
    ) -> bool {
        &&& k > 0
        &&& !integrated.contains_key(self.ancestor(branch, k))
        &&& forall|j: nat|
            0 < j < k ==> integrated.contains_key(#[trigger] self.ancestor(branch, j))
    }

    /// What stands in for the integrated `branch`: the first branch above it that is not
    /// integrated; the default branch where the way up runs in a circle of integrated ones.
    pub open spec fn heir(
        self,
        integrated: Map<Seq<char>, PathBuf>,
        branch: Seq<char>,
    ) -> Seq<char> {
        if exists|k: nat| self.heir_at(integrated, branch, k) {
            self.ancestor(branch, choose|k: nat| self.heir_at(integrated, branch, k))
        } else {
            self.root
        }
    }

    /// Where `branch` comes to stand, if the first `k` sites are looked at. An integrated parent
    /// is replaced by its heir and remembered.
    pub open spec fn spot(
        self,
        integrated: Map<Seq<char>, PathBuf>,
        parents: Map<Seq<char>, Seq<char>>,
        branch: Seq<char>,
        k: int,
    ) -> Spot {
        if branch == self.root {
            Spot {
                path: self.sites[first_site(self.sites, self.root, self.sites.len() as int)].path,
                parent: None,
                original_parent: None,
            }
        } else {
            let path = self.sites[last_site(self.sites, branch, k)].path;
            let parent = if parents.contains_key(branch) {
                parents[branch]
            } else {
                self.root
            };
            if integrated.contains_key(parent) {
                Spot {
                    path,
                    parent: Some(self.heir(integrated, parent)),
                    original_parent: Some(parent),
                }
            } else {
                Spot { path, parent: Some(parent), original_parent: None }
            }
        }
    }

    /// Whether `branch` takes part, if the first `k` sites are looked at: the default branch, and
    /// all others that are not integrated.
    pub open spec fn takes_part(
        self,
        integrated: Map<Seq<char>, PathBuf>,
        branch: Seq<char>,
        k: int,
    ) -> bool {
        branch == self.root || last_site(self.sites, branch, k) >= 0 && !integrated.contains_key(
            branch,
        )
    }
}

proof fn lemma_ancestors_repeat(ground: Ground, branch: Seq<char>, a: nat, b: nat, d: nat)
    requires
        ground.ancestor(branch, a) == ground.ancestor(branch, b),
    ensures
        ground.ancestor(branch, a + d) == ground.ancestor(branch, b + d),
    decreases d,
{
    if d > 0 {
        lemma_ancestors_repeat(ground, branch, a, b, (d - 1) as nat);
    }
}

pub proof fn lemma_circle_has_no_heir(
    ground: Ground,
    integrated: Map<Seq<char>, PathBuf>,
    branch: Seq<char>,
    a: nat,
    b: nat,
    m: nat,
)
    requires
        0 < a < b,
        ground.ancestor(branch, a) == ground.ancestor(branch, b),
        forall|j: nat| 0 < j <= b ==> integrated.contains_key(#[trigger] ground.ancestor(branch, j)),
        m > 0,
    ensures
        integrated.contains_key(ground.ancestor(branch, m)),
    decreases m,
{
    if m > b {
        lemma_ancestors_repeat(ground, branch, a, b, (m - b) as nat);
        lemma_circle_has_no_heir(ground, integrated, branch, a, b, (a + (m - b)) as nat);
    }
}

proof fn lemma_one_heir(
    ground: Ground,
    integrated: Map<Seq<char>, PathBuf>,
    branch: Seq<char>,
    a: nat,
    b: nat,
)
    requires
        ground.heir_at(integrated, branch, a),
        ground.heir_at(integrated, branch, b),
    ensures
        a == b,
{
    if a < b {
        assert(integrated.contains_key(ground.ancestor(branch, a)));
    } else if b < a {
        assert(integrated.contains_key(ground.ancestor(branch, b)));
    }
}

/// What stands in for an integrated branch is not itself integrated.
pub proof fn law_heir_not_integrated(
    ground: Ground,
    integrated: Map<Seq<char>, PathBuf>,
    branch: Seq<char>,
)
    requires
        !integrated.contains_key(ground.root),
    ensures
        !integrated.contains_key(ground.heir(integrated, branch)),
{
}

fn above(branch: &str, stated: &BranchMap<String>, root: &str) -> (parent: String)
    ensures
        parent@ == (if stated@.contains_key(branch@) {
            stated@[branch@]@
        } else {
            root@
        }),
{
    match stated.get(branch) {
        Some(parent) => parent.clone(),
        None => root.to_owned(),
    }
}

/// Whether `names` hold `name`; if so, where.
fn find(names: &Vec<String>, name: &str) -> (found: Option<usize>)
    ensures
        match found {
            Some(at) => at < names@.len() && names@[at as int]@ == name@,
            None => forall|i: int| 0 <= i < names@.len() ==> (#[trigger] names@[i])@ != name@,
        },
{
    let mut i: usize = 0;
    while i < names.len()
        invariant
            i <= names@.len(),
            forall|j: int| 0 <= j < i ==> (#[trigger] names@[j])@ != name@,
        decreases names@.len() - i,
    {
        if text::same(names[i].as_str(), name) {
            return Some(i);
        }
        i = i + 1;
    }
    None
}

proof fn lemma_names_fit(names: Seq<Seq<char>>, more: Seq<char>, all: Set<Seq<char>>)
    requires
        names.no_duplicates(),
        !names.contains(more),
        all.finite(),
        all.contains(more),
        forall|i: int| 0 <= i < names.len() ==> all.contains(#[trigger] names[i]),
    ensures
        names.len() < all.len(),
{
    let taken = names.to_set();
    names.unique_seq_to_set();
    assert(taken.subset_of(all.remove(more))) by {
        assert forall|name: Seq<char>| taken.contains(name) implies all.remove(more).contains(
            name,
        ) by {
            assert(names.contains(name));
        }
    }
    vstd::set_lib::lemma_len_subset(taken, all.remove(more));
}

/// What stands in for the integrated `branch`.
pub fn find_heir(
    branch: &str,
    stated: &BranchMap<String>,
    integrated: &BranchMap<PathBuf>,
    root: &str,
) -> (heir: String)
    ensures
        forall|ground: Ground|
            ground.root == root@ && ground.stated == branch_map::text_map(stated@) ==> heir@
                == #[trigger] ground.heir(integrated@, branch@),
{
    let ghost ground = Ground {
        root: root@,
        sites: seq![],
        stated: branch_map::text_map(stated@),
        target: root@,
    };
    let mut seen: Vec<String> = Vec::new();
    let mut next = above(branch, stated, root);
    let bound: usize = integrated.len();
    let ghost mut k: nat = 1;
    assert(ground.ancestor(branch@, 0) == branch@);
    assert(next@ == ground.ancestor(branch@, 1));
    while integrated.contains_key(next.as_str())
        invariant
            ground.root == root@,
            ground.stated == branch_map::text_map(stated@),
            integrated@.dom().finite(),
            bound == integrated@.dom().len(),
            k == seen@.len() + 1,
            next@ == ground.ancestor(branch@, k),
            forall|j: nat|
                0 < j < k ==> integrated@.contains_key(#[trigger] ground.ancestor(branch@, j)),
            forall|t: int|
                0 <= t < seen@.len() ==> (#[trigger] seen@[t])@ == ground.ancestor(
                    branch@,
                    (t + 1) as nat,
                ),
            text::texts(seen@).no_duplicates(),
            seen@.len() <= bound,
        decreases bound - seen@.len(),
    {
        match find(&seen, next.as_str()) {
            Some(at) => {
                proof {
                    assert forall|m: nat| !ground.heir_at(integrated@, branch@, m) by {
                        if m > 0 {
                            lemma_circle_has_no_heir(
                                ground,
                                integrated@,
                                branch@,
                                (at + 1) as nat,
                                k,
                                m,
                            );
                        }
                    }
                    lemma_heir_by_file(ground, integrated@, branch@);
                }
                return root.to_owned();
            },
            None => {
                proof {
                    let names = text::texts(seen@);
                    assert forall|i: int| 0 <= i < names.len() implies integrated@.dom().contains(
                        #[trigger] names[i],
                    ) by {
                        assert(seen@[i]@ == ground.ancestor(branch@, (i + 1) as nat));
                    }
                    assert(!names.contains(next@)) by {
                        if names.contains(next@) {
                            let i = choose|i: int| 0 <= i < names.len() && names[i] == next@;
                            assert(seen@[i]@ == next@);
                        }
                    }
                    lemma_names_fit(names, next@, integrated@.dom());
                    assert(text::texts(seen@.push(next)) == names.push(next@));
                }
                let later = above(next.as_str(), stated, root);
                seen.push(next);
                next = later;
                proof {
                    k = k + 1;
                }
            },
        }
    }
    proof {
        assert(ground.heir_at(integrated@, branch@, k));
        lemma_one_heir(
            ground,
            integrated@,
            branch@,
            k,
            choose|m: nat| ground.heir_at(integrated@, branch@, m),
        );
        lemma_heir_by_file(ground, integrated@, branch@);
    }
    next
}

proof fn lemma_ancestor_by_file(ground: Ground, other: Ground, branch: Seq<char>, k: nat)
    requires
        ground.root == other.root,
        ground.stated == other.stated,
    ensures
        ground.ancestor(branch, k) == other.ancestor(branch, k),
    decreases k,
{
    if k > 0 {
        lemma_ancestor_by_file(ground, other, branch, (k - 1) as nat);
    }
}

/// The heir depends only on the default branch and the stack file.
pub proof fn lemma_heir_by_file(ground: Ground, integrated: Map<Seq<char>, PathBuf>, branch: Seq<char>)
    ensures
        forall|other: Ground|
            other.root == ground.root && other.stated == ground.stated ==> #[trigger] other.heir(
                integrated,
                branch,
            ) == ground.heir(integrated, branch),
{
    assert forall|other: Ground|
        other.root == ground.root && other.stated == ground.stated implies #[trigger] other.heir(
        integrated,
        branch,
    ) == ground.heir(integrated, branch) by {
        assert forall|k: nat| ground.ancestor(branch, k) == other.ancestor(branch, k) by {
            lemma_ancestor_by_file(ground, other, branch, k);
        }
        assert forall|k: nat|
            ground.heir_at(integrated, branch, k) == other.heir_at(integrated, branch, k) by {}
        if exists|k: nat| ground.heir_at(integrated, branch, k) {
            let mine = choose|k: nat| ground.heir_at(integrated, branch, k);
            assert(other.heir_at(integrated, branch, mine));
            let theirs = choose|k: nat| other.heir_at(integrated, branch, k);
            lemma_one_heir(other, integrated, branch, mine, theirs);
        }
    }
}

/// The branches with a worktree. The default branch has to be among them.
pub fn collect_branches(worktrees: &Vec<Worktree>, root: &str) -> (collected: Result<
    Vec<Checkout>,
    Failure,
>)
    ensures
        match collected {
            Ok(checkouts) => sites(checkouts@) == worktree_sites(
                worktrees@,
                worktrees@.len() as int,
            ) && has_site(sites(checkouts@), root@),
            Err(failure) => !has_site(worktree_sites(worktrees@, worktrees@.len() as int), root@)
                && failure@ == failure::no_root_worktree(root@),
        },
{
    let mut checkouts: Vec<Checkout> = Vec::new();
    let mut found = false;
    let mut i: usize = 0;
    assert(sites(checkouts@) == worktree_sites(worktrees@, 0));
    while i < worktrees.len()
        invariant
            i <= worktrees@.len(),
            sites(checkouts@) == worktree_sites(worktrees@, i as int),
            found == has_site(sites(checkouts@), root@),
        decreases worktrees@.len() - i,
    {
        let worktree = &worktrees[i];
        if !worktree.bare && !worktree.detached {
            if let Some(branch) = &worktree.branch {
                let ghost before = sites(checkouts@);
                let ghost site = Site { branch: branch@, path: worktree.path };
                checkouts.push(
                    Checkout { branch: branch.clone(), path: worktree.path.clone() },
                );
                if text::same(branch.as_str(), root) {
                    found = true;
                }
                proof {
                    let after = sites(checkouts@);
                    assert(after == before.push(site));
                    if has_site(before, root@) {
                        let at = choose|at: int|
                            0 <= at < before.len() && (#[trigger] before[at]).branch == root@;
                        assert(after[at].branch == root@);
                    }
                    assert(after[before.len() as int] == site);
                    if has_site(after, root@) && site.branch != root@ {
                        let at = choose|at: int|
                            0 <= at < after.len() && (#[trigger] after[at]).branch == root@;
                        assert(before[at].branch == root@);
                    }
                }
            }
        }
        i = i + 1;
    }
    if found {
        Ok(checkouts)
    } else {
        Err(failure::no_default_worktree(root))
    }
}

} // verus!
