//! Which of the branches that share history with a branch is nearest to it.

use vstd::prelude::*;

use crate::branch_map::BranchMap;

verus! {

/// A branch that shares history with another: where the two part, and how many commits each of
/// them has since.
#[derive(Debug)]
pub struct Relative {
    pub name: String,
    pub merge_base: String,
    /// How many commits the other branch has since the merge base.
    pub branch_depth: usize,
    /// How many commits this one has since the merge base.
    pub candidate_depth: usize,
}

/// What a `Relative` holds.
pub struct Kin {
    pub name: Seq<char>,
    pub merge_base: Seq<char>,
    pub branch_depth: nat,
    pub candidate_depth: nat,
}

impl View for Relative {
    type V = Kin;

    open spec fn view(&self) -> Kin {
        Kin {
            name: self.name@,
            merge_base: self.merge_base@,
            branch_depth: self.branch_depth as nat,
            candidate_depth: self.candidate_depth as nat,
        }
    }
}

/// What a list of relatives holds.
pub open spec fn kindred(relatives: Seq<Relative>) -> Seq<Kin> {
    Seq::new(relatives.len(), |i: int| relatives[i]@)
}

/// The names of `kin`.
pub open spec fn kin_names(kin: Seq<Kin>) -> Seq<Seq<char>> {
    Seq::new(kin.len(), |i: int| kin[i].name)
}

impl Kin {
    /// Whether the tip of the relative is in the history of the other branch.
    pub open spec fn is_ancestor(self) -> bool {
        self.candidate_depth == 0
    }

    /// Whether `self` is nearer than `other`: ancestors before branches that went their own way,
    /// then by the commits of the branch, then by their own.
    pub open spec fn nearer(self, other: Kin) -> bool {
        if self.is_ancestor() != other.is_ancestor() {
            self.is_ancestor()
        } else if self.branch_depth != other.branch_depth {
            self.branch_depth < other.branch_depth
        } else {
            self.candidate_depth < other.candidate_depth
        }
    }
}

/// Whether none of `kin` is nearer than `one`.
pub open spec fn is_nearest(kin: Seq<Kin>, one: Kin) -> bool {
    forall|i: int| 0 <= i < kin.len() ==> !(#[trigger] kin[i]).nearer(one)
}

/// Those among the first `k` of `kin` that no relative is nearer than.
pub open spec fn nearest_of_first(kin: Seq<Kin>, k: int) -> Seq<Kin>
    decreases k,
{
    if k <= 0 {
        seq![]
    } else if is_nearest(kin, kin[k - 1]) {
        nearest_of_first(kin, k - 1).push(kin[k - 1])
    } else {
        nearest_of_first(kin, k - 1)
    }
}

/// The nearest of `kin`, in their order.
pub open spec fn nearest(kin: Seq<Kin>) -> Seq<Kin> {
    nearest_of_first(kin, kin.len() as int)
}

/// Whether the merge base of `ties[at]` is the first of the youngest by `stamps`, which leaves
/// out commits of unknown age.
pub open spec fn is_youngest(
    ties: Seq<Kin>,
    stamps: spec_fn(Seq<char>) -> Option<i64>,
    at: int,
) -> bool {
    &&& 0 <= at < ties.len()
    &&& stamps(ties[at].merge_base) is Some
    &&& stamps(ties[at].merge_base)->0 > i64::MIN
    &&& forall|i: int|
        0 <= i < ties.len() && stamps((#[trigger] ties[i]).merge_base) is Some ==> stamps(
            ties[i].merge_base,
        )->0 <= stamps(ties[at].merge_base)->0
    &&& forall|i: int|
        0 <= i < at && stamps((#[trigger] ties[i]).merge_base) is Some ==> stamps(
            ties[i].merge_base,
        )->0 < stamps(ties[at].merge_base)->0
}

/// Which of `ties` is taken: the one whose merge base is the youngest, else the first.
pub open spec fn tie_break(ties: Seq<Kin>, stamps: spec_fn(Seq<char>) -> Option<i64>) -> int {
    if exists|at: int| is_youngest(ties, stamps, at) {
        choose|at: int| is_youngest(ties, stamps, at)
    } else {
        0
    }
}

/// The parent that `kin` suggest.
pub open spec fn parent_among(
    kin: Seq<Kin>,
    stamps: spec_fn(Seq<char>) -> Option<i64>,
) -> Option<Seq<char>> {
    let ties = nearest(kin);
    if ties.len() == 0 {
        None
    } else if ties.len() == 1 {
        Some(ties[0].name)
    } else {
        Some(ties[tie_break(ties, stamps)].name)
    }
}

/// The timestamps that a map holds.
pub open spec fn stamps_of(map: Map<Seq<char>, i64>) -> spec_fn(Seq<char>) -> Option<i64> {
    |commit: Seq<char>|
        if map.contains_key(commit) {
            Some(map[commit])
        } else {
            None
        }
}

proof fn lemma_one_youngest(
    ties: Seq<Kin>,
    stamps: spec_fn(Seq<char>) -> Option<i64>,
    at: int,
    other: int,
)
    requires
        is_youngest(ties, stamps, at),
        is_youngest(ties, stamps, other),
    ensures
        at == other,
{
    let one = ties[at];
    let two = ties[other];
}

/// How ties are broken depends only on the timestamps of the tied merge bases.
pub proof fn lemma_tie_break_same(
    ties: Seq<Kin>,
    stamps: spec_fn(Seq<char>) -> Option<i64>,
    others: spec_fn(Seq<char>) -> Option<i64>,
)
    requires
        forall|i: int|
            0 <= i < ties.len() ==> stamps((#[trigger] ties[i]).merge_base) == others(
                ties[i].merge_base,
            ),
    ensures
        tie_break(ties, stamps) == tie_break(ties, others),
{
    assert forall|at: int|
        is_youngest(ties, stamps, at) == is_youngest(ties, others, at) by {
        if 0 <= at < ties.len() {
            let tie = ties[at];
        }
    }
    if exists|at: int| is_youngest(ties, stamps, at) {
        let at = choose|at: int| is_youngest(ties, stamps, at);
        assert(is_youngest(ties, others, at));
        let other = choose|at: int| is_youngest(ties, others, at);
        lemma_one_youngest(ties, others, at, other);
    }
}

proof fn lemma_nearest_of_first(kin: Seq<Kin>, k: int)
    requires
        0 <= k <= kin.len(),
    ensures
        forall|t: int|
            0 <= t < nearest_of_first(kin, k).len() ==> is_nearest(
                kin,
                #[trigger] nearest_of_first(kin, k)[t],
            ) && kin.contains(nearest_of_first(kin, k)[t]),
        forall|i: int|
            0 <= i < k && is_nearest(kin, #[trigger] kin[i]) ==> nearest_of_first(kin, k).contains(
                kin[i],
            ),
    decreases k,
{
    if k > 0 {
        lemma_nearest_of_first(kin, k - 1);
        let front = nearest_of_first(kin, k - 1);
        let all = nearest_of_first(kin, k);
        assert(kin[k - 1] == kin[k - 1]);
        assert forall|i: int| 0 <= i < k && is_nearest(kin, #[trigger] kin[i]) implies all.contains(
            kin[i],
        ) by {
            if i < k - 1 {
                let t = choose|t: int| 0 <= t < front.len() && front[t] == kin[i];
                assert(all[t] == kin[i]);
            } else {
                assert(all[all.len() - 1] == kin[i]);
            }
        }
    }
}

/// Where the nearest of the first `k` stands.
proof fn lemma_some_nearest(kin: Seq<Kin>, k: int) -> (best: int)
    requires
        0 < k <= kin.len(),
    ensures
        0 <= best < k,
        forall|i: int| 0 <= i < k ==> !(#[trigger] kin[i]).nearer(kin[best]),
    decreases k,
{
    if k == 1 {
        0
    } else {
        let best = lemma_some_nearest(kin, k - 1);
        if kin[k - 1].nearer(kin[best]) {
            k - 1
        } else {
            best
        }
    }
}

/// A parent is suggested wherever there is a relative. It is a relative that none is nearer
/// than: an ancestor if there is one, and of the ancestors one with the fewest commits between.
pub proof fn law_parent_is_nearest(kin: Seq<Kin>, stamps: spec_fn(Seq<char>) -> Option<i64>)
    ensures
        parent_among(kin, stamps) is None <==> kin.len() == 0,
        parent_among(kin, stamps) matches Some(parent) ==> exists|i: int|
            0 <= i < kin.len() && (#[trigger] kin[i]).name == parent && is_nearest(kin, kin[i]) && ((
            exists|j: int| 0 <= j < kin.len() && (#[trigger] kin[j]).is_ancestor())
                ==> kin[i].is_ancestor()) && (forall|j: int|
                0 <= j < kin.len() && (#[trigger] kin[j]).is_ancestor() ==> kin[i].branch_depth
                    <= kin[j].branch_depth),
{
    let ties = nearest(kin);
    lemma_nearest_of_first(kin, kin.len() as int);
    if kin.len() > 0 {
        let best = lemma_some_nearest(kin, kin.len() as int);
        assert(is_nearest(kin, kin[best]));
        assert(ties.contains(kin[best]));
        let taken = if ties.len() == 1 {
            0
        } else {
            tie_break(ties, stamps)
        };
        let i = choose|i: int| 0 <= i < kin.len() && kin[i] == ties[taken];
        assert(is_nearest(kin, kin[i]));
    }
}

/// Whether `kin[i]` is the relative that counts as the parent. If any relative is an ancestor, it is
/// one: its tip is the merge base. Of those it has the fewest commits of the branch since the merge
/// base, and among equals the fewest of its own. Among those that are equal in all of this its
/// merge base is the youngest; it stands first unless it is younger than all before it.
pub open spec fn suggested(
    kin: Seq<Kin>,
    stamps: spec_fn(Seq<char>) -> Option<i64>,
    i: int,
) -> bool {
    &&& 0 <= i < kin.len()
    &&& forall|j: int|
        0 <= j < kin.len() && (#[trigger] kin[j]).candidate_depth == 0 ==> kin[i].candidate_depth == 0
    &&& forall|j: int|
        0 <= j < kin.len() && ((#[trigger] kin[j]).candidate_depth == 0) == (kin[i].candidate_depth
            == 0) ==> kin[i].branch_depth <= kin[j].branch_depth
    &&& forall|j: int|
        0 <= j < kin.len() && ((#[trigger] kin[j]).candidate_depth == 0) == (kin[i].candidate_depth
            == 0) && kin[j].branch_depth == kin[i].branch_depth ==> kin[i].candidate_depth
            <= kin[j].candidate_depth
    &&& forall|j: int|
        0 <= j < kin.len() && (#[trigger] kin[j]).branch_depth == kin[i].branch_depth
            && kin[j].candidate_depth == kin[i].candidate_depth ==> (stamps(
            kin[j].merge_base,
        ) matches Some(age) ==> age == i64::MIN || (stamps(kin[i].merge_base) matches Some(own)
            && own >= age))
    &&& forall|j: int|
        0 <= j < i && (#[trigger] kin[j]).branch_depth == kin[i].branch_depth
            && kin[j].candidate_depth == kin[i].candidate_depth ==> (stamps(
            kin[i].merge_base,
        ) matches Some(own) && own > i64::MIN && (stamps(kin[j].merge_base) matches Some(age)
            ==> age < own))
}

/// Where the nearest among the first `k` of `kin` stand.
spec fn nearest_at(kin: Seq<Kin>, k: int) -> Seq<int>
    decreases k,
{
    if k <= 0 {
        seq![]
    } else if is_nearest(kin, kin[k - 1]) {
        nearest_at(kin, k - 1).push(k - 1)
    } else {
        nearest_at(kin, k - 1)
    }
}

proof fn lemma_nearest_at(kin: Seq<Kin>, k: int)
    requires
        0 <= k <= kin.len(),
    ensures
        nearest_at(kin, k).len() == nearest_of_first(kin, k).len(),
        forall|t: int|
            0 <= t < nearest_at(kin, k).len() ==> 0 <= #[trigger] nearest_at(kin, k)[t] < k
                && is_nearest(kin, kin[nearest_at(kin, k)[t]]) && nearest_of_first(kin, k)[t]
                == kin[nearest_at(kin, k)[t]],
        forall|s: int, t: int|
            0 <= s < t < nearest_at(kin, k).len() ==> #[trigger] nearest_at(kin, k)[s]
                < #[trigger] nearest_at(kin, k)[t],
        forall|i: int|
            0 <= i < k && is_nearest(kin, #[trigger] kin[i]) ==> nearest_at(kin, k).contains(i),
    decreases k,
{
    if k > 0 {
        lemma_nearest_at(kin, k - 1);
        let front = nearest_at(kin, k - 1);
        let all = nearest_at(kin, k);
        assert forall|i: int| 0 <= i < k && is_nearest(kin, #[trigger] kin[i]) implies all.contains(
            i,
        ) by {
            if i < k - 1 {
                let t = choose|t: int| 0 <= t < front.len() && front[t] == i;
                assert(all[t] == i);
            } else {
                assert(all[all.len() - 1] == i);
            }
        }
    }
}

/// Whether no relative is closer than `kin[i]` by the depths: none is an ancestor unless it is one;
/// of those that are or are not, like itself, none has fewer commits of the branch since the merge
/// base, nor, among equals, fewer of its own.
pub open spec fn closest(kin: Seq<Kin>, i: int) -> bool {
    &&& 0 <= i < kin.len()
    &&& forall|j: int|
        0 <= j < kin.len() && (#[trigger] kin[j]).candidate_depth == 0 ==> kin[i].candidate_depth == 0
    &&& forall|j: int|
        0 <= j < kin.len() && ((#[trigger] kin[j]).candidate_depth == 0) == (kin[i].candidate_depth
            == 0) ==> kin[i].branch_depth <= kin[j].branch_depth
    &&& forall|j: int|
        0 <= j < kin.len() && ((#[trigger] kin[j]).candidate_depth == 0) == (kin[i].candidate_depth
            == 0) && kin[j].branch_depth == kin[i].branch_depth ==> kin[i].candidate_depth
            <= kin[j].candidate_depth
}

/// Whether `ties` are the closest of `kin`, each once and in order, those that stand at `at`.
pub open spec fn lists_closest(kin: Seq<Kin>, ties: Seq<Kin>, at: Seq<int>) -> bool {
    &&& at.len() == ties.len()
    &&& forall|t: int| 0 <= t < at.len() ==> #[trigger] ties[t] == kin[at[t]]
    &&& forall|s: int, t: int| 0 <= s < t < at.len() ==> #[trigger] at[s] < #[trigger] at[t]
    &&& forall|i: int| #[trigger] at.contains(i) <==> closest(kin, i)
}

/// Those that tie are exactly the relatives than which none is closer by the depths, in order.
pub proof fn law_ties_by_depths(kin: Seq<Kin>)
    ensures
        exists|at: Seq<int>| #[trigger] lists_closest(kin, nearest(kin), at),
{
    let n = kin.len() as int;
    let at = nearest_at(kin, n);
    lemma_nearest_at(kin, n);
    assert forall|i: int| #[trigger] at.contains(i) <==> closest(kin, i) by {
        if at.contains(i) {
            let t = choose|t: int| 0 <= t < at.len() && at[t] == i;
            assert(is_nearest(kin, kin[at[t]]));
            assert forall|j: int| 0 <= j < kin.len() implies !(#[trigger] kin[j]).nearer(
                kin[i],
            ) by {}
        }
        if closest(kin, i) {
            assert forall|j: int| 0 <= j < kin.len() implies !(#[trigger] kin[j]).nearer(
                kin[i],
            ) by {}
            assert(is_nearest(kin, kin[i]));
        }
    }
    assert(lists_closest(kin, nearest(kin), at));
}

/// A parent is suggested wherever there is a relative, and it is the one that the depths and, among
/// equals, the ages of the merge bases single out.
pub proof fn law_parent_by_depths(kin: Seq<Kin>, stamps: spec_fn(Seq<char>) -> Option<i64>)
    ensures
        kin.len() == 0 ==> parent_among(kin, stamps) is None,
        kin.len() > 0 ==> exists|i: int| #[trigger]
            suggested(kin, stamps, i) && parent_among(kin, stamps) == Some(kin[i].name),
{
    if kin.len() > 0 {
        let n = kin.len() as int;
        let ties = nearest(kin);
        let at = nearest_at(kin, n);
        lemma_nearest_at(kin, n);
        let best = lemma_some_nearest(kin, n);
        assert(is_nearest(kin, kin[best]));
        assert(at.contains(best));
        let taken = if ties.len() == 1 {
            0
        } else {
            tie_break(ties, stamps)
        };
        let i = at[taken];
        let one = kin[i];
        assert(ties[taken] == one);
        assert(is_nearest(kin, one));
        assert forall|j: int|
            0 <= j < n && (#[trigger] kin[j]).branch_depth == one.branch_depth
                && kin[j].candidate_depth == one.candidate_depth implies at.contains(j) by {
            assert forall|x: int| 0 <= x < kin.len() implies !(#[trigger] kin[x]).nearer(kin[j]) by {
                assert(!kin[x].nearer(one));
            }
            assert(is_nearest(kin, kin[j]));
        }
        assert forall|j: int|
            0 <= j < n && (#[trigger] kin[j]).branch_depth == one.branch_depth
                && kin[j].candidate_depth == one.candidate_depth implies (stamps(
            kin[j].merge_base,
        ) matches Some(age) ==> age == i64::MIN || (stamps(one.merge_base) matches Some(own)
            && own >= age)) by {
            let t = choose|t: int| 0 <= t < at.len() && at[t] == j;
            assert(ties[t] == kin[j]);
            lemma_taken(ties, stamps, taken, t);
        }
        assert forall|j: int|
            0 <= j < i && (#[trigger] kin[j]).branch_depth == one.branch_depth
                && kin[j].candidate_depth == one.candidate_depth implies (stamps(
            one.merge_base,
        ) matches Some(own) && own > i64::MIN && (stamps(kin[j].merge_base) matches Some(age)
            ==> age < own)) by {
            let t = choose|t: int| 0 <= t < at.len() && at[t] == j;
            assert(ties[t] == kin[j]);
            if taken < t {
                assert(at[taken] < at[t]);
            }
            lemma_taken(ties, stamps, taken, t);
        }
        assert forall|j: int|
            0 <= j < n && (#[trigger] kin[j]).candidate_depth == 0 implies one.candidate_depth == 0 by {
            assert(!kin[j].nearer(one));
        }
        assert forall|j: int|
            0 <= j < n && ((#[trigger] kin[j]).candidate_depth == 0) == (one.candidate_depth
                == 0) implies one.branch_depth <= kin[j].branch_depth by {
            assert(!kin[j].nearer(one));
        }
        assert forall|j: int|
            0 <= j < n && ((#[trigger] kin[j]).candidate_depth == 0) == (one.candidate_depth == 0)
                && kin[j].branch_depth == one.branch_depth implies one.candidate_depth
            <= kin[j].candidate_depth by {
            assert(!kin[j].nearer(one));
        }
        assert(suggested(kin, stamps, i));
    } else {
        assert(nearest_of_first(kin, 0) =~= seq![]);
    }
}

/// Among ties the one that is taken is the youngest, or the first where no age is known.
proof fn lemma_taken(
    ties: Seq<Kin>,
    stamps: spec_fn(Seq<char>) -> Option<i64>,
    taken: int,
    t: int,
)
    requires
        0 <= t < ties.len(),
        taken == (if ties.len() == 1 {
            0
        } else {
            tie_break(ties, stamps)
        }),
    ensures
        0 <= taken < ties.len(),
        stamps(ties[t].merge_base) matches Some(age) ==> age == i64::MIN || (stamps(
            ties[taken].merge_base,
        ) matches Some(own) && own >= age),
        t < taken ==> (stamps(ties[taken].merge_base) matches Some(own) && own > i64::MIN && (stamps(
            ties[t].merge_base,
        ) matches Some(age) ==> age < own)),
{
    if ties.len() > 1 && !exists|at: int| is_youngest(ties, stamps, at) {
        if let Some(age) = stamps(ties[t].merge_base) {
            if age > i64::MIN {
                let at = lemma_some_youngest(ties, stamps, ties.len() as int, t);
                assert(is_youngest(ties, stamps, at));
            }
        }
    }
}

/// If the age of one of the first `k` is known, there is a youngest among them.
proof fn lemma_some_youngest(
    ties: Seq<Kin>,
    stamps: spec_fn(Seq<char>) -> Option<i64>,
    k: int,
    t: int,
) -> (at: int)
    requires
        0 <= t < k <= ties.len(),
        stamps(ties[t].merge_base) is Some,
        stamps(ties[t].merge_base)->0 > i64::MIN,
    ensures
        is_youngest(ties.take(k), stamps, at),
        k == ties.len() ==> is_youngest(ties, stamps, at),
    decreases k,
{
    let few = ties.take(k);
    assert(k == ties.len() ==> few =~= ties);
    let last = k - 1;
    let known = exists|s: int|
        0 <= s < last && stamps((#[trigger] ties[s]).merge_base) is Some && stamps(
            ties[s].merge_base,
        )->0 > i64::MIN;
    if known {
        let s = choose|s: int|
            0 <= s < last && stamps((#[trigger] ties[s]).merge_base) is Some && stamps(
                ties[s].merge_base,
            )->0 > i64::MIN;
        let older = lemma_some_youngest(ties, stamps, last, s);
        let fewer = ties.take(last);
        assert(forall|i: int| 0 <= i < last ==> few[i] == fewer[i]);
        assert forall|i: int|
            0 <= i < last && stamps((#[trigger] few[i]).merge_base) is Some implies stamps(
            few[i].merge_base,
        )->0 <= stamps(fewer[older].merge_base)->0 by {
            assert(fewer[i] == few[i]);
        }
        if stamps(few[last].merge_base) is Some && stamps(few[last].merge_base)->0 > stamps(
            fewer[older].merge_base,
        )->0 {
            last
        } else {
            assert forall|i: int|
                0 <= i < older && stamps((#[trigger] few[i]).merge_base) is Some implies stamps(
                few[i].merge_base,
            )->0 < stamps(few[older].merge_base)->0 by {
                assert(fewer[i] == few[i]);
            }
            older
        }
    } else {
        assert(t == last);
        assert forall|i: int|
            0 <= i < last && stamps((#[trigger] few[i]).merge_base) is Some implies stamps(
            few[i].merge_base,
        )->0 <= i64::MIN by {
            assert(ties[i] == few[i]);
        }
        last
    }
}

fn is_nearer(one: &Relative, other: &Relative) -> (nearer: bool)
    ensures
        nearer == one@.nearer(other@),
{
    if (one.candidate_depth == 0) != (other.candidate_depth == 0) {
        one.candidate_depth == 0
    } else if one.branch_depth != other.branch_depth {
        one.branch_depth < other.branch_depth
    } else {
        one.candidate_depth < other.candidate_depth
    }
}

fn copy(one: &Relative) -> (other: Relative)
    ensures
        other@ == one@,
{
    Relative {
        name: one.name.clone(),
        merge_base: one.merge_base.clone(),
        branch_depth: one.branch_depth,
        candidate_depth: one.candidate_depth,
    }
}

/// The nearest of `relatives`, in their order.
pub fn nearest_relatives(relatives: &Vec<Relative>) -> (ties: Vec<Relative>)
    ensures
        kindred(ties@) == nearest(kindred(relatives@)),
{
    let ghost kin = kindred(relatives@);
    let mut ties: Vec<Relative> = Vec::new();
    if relatives.len() == 0 {
        assert(kindred(ties@) == nearest(kin));
        return ties;
    }
    let mut best: usize = 0;
    let mut i: usize = 1;
    while i < relatives.len()
        invariant
            best < i <= relatives@.len(),
            kin == kindred(relatives@),
            forall|j: int| 0 <= j < i ==> !(#[trigger] kin[j]).nearer(kin[best as int]),
        decreases relatives@.len() - i,
    {
        if is_nearer(&relatives[i], &relatives[best]) {
            best = i;
        }
        i = i + 1;
    }
    let mut k: usize = 0;
    assert(kindred(ties@) == nearest_of_first(kin, 0));
    while k < relatives.len()
        invariant
            k <= relatives@.len(),
            best < relatives@.len(),
            kin == kindred(relatives@),
            is_nearest(kin, kin[best as int]),
            kindred(ties@) == nearest_of_first(kin, k as int),
        decreases relatives@.len() - k,
    {
        assert(kin[k as int] == relatives@[k as int]@);
        if is_nearer(&relatives[best], &relatives[k]) {
            assert(kin[best as int].nearer(kin[k as int]));
        } else {
            assert(is_nearest(kin, kin[k as int]));
            let ghost before = kindred(ties@);
            ties.push(copy(&relatives[k]));
            assert(kindred(ties@) == before.push(kin[k as int]));
        }
        k = k + 1;
    }
    ties
}

/// The position of the one of `ties` that is taken.
pub fn break_tie(ties: &Vec<Relative>, timestamps: &BranchMap<i64>) -> (at: usize)
    requires
        ties@.len() > 0,
    ensures
        at < ties@.len(),
        at == tie_break(kindred(ties@), stamps_of(timestamps@)),
{
    let ghost kin = kindred(ties@);
    let ghost stamps = stamps_of(timestamps@);
    let mut youngest: i64 = i64::MIN;
    let mut taken: Option<usize> = None;
    let mut i: usize = 0;
    while i < ties.len()
        invariant
            i <= ties@.len(),
            kin == kindred(ties@),
            stamps == stamps_of(timestamps@),
            match taken {
                Some(at) => at < i && youngest > i64::MIN && stamps(kin[at as int].merge_base)
                    == Some(youngest) && (forall|j: int|
                    0 <= j < at && stamps((#[trigger] kin[j]).merge_base) is Some ==> stamps(
                        kin[j].merge_base,
                    )->0 < youngest),
                None => youngest == i64::MIN,
            },
            forall|j: int|
                0 <= j < i && stamps((#[trigger] kin[j]).merge_base) is Some ==> stamps(
                    kin[j].merge_base,
                )->0 <= youngest,
        decreases ties@.len() - i,
    {
        assert(kin[i as int] == ties@[i as int]@);
        if let Some(timestamp) = timestamps.get(ties[i].merge_base.as_str()) {
            assert(stamps(kin[i as int].merge_base) == Some(*timestamp));
            if *timestamp > youngest {
                youngest = *timestamp;
                taken = Some(i);
            }
        }
        i = i + 1;
    }
    match taken {
        Some(at) => {
            proof {
                assert(is_youngest(kin, stamps, at as int));
                let other = choose|at: int| is_youngest(kin, stamps, at);
                lemma_one_youngest(kin, stamps, at as int, other);
            }
            at
        },
        None => {
            assert forall|at: int| !is_youngest(kin, stamps, at) by {
                if 0 <= at < kin.len() {
                    let tie = kin[at];
                }
            }
            0
        },
    }
}

} // verus!
