//! The order of names: character by character, a prefix before what it begins.

use vstd::prelude::*;

use crate::text;

verus! {

/// Whether `left` comes before `right` in the order of strings.
pub open spec fn precedes(left: Seq<char>, right: Seq<char>) -> bool
    decreases left.len(),
{
    if right.len() == 0 {
        false
    } else if left.len() == 0 {
        true
    } else if left[0] != right[0] {
        left[0] < right[0]
    } else {
        precedes(left.drop_first(), right.drop_first())
    }
}

/// Whether no name comes before one that stands to its left.
pub open spec fn in_order(names: Seq<Seq<char>>) -> bool {
    forall|i: int, j: int|
        0 <= i < j < names.len() ==> !precedes(#[trigger] names[j], #[trigger] names[i])
}

/// No name comes before itself.
pub proof fn law_order_irreflexive(name: Seq<char>)
    ensures
        !precedes(name, name),
    decreases name.len(),
{
    if name.len() > 0 {
        law_order_irreflexive(name.drop_first());
    }
}

/// Of two names that differ, one comes before the other.
pub proof fn law_order_total(left: Seq<char>, right: Seq<char>)
    ensures
        left == right || precedes(left, right) || precedes(right, left),
    decreases left.len(),
{
    if left.len() > 0 && right.len() > 0 && left[0] == right[0] {
        law_order_total(left.drop_first(), right.drop_first());
        if left.drop_first() == right.drop_first() {
            assert(left == seq![left[0]] + left.drop_first());
            assert(right == seq![right[0]] + right.drop_first());
        }
    } else if left.len() == 0 && right.len() == 0 {
        assert(left == right);
    }
}

/// What comes before a name comes before all that come after it.
pub proof fn law_order_transitive(first: Seq<char>, second: Seq<char>, third: Seq<char>)
    requires
        precedes(first, second),
        precedes(second, third),
    ensures
        precedes(first, third),
    decreases first.len(),
{
    if first.len() > 0 && first[0] == second[0] && second[0] == third[0] {
        law_order_transitive(first.drop_first(), second.drop_first(), third.drop_first());
    }
}

/// Names are ordered as in a dictionary: the first character in which they differ decides, by its
/// code point, and a name comes before all that it begins.
pub proof fn law_order_of_dictionary(
    common: Seq<char>,
    a: char,
    left: Seq<char>,
    b: char,
    right: Seq<char>,
)
    ensures
        a < b ==> precedes(common.push(a) + left, common.push(b) + right) && !precedes(
            common.push(b) + right,
            common.push(a) + left,
        ),
        precedes(common, common.push(b) + right),
        !precedes(common.push(b) + right, common),
    decreases common.len(),
{
    let one = common.push(a) + left;
    let other = common.push(b) + right;
    if common.len() > 0 {
        let less = common.drop_first();
        assert(one.drop_first() =~= less.push(a) + left);
        assert(other.drop_first() =~= less.push(b) + right);
        assert(one[0] == common[0] && other[0] == common[0]);
        law_order_of_dictionary(less, a, left, b, right);
    } else {
        assert(one[0] == a && other[0] == b);
    }
}

proof fn lemma_first_first(left: Seq<Seq<char>>, right: Seq<Seq<char>>)
    requires
        left.len() > 0,
        in_order(left),
        in_order(right),
        left.no_duplicates(),
        right.no_duplicates(),
        forall|name: Seq<char>| left.contains(name) <==> right.contains(name),
    ensures
        right.len() > 0,
        left[0] == right[0],
{
    assert(left.contains(left[0]));
    assert(right.contains(left[0]));
    assert(right.contains(right[0]));
    assert(left.contains(right[0]));
    if left[0] != right[0] {
        let i = choose|i: int| 0 <= i < right.len() && right[i] == left[0];
        let j = choose|j: int| 0 <= j < left.len() && left[j] == right[0];
        assert(!precedes(right[i], right[0]));
        assert(!precedes(left[j], left[0]));
        law_order_total(left[0], right[0]);
    }
}

/// Two ordered lists that hold the same names, each once, are one.
pub proof fn law_one_order(left: Seq<Seq<char>>, right: Seq<Seq<char>>)
    requires
        in_order(left),
        in_order(right),
        left.no_duplicates(),
        right.no_duplicates(),
        forall|name: Seq<char>| left.contains(name) <==> right.contains(name),
    ensures
        left == right,
    decreases left.len(),
{
    if left.len() == 0 {
        if right.len() > 0 {
            assert(right.contains(right[0]));
        }
        assert(left =~= right);
    } else {
        lemma_first_first(left, right);
        let l = left.drop_first();
        let r = right.drop_first();
        assert(in_order(l)) by {
            assert forall|i: int, j: int| 0 <= i < j < l.len() implies !precedes(
                #[trigger] l[j],
                #[trigger] l[i],
            ) by {
                assert(!precedes(left[j + 1], left[i + 1]));
            }
        }
        assert(in_order(r)) by {
            assert forall|i: int, j: int| 0 <= i < j < r.len() implies !precedes(
                #[trigger] r[j],
                #[trigger] r[i],
            ) by {
                assert(!precedes(right[j + 1], right[i + 1]));
            }
        }
        assert(l.no_duplicates()) by {
            assert forall|i: int, j: int|
                0 <= i < l.len() && 0 <= j < l.len() && i != j implies l[i] != l[j] by {
                assert(left[i + 1] != left[j + 1]);
            }
        }
        assert(r.no_duplicates()) by {
            assert forall|i: int, j: int|
                0 <= i < r.len() && 0 <= j < r.len() && i != j implies r[i] != r[j] by {
                assert(right[i + 1] != right[j + 1]);
            }
        }
        assert forall|name: Seq<char>| l.contains(name) <==> r.contains(name) by {
            if l.contains(name) {
                let i = choose|i: int| 0 <= i < l.len() && l[i] == name;
                assert(left[i + 1] == name && left[i + 1] != left[0]);
                assert(left.contains(name));
                let j = choose|j: int| 0 <= j < right.len() && right[j] == name;
                assert(r[j - 1] == name);
            }
            if r.contains(name) {
                let i = choose|i: int| 0 <= i < r.len() && r[i] == name;
                assert(right[i + 1] == name && right[i + 1] != right[0]);
                assert(right.contains(name));
                let j = choose|j: int| 0 <= j < left.len() && left[j] == name;
                assert(l[j - 1] == name);
            }
        }
        law_one_order(l, r);
        assert(left =~= seq![left[0]] + l);
        assert(right =~= seq![right[0]] + r);
    }
}

/// Whether `left` comes before `right`.
pub fn comes_before(left: &str, right: &str) -> (before: bool)
    ensures
        before == precedes(left@, right@),
{
    let a = text::to_chars(left);
    let b = text::to_chars(right);
    let mut i: usize = 0;
    assert(a@.skip(0) == a@ && b@.skip(0) == b@);
    while i < a.len() && i < b.len()
        invariant
            i <= a@.len(),
            i <= b@.len(),
            a@ == left@,
            b@ == right@,
            precedes(a@.skip(i as int), b@.skip(i as int)) == precedes(a@, b@),
        decreases a@.len() - i,
    {
        assert(a@.skip(i as int).drop_first() == a@.skip(i + 1));
        assert(b@.skip(i as int).drop_first() == b@.skip(i + 1));
        if a[i] != b[i] {
            return a[i] < b[i];
        }
        i = i + 1;
    }
    i < b.len()
}

/// Puts `item` into an ordered list, behind what does not come after it.
pub fn insert_in_order(list: &mut Vec<String>, item: String)
    requires
        in_order(text::texts(old(list)@)),
    ensures
        in_order(text::texts(final(list)@)),
        exists|at: int|
            0 <= at <= old(list)@.len() && #[trigger] old(list)@.insert(at, item) == final(list)@,
{
    let mut at: usize = list.len();
    while at > 0 && comes_before(item.as_str(), list[at - 1].as_str())
        invariant
            at <= list@.len(),
            list@ == old(list)@,
            in_order(text::texts(list@)),
            forall|j: int| at <= j < list@.len() ==> precedes(item@, #[trigger] list@[j]@),
        decreases at,
    {
        at = at - 1;
    }
    let ghost before = list@;
    let ghost name = item@;
    list.insert(at, item);
    let ghost after = text::texts(list@);
    proof {
        assert forall|i: int, j: int| 0 <= i < j < after.len() implies !precedes(
            #[trigger] after[j],
            #[trigger] after[i],
        ) by {
            let old_i = if i < at { i } else { i - 1 };
            let old_j = if j < at { j } else { j - 1 };
            if i == at {
                assert(after[j] == before[j - 1]@);
                law_order_irreflexive(name);
                if precedes(after[j], name) {
                    law_order_transitive(name, before[j - 1]@, name);
                }
            } else if j == at {
                assert(after[i] == before[i]@);
                if precedes(name, after[i]) {
                    // The loop stopped at an entry that `name` does not come before.
                    assert(at > 0);
                    assert(!precedes(name, before[at - 1]@));
                    if i < at - 1 {
                        assert(!precedes(text::texts(before)[at - 1], text::texts(before)[i]));
                        law_order_total(text::texts(before)[at - 1], text::texts(before)[i]);
                        if before[at - 1]@ != before[i]@ {
                            law_order_transitive(name, before[i]@, before[at - 1]@);
                        }
                    }
                }
            } else {
                assert(after[i] == text::texts(before)[old_i]);
                assert(after[j] == text::texts(before)[old_j]);
            }
        }
    }
    assert(before.insert(at as int, item) == list@);
}

/// A list into which a new name is put holds that name and what it held, each once.
pub proof fn lemma_put_in(
    before: Seq<Seq<char>>,
    after: Seq<Seq<char>>,
    at: int,
    name: Seq<char>,
)
    requires
        0 <= at <= before.len(),
        after == before.insert(at, name),
        before.no_duplicates(),
        !before.contains(name),
    ensures
        after.no_duplicates(),
        forall|c: Seq<char>| #[trigger] after.contains(c) <==> before.contains(c) || c == name,
{
    assert forall|i: int, j: int|
        0 <= i < after.len() && 0 <= j < after.len() && i != j implies after[i] != after[j] by {
        let old_i = if i < at {
            i
        } else {
            i - 1
        };
        let old_j = if j < at {
            j
        } else {
            j - 1
        };
        if i == at {
            assert(after[j] == before[old_j]);
        } else if j == at {
            assert(after[i] == before[old_i]);
        } else {
            assert(before[old_i] != before[old_j]);
        }
    }
    assert forall|c: Seq<char>| #[trigger] after.contains(c) <==> before.contains(c) || c
        == name by {
        if after.contains(c) {
            let i = choose|i: int| 0 <= i < after.len() && after[i] == c;
            if i < at {
                assert(before[i] == c);
            } else if i > at {
                assert(before[i - 1] == c);
            }
        }
        if before.contains(c) {
            let i = choose|i: int| 0 <= i < before.len() && before[i] == c;
            if i < at {
                assert(after[i] == c);
            } else {
                assert(after[i + 1] == c);
            }
        }
        assert(after[at] == name);
    }
}

/// The names up to and with `k` are those before and the one at `k`.
pub proof fn lemma_take_more(names: Seq<Seq<char>>, k: int, c: Seq<char>)
    requires
        0 <= k < names.len(),
    ensures
        names.take(k + 1).contains(c) <==> names.take(k).contains(c) || c == names[k],
{
    let more = names.take(k + 1);
    let fewer = names.take(k);
    if more.contains(c) {
        let i = choose|i: int| 0 <= i < more.len() && more[i] == c;
        if i < k {
            assert(fewer[i] == c);
        }
    }
    if fewer.contains(c) {
        let i = choose|i: int| 0 <= i < fewer.len() && fewer[i] == c;
        assert(more[i] == c);
    }
    assert(more[k] == names[k]);
}

/// Of two names of which neither comes before the other, both come before the same names.
proof fn lemma_not_after(first: Seq<char>, second: Seq<char>, third: Seq<char>)
    requires
        !precedes(second, first),
        !precedes(third, second),
    ensures
        !precedes(third, first),
{
    if precedes(third, first) {
        law_order_total(second, first);
        law_order_total(third, second);
        if second != first && third != second {
            law_order_transitive(third, first, second);
        }
    }
}

/// There is a place for `name` in an ordered list.
proof fn lemma_place(names: Seq<Seq<char>>, name: Seq<char>) -> (at: int)
    requires
        in_order(names),
    ensures
        0 <= at <= names.len(),
        in_order(names.insert(at, name)),
    decreases names.len(),
{
    let n = names.len() as int;
    if n == 0 {
        0
    } else if !precedes(name, names.last()) {
        let all = names.insert(n, name);
        assert forall|i: int, j: int| 0 <= i < j < all.len() implies !precedes(
            #[trigger] all[j],
            #[trigger] all[i],
        ) by {
            if j == n {
                assert(names[i] == all[i]);
                if i < n - 1 {
                    assert(!precedes(names[n - 1], names[i]));
                    lemma_not_after(names[i], names[n - 1], name);
                }
            } else {
                assert(!precedes(names[j], names[i]));
            }
        }
        n
    } else {
        let front = names.drop_last();
        assert(in_order(front)) by {
            assert forall|i: int, j: int| 0 <= i < j < front.len() implies !precedes(
                #[trigger] front[j],
                #[trigger] front[i],
            ) by {
                assert(!precedes(names[j], names[i]));
            }
        }
        let at = lemma_place(front, name);
        let placed = front.insert(at, name);
        let all = names.insert(at, name);
        assert(all =~= placed.push(names.last()));
        assert forall|i: int, j: int| 0 <= i < j < all.len() implies !precedes(
            #[trigger] all[j],
            #[trigger] all[i],
        ) by {
            if j < n {
                assert(!precedes(placed[j], placed[i]));
            } else if i == at {
                if precedes(names.last(), name) {
                    law_order_transitive(name, names.last(), name);
                    law_order_irreflexive(name);
                }
            } else {
                let old_i = if i < at {
                    i
                } else {
                    i - 1
                };
                assert(all[i] == names[old_i]);
                assert(!precedes(names[n - 1], names[old_i]));
            }
        }
        at
    }
}

/// A finite set of names can be listed in order.
pub proof fn lemma_can_be_listed(set: Set<Seq<char>>) -> (names: Seq<Seq<char>>)
    requires
        set.finite(),
    ensures
        in_order(names),
        names.no_duplicates(),
        forall|c: Seq<char>| #[trigger] names.contains(c) <==> set.contains(c),
    decreases set.len(),
{
    if set.len() == 0 {
        assert(set =~= Set::empty());
        seq![]
    } else {
        let name = set.choose();
        let fewer = lemma_can_be_listed(set.remove(name));
        let at = lemma_place(fewer, name);
        assert(!fewer.contains(name)) by {
            assert(fewer.contains(name) <==> set.remove(name).contains(name));
        }
        lemma_put_in(fewer, fewer.insert(at, name), at, name);
        let all = fewer.insert(at, name);
        assert forall|c: Seq<char>| #[trigger] all.contains(c) <==> set.contains(c) by {
            assert(fewer.contains(c) <==> set.remove(name).contains(c));
        }
        all
    }
}

} // verus!
