//! A map from branch names.

use vstd::prelude::*;

use crate::text;

verus! {

/// A map whose keys are branch names. Entries stay in the order in which their names came first.
#[derive(Debug)]
pub struct BranchMap<V> {
    entries: Vec<(String, V)>,
}

/// Whether `found` is where `name` stands among `entries`.
pub open spec fn entry_at<V>(entries: Seq<(String, V)>, name: Seq<char>, found: int) -> bool {
    0 <= found < entries.len() && entries[found].0@ == name
}

/// Whether no two entries have one name.
pub open spec fn distinct_names<V>(entries: Seq<(String, V)>) -> bool {
    forall|i: int, j: int|
        0 <= i < j < entries.len() ==> #[trigger] entries[i].0@ != #[trigger] entries[j].0@
}

/// The map that `entries` write out.
pub open spec fn entry_map<V>(entries: Seq<(String, V)>) -> Map<Seq<char>, V>
    decreases entries.len(),
{
    if entries.len() == 0 {
        Map::empty()
    } else {
        entry_map(entries.drop_last()).insert(entries.last().0@, entries.last().1)
    }
}

/// Whether `names` are the names of `map`, each once.
pub open spec fn lists_names<V>(names: Seq<Seq<char>>, map: Map<Seq<char>, V>) -> bool {
    &&& names.no_duplicates()
    &&& forall|name: Seq<char>| names.contains(name) <==> #[trigger] map.contains_key(name)
}

/// The texts behind a map of strings.
pub open spec fn text_map(map: Map<Seq<char>, String>) -> Map<Seq<char>, Seq<char>> {
    map.map_values(|text: String| text@)
}

proof fn lemma_entry_map<V>(entries: Seq<(String, V)>)
    requires
        distinct_names(entries),
    ensures
        entry_map(entries).dom().finite(),
        entry_map(entries).dom().len() == entries.len(),
        forall|i: int|
            0 <= i < entries.len() ==> entry_map(entries).contains_key(#[trigger] entries[i].0@)
                && entry_map(entries)[entries[i].0@] == entries[i].1,
        forall|name: Seq<char>| #[trigger]
            entry_map(entries).contains_key(name) ==> exists|i: int| entry_at(entries, name, i),
    decreases entries.len(),
{
    if entries.len() > 0 {
        let front = entries.drop_last();
        let last = entries.last();
        assert forall|i: int, j: int| 0 <= i < j < front.len() implies #[trigger] front[i].0@
            != #[trigger] front[j].0@ by {
            assert(entries[i].0@ != entries[j].0@);
        }
        lemma_entry_map(front);
        assert(!entry_map(front).contains_key(last.0@)) by {
            if entry_map(front).contains_key(last.0@) {
                let i = choose|i: int| entry_at(front, last.0@, i);
                assert(entries[i].0@ != entries[entries.len() - 1].0@);
            }
        }
        assert forall|i: int| 0 <= i < entries.len() implies entry_map(entries).contains_key(
            #[trigger] entries[i].0@,
        ) && entry_map(entries)[entries[i].0@] == entries[i].1 by {
            if i < entries.len() - 1 {
                assert(front[i] == entries[i]);
                assert(entries[i].0@ != entries[entries.len() - 1].0@);
            }
        }
        assert forall|name: Seq<char>| #[trigger]
            entry_map(entries).contains_key(name) implies exists|i: int| entry_at(
            entries,
            name,
            i,
        ) by {
            if name == last.0@ {
                assert(entry_at(entries, name, entries.len() - 1));
            } else {
                let i = choose|i: int| entry_at(front, name, i);
                assert(entry_at(entries, name, i));
            }
        }
    }
}

proof fn lemma_entry_held<V>(entries: Seq<(String, V)>, i: int)
    requires
        0 <= i < entries.len(),
    ensures
        entry_map(entries).contains_key(entries[i].0@),
    decreases entries.len(),
{
    if i < entries.len() - 1 {
        assert(entries.drop_last()[i] == entries[i]);
        lemma_entry_held(entries.drop_last(), i);
    }
}

/// Each of its names has its value in a map.
pub proof fn law_names_held<V>(map: BranchMap<V>, i: int)
    requires
        0 <= i < map.names().len(),
    ensures
        map@.contains_key(map.names()[i]),
{
    lemma_entry_held(map.entries@, i);
}

impl<V> View for BranchMap<V> {
    type V = Map<Seq<char>, V>;

    closed spec fn view(&self) -> Map<Seq<char>, V> {
        entry_map(self.entries@)
    }
}

impl<V> BranchMap<V> {
    #[verifier::type_invariant]
    spec fn names_differ(self) -> bool {
        distinct_names(self.entries@)
    }

    /// The names of the map, in the order in which they came first.
    pub closed spec fn names(&self) -> Seq<Seq<char>> {
        Seq::new(self.entries@.len(), |i: int| self.entries@[i].0@)
    }

    /// A map without entries.
    pub fn new() -> (map: Self)
        ensures
            map@ == Map::<Seq<char>, V>::empty(),
            map.names().len() == 0,
    {
        BranchMap { entries: Vec::new() }
    }

    fn position(&self, name: &str) -> (found: Option<usize>)
        ensures
            match found {
                Some(i) => entry_at(self.entries@, name@, i as int),
                None => forall|i: int| !entry_at(self.entries@, name@, i),
            },
    {
        let mut i: usize = 0;
        while i < self.entries.len()
            invariant
                i <= self.entries@.len(),
                forall|j: int| 0 <= j < i ==> #[trigger] self.entries@[j].0@ != name@,
            decreases self.entries@.len() - i,
        {
            if text::same(self.entries[i].0.as_str(), name) {
                return Some(i);
            }
            i = i + 1;
        }
        None
    }

    /// What the map holds under `name`.
    pub fn get(&self, name: &str) -> (value: Option<&V>)
        ensures
            match value {
                Some(found) => self@.contains_key(name@) && self@[name@] == *found,
                None => !self@.contains_key(name@),
            },
    {
        proof {
            use_type_invariant(self);
            lemma_entry_map(self.entries@);
        }
        match self.position(name) {
            Some(i) => Some(&self.entries[i].1),
            None => None,
        }
    }

    /// Whether the map holds something under `name`.
    pub fn contains_key(&self, name: &str) -> (held: bool)
        ensures
            held == self@.contains_key(name@),
    {
        proof {
            use_type_invariant(self);
            lemma_entry_map(self.entries@);
        }
        self.position(name).is_some()
    }

    /// How many names the map has.
    pub fn len(&self) -> (count: usize)
        ensures
            self@.dom().finite(),
            count == self@.dom().len(),
            count == self.names().len(),
            lists_names(self.names(), self@),
    {
        proof {
            use_type_invariant(self);
            lemma_entry_map(self.entries@);
            let names = self.names();
            assert forall|name: Seq<char>| names.contains(name) <==> #[trigger]
                self@.contains_key(name) by {
                if self@.contains_key(name) {
                    let i = choose|i: int| entry_at(self.entries@, name, i);
                    assert(names[i] == name);
                }
                if names.contains(name) {
                    let i = choose|i: int| 0 <= i < names.len() && names[i] == name;
                    assert(self.entries@[i].0@ == name);
                }
            }
            assert forall|i: int, j: int|
                0 <= i < names.len() && 0 <= j < names.len() && i != j implies names[i]
                != names[j] by {
                if i < j {
                    assert(self.entries@[i].0@ != self.entries@[j].0@);
                } else {
                    assert(self.entries@[j].0@ != self.entries@[i].0@);
                }
            }
        }
        self.entries.len()
    }

    /// Whether the map has no name.
    pub fn is_empty(&self) -> (empty: bool)
        ensures
            empty == (self@ == Map::<Seq<char>, V>::empty()),
    {
        proof {
            use_type_invariant(self);
            lemma_entry_map(self.entries@);
            if self.entries@.len() > 0 {
                assert(self@.contains_key(self.entries@[0].0@));
            }
        }
        self.entries.len() == 0
    }

    /// Holds `value` under `name` from now on.
    pub fn insert(&mut self, name: String, value: V)
        ensures
            final(self)@ == old(self)@.insert(name@, value),
            final(self).names() == (if old(self)@.contains_key(name@) {
                old(self).names()
            } else {
                old(self).names().push(name@)
            }),
    {
        proof {
            use_type_invariant(&*self);
            lemma_entry_map(self.entries@);
        }
        let ghost before = self.entries@;
        let mut entries: Vec<(String, V)> = Vec::new();
        let found = self.position(name.as_str());
        std::mem::swap(&mut entries, &mut self.entries);
        match found {
            Some(i) => {
                entries.set(i, (name, value));
            },
            None => {
                entries.push((name, value));
            },
        }
        proof {
            assert forall|i: int, j: int| 0 <= i < j < entries@.len() implies #[trigger]
                entries@[i].0@ != #[trigger] entries@[j].0@ by {
                if found is None && j == before.len() {
                    assert(!entry_at(before, name@, i));
                } else {
                    assert(before[i].0@ != before[j].0@);
                }
            }
            lemma_entry_map(entries@);
            if found is None {
                assert(entries@.drop_last() == before);
            } else {
                let at = found->0 as int;
                let expected = entry_map(before).insert(name@, value);
                assert forall|key: Seq<char>| #[trigger]
                    entry_map(entries@).contains_key(key) == expected.contains_key(key) by {
                    if entry_map(entries@).contains_key(key) {
                        let i = choose|i: int| entry_at(entries@, key, i);
                        assert(before[i].0@ == key);
                    }
                    if entry_map(before).contains_key(key) {
                        let i = choose|i: int| entry_at(before, key, i);
                        assert(entries@[i].0@ == key);
                    }
                }
                assert forall|key: Seq<char>| #[trigger]
                    expected.contains_key(key) implies entry_map(entries@)[key] == expected[key] by {
                    assert(entry_map(entries@).contains_key(key));
                    let i = choose|i: int| entry_at(entries@, key, i);
                    if i != at {
                        assert(entries@[i] == before[i]);
                        assert(before[i].0@ == key);
                        assert(entries@[at].0@ == name@);
                        if i < at {
                            assert(entries@[i].0@ != entries@[at].0@);
                        } else {
                            assert(entries@[at].0@ != entries@[i].0@);
                        }
                    }
                }
                assert(entry_map(entries@) =~= expected);
            }
        }
        self.entries = entries;
        assert(self.names() =~= (if old(self)@.contains_key(name@) {
            old(self).names()
        } else {
            old(self).names().push(name@)
        }));
    }

    /// The name at position `i`.
    pub fn name_at(&self, i: usize) -> (name: &String)
        requires
            i < self.names().len(),
        ensures
            name@ == self.names()[i as int],
            self@.contains_key(name@),
    {
        proof {
            use_type_invariant(self);
            lemma_entry_map(self.entries@);
        }
        &self.entries[i].0
    }

    /// The value at position `i`.
    pub fn value_at(&self, i: usize) -> (value: &V)
        requires
            i < self.names().len(),
        ensures
            *value == self@[self.names()[i as int]],
    {
        proof {
            use_type_invariant(self);
            lemma_entry_map(self.entries@);
        }
        &self.entries[i].1
    }
}

} // verus!
