//! A map from names to values that iterates in sorted name order.

use vstd::prelude::*;
use crate::text::{precedes, same_text};
#[allow(unused_imports)]
use crate::text;

verus! {

/// A map keyed by name, kept as a vector sorted by name so that walking it is deterministic.
#[derive(Debug)]
pub struct NameMap<V> {
    entries: Vec<(String, V)>,
}

/// Whether the names of `entries` are strictly increasing.
spec fn strictly_sorted<V>(entries: Seq<(String, V)>) -> bool {
    forall|i: int, j: int|
        0 <= i < j < entries.len() ==> text::text_less(
            #[trigger] entries[i].0@,
            #[trigger] entries[j].0@,
        )
}

/// The map that a list of name/value pairs stands for.
pub open spec fn entries_map<V>(entries: Seq<(String, V)>) -> Map<Seq<char>, V> {
    Map::new(
        |name: Seq<char>| exists|i: int| 0 <= i < entries.len() && #[trigger] entries[i].0@ == name,
        |name: Seq<char>|
            entries[choose|i: int| 0 <= i < entries.len() && #[trigger] entries[i].0@ == name].1,
    )
}

impl<V> NameMap<V> {
    #[verifier::type_invariant]
    spec fn sorted(self) -> bool {
        strictly_sorted(self.entries@)
    }

    /// The pairs of the map in the order in which they are walked.
    pub closed spec fn pairs(self) -> Seq<(String, V)> {
        self.entries@
    }

    /// The names of the map in the order in which they are walked.
    pub open spec fn names(self) -> Seq<Seq<char>> {
        self.pairs().map_values(|p: (String, V)| p.0@)
    }
}

impl<V> View for NameMap<V> {
    type V = Map<Seq<char>, V>;

    open spec fn view(&self) -> Map<Seq<char>, V> {
        entries_map(self.pairs())
    }
}

proof fn entry_lookup<V>(entries: Seq<(String, V)>, i: int)
    requires
        strictly_sorted(entries),
        0 <= i < entries.len(),
    ensures
        entries_map(entries).contains_key(entries[i].0@),
        entries_map(entries)[entries[i].0@] == entries[i].1,
{
    let j = choose|j: int| 0 <= j < entries.len() && #[trigger] entries[j].0@ == entries[i].0@;
    text::text_less_irreflexive(entries[i].0@);
    assert(i == j);
}

/// A sorted list of pairs maps each of its names to the value beside it.
pub proof fn pairs_lookup<V>(m: &NameMap<V>, i: int)
    requires
        0 <= i < m.pairs().len(),
        sorted_pairs(m.pairs()),
    ensures
        m@.contains_key(m.pairs()[i].0@),
        m@[m.pairs()[i].0@] == m.pairs()[i].1,
{
    entry_lookup(m.entries@, i);
}

/// The first pairs of a map, with one more, map one more name.
pub proof fn prefix_grows<V>(m: &NameMap<V>, i: int)
    requires
        0 <= i < m.pairs().len(),
        sorted_pairs(m.pairs()),
    ensures
        entries_map(m.pairs().take(i + 1)) == entries_map(m.pairs().take(i)).insert(
            m.pairs()[i].0@,
            m.pairs()[i].1,
        ),
        !entries_map(m.pairs().take(i)).contains_key(m.pairs()[i].0@),
{
    let all = m.pairs();
    let before = all.take(i);
    let after = all.take(i + 1);
    let name = all[i].0@;
    if entries_map(before).contains_key(name) {
        let k = choose|k: int| 0 <= k < before.len() && #[trigger] before[k].0@ == name;
        assert(text::text_less(all[k].0@, all[i].0@));
        text::text_less_irreflexive(name);
    }
    assert(after =~= before.insert(i, after[i]));
    NameMap::<V>::insert_models(before, after, i, name, all[i].1);
}

/// Whether the names of `pairs` are strictly increasing.
pub open spec fn sorted_pairs<V>(pairs: Seq<(String, V)>) -> bool {
    forall|i: int, j: int|
        0 <= i < j < pairs.len() ==> text::text_less(#[trigger] pairs[i].0@, #[trigger] pairs[j].0@)
}

impl<V> NameMap<V> {
    /// The empty map.
    pub fn new() -> (m: Self)
        ensures
            m@ == Map::<Seq<char>, V>::empty(),
            m.pairs().len() == 0,
    {
        let m = NameMap { entries: Vec::new() };
        proof {
            assert(m@ =~= Map::<Seq<char>, V>::empty());
        }
        m
    }

    /// The position of the first pair whose name is not below `name`.
    fn position(&self, name: &str) -> (at: usize)
        ensures
            at <= self.entries@.len(),
            forall|i: int| 0 <= i < at ==> text::text_less(#[trigger] self.entries@[i].0@, name@),
            forall|i: int|
                at <= i < self.entries@.len() ==> !text::text_less(
                    #[trigger] self.entries@[i].0@,
                    name@,
                ),
    {
        proof {
            use_type_invariant(self);
        }
        let mut i: usize = 0;
        while i < self.entries.len()
            invariant
                i <= self.entries@.len(),
                forall|k: int| 0 <= k < i ==> text::text_less(#[trigger] self.entries@[k].0@, name@),
                strictly_sorted(self.entries@),
            decreases self.entries@.len() - i,
        {
            if !precedes(self.entries[i].0.as_str(), name) {
                proof {
                    assert forall|k: int| i <= k < self.entries@.len() implies !text::text_less(
                        #[trigger] self.entries@[k].0@,
                        name@,
                    ) by {
                        if i < k && text::text_less(self.entries@[k].0@, name@) {
                            text::text_less_transitive(
                                self.entries@[i as int].0@,
                                self.entries@[k].0@,
                                name@,
                            );
                        }
                    }
                }
                return i;
            }
            i += 1;
        }
        i
    }

    /// Inserts or overwrites the value under `name`.
    pub fn insert(&mut self, name: &str, value: V)
        ensures
            final(self)@ == old(self)@.insert(name@, value),
    {
        proof {
            use_type_invariant(&*self);
        }
        let at = self.position(name);
        let mut entries: Vec<(String, V)> = Vec::new();
        std::mem::swap(&mut entries, &mut self.entries);
        let ghost before = entries@;
        let key = name.to_owned();
        if at < entries.len() && same_text(entries[at].0.as_str(), name) {
            entries[at] = (key, value);
            proof {
                assert(entries@ =~= before.update(at as int, (key, value)));
                assert forall|i: int, j: int| 0 <= i < j < entries@.len() implies text::text_less(
                    #[trigger] entries@[i].0@,
                    #[trigger] entries@[j].0@,
                ) by {
                    assert(text::text_less(before[i].0@, before[j].0@));
                }
            }
        } else {
            proof {
                if at < entries@.len() {
                    text::text_less_total(before[at as int].0@, name@);
                }
            }
            entries.insert(at, (key, value));
            proof {
                assert(entries@ =~= before.insert(at as int, (key, value)));
                assert forall|i: int, j: int| 0 <= i < j < entries@.len() implies text::text_less(
                    #[trigger] entries@[i].0@,
                    #[trigger] entries@[j].0@,
                ) by {
                    let p = if i < at { i } else { i - 1 };
                    let q = if j < at { j } else { j - 1 };
                    if i == at {
                        assert(entries@[j] == before[q]);
                        if q > at {
                            text::text_less_transitive(name@, before[at as int].0@, before[q].0@);
                        }
                    } else if j == at {
                        assert(entries@[i] == before[i]);
                    } else {
                        assert(entries@[i] == before[p]);
                        assert(entries@[j] == before[q]);
                        assert(text::text_less(before[p].0@, before[q].0@));
                    }
                }
            }
        }
        proof {
            Self::insert_models(before, entries@, at as int, name@, value);
        }
        self.entries = entries;
    }

    proof fn insert_models(
        before: Seq<(String, V)>,
        after: Seq<(String, V)>,
        at: int,
        name: Seq<char>,
        value: V,
    )
        requires
            strictly_sorted(before),
            strictly_sorted(after),
            0 <= at < after.len(),
            after[at].0@ == name,
            after[at].1 == value,
            after == before.update(at, after[at]) && at < before.len() && before[at].0@ == name || (
            after == before.insert(at, after[at]) && at <= before.len()),
        ensures
            entries_map(after) == entries_map(before).insert(name, value),
    {
        let a = entries_map(after);
        let b = entries_map(before).insert(name, value);
        entry_lookup(after, at);
        let replaced = after.len() == before.len();
        assert forall|k: Seq<char>| a.contains_key(k) == b.contains_key(k) by {
            if a.contains_key(k) && k != name {
                let i = choose|i: int| 0 <= i < after.len() && #[trigger] after[i].0@ == k;
                let p = if replaced || i < at { i } else { i - 1 };
                assert(after[i] == before[p]);
            }
            if b.contains_key(k) && k != name {
                let p = choose|i: int| 0 <= i < before.len() && #[trigger] before[i].0@ == k;
                let i = if replaced || p < at { p } else { p + 1 };
                assert(after[i] == before[p]);
            }
        }
        assert forall|k: Seq<char>| a.contains_key(k) implies a[k] == b[k] by {
            if k != name {
                let i = choose|i: int| 0 <= i < after.len() && #[trigger] after[i].0@ == k;
                let p = if replaced || i < at { i } else { i - 1 };
                assert(after[i] == before[p]);
                entry_lookup(after, i);
                entry_lookup(before, p);
            }
        }
        assert(a =~= b);
    }

    /// The value under `name`.
    pub fn get(&self, name: &str) -> (r: Option<&V>)
        ensures
            r is Some <==> self@.contains_key(name@),
            r matches Some(v) ==> *v == self@[name@],
    {
        proof {
            use_type_invariant(self);
        }
        let at = self.position(name);
        if at < self.entries.len() && same_text(self.entries[at].0.as_str(), name) {
            proof {
                entry_lookup(self.entries@, at as int);
            }
            Some(&self.entries[at].1)
        } else {
            proof {
                if self@.contains_key(name@) {
                    let i = choose|i: int|
                        0 <= i < self.entries@.len() && #[trigger] self.entries@[i].0@ == name@;
                    text::text_less_irreflexive(name@);
                    if i > at {
                        text::text_less_total(self.entries@[at as int].0@, name@);
                    }
                }
            }
            None
        }
    }

    /// Whether a value is stored under `name`.
    pub fn contains(&self, name: &str) -> (r: bool)
        ensures
            r == self@.contains_key(name@),
    {
        self.get(name).is_some()
    }

    /// The number of names.
    pub fn len(&self) -> (n: usize)
        ensures
            n == self.pairs().len(),
            n == self@.len(),
            self@.dom().finite(),
            sorted_pairs(self.pairs()),
    {
        proof {
            use_type_invariant(self);
            Self::size_of_map(self.entries@);
        }
        self.entries.len()
    }

    proof fn size_of_map(entries: Seq<(String, V)>)
        requires
            strictly_sorted(entries),
        ensures
            entries_map(entries).dom().finite(),
            entries_map(entries).len() == entries.len(),
    {
        let names = entries.map_values(|p: (String, V)| p.0@);
        assert forall|i: int, j: int|
            0 <= i < names.len() && 0 <= j < names.len() && i != j implies names[i] != names[j] by {
            text::text_less_irreflexive(names[i]);
            if i < j {
                assert(text::text_less(entries[i].0@, entries[j].0@));
            } else {
                assert(text::text_less(entries[j].0@, entries[i].0@));
            }
        }
        names.unique_seq_to_set();
        assert(entries_map(entries).dom() =~= names.to_set()) by {
            assert forall|k: Seq<char>| names.to_set().contains(k) implies entries_map(
                entries,
            ).dom().contains(k) by {
                let i = choose|i: int| 0 <= i < names.len() && names[i] == k;
                assert(entries[i].0@ == k);
            }
            assert forall|k: Seq<char>|
                entries_map(entries).dom().contains(k) implies names.to_set().contains(k) by {
                let i = choose|i: int| 0 <= i < entries.len() && #[trigger] entries[i].0@ == k;
                assert(names[i] == k);
            }
        }
    }

    /// Whether the map holds nothing.
    pub fn is_empty(&self) -> (r: bool)
        ensures
            r == (self.pairs().len() == 0),
            r == (self@.dom() =~= Set::empty()),
    {
        proof {
            if self.entries@.len() > 0 {
                assert(self@.contains_key(self.entries@[0].0@));
            }
        }
        self.entries.len() == 0
    }

    /// All pairs, in sorted name order.
    pub fn iter(&self) -> (r: Vec<(&String, &V)>)
        ensures
            r@.len() == self.pairs().len(),
            forall|i: int|
                0 <= i < r@.len() ==> *(#[trigger] r@[i]).0 == self.pairs()[i].0 && *r@[i].1
                    == self.pairs()[i].1,
            sorted_pairs(self.pairs()),
    {
        proof {
            use_type_invariant(self);
        }
        let mut out: Vec<(&String, &V)> = Vec::new();
        let mut i: usize = 0;
        while i < self.entries.len()
            invariant
                i <= self.entries@.len(),
                out@.len() == i,
                forall|k: int|
                    0 <= k < i ==> *(#[trigger] out@[k]).0 == self.entries@[k].0 && *out@[k].1
                        == self.entries@[k].1,
            decreases self.entries@.len() - i,
        {
            out.push((&self.entries[i].0, &self.entries[i].1));
            i += 1;
        }
        out
    }

    /// The `i`-th pair in sorted name order.
    pub fn entry(&self, i: usize) -> (r: (&String, &V))
        requires
            i < self.pairs().len(),
        ensures
            *r.0 == self.pairs()[i as int].0,
            *r.1 == self.pairs()[i as int].1,
            sorted_pairs(self.pairs()),
            self@.contains_key(r.0@),
            self@[r.0@] == *r.1,
    {
        proof {
            use_type_invariant(self);
            entry_lookup(self.entries@, i as int);
        }
        let e = &self.entries[i];
        (&e.0, &e.1)
    }
}

impl<V: Clone> Clone for NameMap<V> {
    fn clone(&self) -> (r: Self)
        ensures
            r.pairs().len() == self.pairs().len(),
            forall|i: int|
                0 <= i < r.pairs().len() ==> (#[trigger] r.pairs()[i]).0 == self.pairs()[i].0
                    && cloned::<V>(self.pairs()[i].1, r.pairs()[i].1),
    {
        proof {
            use_type_invariant(self);
        }
        let mut entries: Vec<(String, V)> = Vec::new();
        let mut i: usize = 0;
        while i < self.entries.len()
            invariant
                i <= self.entries@.len(),
                entries@.len() == i,
                strictly_sorted(self.entries@),
                forall|k: int|
                    0 <= k < i ==> (#[trigger] entries@[k]).0 == self.entries@[k].0 && cloned::<V>(
                        self.entries@[k].1,
                        entries@[k].1,
                    ),
            decreases self.entries@.len() - i,
        {
            entries.push((self.entries[i].0.clone(), self.entries[i].1.clone()));
            i += 1;
        }
        NameMap { entries }
    }
}

} // verus!
