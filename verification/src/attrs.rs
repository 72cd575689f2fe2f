//! The attributes of an element: a finite mapping from names to values.

use vstd::prelude::*;
use crate::text::str_eq;

verus! {

/// A mapping from attribute names to attribute values. A name occurs at most
/// once; inserting under a name that is present replaces its value.
#[derive(Debug)]
pub struct AttrMap {
    entries: Vec<(String, String)>,
}

/// The names of `entries`, in their order.
pub open spec fn names_of(entries: Seq<(String, String)>) -> Seq<Seq<char>> {
    Seq::new(entries.len(), |i: int| entries[i].0@)
}

/// The mapping that `entries` stands for, where no name occurs twice.
pub open spec fn mapping_of(entries: Seq<(String, String)>) -> Map<Seq<char>, Seq<char>> {
    Map::new(
        |k: Seq<char>| names_of(entries).contains(k),
        |k: Seq<char>| entries[names_of(entries).index_of(k)].1@,
    )
}

proof fn lemma_mapping_at(entries: Seq<(String, String)>, i: int)
    requires
        names_of(entries).no_duplicates(),
        0 <= i < entries.len(),
    ensures
        mapping_of(entries).contains_key(entries[i].0@),
        mapping_of(entries)[entries[i].0@] == entries[i].1@,
{
    let names = names_of(entries);
    assert(names[i] == entries[i].0@);
    let j = names.index_of(entries[i].0@);
    assert(names[j] == names[i]);
}

proof fn lemma_mapping_len(entries: Seq<(String, String)>)
    requires
        names_of(entries).no_duplicates(),
    ensures
        mapping_of(entries).dom().finite(),
        mapping_of(entries).dom().len() == entries.len(),
{
    let names = names_of(entries);
    names.unique_seq_to_set();
    assert(mapping_of(entries).dom() =~= names.to_set());
}

proof fn lemma_mapping_push(before: Seq<(String, String)>, entry: (String, String))
    requires
        names_of(before).no_duplicates(),
        !names_of(before).contains(entry.0@),
    ensures
        names_of(before.push(entry)).no_duplicates(),
        mapping_of(before.push(entry)) == mapping_of(before).insert(entry.0@, entry.1@),
{
    let after = before.push(entry);
    let target = mapping_of(before).insert(entry.0@, entry.1@);
    assert(names_of(after) =~= names_of(before).push(entry.0@));
    assert(names_of(after).no_duplicates());
    assert forall|k: Seq<char>| #[trigger] mapping_of(after).dom().contains(k) <==> target.dom().contains(k) by {
        if names_of(before).contains(k) {
            let j = names_of(before).index_of(k);
            assert(names_of(after)[j] == k);
        }
        if k == entry.0@ {
            assert(names_of(after)[before.len() as int] == k);
        }
        if names_of(after).contains(k) {
            let j = names_of(after).index_of(k);
            if j < before.len() {
                assert(names_of(before)[j] == k);
            }
        }
    }
    assert(mapping_of(after).dom() =~= target.dom());
    assert forall|k: Seq<char>| target.dom().contains(k) implies #[trigger] mapping_of(after)[k] == target[k] by {
        if k == entry.0@ {
            lemma_mapping_at(after, before.len() as int);
        } else {
            let j = names_of(before).index_of(k);
            assert(names_of(before)[j] == k);
            lemma_mapping_at(before, j);
            lemma_mapping_at(after, j);
        }
    }
    assert(mapping_of(after) =~= target);
}

proof fn lemma_mapping_update(before: Seq<(String, String)>, i: int, entry: (String, String))
    requires
        names_of(before).no_duplicates(),
        0 <= i < before.len(),
        before[i].0@ == entry.0@,
    ensures
        names_of(before.update(i, entry)).no_duplicates(),
        mapping_of(before.update(i, entry)) == mapping_of(before).insert(entry.0@, entry.1@),
{
    let after = before.update(i, entry);
    let target = mapping_of(before).insert(entry.0@, entry.1@);
    assert(names_of(after) =~= names_of(before));
    assert(names_of(before)[i] == entry.0@);
    assert(mapping_of(after).dom() =~= target.dom());
    assert forall|k: Seq<char>| target.dom().contains(k) implies #[trigger] mapping_of(after)[k] == target[k] by {
        let j = names_of(before).index_of(k);
        assert(names_of(before)[j] == k);
        lemma_mapping_at(before, j);
        lemma_mapping_at(after, j);
    }
    assert(mapping_of(after) =~= target);
}

impl View for AttrMap {
    type V = Map<Seq<char>, Seq<char>>;

    closed spec fn view(&self) -> Map<Seq<char>, Seq<char>> {
        mapping_of(self.entries@)
    }
}

impl AttrMap {
    #[verifier::type_invariant]
    spec fn names_are_unique(self) -> bool {
        names_of(self.entries@).no_duplicates()
    }

    /// An empty mapping.
    pub fn new() -> (m: AttrMap)
        ensures
            m@ == Map::<Seq<char>, Seq<char>>::empty(),
    {
        let m = AttrMap { entries: Vec::new() };
        assert(m@ =~= Map::<Seq<char>, Seq<char>>::empty());
        m
    }

    /// The number of names in the mapping.
    pub fn len(&self) -> (n: usize)
        ensures
            self@.dom().finite(),
            n == self@.dom().len(),
    {
        proof {
            use_type_invariant(self);
            lemma_mapping_len(self.entries@);
        }
        self.entries.len()
    }

    /// The index of the entry named `name`, if there is one.
    fn position_of(&self, name: &str) -> (r: Option<usize>)
        ensures
            match r {
                Some(i) => i < self.entries.len() && self.entries[i as int].0@ == name@,
                None => !names_of(self.entries@).contains(name@),
            },
    {
        let mut i: usize = 0;
        while i < self.entries.len()
            invariant
                i <= self.entries.len(),
                forall|j: int| 0 <= j < i ==> self.entries[j].0@ != name@,
            decreases self.entries.len() - i,
        {
            if str_eq(self.entries[i].0.as_str(), name) {
                return Some(i);
            }
            i += 1;
        }
        None
    }

    /// The value stored under `name`, if there is one.
    pub fn get(&self, name: &str) -> (r: Option<&String>)
        ensures
            match r {
                Some(value) => self@.contains_key(name@) && value@ == self@[name@],
                None => !self@.contains_key(name@),
            },
    {
        proof {
            use_type_invariant(self);
        }
        match self.position_of(name) {
            Some(i) => {
                proof {
                    lemma_mapping_at(self.entries@, i as int);
                }
                Some(&self.entries[i].1)
            },
            None => None,
        }
    }

    /// Stores `value` under `name`, in place of what was stored there.
    pub fn insert(&mut self, name: String, value: String)
        ensures
            final(self)@ == old(self)@.insert(name@, value@),
    {
        proof {
            use_type_invariant(&*self);
        }
        let ghost before = self.entries@;
        let found = self.position_of(name.as_str());
        let mut entries: Vec<(String, String)> = Vec::new();
        core::mem::swap(&mut self.entries, &mut entries);
        match found {
            Some(i) => {
                proof {
                    lemma_mapping_update(before, i as int, (name, value));
                }
                entries.set(i, (name, value));
            },
            None => {
                proof {
                    lemma_mapping_push(before, (name, value));
                }
                entries.push((name, value));
            },
        }
        core::mem::swap(&mut self.entries, &mut entries);
    }

    /// The names with their values, each name once, in no particular order.
    pub fn entries(&self) -> (r: &Vec<(String, String)>)
        ensures
            r@.len() == self@.dom().len(),
            names_of(r@).no_duplicates(),
            forall|i: int| 0 <= i < r@.len() ==> self@.contains_pair(#[trigger] r@[i].0@, r@[i].1@),
    {
        proof {
            use_type_invariant(self);
            lemma_mapping_len(self.entries@);
            assert forall|i: int| 0 <= i < self.entries@.len() implies self@.contains_pair(
                #[trigger] self.entries@[i].0@,
                self.entries@[i].1@,
            ) by {
                lemma_mapping_at(self.entries@, i);
            }
        }
        &self.entries
    }
}

} // verus!
