//! The fields of a block that the grammar has no name for.

use vstd::prelude::*;
use vstd::std_specs::cmp::PartialEqSpecImpl;
use crate::parser::text::same_text;
use crate::parser::values::{Value, ValueView};

verus! {

/// The map that a sequence of entries builds, each entry set in turn, so
/// that the last one set for a name is the one that stays.
pub open spec fn entries_map(s: Seq<(String, Value)>) -> Map<Seq<char>, ValueView>
    decreases s.len(),
{
    if s.len() == 0 {
        Map::empty()
    } else {
        entries_map(s.drop_last()).insert(s.last().0@, s.last().1@)
    }
}

/// Whether no name occurs twice among the entries.
pub open spec fn distinct_names(s: Seq<(String, Value)>) -> bool {
    forall|i: int, j: int| 0 <= i < j < s.len() ==> (#[trigger] s[i]).0@ != (#[trigger] s[j]).0@
}

/// A name is in the map exactly when an entry has it.
pub proof fn lemma_entries_names(s: Seq<(String, Value)>, name: Seq<char>)
    ensures
        entries_map(s).contains_key(name) <==> exists|i: int|
            0 <= i < s.len() && (#[trigger] s[i]).0@ == name,
    decreases s.len(),
{
    if s.len() > 0 {
        let t = s.drop_last();
        lemma_entries_names(t, name);
        if entries_map(s).contains_key(name) {
            if s.last().0@ == name {
                assert(s[s.len() - 1].0@ == name);
            } else {
                let i = choose|i: int| 0 <= i < t.len() && (#[trigger] t[i]).0@ == name;
                assert(s[i].0@ == name);
            }
        }
        if exists|i: int| 0 <= i < s.len() && (#[trigger] s[i]).0@ == name {
            let i = choose|i: int| 0 <= i < s.len() && (#[trigger] s[i]).0@ == name;
            if i < t.len() {
                assert(t[i].0@ == name);
            }
        }
    }
}

/// Where no name occurs twice, the map holds each entry's value under its name.
pub proof fn lemma_entry_at(s: Seq<(String, Value)>, i: int)
    requires
        distinct_names(s),
        0 <= i < s.len(),
    ensures
        entries_map(s).contains_key(s[i].0@),
        entries_map(s)[s[i].0@] == s[i].1@,
    decreases s.len(),
{
    let t = s.drop_last();
    if i < s.len() - 1 {
        assert(distinct_names(t)) by {
            assert forall|a: int, b: int| 0 <= a < b < t.len() implies (#[trigger] t[a]).0@ != (
            #[trigger] t[b]).0@ by {
                assert(s[a].0@ != s[b].0@);
            }
        }
        lemma_entry_at(t, i);
        assert(s[i].0@ != s[s.len() - 1].0@);
    }
}

/// Where no name occurs twice, putting a new value in the place of an
/// entry's value is setting that name in the map.
pub proof fn lemma_entry_replaced(s: Seq<(String, Value)>, i: int, entry: (String, Value))
    requires
        distinct_names(s),
        0 <= i < s.len(),
        entry.0@ == s[i].0@,
    ensures
        entries_map(s.update(i, entry)) == entries_map(s).insert(entry.0@, entry.1@),
        distinct_names(s.update(i, entry)),
    decreases s.len(),
{
    let u = s.update(i, entry);
    let t = s.drop_last();
    assert(distinct_names(u)) by {
        assert forall|a: int, b: int| 0 <= a < b < u.len() implies (#[trigger] u[a]).0@ != (
        #[trigger] u[b]).0@ by {
            assert(s[a].0@ != s[b].0@);
        }
    }
    if i == s.len() - 1 {
        assert(u.drop_last() =~= t);
        assert(entries_map(u) =~= entries_map(s).insert(entry.0@, entry.1@));
    } else {
        assert(distinct_names(t)) by {
            assert forall|a: int, b: int| 0 <= a < b < t.len() implies (#[trigger] t[a]).0@ != (
            #[trigger] t[b]).0@ by {
                assert(s[a].0@ != s[b].0@);
            }
        }
        lemma_entry_replaced(t, i, entry);
        assert(u.drop_last() =~= t.update(i, entry));
        assert(s[i].0@ != s[s.len() - 1].0@);
        assert(entries_map(u) =~= entries_map(s).insert(entry.0@, entry.1@));
    }
}

/// A map from names to values, for the keys that the grammar does not know.
/// Setting a name that is already there puts the new value in the place of
/// the old one.
#[derive(Debug)]
pub struct Unknown {
    entries: Vec<(String, Value)>,
}

impl View for Unknown {
    type V = Map<Seq<char>, ValueView>;

    closed spec fn view(&self) -> Map<Seq<char>, ValueView> {
        entries_map(self.entries@)
    }
}

impl Unknown {
    #[verifier::type_invariant]
    closed spec fn no_name_twice(self) -> bool {
        distinct_names(self.entries@)
    }

    /// The map without any name.
    pub fn new() -> (r: Unknown)
        ensures
            r@ == Map::<Seq<char>, ValueView>::empty(),
    {
        Unknown { entries: Vec::new() }
    }

    /// The place of `name` among the entries, if it has one.
    fn position(&self, name: &str) -> (r: Option<usize>)
        ensures
            match r {
                Some(i) => i < self.entries@.len() && self.entries@[i as int].0@ == name@,
                None => forall|j: int|
                    0 <= j < self.entries@.len() ==> (#[trigger] self.entries@[j]).0@ != name@,
            },
    {
        let mut i: usize = 0;
        while i < self.entries.len()
            invariant
                i <= self.entries@.len(),
                forall|j: int| 0 <= j < i ==> (#[trigger] self.entries@[j]).0@ != name@,
            decreases self.entries@.len() - i,
        {
            if same_text(self.entries[i].0.as_str(), name) {
                return Some(i);
            }
            i += 1;
        }
        None
    }

    /// Sets `name` to `value`, whether or not the name was there.
    pub fn insert(&mut self, name: String, value: Value)
        ensures
            final(self)@ == old(self)@.insert(name@, value@),
    {
        proof {
            use_type_invariant(&*self);
        }
        let place = self.position(name.as_str());
        let mut taken = Unknown::new();
        core::mem::swap(self, &mut taken);
        let Unknown { entries } = taken;
        let mut entries = entries;
        match place {
            Some(i) => {
                proof {
                    lemma_entry_replaced(entries@, i as int, (name, value));
                }
                entries.set(i, (name, value));
            },
            None => {
                proof {
                    let s = entries@.push((name, value));
                    assert(s.drop_last() =~= entries@);
                }
                entries.push((name, value));
            },
        }
        *self = Unknown { entries };
    }

    /// The value that `name` is set to, if it is set.
    pub fn get(&self, name: &str) -> (r: Option<&Value>)
        ensures
            match r {
                Some(value) => self@.contains_key(name@) && self@[name@] == value@,
                None => !self@.contains_key(name@),
            },
    {
        proof {
            use_type_invariant(self);
            lemma_entries_names(self.entries@, name@);
        }
        match self.position(name) {
            Some(i) => {
                proof {
                    lemma_entry_at(self.entries@, i as int);
                }
                Some(&self.entries[i].1)
            },
            None => None,
        }
    }

    /// The entries of the map, each name once.
    pub fn entries(&self) -> (r: &[(String, Value)])
        ensures
            entries_map(r@) == self@,
            distinct_names(r@),
    {
        proof {
            use_type_invariant(self);
        }
        self.entries.as_slice()
    }
}


impl Unknown {
    /// Whether each name of this map is set to the same value in `other`.
    fn within(&self, other: &Unknown) -> (r: bool)
        ensures
            r == forall|name: Seq<char>| #[trigger]
                self@.contains_key(name) ==> other@.contains_key(name) && other@[name]
                    == self@[name],
    {
        proof {
            use_type_invariant(self);
        }
        let mut i: usize = 0;
        while i < self.entries.len()
            invariant
                i <= self.entries@.len(),
                distinct_names(self.entries@),
                forall|j: int|
                    0 <= j < i ==> other@.contains_key((#[trigger] self.entries@[j]).0@)
                        && other@[self.entries@[j].0@] == self.entries@[j].1@,
            decreases self.entries@.len() - i,
        {
            proof {
                lemma_entry_at(self.entries@, i as int);
            }
            let same = match other.get(self.entries[i].0.as_str()) {
                Some(value) => *value == self.entries[i].1,
                None => false,
            };
            if !same {
                proof {
                    let name = self.entries@[i as int].0@;
                    assert(self@.contains_key(name));
                    assert(!(other@.contains_key(name) && other@[name] == self@[name]));
                }
                return false;
            }
            i += 1;
        }
        proof {
            assert forall|name: Seq<char>| #[trigger] self@.contains_key(name) implies other@.contains_key(
                name,
            ) && other@[name] == self@[name] by {
                lemma_entries_names(self.entries@, name);
                let j = choose|j: int|
                    0 <= j < self.entries@.len() && (#[trigger] self.entries@[j]).0@ == name;
                lemma_entry_at(self.entries@, j);
            }
        }
        true
    }
}

impl Clone for Unknown {
    fn clone(&self) -> (r: Unknown)
        ensures
            r@ == self@,
    {
        let mut out = Unknown::new();
        let mut i: usize = 0;
        while i < self.entries.len()
            invariant
                i <= self.entries@.len(),
                out@ == entries_map(self.entries@.take(i as int)),
            decreases self.entries@.len() - i,
        {
            proof {
                assert(self.entries@.take(i + 1).drop_last() =~= self.entries@.take(i as int));
            }
            out.insert(self.entries[i].0.clone(), self.entries[i].1.clone());
            i += 1;
        }
        assert(self.entries@.take(i as int) =~= self.entries@);
        out
    }
}

impl PartialEq for Unknown {
    fn eq(&self, other: &Unknown) -> (r: bool) {
        let r = self.within(other) && other.within(self);
        proof {
            if r {
                assert(self@ =~= other@);
            }
        }
        r
    }
}

impl PartialEqSpecImpl for Unknown {
    open spec fn obeys_eq_spec() -> bool {
        true
    }

    open spec fn eq_spec(&self, other: &Unknown) -> bool {
        self@ == other@
    }
}

} // verus!
