use vstd::prelude::*;

use crate::item::ItemPtr;
use crate::variable::VariablePtr;

verus! {

/// An insertion-ordered map from variables to the items that replace them.
/// No variable occurs twice.
#[derive(Clone, Debug)]
pub struct Substitutions {
    entries: Vec<(VariablePtr, ItemPtr)>,
}

/// The variables of a list of entries.
pub open spec fn entry_keys(entries: Seq<(VariablePtr, ItemPtr)>) -> Seq<VariablePtr> {
    entries.map_values(|e: (VariablePtr, ItemPtr)| e.0)
}

/// No variable occurs twice among the entries.
pub open spec fn keys_distinct(entries: Seq<(VariablePtr, ItemPtr)>) -> bool {
    forall|i: int, j: int|
        0 <= i < entries.len() && 0 <= j < entries.len() && i != j ==> #[trigger] entries[i].0
            != #[trigger] entries[j].0
}

/// The value given to `key` among the entries, if any.
pub open spec fn entries_get(entries: Seq<(VariablePtr, ItemPtr)>, key: VariablePtr) -> Option<
    ItemPtr,
>
    decreases entries.len(),
{
    if entries.len() == 0 {
        None
    } else if entries.last().0 == key {
        Some(entries.last().1)
    } else {
        entries_get(entries.drop_last(), key)
    }
}

pub proof fn lemma_entries_get(entries: Seq<(VariablePtr, ItemPtr)>, key: VariablePtr)
    requires
        keys_distinct(entries),
    ensures
        entries_get(entries, key).is_none() <==> (forall|i: int|
            0 <= i < entries.len() ==> (#[trigger] entries[i]).0 != key),
        forall|i: int|
            0 <= i < entries.len() && (#[trigger] entries[i]).0 == key ==> entries_get(entries, key)
                == Some(entries[i].1),
    decreases entries.len(),
{
    if entries.len() > 0 {
        let n = entries.len() - 1;
        let init = entries.drop_last();
        assert(keys_distinct(init)) by {
            assert forall|i: int, j: int|
                0 <= i < init.len() && 0 <= j < init.len() && i != j implies #[trigger] init[i].0
                    != #[trigger] init[j].0 by {
                assert(init[i] == entries[i] && init[j] == entries[j]);
            }
        }
        lemma_entries_get(init, key);
        assert forall|i: int| 0 <= i < init.len() implies #[trigger] init[i] == entries[i] by {}
        if entries[n].0 == key {
            assert forall|i: int|
                0 <= i < entries.len() && (#[trigger] entries[i]).0 == key implies i == n by {
                if i != n {
                    assert(entries[i].0 != entries[n].0);
                }
            }
        } else {
            assert forall|i: int|
                0 <= i < entries.len() && (#[trigger] entries[i]).0 == key implies i < n && init[i]
                    == entries[i] by {}
        }
    }
}

/// The entries without the one of `key`.
pub open spec fn entries_remove(entries: Seq<(VariablePtr, ItemPtr)>, key: VariablePtr) -> Seq<
    (VariablePtr, ItemPtr),
>
    decreases entries.len(),
{
    if entries.len() == 0 {
        entries
    } else if entries.last().0 == key {
        entries_remove(entries.drop_last(), key)
    } else {
        entries_remove(entries.drop_last(), key).push(entries.last())
    }
}

/// Removing the entry at the position of `key` is removing the entries of
/// `key`, when no variable occurs twice.
pub proof fn lemma_entries_remove(entries: Seq<(VariablePtr, ItemPtr)>, key: VariablePtr, i: int)
    requires
        keys_distinct(entries),
        0 <= i < entries.len(),
        entries[i].0 == key,
    ensures
        entries.remove(i) == entries_remove(entries, key),
    decreases entries.len(),
{
    let n = entries.len() - 1;
    let init = entries.drop_last();
    assert(keys_distinct(init)) by {
        assert forall|a: int, b: int|
            0 <= a < init.len() && 0 <= b < init.len() && a != b implies #[trigger] init[a].0
                != #[trigger] init[b].0 by {
            assert(init[a] == entries[a] && init[b] == entries[b]);
        }
    }
    if i == n {
        assert(entries.remove(i) =~= init);
        lemma_entries_remove_absent(init, key);
    } else {
        assert(entries[n].0 != key) by {
            assert(entries[n].0 != entries[i].0);
        }
        lemma_entries_remove(init, key, i);
        assert(entries.remove(i) =~= init.remove(i).push(entries.last()));
    }
}

/// Removing a key that does not occur changes nothing.
pub proof fn lemma_entries_remove_absent(entries: Seq<(VariablePtr, ItemPtr)>, key: VariablePtr)
    requires
        forall|i: int| 0 <= i < entries.len() ==> (#[trigger] entries[i]).0 != key,
    ensures
        entries_remove(entries, key) == entries,
    decreases entries.len(),
{
    if entries.len() > 0 {
        let init = entries.drop_last();
        assert forall|i: int| 0 <= i < init.len() implies (#[trigger] init[i]).0 != key by {
            assert(init[i] == entries[i]);
        }
        lemma_entries_remove_absent(init, key);
        assert(entries.last() == entries[entries.len() - 1]);
        assert(init.push(entries.last()) =~= entries);
    }
}

impl View for Substitutions {
    type V = Seq<(VariablePtr, ItemPtr)>;

    closed spec fn view(&self) -> Seq<(VariablePtr, ItemPtr)> {
        self.entries@
    }
}

impl Substitutions {
    pub open spec fn wf(&self) -> bool {
        keys_distinct(self@)
    }

    pub open spec fn spec_get(&self, key: VariablePtr) -> Option<ItemPtr> {
        entries_get(self@, key)
    }

    pub open spec fn spec_len(&self) -> nat {
        self@.len()
    }

    pub fn new() -> (s: Self)
        ensures
            s@ == Seq::<(VariablePtr, ItemPtr)>::empty(),
            s.wf(),
    {
        Substitutions { entries: Vec::new() }
    }

    pub proof fn lemma_wf_distinct(&self)
        requires
            self.wf(),
        ensures
            keys_distinct(self@),
    {
    }

    /// A copy with the same entries.
    pub fn clone_subs(&self) -> (r: Self)
        ensures
            r@ == self@,
            r.wf() == self.wf(),
    {
        let mut entries: Vec<(VariablePtr, ItemPtr)> = Vec::new();
        let mut i: usize = 0;
        while i < self.entries.len()
            invariant
                i <= self.entries@.len(),
                entries@ == self.entries@.take(i as int),
            decreases self.entries@.len() - i,
        {
            entries.push(self.entries[i]);
            i += 1;
            assert(entries@ =~= self.entries@.take(i as int));
        }
        assert(self.entries@.take(i as int) =~= self.entries@);
        Substitutions { entries }
    }

    pub fn len(&self) -> (r: usize)
        ensures
            r == self@.len(),
    {
        self.entries.len()
    }

    /// The entries in insertion order.
    pub fn iter_entries(&self) -> (r: &[(VariablePtr, ItemPtr)])
        ensures
            r@ == self@,
    {
        self.entries.as_slice()
    }

    /// The position of `key` among the entries.
    fn find(&self, key: &VariablePtr) -> (r: Option<usize>)
        ensures
            match r {
                Some(i) => i < self@.len() && self@[i as int].0 == *key,
                None => forall|i: int| 0 <= i < self@.len() ==> (#[trigger] self@[i]).0 != *key,
            },
    {
        let mut i: usize = 0;
        while i < self.entries.len()
            invariant
                i <= self.entries@.len(),
                forall|j: int| 0 <= j < i ==> (#[trigger] self.entries@[j]).0 != *key,
            decreases self.entries@.len() - i,
        {
            if self.entries[i].0.is_same_instance_as(key) {
                return Some(i);
            }
            i += 1;
        }
        None
    }

    pub fn get(&self, key: &VariablePtr) -> (r: Option<ItemPtr>)
        requires
            self.wf(),
        ensures
            r == self.spec_get(*key),
    {
        proof {
            lemma_entries_get(self@, *key);
        }
        match self.find(key) {
            Some(i) => Some(self.entries[i].1),
            None => None,
        }
    }

    /// Adds an entry for a variable that has none yet.
    pub fn insert_no_replace(&mut self, key: VariablePtr, value: ItemPtr)
        requires
            old(self).wf(),
            old(self).spec_get(key).is_none(),
        ensures
            final(self).wf(),
            final(self)@ == old(self)@.push((key, value)),
    {
        proof {
            lemma_entries_get(self@, key);
        }
        self.entries.push((key, value));
    }

    /// Gives `key` the value `value`, in place when it already has one, else
    /// as a new last entry.
    pub fn insert_or_replace(&mut self, key: VariablePtr, value: ItemPtr)
        requires
            old(self).wf(),
        ensures
            final(self).wf(),
            old(self).spec_get(key).is_none() ==> final(self)@ == old(self)@.push((key, value)),
            old(self).spec_get(key).is_some() ==> exists|i: int|
                0 <= i < old(self)@.len() && old(self)@[i].0 == key && final(self)@ == old(
                    self,
                )@.update(i, (key, value)),
    {
        proof {
            lemma_entries_get(self@, key);
        }
        match self.find(&key) {
            Some(i) => {
                self.entries.set(i, (key, value));
                assert(keys_distinct(self.entries@)) by {
                    assert forall|a: int, b: int|
                        0 <= a < self.entries@.len() && 0 <= b < self.entries@.len() && a != b
                            implies #[trigger] self.entries@[a].0 != #[trigger] self.entries@[b].0 by {
                        assert(old(self)@[a].0 != old(self)@[b].0);
                    }
                }
            },
            None => {
                self.entries.push((key, value));
            },
        }
    }

    /// The map with the given entries, in order.
    pub fn from_entries(entries: Vec<(VariablePtr, ItemPtr)>) -> (r: Self)
        ensures
            r@ == entries@,
    {
        Substitutions { entries }
    }

    /// Gives the `i`th entry the value `value`.
    pub fn set_value(&mut self, i: usize, value: ItemPtr)
        requires
            i < old(self)@.len(),
        ensures
            final(self)@ == old(self)@.update(i as int, (old(self)@[i as int].0, value)),
            final(self).wf() == old(self).wf(),
    {
        let key = self.entries[i].0;
        self.entries.set(i, (key, value));
        proof {
            assert(entry_keys(self@) =~= entry_keys(old(self)@));
            if old(self).wf() {
                assert forall|a: int, b: int|
                    0 <= a < self@.len() && 0 <= b < self@.len() && a != b implies #[trigger] self@[a].0
                        != #[trigger] self@[b].0 by {
                    assert(self@[a].0 == old(self)@[a].0 && self@[b].0 == old(self)@[b].0);
                }
            }
            if self.wf() {
                assert forall|a: int, b: int|
                    0 <= a < old(self)@.len() && 0 <= b < old(self)@.len() && a != b implies #[trigger] old(self)@[a].0
                        != #[trigger] old(self)@[b].0 by {
                    assert(self@[a].0 == old(self)@[a].0 && self@[b].0 == old(self)@[b].0);
                }
            }
        }
    }

    /// Removes the entry of `key`, returning its value.
    pub fn remove(&mut self, key: &VariablePtr) -> (r: Option<ItemPtr>)
        requires
            old(self).wf(),
        ensures
            final(self).wf(),
            r == old(self).spec_get(*key),
            final(self)@ == entries_remove(old(self)@, *key),
    {
        proof {
            lemma_entries_get(self@, *key);
        }
        match self.find(key) {
            Some(i) => {
                let ghost before = self.entries@;
                let (_, value) = self.entries.remove(i);
                proof {
                    lemma_entries_remove(before, *key, i as int);
                }
                assert(keys_distinct(self.entries@)) by {
                    assert forall|a: int, b: int|
                        0 <= a < self.entries@.len() && 0 <= b < self.entries@.len() && a != b
                            implies #[trigger] self.entries@[a].0 != #[trigger] self.entries@[b].0 by {
                        let a2 = if a < i { a } else { a + 1 };
                        let b2 = if b < i { b } else { b + 1 };
                        assert(self.entries@[a] == before[a2]);
                        assert(self.entries@[b] == before[b2]);
                    }
                }
                Some(value)
            },
            None => {
                proof {
                    lemma_entries_remove_absent(self@, *key);
                }
                None
            },
        }
    }
}

} // verus!
