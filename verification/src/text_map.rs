//! A map from texts, kept as a list of its entries.

use vstd::prelude::*;

use crate::text::same_text;

verus! {

/// The map that a list of entries stands for; later entries win.
pub open spec fn map_of<V>(entries: Seq<(String, V)>) -> Map<Seq<char>, V>
    decreases entries.len(),
{
    if entries.len() == 0 {
        Map::empty()
    } else {
        map_of(entries.drop_last()).insert(entries.last().0@, entries.last().1)
    }
}

/// Whether no key occurs twice.
pub open spec fn keys_unique<V>(entries: Seq<(String, V)>) -> bool {
    forall|a: int, b: int|
        0 <= a < b < entries.len() ==> (#[trigger] entries[a]).0@ != (#[trigger] entries[b]).0@
}

proof fn lemma_unique_front<V>(entries: Seq<(String, V)>)
    requires
        keys_unique(entries),
        entries.len() > 0,
    ensures
        keys_unique(entries.drop_last()),
{
    let rest = entries.drop_last();
    assert forall|a: int, b: int| 0 <= a < b < rest.len() implies (#[trigger] rest[a]).0@ != (
    #[trigger] rest[b]).0@ by {
        assert(rest[a] == entries[a] && rest[b] == entries[b]);
    }
}

/// What the map holds: exactly the entries.
pub proof fn lemma_map_of<V>(entries: Seq<(String, V)>)
    requires
        keys_unique(entries),
    ensures
        forall|i: int|
            0 <= i < entries.len() ==> map_of(entries).dom().contains(
                (#[trigger] entries[i]).0@,
            ) && map_of(entries)[entries[i].0@] == entries[i].1,
        forall|k: Seq<char>| #[trigger]
            map_of(entries).dom().contains(k) ==> exists|i: int|
                0 <= i < entries.len() && (#[trigger] entries[i]).0@ == k,
        map_of(entries).dom().finite(),
        map_of(entries).dom().len() == entries.len(),
    decreases entries.len(),
{
    if entries.len() > 0 {
        let rest = entries.drop_last();
        lemma_unique_front(entries);
        lemma_map_of(rest);
        let last = entries.len() - 1;
        assert(!map_of(rest).dom().contains(entries[last].0@)) by {
            if map_of(rest).dom().contains(entries[last].0@) {
                let i = choose|i: int|
                    0 <= i < rest.len() && (#[trigger] rest[i]).0@ == entries[last].0@;
                assert(entries[i].0@ != entries[last].0@);
            }
        }
        assert(map_of(entries).dom() =~= map_of(rest).dom().insert(entries[last].0@));
        assert forall|i: int| 0 <= i < entries.len() implies map_of(entries).dom().contains(
            (#[trigger] entries[i]).0@,
        ) && map_of(entries)[entries[i].0@] == entries[i].1 by {
            if i < last {
                assert(rest[i] == entries[i]);
                assert(entries[i].0@ != entries[last].0@);
            }
        }
        assert forall|k: Seq<char>| #[trigger]
            map_of(entries).dom().contains(k) implies exists|i: int|
            0 <= i < entries.len() && (#[trigger] entries[i]).0@ == k by {
            if k == entries[last].0@ {
                assert(entries[last].0@ == k);
            } else {
                let i = choose|i: int| 0 <= i < rest.len() && (#[trigger] rest[i]).0@ == k;
                assert(entries[i].0@ == k);
            }
        }
    } else {
        assert(map_of(entries).dom() =~= Set::empty());
    }
}

/// Replacing the value of an entry is inserting it.
proof fn lemma_update<V>(entries: Seq<(String, V)>, i: int, e: (String, V))
    requires
        keys_unique(entries),
        0 <= i < entries.len(),
        e.0@ == entries[i].0@,
    ensures
        map_of(entries.update(i, e)) == map_of(entries).insert(e.0@, e.1),
        keys_unique(entries.update(i, e)),
    decreases entries.len(),
{
    let rest = entries.drop_last();
    let after = entries.update(i, e);
    let last = entries.len() - 1;
    assert(keys_unique(after)) by {
        assert forall|a: int, b: int| 0 <= a < b < after.len() implies (#[trigger] after[a]).0@ != (
        #[trigger] after[b]).0@ by {
            assert(entries[a].0@ != entries[b].0@);
        }
    }
    if i < last {
        lemma_unique_front(entries);
        lemma_update(rest, i, e);
        assert(after.drop_last() =~= rest.update(i, e));
        assert(entries[i].0@ != entries[last].0@);
        assert(map_of(after) =~= map_of(entries).insert(e.0@, e.1));
    } else {
        assert(after.drop_last() =~= rest);
        assert(map_of(after) =~= map_of(entries).insert(e.0@, e.1));
    }
}

/// Taking an entry out removes its key.
proof fn lemma_removed<V>(entries: Seq<(String, V)>, i: int)
    requires
        keys_unique(entries),
        0 <= i < entries.len(),
    ensures
        map_of(entries.remove(i)) == map_of(entries).remove(entries[i].0@),
        keys_unique(entries.remove(i)),
    decreases entries.len(),
{
    let rest = entries.drop_last();
    let after = entries.remove(i);
    let last = entries.len() - 1;
    assert(keys_unique(after)) by {
        assert forall|a: int, b: int| 0 <= a < b < after.len() implies (#[trigger] after[a]).0@ != (
        #[trigger] after[b]).0@ by {
            let a0 = if a < i {
                a
            } else {
                a + 1
            };
            let b0 = if b < i {
                b
            } else {
                b + 1
            };
            assert(after[a] == entries[a0] && after[b] == entries[b0]);
        }
    }
    if i < last {
        lemma_unique_front(entries);
        lemma_removed(rest, i);
        assert(after.drop_last() =~= rest.remove(i));
        assert(entries[i].0@ != entries[last].0@);
        assert(map_of(after) =~= map_of(entries).remove(entries[i].0@));
    } else {
        lemma_unique_front(entries);
        lemma_map_of(rest);
        assert(after =~= rest);
        assert(!map_of(rest).dom().contains(entries[last].0@)) by {
            if map_of(rest).dom().contains(entries[last].0@) {
                let k = choose|k: int|
                    0 <= k < rest.len() && (#[trigger] rest[k]).0@ == entries[last].0@;
                assert(entries[k].0@ != entries[last].0@);
            }
        }
        assert(map_of(after) =~= map_of(entries).remove(entries[i].0@));
    }
}

/// A map from texts.
#[derive(Debug)]
pub struct TextMap<V> {
    entries: Vec<(String, V)>,
}

impl<V> View for TextMap<V> {
    type V = Map<Seq<char>, V>;

    closed spec fn view(&self) -> Map<Seq<char>, V> {
        map_of(self.entries@)
    }
}

impl<V: Clone> Clone for TextMap<V> {
    fn clone(&self) -> (r: Self)
        ensures
            r.list().len() == self.list().len(),
            forall|i: int|
                #![trigger r.list()[i]]
                0 <= i < r.list().len() ==> r.list()[i].0 == self.list()[i].0 && cloned(
                    self.list()[i].1,
                    r.list()[i].1,
                ),
            self.wf() ==> r.wf(),
    {
        let mut entries: Vec<(String, V)> = Vec::new();
        let mut i: usize = 0;
        while i < self.entries.len()
            invariant
                i <= self.entries@.len(),
                entries@.len() == i,
                forall|j: int|
                    0 <= j < i ==> (#[trigger] entries@[j]).0 == self.entries@[j].0 && cloned(
                        self.entries@[j].1,
                        entries@[j].1,
                    ),
            decreases self.entries@.len() - i,
        {
            let e = &self.entries[i];
            let value = e.1.clone();
            entries.push((e.0.clone(), value));
            i += 1;
        }
        TextMap { entries }
    }
}

impl<V> TextMap<V> {
    /// The entries of the map, in the order in which their keys came.
    pub closed spec fn list(&self) -> Seq<(String, V)> {
        self.entries@
    }

    /// Whether no key occurs twice in the list.
    pub closed spec fn wf(&self) -> bool {
        keys_unique(self.entries@)
    }

    /// The list is that of the map.
    pub proof fn lemma_list(&self)
        requires
            self.wf(),
        ensures
            keys_unique(self.list()),
            self@ == map_of(self.list()),
    {
    }

    /// Maps with the same list are the same.
    pub proof fn lemma_same_list(&self, other: &Self)
        requires
            self.list() == other.list(),
        ensures
            self@ == other@,
            self.wf() == other.wf(),
    {
    }

    /// The empty map.
    pub fn new() -> (r: Self)
        ensures
            r.wf(),
            r@ == Map::<Seq<char>, V>::empty(),
            r.list() == Seq::<(String, V)>::empty(),
    {
        TextMap { entries: Vec::new() }
    }

    /// The position of a key, or the number of entries.
    fn find(&self, key: &str) -> (r: usize)
        requires
            self.wf(),
        ensures
            r <= self.entries@.len(),
            r < self.entries@.len() ==> self.entries@[r as int].0@ == key@,
            r < self.entries@.len() <==> self@.dom().contains(key@),
    {
        proof {
            lemma_map_of(self.entries@);
        }
        let mut i: usize = 0;
        while i < self.entries.len()
            invariant
                self.wf(),
                i <= self.entries@.len(),
                forall|j: int| 0 <= j < i ==> (#[trigger] self.entries@[j]).0@ != key@,
            decreases self.entries@.len() - i,
        {
            if same_text(self.entries[i].0.as_str(), key) {
                proof {
                    lemma_map_of(self.entries@);
                }
                return i;
            }
            i += 1;
        }
        i
    }

    /// The value of a key.
    pub fn get(&self, key: &str) -> (r: Option<&V>)
        requires
            self.wf(),
        ensures
            match r {
                Some(v) => self@.dom().contains(key@) && *v == self@[key@],
                None => !self@.dom().contains(key@),
            },
    {
        let i: usize = self.find(key);
        if i < self.entries.len() {
            proof {
                lemma_map_of(self.entries@);
            }
            Some(&self.entries[i].1)
        } else {
            None
        }
    }

    /// Whether the map has a key.
    pub fn contains_key(&self, key: &str) -> (r: bool)
        requires
            self.wf(),
        ensures
            r == self@.dom().contains(key@),
    {
        self.find(key) < self.entries.len()
    }

    /// Sets the value of a key.
    pub fn insert(&mut self, key: String, value: V)
        requires
            old(self).wf(),
        ensures
            final(self).wf(),
            final(self)@ == old(self)@.insert(key@, value),
    {
        let i: usize = self.find(key.as_str());
        if i < self.entries.len() {
            proof {
                lemma_update(self.entries@, i as int, (key, value));
            }
            self.entries[i] = (key, value);
        } else {
            let ghost before = self.entries@;
            proof {
                lemma_map_of(self.entries@);
            }
            self.entries.push((key, value));
            proof {
                assert(self.entries@.drop_last() =~= before);
                assert forall|a: int, b: int| 0 <= a < b < self.entries@.len() implies (
                #[trigger] self.entries@[a]).0@ != (#[trigger] self.entries@[b]).0@ by {
                    assert(self.entries@[a] == before[a]);
                    assert(map_of(before).dom().contains(before[a].0@));
                    if b < before.len() {
                        assert(self.entries@[b] == before[b]);
                    }
                }
            }
        }
    }

    /// Removes a key; false where the map does not have it.
    pub fn remove(&mut self, key: &str) -> (r: bool)
        requires
            old(self).wf(),
        ensures
            final(self).wf(),
            final(self)@ == old(self)@.remove(key@),
            r == old(self)@.dom().contains(key@),
    {
        let i: usize = self.find(key);
        if i < self.entries.len() {
            proof {
                lemma_removed(self.entries@, i as int);
            }
            self.entries.remove(i);
            true
        } else {
            assert(self@ =~= old(self)@.remove(key@));
            false
        }
    }

    /// The number of keys.
    pub fn len(&self) -> (r: usize)
        requires
            self.wf(),
        ensures
            r == self@.dom().len(),
            self@.dom().finite(),
            r == self.list().len(),
    {
        proof {
            lemma_map_of(self.entries@);
        }
        self.entries.len()
    }

    /// The entries, in the order in which their keys came.
    pub fn items(&self) -> (r: &Vec<(String, V)>)
        ensures
            r@ == self.list(),
    {
        &self.entries
    }
}

/// A map holds the keys of its entries and no others.
pub proof fn law_keys_of_entries<V>(entries: Seq<(String, V)>, key: Seq<char>)
    ensures
        map_of(entries).dom().contains(key) <==> exists|i: int|
            0 <= i < entries.len() && (#[trigger] entries[i]).0@ == key,
    decreases entries.len(),
{
    if entries.len() > 0 {
        let front = entries.drop_last();
        law_keys_of_entries(front, key);
        if map_of(front).dom().contains(key) {
            let i = choose|i: int| 0 <= i < front.len() && (#[trigger] front[i]).0@ == key;
            assert(entries[i].0@ == key);
        }
        if entries.last().0@ == key {
            assert(entries[entries.len() - 1].0@ == key);
        } else if exists|i: int| 0 <= i < entries.len() && (#[trigger] entries[i]).0@ == key {
            let i = choose|i: int| 0 <= i < entries.len() && (#[trigger] entries[i]).0@ == key;
            assert(front[i].0@ == key);
        }
    }
}

/// Of entries with the same key the last one counts.
pub proof fn law_last_entry_counts<V>(entries: Seq<(String, V)>, i: int)
    requires
        0 <= i < entries.len(),
        forall|j: int| i < j < entries.len() ==> (#[trigger] entries[j]).0@ != entries[i].0@,
    ensures
        map_of(entries)[entries[i].0@] == entries[i].1,
    decreases entries.len(),
{
    if i < entries.len() - 1 {
        let front = entries.drop_last();
        assert(front[i] == entries[i]);
        assert forall|j: int| i < j < front.len() implies (#[trigger] front[j]).0@
            != front[i].0@ by {
            assert(entries[j] == front[j]);
        }
        law_last_entry_counts(front, i);
        assert(entries[entries.len() - 1].0@ != entries[i].0@);
    }
}

} // verus!
