//! A table from string keys to byte strings, kept as a list of entries in
//! which no key occurs twice.

use crate::text::{same_bytes, same_text, texts};
use vstd::std_specs::cmp::PartialEqSpecImpl;
use vstd::prelude::*;

verus! {

/// A key and its value, as character and byte sequences.
pub type Pair = (Seq<char>, Seq<u8>);

/// The map that a list of pairs stands for: a later pair replaces an earlier
/// one of the same key.
pub open spec fn map_of(pairs: Seq<Pair>) -> Map<Seq<char>, Seq<u8>>
    decreases pairs.len(),
{
    if pairs.len() == 0 {
        Map::empty()
    } else {
        map_of(pairs.drop_last()).insert(pairs.last().0, pairs.last().1)
    }
}

/// No key occurs twice among the pairs.
pub open spec fn distinct_keys(pairs: Seq<Pair>) -> bool {
    forall|i: int, j: int|
        0 <= i < j < pairs.len() ==> (#[trigger] pairs[i]).0 != (#[trigger] pairs[j]).0
}

/// Whether some pair has the key.
pub open spec fn has_key(pairs: Seq<Pair>, key: Seq<char>) -> bool {
    exists|i: int| 0 <= i < pairs.len() && (#[trigger] pairs[i]).0 == key
}

/// The keys of the map are the keys of the pairs.
pub proof fn lemma_map_of_keys(pairs: Seq<Pair>, key: Seq<char>)
    ensures
        map_of(pairs).contains_key(key) <==> has_key(pairs, key),
    decreases pairs.len(),
{
    if pairs.len() > 0 {
        let front = pairs.drop_last();
        lemma_map_of_keys(front, key);
        if has_key(front, key) {
            let i = choose|i: int| 0 <= i < front.len() && (#[trigger] front[i]).0 == key;
            assert(pairs[i].0 == key);
        }
        if has_key(pairs, key) {
            let i = choose|i: int| 0 <= i < pairs.len() && (#[trigger] pairs[i]).0 == key;
            if i < front.len() {
                assert(front[i].0 == key);
            }
        }
        if pairs.last().0 == key {
            assert(pairs[pairs.len() - 1].0 == key);
        }
    }
}

/// The last pair of a key gives the value of the key.
pub proof fn lemma_map_of_last(pairs: Seq<Pair>, i: int)
    requires
        0 <= i < pairs.len(),
        forall|j: int| i < j < pairs.len() ==> (#[trigger] pairs[j]).0 != pairs[i].0,
    ensures
        map_of(pairs).contains_key(pairs[i].0),
        map_of(pairs)[pairs[i].0] == pairs[i].1,
    decreases pairs.len(),
{
    if i < pairs.len() - 1 {
        let front = pairs.drop_last();
        assert forall|j: int| i < j < front.len() implies (#[trigger] front[j]).0 != front[i].0 by {
            assert(pairs[j].0 != pairs[i].0);
        }
        lemma_map_of_last(front, i);
        assert(pairs[pairs.len() - 1].0 != pairs[i].0);
    }
}

/// Where no key occurs twice, a new value in place of a pair's value is the
/// map with that key set anew.
pub proof fn lemma_map_of_update(pairs: Seq<Pair>, i: int, value: Seq<u8>)
    requires
        distinct_keys(pairs),
        0 <= i < pairs.len(),
    ensures
        distinct_keys(pairs.update(i, (pairs[i].0, value))),
        map_of(pairs.update(i, (pairs[i].0, value))) == map_of(pairs).insert(pairs[i].0, value),
    decreases pairs.len(),
{
    let key = pairs[i].0;
    let next = pairs.update(i, (key, value));
    assert(distinct_keys(next)) by {
        assert forall|a: int, b: int| 0 <= a < b < next.len() implies (#[trigger] next[a]).0 != (
        #[trigger] next[b]).0 by {
            assert(pairs[a].0 != pairs[b].0);
        }
    }
    let front = pairs.drop_last();
    if i == pairs.len() - 1 {
        assert(next.drop_last() == front);
        assert(map_of(next) == map_of(pairs).insert(key, value));
    } else {
        assert(distinct_keys(front)) by {
            assert forall|a: int, b: int| 0 <= a < b < front.len() implies (#[trigger] front[a]).0
                != (#[trigger] front[b]).0 by {
                assert(pairs[a].0 != pairs[b].0);
            }
        }
        lemma_map_of_update(front, i, value);
        assert(next.drop_last() == front.update(i, (key, value)));
        assert(pairs[i].0 != pairs[pairs.len() - 1].0);
        assert(next.last() == pairs.last());
        assert(map_of(next) == map_of(pairs).insert(key, value));
    }
}

/// Where no key occurs twice, the pairs without one of them are the map
/// without its key.
pub proof fn lemma_map_of_remove(pairs: Seq<Pair>, i: int)
    requires
        distinct_keys(pairs),
        0 <= i < pairs.len(),
    ensures
        distinct_keys(pairs.remove(i)),
        map_of(pairs.remove(i)) == map_of(pairs).remove(pairs[i].0),
    decreases pairs.len(),
{
    let key = pairs[i].0;
    let next = pairs.remove(i);
    assert(distinct_keys(next)) by {
        assert forall|a: int, b: int| 0 <= a < b < next.len() implies (#[trigger] next[a]).0 != (
        #[trigger] next[b]).0 by {
            let a0 = if a < i { a } else { a + 1 };
            let b0 = if b < i { b } else { b + 1 };
            assert(pairs[a0].0 != pairs[b0].0);
        }
    }
    let front = pairs.drop_last();
    assert(distinct_keys(front)) by {
        assert forall|a: int, b: int| 0 <= a < b < front.len() implies (#[trigger] front[a]).0 != (
        #[trigger] front[b]).0 by {
            assert(pairs[a].0 != pairs[b].0);
        }
    }
    if i == pairs.len() - 1 {
        assert(next == front);
        lemma_map_of_keys(front, key);
        if has_key(front, key) {
            let j = choose|j: int| 0 <= j < front.len() && (#[trigger] front[j]).0 == key;
            assert(pairs[j].0 != pairs[i].0);
        }
        assert(map_of(next) == map_of(pairs).remove(key));
    } else {
        lemma_map_of_remove(front, i);
        assert(next.drop_last() == front.remove(i));
        assert(next.last() == pairs.last());
        assert(pairs[i].0 != pairs[pairs.len() - 1].0);
        assert(map_of(next) == map_of(pairs).remove(key));
    }
}

/// The keys among `keys` that the store holds.
pub open spec fn present(store: Map<Seq<char>, Seq<u8>>, keys: Seq<Seq<char>>) -> Set<Seq<char>> {
    store.dom().intersect(keys.to_set())
}

/// One more key taken away: the store loses it, and the count of the keys
/// that were present grows where the store still had it.
pub proof fn lemma_present_push(
    store: Map<Seq<char>, Seq<u8>>,
    keys: Seq<Seq<char>>,
    key: Seq<char>,
)
    ensures
        store.remove_keys(keys.push(key).to_set()) == store.remove_keys(keys.to_set()).remove(key),
        present(store, keys).finite(),
        present(store, keys.push(key)).len() == present(store, keys).len() + if store.remove_keys(
            keys.to_set(),
        ).contains_key(key) {
            1nat
        } else {
            0nat
        },
{
    vstd::seq_lib::seq_to_set_is_finite(keys);
    vstd::set::axiom_set_intersect_finite(store.dom(), keys.to_set());
    keys.lemma_push_to_set_commute(key);
    let before = present(store, keys);
    let after = present(store, keys.push(key));
    assert(store.remove_keys(keys.push(key).to_set()) == store.remove_keys(keys.to_set()).remove(
        key,
    ));
    if store.remove_keys(keys.to_set()).contains_key(key) {
        assert(after == before.insert(key));
        vstd::set::axiom_set_insert_len(before, key);
    } else {
        assert(after == before);
    }
}

/// A table from string keys to byte strings.
#[derive(Debug, Clone)]
pub struct Table {
    entries: Vec<(String, Vec<u8>)>,
}

impl View for Table {
    type V = Map<Seq<char>, Seq<u8>>;

    closed spec fn view(&self) -> Map<Seq<char>, Seq<u8>> {
        map_of(self.pairs())
    }
}

impl PartialEq for Table {
    /// Whether the two tables hold the same keys with the same values.
    fn eq(&self, other: &Table) -> (r: bool) {
        let same = self.within(other) && other.within(self);
        proof {
            if same {
                assert(self@ =~= other@);
            }
        }
        same
    }
}

impl PartialEqSpecImpl for Table {
    open spec fn obeys_eq_spec() -> bool {
        true
    }

    open spec fn eq_spec(&self, other: &Table) -> bool {
        self@ == other@
    }
}

/// Whether `other` has every key of `map`, with the same value.
pub open spec fn submap(map: Map<Seq<char>, Seq<u8>>, other: Map<Seq<char>, Seq<u8>>) -> bool {
    forall|key: Seq<char>| #[trigger]
        map.contains_key(key) ==> other.contains_key(key) && other[key] == map[key]
}

impl Table {
    /// Whether `other` has every key of this table, with the same value.
    fn within(&self, other: &Table) -> (r: bool)
        ensures
            r == submap(self@, other@),
    {
        let mut i: usize = 0;
        while i < self.entries.len()
            invariant
                i <= self.entries.len(),
                forall|j: int|
                    0 <= j < i ==> {
                        let key = (#[trigger] self.pairs()[j]).0;
                        other@.contains_key(key) && other@[key] == self@[key]
                    },
            decreases self.entries.len() - i,
        {
            let key = self.entries[i].0.as_str();
            proof {
                lemma_map_of_keys(self.pairs(), key@);
                assert(self.pairs()[i as int].0 == key@);
            }
            let same = match (self.get(key), other.get(key)) {
                (Some(mine), Some(theirs)) => same_bytes(mine.as_slice(), theirs.as_slice()),
                _ => false,
            };
            if !same {
                return false;
            }
            i += 1;
        }
        proof {
            assert forall|key: Seq<char>| #[trigger]
                self@.contains_key(key) implies other@.contains_key(key) && other@[key]
                == self@[key] by {
                lemma_map_of_keys(self.pairs(), key);
                let j = choose|j: int| 0 <= j < self.pairs().len() && (#[trigger] self.pairs()[j]).0
                    == key;
                assert(self.pairs()[j].0 == key);
            }
        }
        true
    }

    /// The entries in the order in which the table keeps them.
    pub closed spec fn pairs(&self) -> Seq<Pair> {
        Seq::new(self.entries@.len(), |i: int| (self.entries@[i].0@, self.entries@[i].1@))
    }

    /// No key occurs twice.
    pub closed spec fn wf(&self) -> bool {
        distinct_keys(self.pairs())
    }

    /// The table is the map of its entries, and no key occurs twice among
    /// them.
    pub proof fn lemma_pairs(&self)
        ensures
            self@ == map_of(self.pairs()),
            self.wf() ==> distinct_keys(self.pairs()),
    {
    }

    /// The empty table.
    pub fn new() -> (table: Table)
        ensures
            table.wf(),
            table@ == Map::<Seq<char>, Seq<u8>>::empty(),
            table.pairs() == Seq::<Pair>::empty(),
    {
        let table = Table { entries: Vec::new() };
        assert(table.pairs() == Seq::<Pair>::empty());
        table
    }

    /// The number of entries.
    pub fn len(&self) -> (n: usize)
        ensures
            n == self.pairs().len(),
    {
        self.entries.len()
    }

    /// The key of the entry at `i`.
    pub fn key_at(&self, i: usize) -> (key: &String)
        requires
            i < self.pairs().len(),
        ensures
            key@ == self.pairs()[i as int].0,
    {
        &self.entries[i].0
    }

    /// The value of the entry at `i`.
    pub fn value_at(&self, i: usize) -> (value: &Vec<u8>)
        requires
            i < self.pairs().len(),
        ensures
            value@ == self.pairs()[i as int].1,
    {
        &self.entries[i].1
    }

    /// Where the last entry of `key` stands, if there is one.
    fn position(&self, key: &str) -> (at: Option<usize>)
        ensures
            match at {
                Some(i) => {
                    &&& i < self.pairs().len()
                    &&& self.pairs()[i as int].0 == key@
                    &&& forall|j: int|
                        i < j < self.pairs().len() ==> (#[trigger] self.pairs()[j]).0 != key@
                },
                None => !has_key(self.pairs(), key@),
            },
    {
        let mut i: usize = self.entries.len();
        while i > 0
            invariant
                i <= self.entries.len(),
                forall|j: int|
                    i <= j < self.pairs().len() ==> (#[trigger] self.pairs()[j]).0 != key@,
            decreases i,
        {
            i -= 1;
            if same_text(self.entries[i].0.as_str(), key) {
                return Some(i);
            }
        }
        None
    }

    /// Whether the table has an entry for `key`.
    pub fn contains_key(&self, key: &str) -> (r: bool)
        ensures
            r == self@.contains_key(key@),
    {
        proof {
            lemma_map_of_keys(self.pairs(), key@);
        }
        self.position(key).is_some()
    }

    /// The value of `key`, if the table has one.
    pub fn get(&self, key: &str) -> (value: Option<&Vec<u8>>)
        ensures
            match value {
                Some(v) => self@.contains_key(key@) && v@ == self@[key@],
                None => !self@.contains_key(key@),
            },
    {
        proof {
            lemma_map_of_keys(self.pairs(), key@);
        }
        match self.position(key) {
            Some(i) => {
                proof {
                    lemma_map_of_last(self.pairs(), i as int);
                }
                Some(&self.entries[i].1)
            },
            None => None,
        }
    }

    /// Sets the value of `key`, in place of any that it had.
    pub fn insert(&mut self, key: String, value: Vec<u8>)
        requires
            old(self).wf(),
        ensures
            final(self).wf(),
            final(self)@ == old(self)@.insert(key@, value@),
    {
        let ghost before = self.pairs();
        match self.position(key.as_str()) {
            Some(i) => {
                proof {
                    lemma_map_of_update(before, i as int, value@);
                }
                self.entries.set(i, (key, value));
                assert(self.pairs() == before.update(i as int, (key@, value@)));
            },
            None => {
                self.entries.push((key, value));
                assert(self.pairs() == before.push((key@, value@)));
                assert(self.pairs().drop_last() == before);
                assert(distinct_keys(self.pairs())) by {
                    assert forall|a: int, b: int| 0 <= a < b < self.pairs().len() implies (
                    #[trigger] self.pairs()[a]).0 != (#[trigger] self.pairs()[b]).0 by {
                        assert(self.pairs()[a] == before[a]);
                        if b < before.len() {
                            assert(self.pairs()[b] == before[b]);
                        }
                    }
                }
            },
        }
    }

    /// Takes away the entry of `key`. Returns whether there was one.
    pub fn remove(&mut self, key: &str) -> (removed: bool)
        requires
            old(self).wf(),
        ensures
            final(self).wf(),
            removed == old(self)@.contains_key(key@),
            final(self)@ == old(self)@.remove(key@),
    {
        let ghost before = self.pairs();
        proof {
            lemma_map_of_keys(before, key@);
        }
        match self.position(key) {
            Some(i) => {
                proof {
                    lemma_map_of_remove(before, i as int);
                }
                self.entries.remove(i);
                assert(self.pairs() == before.remove(i as int));
                true
            },
            None => {
                assert(old(self)@.remove(key@) == old(self)@);
                false
            },
        }
    }

    /// Takes the keys away, and returns how many of them the table held.
    pub fn remove_all(&mut self, keys: &Vec<String>) -> (count: usize)
        requires
            old(self).wf(),
        ensures
            final(self).wf(),
            final(self)@ == old(self)@.remove_keys(texts(keys@).to_set()),
            count == present(old(self)@, texts(keys@)).len(),
    {
        let mut count: usize = 0;
        let mut i: usize = 0;
        proof {
            let none = texts(keys@).take(0);
            assert(none.to_set() == Set::<Seq<char>>::empty());
            assert(self@.remove_keys(none.to_set()) == self@);
            assert(present(self@, none) == Set::<Seq<char>>::empty());
        }
        while i < keys.len()
            invariant
                i <= keys.len(),
                count <= i,
                self.wf(),
                self@ == old(self)@.remove_keys(texts(keys@).take(i as int).to_set()),
                count == present(old(self)@, texts(keys@).take(i as int)).len(),
            decreases keys.len() - i,
        {
            proof {
                lemma_present_push(old(self)@, texts(keys@).take(i as int), keys@[i as int]@);
                assert(texts(keys@).take(i + 1) == texts(keys@).take(i as int).push(
                    keys@[i as int]@,
                ));
            }
            if self.remove(keys[i].as_str()) {
                count += 1;
            }
            i += 1;
        }
        assert(texts(keys@).take(i as int) == texts(keys@));
        count
    }
}

} // verus!
