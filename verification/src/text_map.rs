//! A small map from text to text that remembers the order of its keys.
//!
//! The legend of a document and each raw record are such maps. The map is
//! modelled twice: as the sequence of its entries, in the order in which
//! their keys first came, and as the `Map` that this sequence stands for.

use vstd::prelude::*;

verus! {

/// No two entries of `pairs` have the same key.
pub open spec fn distinct_keys(pairs: Seq<(Seq<char>, Seq<char>)>) -> bool {
    forall|i: int, j: int| 0 <= i < j < pairs.len() ==> (#[trigger] pairs[i]).0 != (#[trigger] pairs[j]).0
}

/// Some entry of `pairs` has the key `key`.
pub open spec fn has_key(pairs: Seq<(Seq<char>, Seq<char>)>, key: Seq<char>) -> bool {
    exists|i: int| 0 <= i < pairs.len() && (#[trigger] pairs[i]).0 == key
}

/// A position in `pairs` at which `key` stands, where there is one.
pub open spec fn key_position(pairs: Seq<(Seq<char>, Seq<char>)>, key: Seq<char>) -> int {
    choose|i: int| 0 <= i < pairs.len() && (#[trigger] pairs[i]).0 == key
}

/// `pairs` after `key` was bound to `value`: the entry that has the key is
/// replaced where it stands; a new key goes to the end.
pub open spec fn put(pairs: Seq<(Seq<char>, Seq<char>)>, key: Seq<char>, value: Seq<char>) -> Seq<
    (Seq<char>, Seq<char>),
> {
    if has_key(pairs, key) {
        pairs.update(key_position(pairs, key), (key, value))
    } else {
        pairs.push((key, value))
    }
}

/// The entries that are left when the bindings `pairs` are made one after
/// another, starting with none.
pub open spec fn collect(pairs: Seq<(Seq<char>, Seq<char>)>) -> Seq<(Seq<char>, Seq<char>)>
    decreases pairs.len(),
{
    if pairs.len() == 0 {
        Seq::empty()
    } else {
        put(collect(pairs.drop_last()), pairs.last().0, pairs.last().1)
    }
}

/// The map that the bindings `pairs` make when they are made one after
/// another: a later binding of a key replaces an earlier one.
pub open spec fn as_map(pairs: Seq<(Seq<char>, Seq<char>)>) -> Map<Seq<char>, Seq<char>>
    decreases pairs.len(),
{
    if pairs.len() == 0 {
        Map::empty()
    } else {
        as_map(pairs.drop_last()).insert(pairs.last().0, pairs.last().1)
    }
}

/// The keys of `as_map(pairs)` are the keys that stand in `pairs`, and there
/// are finitely many of them.
pub proof fn lemma_as_map_keys(pairs: Seq<(Seq<char>, Seq<char>)>)
    ensures
        as_map(pairs).dom().finite(),
        forall|key: Seq<char>| as_map(pairs).contains_key(key) <==> has_key(pairs, key),
    decreases pairs.len(),
{
    if pairs.len() > 0 {
        let init = pairs.drop_last();
        lemma_as_map_keys(init);
        assert forall|key: Seq<char>| as_map(pairs).contains_key(key) <==> has_key(
            pairs,
            key,
        ) by {
            if has_key(pairs, key) {
                let i = key_position(pairs, key);
                if i < pairs.len() - 1 {
                    assert(init[i].0 == key);
                    assert(has_key(init, key));
                    assert(as_map(init).contains_key(key));
                } else {
                    assert(pairs.last().0 == key);
                }
                assert(as_map(pairs).contains_key(key));
            }
            if as_map(pairs).contains_key(key) {
                if key == pairs.last().0 {
                    assert(pairs[pairs.len() - 1].0 == key);
                } else {
                    assert(as_map(init).contains_key(key));
                    assert(has_key(init, key));
                    let i = key_position(init, key);
                    assert(pairs[i].0 == key);
                }
            }
        }
    }
}

/// Where keys are distinct, each entry is what the map holds for its key,
/// and the map has as many keys as there are entries.
pub proof fn lemma_as_map_distinct(pairs: Seq<(Seq<char>, Seq<char>)>)
    requires
        distinct_keys(pairs),
    ensures
        as_map(pairs).dom().finite(),
        as_map(pairs).dom().len() == pairs.len(),
        forall|i: int|
            0 <= i < pairs.len() ==> as_map(pairs).contains_key((#[trigger] pairs[i]).0) && as_map(
                pairs,
            )[pairs[i].0] == pairs[i].1,
    decreases pairs.len(),
{
    if pairs.len() > 0 {
        let init = pairs.drop_last();
        assert(distinct_keys(init)) by {
            assert forall|i: int, j: int| 0 <= i < j < init.len() implies (#[trigger] init[i]).0 != (
            #[trigger] init[j]).0 by {
                assert(pairs[i].0 != pairs[j].0);
            }
        }
        lemma_as_map_distinct(init);
        lemma_as_map_keys(init);
        if has_key(init, pairs.last().0) {
            let i = key_position(init, pairs.last().0);
            assert(pairs[i].0 == pairs[pairs.len() - 1].0);
        }
        assert forall|i: int| 0 <= i < pairs.len() implies as_map(pairs).contains_key(
            (#[trigger] pairs[i]).0,
        ) && as_map(pairs)[pairs[i].0] == pairs[i].1 by {
            if i < pairs.len() - 1 {
                assert(init[i] == pairs[i]);
                assert(pairs[i].0 != pairs[pairs.len() - 1].0);
            }
        }
    }
}

/// Binding a key in entries with distinct keys leaves the keys distinct and
/// is an `insert` on the map.
pub proof fn lemma_put(pairs: Seq<(Seq<char>, Seq<char>)>, key: Seq<char>, value: Seq<char>)
    requires
        distinct_keys(pairs),
    ensures
        distinct_keys(put(pairs, key, value)),
        as_map(put(pairs, key, value)) == as_map(pairs).insert(key, value),
    decreases pairs.len(),
{
    let after = put(pairs, key, value);
    if has_key(pairs, key) {
        let at = key_position(pairs, key);
        assert forall|i: int, j: int| 0 <= i < j < after.len() implies (#[trigger] after[i]).0 != (
        #[trigger] after[j]).0 by {
            assert(pairs[i].0 != pairs[j].0);
        }
        let init = pairs.drop_last();
        let last = pairs.last();
        if at == pairs.len() - 1 {
            assert(after.drop_last() =~= init);
            assert(as_map(after) =~= as_map(pairs).insert(key, value));
        } else {
            assert(init[at].0 == key);
            assert(distinct_keys(init)) by {
                assert forall|i: int, j: int| 0 <= i < j < init.len() implies (
                #[trigger] init[i]).0 != (#[trigger] init[j]).0 by {
                    assert(pairs[i].0 != pairs[j].0);
                }
            }
            let other = key_position(init, key);
            assert(other == at) by {
                assert(pairs[other].0 == pairs[at].0);
            }
            lemma_put(init, key, value);
            assert(after.drop_last() =~= put(init, key, value));
            assert(last.0 != key) by {
                assert(pairs[at].0 != pairs[pairs.len() - 1].0);
            }
            assert(after.last() == last);
            assert(as_map(after) =~= as_map(pairs).insert(key, value));
        }
    } else {
        assert forall|i: int, j: int| 0 <= i < j < after.len() implies (#[trigger] after[i]).0 != (
        #[trigger] after[j]).0 by {
            if j == pairs.len() {
                assert(pairs[i].0 != key);
            } else {
                assert(pairs[i].0 != pairs[j].0);
            }
        }
        assert(after.drop_last() =~= pairs);
    }
}

/// Whatever the bindings, the entries that they leave have distinct keys and
/// stand for the map that the bindings make.
pub proof fn lemma_collect(pairs: Seq<(Seq<char>, Seq<char>)>)
    ensures
        distinct_keys(collect(pairs)),
        as_map(collect(pairs)) == as_map(pairs),
    decreases pairs.len(),
{
    if pairs.len() > 0 {
        lemma_collect(pairs.drop_last());
        lemma_put(collect(pairs.drop_last()), pairs.last().0, pairs.last().1);
    }
}

/// Bindings with distinct keys leave themselves as entries: none replaces
/// another.
pub proof fn lemma_collect_distinct(pairs: Seq<(Seq<char>, Seq<char>)>)
    requires
        distinct_keys(pairs),
    ensures
        collect(pairs) == pairs,
    decreases pairs.len(),
{
    if pairs.len() > 0 {
        let init = pairs.drop_last();
        assert(distinct_keys(init)) by {
            assert forall|i: int, j: int| 0 <= i < j < init.len() implies (#[trigger] init[i]).0 != (
            #[trigger] init[j]).0 by {
                assert(pairs[i].0 != pairs[j].0);
            }
        }
        lemma_collect_distinct(init);
        if has_key(init, pairs.last().0) {
            let i = key_position(init, pairs.last().0);
            assert(pairs[i].0 == pairs[pairs.len() - 1].0);
        }
        assert(collect(pairs) =~= pairs);
    } else {
        assert(collect(pairs) =~= pairs);
    }
}

/// A map from text to text.
pub struct TextMap {
    entries: Vec<(String, String)>,
}

/// The entries that `stored` holds, as texts.
pub open spec fn pairs_of(stored: Seq<(String, String)>) -> Seq<(Seq<char>, Seq<char>)> {
    stored.map_values(|entry: (String, String)| (entry.0@, entry.1@))
}

impl View for TextMap {
    type V = Map<Seq<char>, Seq<char>>;

    /// The map from each key to what it is bound to.
    open spec fn view(&self) -> Map<Seq<char>, Seq<char>> {
        as_map(self.entries())
    }
}

impl TextMap {
    /// The entries, in the order in which their keys first came.
    pub closed spec fn entries(&self) -> Seq<(Seq<char>, Seq<char>)> {
        pairs_of(self.entries@)
    }

    #[verifier::type_invariant]
    spec fn keys_are_distinct(&self) -> bool {
        distinct_keys(self.entries())
    }

    /// A map with no entry.
    pub fn new() -> (empty: TextMap)
        ensures
            empty.entries() == Seq::<(Seq<char>, Seq<char>)>::empty(),
            empty@ == Map::<Seq<char>, Seq<char>>::empty(),
    {
        let empty = TextMap { entries: Vec::new() };
        assert(empty.entries() =~= Seq::empty());
        empty
    }

    /// The position of the entry that has `key`, if there is one.
    fn position(&self, key: &String) -> (found: Option<usize>)
        ensures
            match found {
                Some(at) => at < self.entries().len() && self.entries()[at as int].0 == key@,
                None => !has_key(self.entries(), key@),
            },
    {
        let mut at: usize = 0;
        while at < self.entries.len()
            invariant
                at <= self.entries@.len(),
                forall|i: int| 0 <= i < at ==> (#[trigger] self.entries()[i]).0 != key@,
            decreases self.entries@.len() - at,
        {
            if self.entries[at].0 == *key {
                return Some(at);
            }
            at += 1;
        }
        None
    }

    /// Binds `key` to `value`. A key that the map has keeps its place among
    /// the entries and loses what it was bound to; a new key becomes the last
    /// entry.
    pub fn insert(&mut self, key: String, value: String)
        ensures
            final(self).entries() == put(old(self).entries(), key@, value@),
            final(self)@ == old(self)@.insert(key@, value@),
    {
        proof {
            use_type_invariant(&*self);
            lemma_put(self.entries(), key@, value@);
        }
        let ghost before = self.entries();
        match self.position(&key) {
            Some(at) => {
                proof {
                    assert(has_key(before, key@));
                    assert(key_position(before, key@) == at) by {
                        let chosen = key_position(before, key@);
                        if chosen < at {
                            assert(before[chosen].0 != before[at as int].0);
                        } else if at < chosen {
                            assert(before[at as int].0 != before[chosen].0);
                        }
                    }
                }
                let mut entries: Vec<(String, String)> = Vec::new();
                std::mem::swap(&mut self.entries, &mut entries);
                entries.set(at, (key, value));
                assert(pairs_of(entries@) =~= put(before, key@, value@));
                self.entries = entries;
            },
            None => {
                let mut entries: Vec<(String, String)> = Vec::new();
                std::mem::swap(&mut self.entries, &mut entries);
                entries.push((key, value));
                assert(pairs_of(entries@) =~= put(before, key@, value@));
                self.entries = entries;
            },
        }
    }

    /// What `key` is bound to, if the map has the key.
    pub fn get(&self, key: &str) -> (bound: Option<&String>)
        ensures
            match bound {
                Some(value) => self@.contains_key(key@) && self@[key@] == value@,
                None => !self@.contains_key(key@),
            },
    {
        proof {
            use_type_invariant(self);
            lemma_as_map_keys(self.entries());
            lemma_as_map_distinct(self.entries());
        }
        let wanted = key.to_owned();
        match self.position(&wanted) {
            Some(at) => Some(&self.entries[at].1),
            None => None,
        }
    }

    /// Whether the map has `key`.
    pub fn contains_key(&self, key: &str) -> (has: bool)
        ensures
            has == self@.contains_key(key@),
    {
        self.get(key).is_some()
    }

    /// How many keys the map has.
    pub fn len(&self) -> (count: usize)
        ensures
            count == self.entries().len(),
            count == self@.dom().len(),
    {
        proof {
            use_type_invariant(self);
            lemma_as_map_distinct(self.entries());
        }
        self.entries.len()
    }

    /// The key of the entry at position `at`.
    pub fn key_at(&self, at: usize) -> (key: &String)
        requires
            at < self.entries().len(),
        ensures
            key@ == self.entries()[at as int].0,
    {
        &self.entries[at].0
    }

    /// What the entry at position `at` binds its key to.
    pub fn value_at(&self, at: usize) -> (value: &String)
        requires
            at < self.entries().len(),
        ensures
            value@ == self.entries()[at as int].1,
    {
        &self.entries[at].1
    }
}

} // verus!
