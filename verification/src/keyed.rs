//! A map from strings to values that keeps its keys in dictionary order.
use crate::text::{lex_antisymmetric, lex_le, lex_lt, lex_reflexive, lex_total, lex_transitive, text_le};
use vstd::prelude::*;
use vstd::string::*;

verus! {

/// Entries in the dictionary order of their keys, at most one for each key.
#[derive(Debug)]
pub struct KeyedMap<V> {
    entries: Vec<(String, V)>,
}

/// A map from strings to strings.
pub type StringMap = KeyedMap<String>;

/// The map that a list of entries stands for.
pub open spec fn map_of<V>(entries: Seq<(String, V)>) -> Map<Seq<char>, V>
    decreases entries.len(),
{
    if entries.len() == 0 {
        Map::empty()
    } else {
        map_of(entries.drop_last()).insert(entries.last().0@, entries.last().1)
    }
}

/// Whether entries stand in the order of their keys, none twice.
pub open spec fn ascending<V>(entries: Seq<(String, V)>) -> bool {
    forall|i: int, j: int|
        0 <= i < j < entries.len() ==> lex_lt(
            (#[trigger] entries[i]).0@,
            (#[trigger] entries[j]).0@,
        )
}

/// The texts that a map to strings holds.
pub open spec fn text_map(m: Map<Seq<char>, String>) -> Map<Seq<char>, Seq<char>> {
    m.map_values(|s: String| s@)
}

/// A map holds what its entries hold, and nothing else.
pub proof fn lemma_map_of<V>(entries: Seq<(String, V)>)
    requires
        ascending(entries),
    ensures
        forall|i: int|
            0 <= i < entries.len() ==> map_of(entries).contains_key((#[trigger] entries[i]).0@)
                && map_of(entries)[entries[i].0@] == entries[i].1,
        forall|k: Seq<char>| #[trigger]
            map_of(entries).contains_key(k) ==> exists|i: int|
                0 <= i < entries.len() && (#[trigger] entries[i]).0@ == k,
    decreases entries.len(),
{
    if entries.len() > 0 {
        let rest = entries.drop_last();
        lemma_map_of(rest);
        assert forall|i: int| 0 <= i < entries.len() implies map_of(entries).contains_key(
            (#[trigger] entries[i]).0@,
        ) && map_of(entries)[entries[i].0@] == entries[i].1 by {
            if i < rest.len() {
                assert(rest[i] == entries[i]);
                assert(lex_lt(entries[i].0@, entries[entries.len() - 1].0@));
            }
        }
        assert forall|k: Seq<char>| #[trigger] map_of(entries).contains_key(k) implies exists|
            i: int,
        | 0 <= i < entries.len() && (#[trigger] entries[i]).0@ == k by {
            if k == entries.last().0@ {
                assert(entries[entries.len() - 1].0@ == k);
            } else {
                assert(map_of(rest).contains_key(k));
                let i = choose|i: int| 0 <= i < rest.len() && (#[trigger] rest[i]).0@ == k;
                assert(entries[i].0@ == k);
            }
        }
    }
}

impl<V> View for KeyedMap<V> {
    type V = Map<Seq<char>, V>;

    closed spec fn view(&self) -> Map<Seq<char>, V> {
        map_of(self.entries@)
    }
}

impl<V> KeyedMap<V> {
    /// The entries in the order of their keys.
    pub closed spec fn items(self) -> Seq<(String, V)> {
        self.entries@
    }

    /// The keys ascend.
    #[verifier::type_invariant]
    pub open spec fn wf(self) -> bool {
        ascending(self.items())
    }

    /// The map is what its entries stand for.
    pub proof fn lemma_items(self)
        ensures
            self@ == map_of(self.items()),
    {
    }

    /// An empty map.
    pub fn new() -> (m: Self)
        ensures
            m@ == Map::<Seq<char>, V>::empty(),
            m.items().len() == 0,
    {
        KeyedMap { entries: Vec::new() }
    }

    /// The number of entries.
    pub fn len(&self) -> (n: usize)
        ensures
            n == self.items().len(),
    {
        self.entries.len()
    }

    /// The entry at a position in the order of the keys.
    pub fn entry(&self, i: usize) -> (e: &(String, V))
        requires
            i < self.items().len(),
        ensures
            *e == self.items()[i as int],
    {
        &self.entries[i]
    }

    /// Takes the entries out of the map.
    pub fn into_entries(self) -> (entries: Vec<(String, V)>)
        ensures
            entries@ == self.items(),
    {
        self.entries
    }

    /// The position of the first key that does not come before the given one.
    fn lower_bound(&self, key: &str) -> (at: usize)
        ensures
            at <= self.items().len(),
            forall|i: int| 0 <= i < at ==> !lex_le(key@, (#[trigger] self.items()[i]).0@),
            at < self.items().len() ==> lex_le(key@, self.items()[at as int].0@),
    {
        let mut at: usize = 0;
        while at < self.entries.len()
            invariant
                at <= self.entries.len(),
                forall|i: int| 0 <= i < at ==> !lex_le(key@, (#[trigger] self.items()[i]).0@),
            decreases self.entries.len() - at,
        {
            if text_le(key, self.entries[at].0.as_str()) {
                return at;
            }
            at = at + 1;
        }
        at
    }

    /// Whether the entry at a lower bound has the key.
    proof fn lemma_lower_bound(self, key: Seq<char>, at: int)
        requires
            self.wf(),
            0 <= at <= self.items().len(),
            forall|i: int| 0 <= i < at ==> !lex_le(key, (#[trigger] self.items()[i]).0@),
            at < self.items().len() ==> lex_le(key, self.items()[at].0@),
        ensures
            self@.contains_key(key) <==> at < self.items().len() && self.items()[at].0@ == key,
            self@.contains_key(key) ==> self@[key] == self.items()[at].1,
            forall|i: int| at < i < self.items().len() ==> lex_lt(key, (#[trigger] self.items()[i]).0@),
            forall|i: int| 0 <= i < at ==> lex_lt((#[trigger] self.items()[i]).0@, key),
    {
        let items = self.items();
        lemma_map_of(items);
        assert forall|i: int| 0 <= i < at implies lex_lt((#[trigger] items[i]).0@, key) by {
            lex_total(items[i].0@, key);
            if items[i].0@ == key {
                lex_reflexive(key);
            }
        }
        assert forall|i: int| at < i < items.len() implies lex_lt(key, (#[trigger] items[i]).0@) by {
            assert(lex_lt(items[at].0@, items[i].0@));
            lex_transitive(key, items[at].0@, items[i].0@);
            if items[i].0@ == key {
                lex_antisymmetric(items[at].0@, key);
            }
        }
        if self@.contains_key(key) {
            let i = choose|i: int| 0 <= i < items.len() && (#[trigger] items[i]).0@ == key;
            assert(i == at);
        }
    }

    /// The value under a key.
    pub fn get(&self, key: &str) -> (value: Option<&V>)
        ensures
            match value {
                Some(value) => self@.contains_key(key@) && *value == self@[key@],
                None => !self@.contains_key(key@),
            },
    {
        let at = self.lower_bound(key);
        proof {
            use_type_invariant(self);
            self.lemma_lower_bound(key@, at as int);
        }
        if at < self.entries.len() && text_le(self.entries[at].0.as_str(), key) {
            proof {
                lex_antisymmetric(self.items()[at as int].0@, key@);
            }
            Some(&self.entries[at].1)
        } else {
            proof {
                lex_reflexive(key@);
            }
            None
        }
    }

    /// Puts a value under a key, in place of one that is there.
    pub fn insert(&mut self, key: String, value: V)
        ensures
            final(self)@ == old(self)@.insert(key@, value),
    {
        let at = self.lower_bound(key.as_str());
        let ghost before = self.items();
        proof {
            use_type_invariant(&*self);
            self.lemma_lower_bound(key@, at as int);
            lemma_map_of(before);
        }
        let mut entries: Vec<(String, V)> = Vec::new();
        std::mem::swap(&mut entries, &mut self.entries);
        if at < entries.len() && text_le(entries[at].0.as_str(), key.as_str()) {
            proof {
                lex_antisymmetric(before[at as int].0@, key@);
            }
            entries.set(at, (key, value));
            proof {
                let after = entries@;
                assert(after =~= before.update(at as int, (key, value)));
                assert(ascending(after)) by {
                    assert forall|i: int, j: int| 0 <= i < j < after.len() implies lex_lt(
                        (#[trigger] after[i]).0@,
                        (#[trigger] after[j]).0@,
                    ) by {
                        assert(lex_lt(before[i].0@, before[j].0@));
                    }
                }
                lemma_replaced(before, after, at as int, key, value);
            }
        } else {
            proof {
                lex_reflexive(key@);
            }
            entries.insert(at, (key, value));
            proof {
                let after = entries@;
                assert(after =~= before.insert(at as int, (key, value)));
                assert(ascending(after)) by {
                    assert forall|i: int, j: int| 0 <= i < j < after.len() implies lex_lt(
                        (#[trigger] after[i]).0@,
                        (#[trigger] after[j]).0@,
                    ) by {
                        if i < at && j < at {
                            assert(lex_lt(before[i].0@, before[j].0@));
                        } else if i < at && j > at {
                            assert(lex_lt(before[i].0@, before[j - 1].0@));
                        } else if i > at {
                            assert(lex_lt(before[i - 1].0@, before[j - 1].0@));
                        } else if i == at {
                            assert(before[j - 1].0@ == after[j].0@);
                            if j - 1 == at {
                                assert(before[at as int].0@ != key@);
                            }
                        }
                    }
                }
                lemma_inserted(before, after, at as int, key, value);
            }
        }
        self.entries = entries;
    }
}

proof fn lemma_replaced<V>(
    before: Seq<(String, V)>,
    after: Seq<(String, V)>,
    at: int,
    key: String,
    value: V,
)
    requires
        ascending(before),
        ascending(after),
        0 <= at < before.len(),
        before[at].0@ == key@,
        after == before.update(at, (key, value)),
    ensures
        map_of(after) == map_of(before).insert(key@, value),
{
    lemma_map_of(before);
    lemma_map_of(after);
    let expected = map_of(before).insert(key@, value);
    assert forall|k: Seq<char>| #[trigger] map_of(after).contains_key(k) <==> expected.contains_key(
        k,
    ) by {
        if map_of(after).contains_key(k) {
            let i = choose|i: int| 0 <= i < after.len() && (#[trigger] after[i]).0@ == k;
            assert(before[i].0@ == k);
        }
        if expected.contains_key(k) && k != key@ {
            let i = choose|i: int| 0 <= i < before.len() && (#[trigger] before[i]).0@ == k;
            assert(after[i].0@ == k);
        }
        assert(after[at].0@ == key@);
    }
    assert forall|k: Seq<char>| #[trigger] map_of(after).contains_key(k) implies map_of(after)[k]
        == expected[k] by {
        let i = choose|i: int| 0 <= i < after.len() && (#[trigger] after[i]).0@ == k;
        if i != at {
            assert(before[i].0@ == k);
            assert(lex_lt(before[i].0@, before[at].0@) || lex_lt(before[at].0@, before[i].0@));
        }
    }
    assert(map_of(after) =~= expected);
}

proof fn lemma_inserted<V>(
    before: Seq<(String, V)>,
    after: Seq<(String, V)>,
    at: int,
    key: String,
    value: V,
)
    requires
        ascending(before),
        ascending(after),
        0 <= at <= before.len(),
        !map_of(before).contains_key(key@),
        after == before.insert(at, (key, value)),
    ensures
        map_of(after) == map_of(before).insert(key@, value),
{
    lemma_map_of(before);
    lemma_map_of(after);
    let expected = map_of(before).insert(key@, value);
    assert(after[at].0@ == key@);
    assert forall|k: Seq<char>| #[trigger] map_of(after).contains_key(k) <==> expected.contains_key(
        k,
    ) by {
        if map_of(after).contains_key(k) {
            let i = choose|i: int| 0 <= i < after.len() && (#[trigger] after[i]).0@ == k;
            if i < at {
                assert(before[i].0@ == k);
            } else if i > at {
                assert(before[i - 1].0@ == k);
            }
        }
        if expected.contains_key(k) && k != key@ {
            let i = choose|i: int| 0 <= i < before.len() && (#[trigger] before[i]).0@ == k;
            if i < at {
                assert(after[i].0@ == k);
            } else {
                assert(after[i + 1].0@ == k);
            }
        }
    }
    assert forall|k: Seq<char>| #[trigger] map_of(after).contains_key(k) implies map_of(after)[k]
        == expected[k] by {
        let i = choose|i: int| 0 <= i < after.len() && (#[trigger] after[i]).0@ == k;
        if i < at {
            assert(before[i].0@ == k);
        } else if i > at {
            assert(before[i - 1].0@ == k);
        }
    }
    assert(map_of(after) =~= expected);
}

/// A map to strings has the text of each value, under the same keys.
pub proof fn text_map_has_the_texts(m: Map<Seq<char>, String>)
    ensures
        text_map(m).dom() == m.dom(),
        forall|k: Seq<char>| #[trigger] m.contains_key(k) ==> text_map(m)[k] == m[k]@,
{
    assert(text_map(m).dom() =~= m.dom());
}

/// Entries ascend if and only if every key comes strictly before each later one.
pub proof fn ascending_keys_differ<V>(entries: Seq<(String, V)>)
    ensures
        ascending(entries) <==> forall|i: int, j: int|
            0 <= i < j < entries.len() ==> lex_le(
                (#[trigger] entries[i]).0@,
                (#[trigger] entries[j]).0@,
            ) && entries[i].0@ != entries[j].0@,
{
}

impl<V> KeyedMap<V> {
    /// A map holds, for each of its entries, the value under the key, and nothing else.
    pub proof fn map_holds_its_entries(self)
        requires
            self.wf(),
        ensures
            forall|i: int|
                0 <= i < self.items().len() ==> self@.contains_key((#[trigger] self.items()[i]).0@)
                    && self@[self.items()[i].0@] == self.items()[i].1,
            forall|k: Seq<char>| #[trigger]
                self@.contains_key(k) ==> exists|i: int|
                    0 <= i < self.items().len() && (#[trigger] self.items()[i]).0@ == k,
            forall|i: int, j: int|
                0 <= i < j < self.items().len() ==> lex_le(
                    (#[trigger] self.items()[i]).0@,
                    (#[trigger] self.items()[j]).0@,
                ) && self.items()[i].0@ != self.items()[j].0@,
    {
        lemma_map_of(self.items());
    }
}

}
