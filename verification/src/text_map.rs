//! A map keyed by texts, kept in the order of its keys.

use crate::text::{
    less, same, text_less, text_less_irreflexive, text_less_total, text_less_transitive,
};
use vstd::prelude::*;

verus! {

/// A map from texts to values. Its keys are distinct and stand in ascending
/// order, so walking it by position visits the keys in that order.
pub struct TextMap<V> {
    entries: Vec<(String, V)>,
}

/// Keys in strictly ascending order.
pub open spec fn ascending(keys: Seq<Seq<char>>) -> bool {
    forall|i: int, j: int| 0 <= i < j < keys.len() ==> text_less(#[trigger] keys[i], #[trigger] keys[j])
}

impl<V> TextMap<V> {
    #[verifier::type_invariant]
    closed spec fn in_order(self) -> bool {
        ascending(self.keys())
    }

    /// The keys, in order.
    pub closed spec fn keys(self) -> Seq<Seq<char>> {
        Seq::new(self.entries@.len(), |i: int| self.entries@[i].0@)
    }

    /// The values, in the order of their keys.
    pub closed spec fn values(self) -> Seq<V> {
        Seq::new(self.entries@.len(), |i: int| self.entries@[i].1)
    }
}

impl<V> View for TextMap<V> {
    type V = Map<Seq<char>, V>;

    /// What each key maps to.
    open spec fn view(&self) -> Map<Seq<char>, V> {
        Map::new(
            |k: Seq<char>| self.keys().contains(k),
            |k: Seq<char>| self.values()[self.keys().index_of(k)],
        )
    }
}

/// Ascending keys are distinct.
pub proof fn ascending_keys_are_distinct(keys: Seq<Seq<char>>)
    requires
        ascending(keys),
    ensures
        keys.no_duplicates(),
{
    assert forall|i: int, j: int| 0 <= i < j < keys.len() implies keys[i] != keys[j] by {
        text_less_irreflexive(keys[i]);
    }
}

/// The keys of a map in ascending order.
pub open spec fn ordered_keys<V>(m: Map<Seq<char>, V>) -> Seq<Seq<char>> {
    choose|keys: Seq<Seq<char>>| lists_keys(m, keys)
}

/// Whether a list holds the keys of a map in ascending order.
pub open spec fn lists_keys<V>(m: Map<Seq<char>, V>, keys: Seq<Seq<char>>) -> bool {
    &&& ascending(keys)
    &&& forall|k: Seq<char>| keys.contains(k) == #[trigger] m.contains_key(k)
}

/// There is one ascending list of the keys of a map.
pub proof fn keys_have_one_order<V>(m: Map<Seq<char>, V>, keys: Seq<Seq<char>>)
    requires
        lists_keys(m, keys),
    ensures
        ordered_keys(m) == keys,
{
    let other = ordered_keys(m);
    assert(lists_keys(m, other));
    assert forall|k: Seq<char>| keys.contains(k) == #[trigger] other.contains(k) by {
        assert(keys.contains(k) == m.contains_key(k));
    }
    lemma_one_order(keys, other);
}

proof fn lemma_one_order(a: Seq<Seq<char>>, b: Seq<Seq<char>>)
    requires
        ascending(a),
        ascending(b),
        forall|k: Seq<char>| a.contains(k) == #[trigger] b.contains(k),
    ensures
        a == b,
    decreases a.len(),
{
    if a.len() == 0 {
        if b.len() > 0 {
            assert(b.contains(b[0]));
        }
        assert(a =~= b);
    } else {
        assert(a.contains(a[a.len() - 1]));
        assert(b.contains(a.last()));
        let i = b.index_of(a.last());
        assert(b[i] == a.last());
        assert(b.contains(b[b.len() - 1]));
        assert(a.contains(b.last()));
        let j = a.index_of(b.last());
        assert(a[j] == b.last());
        if i < b.len() - 1 {
            assert(text_less(b[i], b[b.len() - 1]));
            if j < a.len() - 1 {
                assert(text_less(a[j], a[a.len() - 1]));
                text_less_transitive(a.last(), b.last(), a.last());
            }
            text_less_irreflexive(a.last());
        }
        assert(a.last() == b.last());
        let (x, y) = (a.drop_last(), b.drop_last());
        assert forall|k: Seq<char>| x.contains(k) == #[trigger] y.contains(k) by {
            lemma_front_keys(a, k);
            lemma_front_keys(b, k);
            assert(a.contains(k) == b.contains(k));
        }
        lemma_one_order(x, y);
        assert(a =~= x.push(a.last()));
        assert(b =~= y.push(b.last()));
    }
}

/// Of an ascending list, the keys before the last are all but the last.
proof fn lemma_front_keys(a: Seq<Seq<char>>, k: Seq<char>)
    requires
        ascending(a),
        a.len() > 0,
    ensures
        a.drop_last().contains(k) == (a.contains(k) && k != a.last()),
{
    let front = a.drop_last();
    if front.contains(k) {
        let i = front.index_of(k);
        assert(front[i] == k);
        assert(a[i] == k);
        assert(text_less(a[i], a[a.len() - 1]));
        text_less_irreflexive(k);
    }
    if a.contains(k) && k != a.last() {
        let i = a.index_of(k);
        assert(a[i] == k);
        assert(front[i] == k);
    }
}

/// Ascending keys are distinct, so a key is found at its own position.
proof fn lemma_position(keys: Seq<Seq<char>>, i: int)
    requires
        ascending(keys),
        0 <= i < keys.len(),
    ensures
        keys.contains(keys[i]),
        keys.index_of(keys[i]) == i,
{
    let j = keys.index_of(keys[i]);
    assert(keys.contains(keys[i]));
    assert(0 <= j < keys.len() && keys[j] == keys[i]);
    text_less_irreflexive(keys[i]);
    if i < j {
        assert(text_less(keys[i], keys[j]));
    } else if j < i {
        assert(text_less(keys[j], keys[i]));
    }
}

impl<V> TextMap<V> {
    /// An empty map.
    pub fn new() -> (m: Self)
        ensures
            m@ == Map::<Seq<char>, V>::empty(),
            m.keys().len() == 0,
    {
        let m = TextMap { entries: Vec::new() };
        assert(m@ =~= Map::<Seq<char>, V>::empty());
        m
    }

    /// The number of keys. Every map has ascending keys, one value for each.
    pub fn len(&self) -> (n: usize)
        ensures
            n == self.keys().len(),
            n == self.values().len(),
            self@.dom().finite(),
            ascending(self.keys()),
            forall|i: int|
                #![trigger self.keys()[i]]
                #![trigger self.values()[i]]
                0 <= i < n ==> self@.contains_key(self.keys()[i]) && self@[self.keys()[i]]
                    == self.values()[i],
    {
        proof {
            use_type_invariant(self);
            assert forall|i: int|
                #![trigger self.keys()[i]]
                #![trigger self.values()[i]]
                0 <= i < self.entries@.len() implies self@.contains_key(self.keys()[i])
                && self@[self.keys()[i]] == self.values()[i] by {
                lemma_position(self.keys(), i);
            }
            vstd::seq_lib::seq_to_set_is_finite(self.keys());
            assert(self@.dom() =~= self.keys().to_set());
        }
        self.entries.len()
    }

    /// Whether the map has no key.
    pub fn is_empty(&self) -> (r: bool)
        ensures
            r == (self.keys().len() == 0),
            r == (self@ == Map::<Seq<char>, V>::empty()),
    {
        proof {
            if self.keys().len() == 0 {
                assert(self@ =~= Map::<Seq<char>, V>::empty());
            } else {
                use_type_invariant(self);
                lemma_position(self.keys(), 0);
                assert(self@.contains_key(self.keys()[0]));
            }
        }
        self.entries.len() == 0
    }

    /// The key at a position.
    pub fn key_at(&self, i: usize) -> (k: &String)
        requires
            i < self.keys().len(),
        ensures
            k@ == self.keys()[i as int],
    {
        &self.entries[i].0
    }

    /// The value at a position.
    pub fn value_at(&self, i: usize) -> (v: &V)
        requires
            i < self.values().len(),
        ensures
            *v == self.values()[i as int],
    {
        &self.entries[i].1
    }

    /// The position of the first key that does not come before `key`.
    fn position(&self, key: &str) -> (p: usize)
        ensures
            p <= self.keys().len(),
            forall|i: int| 0 <= i < p ==> text_less(#[trigger] self.keys()[i], key@),
            p < self.keys().len() ==> !text_less(self.keys()[p as int], key@),
    {
        let mut p: usize = 0;
        while p < self.entries.len()
            invariant
                p <= self.entries@.len(),
                forall|i: int| 0 <= i < p ==> text_less(#[trigger] self.keys()[i], key@),
            decreases self.entries@.len() - p,
        {
            assert(self.keys()[p as int] == self.entries@[p as int].0@);
            if !less(self.entries[p].0.as_str(), key) {
                return p;
            }
            p += 1;
        }
        p
    }

    /// The value of `key`, if the map has it.
    pub fn get(&self, key: &str) -> (r: Option<&V>)
        ensures
            match r {
                Some(v) => self@.contains_key(key@) && *v == self@[key@],
                None => !self@.contains_key(key@),
            },
    {
        let p = self.position(key);
        proof {
            use_type_invariant(self);
            lemma_found(self.keys(), key@, p as int);
            if p < self.keys().len() {
                lemma_position(self.keys(), p as int);
            }
        }
        if p < self.entries.len() && same(self.entries[p].0.as_str(), key) {
            Some(&self.entries[p].1)
        } else {
            None
        }
    }

    /// Whether the map has `key`.
    pub fn contains_key(&self, key: &str) -> (r: bool)
        ensures
            r == self@.contains_key(key@),
    {
        self.get(key).is_some()
    }

    /// Maps `key` to `value`; the value it had before, if any, is returned.
    pub fn insert(&mut self, key: String, value: V) -> (previous: Option<V>)
        ensures
            final(self)@ == old(self)@.insert(key@, value),
            previous == (if old(self)@.contains_key(key@) {
                Some(old(self)@[key@])
            } else {
                None
            }),
    {
        let p = self.position(key.as_str());
        proof {
            use_type_invariant(&*self);
            lemma_found(self.keys(), key@, p as int);
        }
        let ghost before = *self;
        let mut entries: Vec<(String, V)> = Vec::new();
        core::mem::swap(&mut self.entries, &mut entries);
        if p < entries.len() && same(entries[p].0.as_str(), key.as_str()) {
            proof {
                lemma_position(before.keys(), p as int);
            }
            let mut slot = (key, value);
            core::mem::swap(&mut entries[p], &mut slot);
            let ghost after = TextMap { entries };
            assert(after.keys() =~= before.keys());
            assert(after.values() =~= before.values().update(p as int, value));
            self.entries = entries;
            assert forall|k: Seq<char>| before@.contains_key(k) && k != key@ implies self@[k]
                == before@[k] by {
                let q = before.keys().index_of(k);
                assert(before.keys()[q] == k);
            }
            assert(self@ =~= before@.insert(key@, value));
            Some(slot.1)
        } else {
            entries.insert(p, (key, value));
            let ghost after = TextMap { entries };
            proof {
                assert(after.keys() =~= before.keys().insert(p as int, key@));
                assert(after.values() =~= before.values().insert(p as int, value));
                lemma_insert_ascending(before.keys(), key@, p as int);
            }
            self.entries = entries;
            proof {
                lemma_position(after.keys(), p as int);
                assert(after.keys()[p as int] == key@);
                assert(after.values()[p as int] == value);
                assert(self@.contains_key(key@) && self@[key@] == value);
                assert forall|k: Seq<char>| #[trigger] before@.contains_key(k) implies self@.contains_key(k)
                    && self@[k] == before@[k] by {
                    let q = before.keys().index_of(k);
                    assert(before.keys()[q] == k);
                    let r = if q < p { q } else { q + 1 };
                    lemma_position(after.keys(), r);
                    assert(after.keys()[r] == k);
                }
                assert forall|k: Seq<char>| #[trigger] self@.contains_key(k) && k != key@ implies before@.contains_key(
                    k,
                ) by {
                    let r = after.keys().index_of(k);
                    assert(after.keys()[r] == k);
                    let q = if r < p { r } else { r - 1 };
                    assert(before.keys()[q] == k);
                    assert(before.keys().contains(k));
                }
                let expected = before@.insert(key@, value);
                assert forall|k: Seq<char>| self@.dom().contains(k) == #[trigger] expected.dom().contains(k) by {
                    assert(before@.contains_key(k) ==> self@.contains_key(k));
                    assert(self@.contains_key(k) && k != key@ ==> before@.contains_key(k));
                }
                assert(self@.dom() =~= expected.dom());
                assert(self@ =~= expected);
            }
            None
        }
    }
}

impl<V> TextMap<V> {
    /// The first position of another map whose key this map has too.
    pub fn first_common(&self, other: &TextMap<V>) -> (r: Option<usize>)
        ensures
            match r {
                Some(i) => {
                    &&& i < other.keys().len()
                    &&& self@.contains_key(other.keys()[i as int])
                    &&& forall|j: int|
                        0 <= j < i ==> !self@.contains_key(#[trigger] other.keys()[j])
                },
                None => forall|j: int|
                    0 <= j < other.keys().len() ==> !self@.contains_key(#[trigger] other.keys()[j]),
            },
    {
        for i in 0..other.entries.len()
            invariant
                forall|j: int| 0 <= j < i ==> !self@.contains_key(#[trigger] other.keys()[j]),
        {
            assert(other.keys()[i as int] == other.entries@[i as int].0@);
            if self.contains_key(other.entries[i].0.as_str()) {
                return Some(i);
            }
        }
        None
    }

    /// Maps every key of another map to what it has there.
    pub fn absorb(&mut self, other: TextMap<V>)
        ensures
            final(self)@ == old(self)@.union_prefer_right(other@),
    {
        proof {
            use_type_invariant(&other);
        }
        let ghost keys = other.keys();
        let ghost values = other.values();
        let mut rest: Vec<(String, V)> = other.entries;
        let ghost start = self@;
        let ghost whole = other@;
        while rest.len() > 0
            invariant
                ascending(keys),
                keys.len() == values.len(),
                rest@.len() <= keys.len(),
                forall|i: int|
                    0 <= i < rest@.len() ==> (#[trigger] rest@[i]).0@ == keys[i] && rest@[i].1
                        == values[i],
                whole == Map::new(
                    |k: Seq<char>| keys.contains(k),
                    |k: Seq<char>| values[keys.index_of(k)],
                ),
                forall|k: Seq<char>| #[trigger]
                    self@.contains_key(k) <==> start.contains_key(k) || keys.skip(
                        rest@.len() as int,
                    ).contains(k),
                forall|k: Seq<char>| #[trigger]
                    self@.contains_key(k) ==> self@[k] == (if keys.skip(
                        rest@.len() as int,
                    ).contains(k) {
                        whole[k]
                    } else {
                        start[k]
                    }),
            decreases rest@.len(),
        {
            let ghost n = rest@.len() as int;
            let ghost before = self@;
            let last = rest.pop();
            match last {
                Some((key, value)) => {
                    proof {
                        lemma_position(keys, n - 1);
                        assert(keys.skip(n - 1) =~= seq![keys[n - 1]] + keys.skip(n));
                        assert forall|k: Seq<char>| keys.skip(n - 1).contains(k) <==> k == keys[n
                            - 1] || #[trigger] keys.skip(n).contains(k) by {
                            if k == keys[n - 1] {
                                assert(keys.skip(n - 1)[0] == k);
                            }
                            if keys.skip(n).contains(k) {
                                let j = keys.skip(n).index_of(k);
                                assert(keys.skip(n - 1)[j + 1] == k);
                            }
                            if keys.skip(n - 1).contains(k) && k != keys[n - 1] {
                                let j = keys.skip(n - 1).index_of(k);
                                assert(keys.skip(n)[j - 1] == k);
                            }
                        }
                        assert(whole[key@] == value);
                    }
                    self.insert(key, value);
                    assert(self@ == before.insert(key@, value));
                },
                None => {},
            }
        }
        proof {
            assert(keys.skip(0) =~= keys);
            assert(self@ =~= start.union_prefer_right(whole));
        }
    }
}

impl<V: Copy> TextMap<V> {
    /// A copy of the map.
    pub fn duplicate(&self) -> (r: Self)
        ensures
            r.keys() == self.keys(),
            r.values() == self.values(),
            r@ == self@,
    {
        let mut entries: Vec<(String, V)> = Vec::new();
        for i in 0..self.entries.len()
            invariant
                entries@.len() == i,
                forall|k: int| 0 <= k < i ==> #[trigger] entries@[k] == self.entries@[k],
        {
            entries.push((self.entries[i].0.clone(), self.entries[i].1));
        }
        proof {
            use_type_invariant(self);
            let copy = TextMap { entries };
            assert(copy.keys() =~= self.keys());
        }
        let r = TextMap { entries };
        assert(r.values() =~= self.values());
        r
    }
}

/// The first key that does not come before `key` is `key`, if any is.
proof fn lemma_found(keys: Seq<Seq<char>>, key: Seq<char>, p: int)
    requires
        ascending(keys),
        0 <= p <= keys.len(),
        forall|i: int| 0 <= i < p ==> text_less(#[trigger] keys[i], key),
        p < keys.len() ==> !text_less(keys[p], key),
    ensures
        keys.contains(key) <==> p < keys.len() && keys[p] == key,
        forall|i: int| p < i < keys.len() ==> text_less(key, #[trigger] keys[i]),
        p < keys.len() && keys[p] != key ==> text_less(key, keys[p]),
{
    text_less_irreflexive(key);
    if p < keys.len() {
        text_less_total(keys[p], key);
        assert forall|i: int| p < i < keys.len() implies text_less(key, #[trigger] keys[i]) by {
            assert(text_less(keys[p], keys[i]));
            if keys[p] != key {
                text_less_transitive(key, keys[p], keys[i]);
            }
        }
    }
    if keys.contains(key) {
        let q = keys.index_of(key);
        assert(keys[q] == key);
        if q > p {
            assert(text_less(key, keys[q]));
        }
    }
}

/// A new key put where it belongs keeps the keys ascending.
proof fn lemma_insert_ascending(keys: Seq<Seq<char>>, key: Seq<char>, p: int)
    requires
        ascending(keys),
        0 <= p <= keys.len(),
        forall|i: int| 0 <= i < p ==> text_less(#[trigger] keys[i], key),
        forall|i: int| p <= i < keys.len() ==> text_less(key, #[trigger] keys[i]),
    ensures
        ascending(keys.insert(p, key)),
{
    let new = keys.insert(p, key);
    assert forall|i: int, j: int| 0 <= i < j < new.len() implies text_less(
        #[trigger] new[i],
        #[trigger] new[j],
    ) by {
        let a = if i < p { i } else { i - 1 };
        let b = if j < p { j } else { j - 1 };
        if i != p && j != p {
            assert(new[i] == keys[a] && new[j] == keys[b]);
        } else if i == p {
            assert(new[j] == keys[b]);
        } else {
            assert(new[i] == keys[a]);
        }
    }
}

} // verus!
