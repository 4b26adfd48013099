//! A map keyed by text and kept sorted by key, in byte order.
//!
//! Identifier paths, reference targets and file names all key such a map;
//! its order is what the outline and the queries walk.

use crate::text::{compare_text, lemma_text_order, text_less, ByteOrder};
use vstd::prelude::*;

verus! {

/// Each key comes strictly before every later one.
pub open spec fn strictly_sorted(keys: Seq<Seq<char>>) -> bool {
    forall|i: int, j: int| 0 <= i < j < keys.len() ==> text_less(keys[i], keys[j])
}

/// No key of a strictly sorted sequence occurs twice.
pub proof fn lemma_sorted_distinct(keys: Seq<Seq<char>>)
    requires
        strictly_sorted(keys),
    ensures
        forall|i: int, j: int| 0 <= i < keys.len() && 0 <= j < keys.len() && keys[i] == keys[j] ==> i == j,
{
    assert forall|i: int, j: int|
        0 <= i < keys.len() && 0 <= j < keys.len() && keys[i] == keys[j] implies i == j by {
        lemma_text_order(keys[i], keys[j], keys[i]);
        if i < j {
            assert(text_less(keys[i], keys[j]));
        }
        if j < i {
            assert(text_less(keys[j], keys[i]));
        }
    }
}

/// The map that pairs `keys[i]` with `values[i]`.
pub open spec fn pairing<V>(keys: Seq<Seq<char>>, values: Seq<V>) -> Map<Seq<char>, V> {
    Map::new(|k: Seq<char>| keys.contains(k), |k: Seq<char>| values[keys.index_of(k)])
}

/// In the pairing of distinct keys each key has the value at its own place.
pub proof fn lemma_pairing<V>(keys: Seq<Seq<char>>, values: Seq<V>)
    requires
        strictly_sorted(keys),
        keys.len() == values.len(),
    ensures
        forall|i: int|
            0 <= i < keys.len() ==> pairing(keys, values).contains_key(#[trigger] keys[i])
                && pairing(keys, values)[keys[i]] == values[i],
        forall|k: Seq<char>|
            pairing(keys, values).contains_key(k) ==> exists|i: int|
                0 <= i < keys.len() && keys[i] == k,
{
    lemma_sorted_distinct(keys);
    assert forall|i: int| 0 <= i < keys.len() implies pairing(keys, values).contains_key(
        #[trigger] keys[i],
    ) && pairing(keys, values)[keys[i]] == values[i] by {
        assert(keys.contains(keys[i]));
        let j = keys.index_of(keys[i]);
        assert(keys[j] == keys[i]);
    }
}

/// A map fixes the order of its entries: two strictly sorted lists of keys
/// that pair up to the same map are the same list, with the same values.
pub proof fn lemma_pairing_determined<V>(
    keys: Seq<Seq<char>>,
    values: Seq<V>,
    other_keys: Seq<Seq<char>>,
    other_values: Seq<V>,
)
    requires
        strictly_sorted(keys),
        strictly_sorted(other_keys),
        keys.len() == values.len(),
        other_keys.len() == other_values.len(),
        pairing(keys, values) == pairing(other_keys, other_values),
    ensures
        keys == other_keys,
        values == other_values,
    decreases keys.len(),
{
    lemma_pairing(keys, values);
    lemma_pairing(other_keys, other_values);
    lemma_sorted_distinct(keys);
    lemma_sorted_distinct(other_keys);
    let m = pairing(keys, values);
    if keys.len() == 0 {
        if other_keys.len() > 0 {
            assert(m.contains_key(other_keys[0]));
        }
        assert(keys =~= other_keys);
        assert(values =~= other_values);
    } else {
        let last = keys.last();
        assert(m.contains_key(keys[keys.len() - 1]));
        let j = choose|j: int| 0 <= j < other_keys.len() && other_keys[j] == last;
        let other_last = other_keys.last();
        assert(m.contains_key(other_keys[other_keys.len() - 1]));
        let i = choose|i: int| 0 <= i < keys.len() && keys[i] == other_last;
        lemma_text_order(last, other_last, last);
        lemma_text_order(other_last, last, other_last);
        if i < keys.len() - 1 {
            assert(text_less(keys[i], keys[keys.len() - 1]));
        }
        if j < other_keys.len() - 1 {
            assert(text_less(other_keys[j], other_keys[other_keys.len() - 1]));
        }
        assert(last == other_last);
        let rest = keys.drop_last();
        let other_rest = other_keys.drop_last();
        let rest_values = values.drop_last();
        let other_rest_values = other_values.drop_last();
        assert(strictly_sorted(rest)) by {
            assert forall|a: int, b: int| 0 <= a < b < rest.len() implies text_less(
                rest[a],
                rest[b],
            ) by {
                assert(text_less(keys[a], keys[b]));
            }
        }
        assert(strictly_sorted(other_rest)) by {
            assert forall|a: int, b: int| 0 <= a < b < other_rest.len() implies text_less(
                other_rest[a],
                other_rest[b],
            ) by {
                assert(text_less(other_keys[a], other_keys[b]));
            }
        }
        lemma_pairing(rest, rest_values);
        lemma_pairing(other_rest, other_rest_values);
        assert forall|k: Seq<char>| pairing(rest, rest_values).contains_key(k) == pairing(
            other_rest,
            other_rest_values,
        ).contains_key(k) && (pairing(rest, rest_values).contains_key(k) ==> pairing(
            rest,
            rest_values,
        )[k] == pairing(other_rest, other_rest_values)[k]) by {
            if rest.contains(k) {
                let a = choose|a: int| 0 <= a < rest.len() && rest[a] == k;
                assert(keys[a] == k);
                assert(m.contains_key(keys[a]));
                let b = choose|b: int| 0 <= b < other_keys.len() && other_keys[b] == k;
                assert(b < other_keys.len() - 1);
                assert(other_rest[b] == k);
                assert(rest_values[a] == values[a]);
                assert(other_rest_values[b] == other_values[b]);
            }
            if other_rest.contains(k) {
                let b = choose|b: int| 0 <= b < other_rest.len() && other_rest[b] == k;
                assert(other_keys[b] == k);
                assert(m.contains_key(other_keys[b]));
                let a = choose|a: int| 0 <= a < keys.len() && keys[a] == k;
                assert(a < keys.len() - 1);
                assert(rest[a] == k);
            }
        }
        assert(pairing(rest, rest_values) =~= pairing(other_rest, other_rest_values));
        lemma_pairing_determined(rest, rest_values, other_rest, other_rest_values);
        assert(keys =~= rest.push(last));
        assert(other_keys =~= other_rest.push(other_last));
        assert(values.last() == m[last]);
        assert(other_values.last() == m[other_last]);
        assert(values =~= rest_values.push(values.last()));
        assert(other_values =~= other_rest_values.push(other_values.last()));
    }
}

struct Entry<V> {
    key: String,
    value: V,
}

spec fn keys_of<V>(entries: Seq<Entry<V>>) -> Seq<Seq<char>> {
    Seq::new(entries.len(), |i: int| entries[i].key@)
}

spec fn values_of<V>(entries: Seq<Entry<V>>) -> Seq<V> {
    Seq::new(entries.len(), |i: int| entries[i].value)
}

/// A map from text to `V`, its entries in the byte order of their keys.
pub struct PathMap<V> {
    entries: Vec<Entry<V>>,
}

impl<V> PathMap<V> {
    #[verifier::type_invariant]
    spec fn ordered(self) -> bool {
        strictly_sorted(self.keys())
    }

    /// The keys, in order.
    pub closed spec fn keys(self) -> Seq<Seq<char>> {
        keys_of(self.entries@)
    }

    /// The values, each at the place of its key.
    pub closed spec fn values(self) -> Seq<V> {
        values_of(self.entries@)
    }

    /// The map held.
    pub open spec fn view(self) -> Map<Seq<char>, V> {
        pairing(self.keys(), self.values())
    }

    /// An empty map.
    pub fn new() -> (m: PathMap<V>)
        ensures
            m.keys() == Seq::<Seq<char>>::empty(),
            m.values() == Seq::<V>::empty(),
            m@ == Map::<Seq<char>, V>::empty(),
    {
        let m = PathMap { entries: Vec::new() };
        proof {
            assert(m.keys() =~= Seq::<Seq<char>>::empty());
            assert(m.values() =~= Seq::<V>::empty());
            assert(m@ =~= Map::<Seq<char>, V>::empty());
        }
        m
    }

    /// The number of entries. Keys and values are as many, and the keys are
    /// strictly sorted.
    pub fn len(&self) -> (n: usize)
        ensures
            n == self.keys().len(),
            n == self.values().len(),
            strictly_sorted(self.keys()),
    {
        proof {
            use_type_invariant(self);
        }
        self.entries.len()
    }

    /// The key at place `i`.
    pub fn key_at(&self, i: usize) -> (key: &String)
        requires
            i < self.keys().len(),
        ensures
            key@ == self.keys()[i as int],
    {
        &self.entries[i].key
    }

    /// The value at place `i`.
    pub fn value_at(&self, i: usize) -> (value: &V)
        requires
            i < self.values().len(),
        ensures
            *value == self.values()[i as int],
    {
        &self.entries[i].value
    }

    /// The first place whose key does not come before `key`.
    fn lower_bound(&self, key: &str) -> (p: usize)
        ensures
            p <= self.keys().len(),
            forall|j: int| 0 <= j < p ==> text_less(self.keys()[j], key@),
            forall|j: int| p <= j < self.keys().len() ==> !text_less(self.keys()[j], key@),
    {
        proof {
            use_type_invariant(self);
        }
        let mut lo: usize = 0;
        let mut hi: usize = self.entries.len();
        while lo < hi
            invariant
                lo <= hi <= self.entries.len(),
                self.keys().len() == self.entries.len(),
                strictly_sorted(self.keys()),
                forall|j: int| 0 <= j < lo ==> text_less(self.keys()[j], key@),
                forall|j: int| hi <= j < self.keys().len() ==> !text_less(self.keys()[j], key@),
            decreases hi - lo,
        {
            let mid = lo + (hi - lo) / 2;
            let order = compare_text(self.entries[mid].key.as_str(), key);
            let ghost at = self.keys()[mid as int];
            if order == ByteOrder::Before {
                proof {
                    assert forall|j: int| 0 <= j < mid + 1 implies text_less(
                        self.keys()[j],
                        key@,
                    ) by {
                        if j < mid {
                            lemma_text_order(self.keys()[j], at, key@);
                        }
                    }
                }
                lo = mid + 1;
            } else {
                proof {
                    assert forall|j: int| mid <= j < self.keys().len() implies !text_less(
                        self.keys()[j],
                        key@,
                    ) by {
                        if mid < j {
                            lemma_text_order(at, self.keys()[j], key@);
                        }
                    }
                }
                hi = mid;
            }
        }
        lo
    }

    /// The place of `key`, where the map holds it.
    pub fn find(&self, key: &str) -> (place: Option<usize>)
        ensures
            match place {
                Some(i) => i < self.keys().len() && self.keys()[i as int] == key@,
                None => !self.keys().contains(key@),
            },
            place is Some <==> self@.contains_key(key@),
    {
        proof {
            use_type_invariant(self);
        }
        let p = self.lower_bound(key);
        if p < self.entries.len() {
            let order = compare_text(self.entries[p].key.as_str(), key);
            proof {
                lemma_text_order(self.keys()[p as int], key@, key@);
            }
            if order == ByteOrder::Same {
                proof {
                    assert(self.keys().contains(key@));
                }
                return Some(p);
            }
        }
        proof {
            assert forall|j: int| 0 <= j < self.keys().len() implies self.keys()[j] != key@ by {
                lemma_text_order(self.keys()[j], key@, key@);
                if p < j {
                    lemma_text_order(self.keys()[p as int], self.keys()[j], key@);
                }
            }
        }
        None
    }

    /// The value under `key`, where the map holds one.
    pub fn get(&self, key: &str) -> (value: Option<&V>)
        ensures
            match value {
                Some(v) => self@.contains_key(key@) && self@[key@] == *v,
                None => !self@.contains_key(key@),
            },
    {
        proof {
            use_type_invariant(self);
            lemma_pairing(self.keys(), self.values());
        }
        match self.find(key) {
            Some(i) => Some(&self.entries[i].value),
            None => None,
        }
    }

    /// Whether the map holds `key`.
    pub fn contains_key(&self, key: &str) -> (r: bool)
        ensures
            r == self@.contains_key(key@),
    {
        self.find(key).is_some()
    }

    /// Puts `value` under `key` and hands back the value that was there. A
    /// new key takes its place in the order; the other entries stay.
    pub fn insert(&mut self, key: String, value: V) -> (previous: Option<V>)
        ensures
            final(self)@ == old(self)@.insert(key@, value),
            match previous {
                Some(v) => old(self)@.contains_key(key@) && old(self)@[key@] == v,
                None => !old(self)@.contains_key(key@),
            },
    {
        proof {
            use_type_invariant(&*self);
            lemma_pairing(self.keys(), self.values());
        }
        let ghost before = *self;
        let p = self.lower_bound(key.as_str());
        let mut entry = Entry { key, value };
        let mut entries: Vec<Entry<V>> = Vec::new();
        proof {
            assert(strictly_sorted(keys_of(entries@)));
        }
        core::mem::swap(&mut self.entries, &mut entries);
        if p < entries.len() {
            let order = compare_text(entries[p].key.as_str(), entry.key.as_str());
            proof {
                lemma_text_order(before.keys()[p as int], key@, key@);
            }
            if order == ByteOrder::Same {
                core::mem::swap(&mut entries[p], &mut entry);
                proof {
                    assert(keys_of(entries@) =~= before.keys());
                    assert(values_of(entries@) =~= before.values().update(p as int, value));
                    lemma_pairing(keys_of(entries@), values_of(entries@));
                    assert(pairing(keys_of(entries@), values_of(entries@)) =~= before@.insert(
                        key@,
                        value,
                    ));
                }
                core::mem::swap(&mut self.entries, &mut entries);
                return Some(entry.value);
            }
        }
        entries.insert(p, entry);
        proof {
            let keys = keys_of(entries@);
            let values = values_of(entries@);
            assert(keys =~= before.keys().insert(p as int, key@));
            assert(values =~= before.values().insert(p as int, value));
            assert forall|j: int| 0 <= j < before.keys().len() implies before.keys()[j]
                != key@ by {
                lemma_text_order(before.keys()[j], key@, key@);
                if p < j {
                    lemma_text_order(before.keys()[p as int], before.keys()[j], key@);
                }
            }
            assert forall|i: int, j: int| 0 <= i < j < keys.len() implies text_less(
                keys[i],
                keys[j],
            ) by {
                if j == p {
                } else if i == p {
                    lemma_text_order(key@, before.keys()[p as int], before.keys()[j - 1]);
                    lemma_text_order(before.keys()[p as int], key@, key@);
                } else {
                }
            }
            lemma_pairing(keys, values);
            assert(keys[p as int] == key@);
            assert forall|k: Seq<char>| pairing(keys, values).contains_key(k)
                <==> before@.insert(key@, value).contains_key(k) by {
                if before.keys().contains(k) {
                    let i = before.keys().index_of(k);
                    assert(keys[if i < p {
                        i
                    } else {
                        i + 1
                    }] == k);
                }
                if keys.contains(k) && k != key@ {
                    let i = keys.index_of(k);
                    assert(before.keys()[if i < p {
                        i
                    } else {
                        i - 1
                    }] == k);
                }
            }
            assert forall|k: Seq<char>| pairing(keys, values).contains_key(k) implies pairing(
                keys,
                values,
            )[k] == before@.insert(key@, value)[k] by {
                let i = keys.index_of(k);
                assert(keys[i] == k);
                if i != p {
                    let b = if i < p {
                        i
                    } else {
                        i - 1
                    };
                    assert(before.keys()[b] == k);
                }
            }
            assert(pairing(keys, values) =~= before@.insert(key@, value));
        }
        core::mem::swap(&mut self.entries, &mut entries);
        None
    }

    /// Puts `value` at place `i` and hands back the value that was there.
    /// The keys stay as they are.
    pub fn replace_at(&mut self, i: usize, value: V) -> (previous: V)
        requires
            i < old(self).keys().len(),
        ensures
            final(self).keys() == old(self).keys(),
            final(self).values() == old(self).values().update(i as int, value),
            previous == old(self).values()[i as int],
            final(self)@ == old(self)@.insert(old(self).keys()[i as int], value),
    {
        proof {
            use_type_invariant(&*self);
            lemma_pairing(self.keys(), self.values());
        }
        let ghost before = *self;
        let mut held = value;
        let mut entries: Vec<Entry<V>> = Vec::new();
        proof {
            assert(strictly_sorted(keys_of(entries@)));
        }
        core::mem::swap(&mut self.entries, &mut entries);
        core::mem::swap(&mut entries[i].value, &mut held);
        proof {
            assert(keys_of(entries@) =~= before.keys());
            assert(values_of(entries@) =~= before.values().update(i as int, value));
            lemma_pairing(keys_of(entries@), values_of(entries@));
            assert(pairing(keys_of(entries@), values_of(entries@)) =~= before@.insert(
                before.keys()[i as int],
                value,
            ));
        }
        core::mem::swap(&mut self.entries, &mut entries);
        held
    }

    /// Takes the entry under `key` out of the map and hands back its value.
    pub fn remove(&mut self, key: &str) -> (previous: Option<V>)
        ensures
            final(self)@ == old(self)@.remove(key@),
            match previous {
                Some(v) => old(self)@.contains_key(key@) && old(self)@[key@] == v,
                None => !old(self)@.contains_key(key@),
            },
    {
        proof {
            use_type_invariant(&*self);
            lemma_pairing(self.keys(), self.values());
        }
        let ghost before = *self;
        match self.find(key) {
            None => {
                proof {
                    assert(self@ =~= before@.remove(key@));
                }
                None
            },
            Some(p) => {
                let mut entries: Vec<Entry<V>> = Vec::new();
                proof {
                    assert(strictly_sorted(keys_of(entries@)));
                }
                core::mem::swap(&mut self.entries, &mut entries);
                let entry = entries.remove(p);
                proof {
                    let keys = keys_of(entries@);
                    let values = values_of(entries@);
                    assert(keys =~= before.keys().remove(p as int));
                    assert(values =~= before.values().remove(p as int));
                    assert forall|i: int, j: int| 0 <= i < j < keys.len() implies text_less(
                        keys[i],
                        keys[j],
                    ) by {
                        let a = if i < p {
                            i
                        } else {
                            i + 1
                        };
                        let b = if j < p {
                            j
                        } else {
                            j + 1
                        };
                        assert(text_less(before.keys()[a], before.keys()[b]));
                    }
                    lemma_pairing(keys, values);
                    lemma_sorted_distinct(before.keys());
                    assert forall|k: Seq<char>| pairing(keys, values).contains_key(k)
                        <==> before@.remove(key@).contains_key(k) by {
                        if keys.contains(k) {
                            let i = keys.index_of(k);
                            let a = if i < p {
                                i
                            } else {
                                i + 1
                            };
                            assert(before.keys()[a] == k);
                        }
                        if before.keys().contains(k) && k != key@ {
                            let a = before.keys().index_of(k);
                            assert(keys[if a < p {
                                a
                            } else {
                                a - 1
                            }] == k);
                        }
                    }
                    assert forall|k: Seq<char>| pairing(keys, values).contains_key(
                        k,
                    ) implies pairing(keys, values)[k] == before@.remove(key@)[k] by {
                        let i = keys.index_of(k);
                        assert(keys[i] == k);
                        let a = if i < p {
                            i
                        } else {
                            i + 1
                        };
                        assert(before.keys()[a] == k);
                    }
                    assert(pairing(keys, values) =~= before@.remove(key@));
                }
                core::mem::swap(&mut self.entries, &mut entries);
                Some(entry.value)
            },
        }
    }
}

} // verus!
