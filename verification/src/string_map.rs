//! A map from strings to strings, kept in the order of its keys.

use crate::json::{object_entries, object_text, read_object, write_object};
use crate::text::{
    contains_text, lemma_precedes_irreflexive, lemma_precedes_total, lemma_precedes_transitive,
    precedes, same_text, text_precedes, view_of_str, views,
};
use vstd::prelude::*;

verus! {

/// The mathematical map that a `StringMap` stands for.
pub type TextMap = Map<Seq<char>, Seq<char>>;

/// The map that a list of pairs makes when they are entered one by one.
pub open spec fn map_of(pairs: Seq<(String, String)>) -> TextMap
    decreases pairs.len(),
{
    if pairs.len() == 0 {
        Map::empty()
    } else {
        map_of(pairs.drop_last()).insert(pairs.last().0@, pairs.last().1@)
    }
}

/// Whether every key precedes the keys after it.
pub open spec fn ascending(pairs: Seq<(String, String)>) -> bool {
    forall|i: int, j: int|
        0 <= i < j < pairs.len() ==> precedes((#[trigger] pairs[i]).0@, (#[trigger] pairs[j]).0@)
}

/// The entries of `m` whose value is not `value`.
pub open spec fn without_value(m: TextMap, value: Seq<char>) -> TextMap {
    Map::new(|k: Seq<char>| m.contains_key(k) && m[k] != value, |k: Seq<char>| m[k])
}

/// The entries of `m` whose key is one of `keys`.
pub open spec fn only_keys(m: TextMap, keys: Seq<Seq<char>>) -> TextMap {
    Map::new(|k: Seq<char>| m.contains_key(k) && keys.contains(k), |k: Seq<char>| m[k])
}

/// Whether `key` stands in one of the pairs.
pub open spec fn has_key(pairs: Seq<(String, String)>, key: Seq<char>) -> bool {
    exists|i: int| 0 <= i < pairs.len() && (#[trigger] pairs[i]).0@ == key
}

proof fn lemma_domain(pairs: Seq<(String, String)>, key: Seq<char>)
    ensures
        map_of(pairs).contains_key(key) <==> has_key(pairs, key),
    decreases pairs.len(),
{
    if pairs.len() > 0 {
        let front = pairs.drop_last();
        lemma_domain(front, key);
        if has_key(front, key) {
            let i = choose|i: int| 0 <= i < front.len() && (#[trigger] front[i]).0@ == key;
            assert(pairs[i].0@ == key);
        }
        if has_key(pairs, key) && pairs.last().0@ != key {
            let i = choose|i: int| 0 <= i < pairs.len() && (#[trigger] pairs[i]).0@ == key;
            assert(front[i].0@ == key);
        }
        if pairs.last().0@ == key {
            assert(pairs[pairs.len() - 1].0@ == key);
        }
    }
}

proof fn lemma_value(pairs: Seq<(String, String)>, i: int)
    requires
        ascending(pairs),
        0 <= i < pairs.len(),
    ensures
        map_of(pairs).contains_key(pairs[i].0@),
        map_of(pairs)[pairs[i].0@] == pairs[i].1@,
    decreases pairs.len(),
{
    let front = pairs.drop_last();
    if i < pairs.len() - 1 {
        lemma_value(front, i);
        assert(front[i] == pairs[i]);
        assert(precedes(pairs[i].0@, pairs[pairs.len() - 1].0@));
        lemma_precedes_irreflexive(pairs[i].0@);
    }
}

/// Two ascending lists of pairs that make the same map hold the same pairs.
proof fn lemma_canonical(a: Seq<(String, String)>, b: Seq<(String, String)>)
    requires
        ascending(a),
        ascending(b),
        map_of(a) == map_of(b),
    ensures
        a.len() == b.len(),
        forall|i: int|
            0 <= i < a.len() ==> (#[trigger] a[i]).0@ == b[i].0@ && a[i].1@ == b[i].1@,
    decreases a.len(),
{
    if a.len() == 0 {
        if b.len() > 0 {
            lemma_value(b, 0);
        }
    } else {
        lemma_value(a, a.len() - 1);
        lemma_domain(b, a.last().0@);
        let x = a.last().0@;
        let k = choose|k: int| 0 <= k < b.len() && (#[trigger] b[k]).0@ == x;
        lemma_value(b, b.len() - 1);
        let y = b.last().0@;
        lemma_domain(a, y);
        let l = choose|l: int| 0 <= l < a.len() && (#[trigger] a[l]).0@ == y;
        if x != y {
            assert(precedes(b[k].0@, b[b.len() - 1].0@));
            assert(precedes(a[l].0@, a[a.len() - 1].0@));
            lemma_precedes_transitive(x, y, x);
            lemma_precedes_irreflexive(x);
        }
        let c = a.drop_last();
        let d = b.drop_last();
        lemma_last_is_new(a);
        lemma_last_is_new(b);
        assert(map_of(c) =~= map_of(a).remove(x));
        assert(map_of(d) =~= map_of(b).remove(x));
        lemma_canonical(c, d);
        assert forall|i: int| 0 <= i < a.len() implies (#[trigger] a[i]).0@ == b[i].0@ && a[i].1@
            == b[i].1@ by {
            if i < a.len() - 1 {
                assert(c[i] == a[i]);
                assert(d[i] == b[i]);
            }
        }
    }
}

proof fn lemma_last_is_new(pairs: Seq<(String, String)>)
    requires
        ascending(pairs),
        pairs.len() > 0,
    ensures
        !map_of(pairs.drop_last()).contains_key(pairs.last().0@),
{
    let front = pairs.drop_last();
    lemma_domain(front, pairs.last().0@);
    if has_key(front, pairs.last().0@) {
        let i = choose|i: int| 0 <= i < front.len() && (#[trigger] front[i]).0@ == pairs.last().0@;
        assert(precedes(pairs[i].0@, pairs[pairs.len() - 1].0@));
        lemma_precedes_irreflexive(pairs[i].0@);
    }
}

/// Two ascending lists of pairs with the same views make the same map.
proof fn lemma_same_views(a: Seq<(String, String)>, b: Seq<(String, String)>)
    requires
        a.len() == b.len(),
        forall|i: int|
            0 <= i < a.len() ==> (#[trigger] a[i]).0@ == b[i].0@ && a[i].1@ == b[i].1@,
    ensures
        map_of(a) == map_of(b),
    decreases a.len(),
{
    if a.len() > 0 {
        assert forall|i: int| 0 <= i < a.len() - 1 implies (#[trigger] a.drop_last()[i]).0@
            == b.drop_last()[i].0@ && a.drop_last()[i].1@ == b.drop_last()[i].1@ by {
            assert(a.drop_last()[i] == a[i]);
        }
        lemma_same_views(a.drop_last(), b.drop_last());
        assert(a[a.len() - 1].0@ == b[a.len() - 1].0@);
    }
}

/// A map from strings to strings. Its entries stand in the order of their
/// keys, each key once.
#[derive(Debug)]
pub struct StringMap {
    entries: Vec<(String, String)>,
}

impl View for StringMap {
    type V = TextMap;

    closed spec fn view(&self) -> TextMap {
        map_of(self.entries@)
    }
}

impl StringMap {
    #[verifier::type_invariant]
    spec fn well_formed(self) -> bool {
        ascending(self.entries@)
    }

    /// The map without entries.
    pub fn new() -> (r: StringMap)
        ensures
            r@ == Map::<Seq<char>, Seq<char>>::empty(),
    {
        StringMap { entries: Vec::new() }
    }

    /// The entries, in the order of their keys.
    pub fn entries(&self) -> (r: &Vec<(String, String)>)
        ensures
            ascending(r@),
            map_of(r@) == self@,
    {
        proof {
            use_type_invariant(self);
        }
        &self.entries
    }

    /// The value entered for a key.
    pub fn get(&self, key: &str) -> (r: Option<&str>)
        ensures
            view_of_str(r) == self@.get(key@),
    {
        proof {
            use_type_invariant(self);
        }
        let mut i: usize = 0;
        while i < self.entries.len()
            invariant
                i <= self.entries@.len(),
                ascending(self.entries@),
                forall|j: int| 0 <= j < i ==> (#[trigger] self.entries@[j]).0@ != key@,
            decreases self.entries.len() - i,
        {
            if same_text(self.entries[i].0.as_str(), key) {
                proof {
                    lemma_value(self.entries@, i as int);
                }
                return Some(self.entries[i].1.as_str());
            }
            i += 1;
        }
        proof {
            lemma_domain(self.entries@, key@);
        }
        None
    }

    /// Enters a value for a key, in place of the one entered before.
    pub fn insert(&mut self, key: String, value: String)
        ensures
            final(self)@ == old(self)@.insert(key@, value@),
    {
        proof {
            use_type_invariant(&*self);
        }
        let mut entries: Vec<(String, String)> = Vec::new();
        std::mem::swap(&mut entries, &mut self.entries);
        let ghost before = entries@;
        let mut i: usize = 0;
        while i < entries.len() && text_precedes(entries[i].0.as_str(), key.as_str())
            invariant
                i <= entries@.len(),
                forall|j: int| 0 <= j < i ==> precedes((#[trigger] entries@[j]).0@, key@),
            decreases entries.len() - i,
        {
            i += 1;
        }
        if i < entries.len() && same_text(entries[i].0.as_str(), key.as_str()) {
            entries.set(i, (key, value));
            proof {
                lemma_replaced(before, i as int, (key, value));
            }
        } else {
            proof {
                if i < before.len() {
                    lemma_precedes_total(before[i as int].0@, key@);
                }
                lemma_inserted(before, i as int, (key, value));
            }
            entries.insert(i, (key, value));
        }
        self.entries = entries;
    }

    /// Removes every entry with the given value.
    pub fn remove_value(&mut self, value: &str)
        ensures
            final(self)@ == without_value(old(self)@, value@),
    {
        proof {
            use_type_invariant(&*self);
        }
        let mut entries: Vec<(String, String)> = Vec::new();
        std::mem::swap(&mut entries, &mut self.entries);
        let ghost all = entries@;
        let mut kept: Vec<(String, String)> = Vec::new();
        let mut i: usize = 0;
        while i < entries.len()
            invariant
                i <= entries@.len(),
                entries@ == all,
                ascending(all),
                ascending(kept@),
                forall|j: int, k: int|
                    0 <= j < kept@.len() && i <= k < all.len() ==> precedes(
                        (#[trigger] kept@[j]).0@,
                        (#[trigger] all[k]).0@,
                    ),
                map_of(kept@) == without_value(map_of(all.take(i as int)), value@),
            decreases entries.len() - i,
        {
            proof {
                assert(all.take(i + 1).drop_last() == all.take(i as int));
                assert(ascending(all.take(i + 1)));
                lemma_last_is_new(all.take(i + 1));
            }
            if !same_text(entries[i].1.as_str(), value) {
                let pair = (entries[i].0.clone(), entries[i].1.clone());
                let ghost old_kept = kept@;
                kept.push(pair);
                assert(kept@.drop_last() == old_kept);
            }
            assert(map_of(kept@) =~= without_value(map_of(all.take(i + 1)), value@));
            i += 1;
        }
        assert(all.take(i as int) == all);
        self.entries = kept;
    }

    /// Keeps the entries whose key is one of `keys`.
    pub fn retain_keys(&mut self, keys: &[String])
        ensures
            final(self)@ == only_keys(old(self)@, views(keys@)),
    {
        proof {
            use_type_invariant(&*self);
        }
        let mut entries: Vec<(String, String)> = Vec::new();
        std::mem::swap(&mut entries, &mut self.entries);
        let ghost all = entries@;
        let mut kept: Vec<(String, String)> = Vec::new();
        let mut i: usize = 0;
        while i < entries.len()
            invariant
                i <= entries@.len(),
                entries@ == all,
                ascending(all),
                ascending(kept@),
                forall|j: int, k: int|
                    0 <= j < kept@.len() && i <= k < all.len() ==> precedes(
                        (#[trigger] kept@[j]).0@,
                        (#[trigger] all[k]).0@,
                    ),
                map_of(kept@) == only_keys(map_of(all.take(i as int)), views(keys@)),
            decreases entries.len() - i,
        {
            proof {
                assert(all.take(i + 1).drop_last() == all.take(i as int));
                assert(ascending(all.take(i + 1)));
                lemma_last_is_new(all.take(i + 1));
            }
            if contains_text(keys, entries[i].0.as_str()) {
                let pair = (entries[i].0.clone(), entries[i].1.clone());
                let ghost old_kept = kept@;
                kept.push(pair);
                assert(kept@.drop_last() == old_kept);
            }
            assert(map_of(kept@) =~= only_keys(map_of(all.take(i + 1)), views(keys@)));
            i += 1;
        }
        assert(all.take(i as int) == all);
        self.entries = kept;
    }

    /// The map that a list of pairs makes; of two with one key the later counts.
    pub fn from_pairs(pairs: Vec<(String, String)>) -> (r: StringMap)
        ensures
            r@ == map_of(pairs@),
    {
        let mut map = StringMap::new();
        let mut i: usize = 0;
        while i < pairs.len()
            invariant
                i <= pairs@.len(),
                map@ == map_of(pairs@.take(i as int)),
            decreases pairs.len() - i,
        {
            map.insert(pairs[i].0.clone(), pairs[i].1.clone());
            assert(pairs@.take(i + 1).drop_last() == pairs@.take(i as int));
            i += 1;
        }
        assert(pairs@.take(i as int) == pairs@);
        map
    }

    /// Reads a map from the JSON object that holds it.
    pub fn from_json(text: &str) -> (r: Result<StringMap, serde_json::Error>)
        ensures
            match r {
                Ok(map) => object_entries(text@) == Some(map@),
                Err(_) => object_entries(text@) is None,
            },
    {
        match read_object(text) {
            Ok(pairs) => Ok(StringMap::from_pairs(pairs)),
            Err(e) => Err(e),
        }
    }

    /// The JSON object that holds the map, from which `from_json` reads it back.
    pub fn to_json(&self) -> (r: String)
        ensures
            r@ == object_text(self@),
            object_entries(r@) == Some(self@),
    {
        proof {
            use_type_invariant(self);
        }
        match write_object(&self.entries) {
            Ok(text) => text,
            Err(_) => String::new(),
        }
    }
}

proof fn lemma_replaced(before: Seq<(String, String)>, i: int, pair: (String, String))
    requires
        ascending(before),
        0 <= i < before.len(),
        before[i].0@ == pair.0@,
    ensures
        ascending(before.update(i, pair)),
        map_of(before.update(i, pair)) == map_of(before).insert(pair.0@, pair.1@),
{
    let after = before.update(i, pair);
    lemma_value(before, i);
    assert forall|key: Seq<char>| map_of(after).contains_key(key) <==> map_of(before).insert(
        pair.0@,
        pair.1@,
    ).contains_key(key) by {
        lemma_domain(before, key);
        lemma_domain(after, key);
        if has_key(before, key) {
            let j = choose|j: int| 0 <= j < before.len() && (#[trigger] before[j]).0@ == key;
            assert(after[j].0@ == key);
        }
        if has_key(after, key) {
            let j = choose|j: int| 0 <= j < after.len() && (#[trigger] after[j]).0@ == key;
            assert(before[j].0@ == key);
        }
    }
    assert forall|key: Seq<char>| map_of(after).contains_key(key) implies map_of(after)[key]
        == map_of(before).insert(pair.0@, pair.1@)[key] by {
        lemma_domain(after, key);
        let j = choose|j: int| 0 <= j < after.len() && (#[trigger] after[j]).0@ == key;
        lemma_value(after, j);
        lemma_value(before, j);
        if j != i && key == pair.0@ {
            lemma_precedes_irreflexive(key);
            assert(before[j].0@ == before[i].0@);
        }
    }
    assert(map_of(after) =~= map_of(before).insert(pair.0@, pair.1@));
}

proof fn lemma_inserted(before: Seq<(String, String)>, i: int, pair: (String, String))
    requires
        ascending(before),
        0 <= i <= before.len(),
        forall|j: int| 0 <= j < i ==> precedes((#[trigger] before[j]).0@, pair.0@),
        i < before.len() ==> precedes(pair.0@, before[i].0@),
    ensures
        ascending(before.insert(i, pair)),
        map_of(before.insert(i, pair)) == map_of(before).insert(pair.0@, pair.1@),
{
    let after = before.insert(i, pair);
    assert forall|j: int| i <= j < before.len() implies precedes(
        pair.0@,
        (#[trigger] before[j]).0@,
    ) by {
        if j > i {
            lemma_precedes_transitive(pair.0@, before[i].0@, before[j].0@);
        }
    }
    assert forall|j: int, k: int| 0 <= j < k < after.len() implies precedes(
        (#[trigger] after[j]).0@,
        (#[trigger] after[k]).0@,
    ) by {
        if j < i && k > i {
            assert(after[k] == before[k - 1]);
        } else if j > i {
            assert(after[j] == before[j - 1]);
            assert(after[k] == before[k - 1]);
        } else if j == i {
            assert(after[k] == before[k - 1]);
        }
    }
    assert forall|key: Seq<char>| map_of(after).contains_key(key) <==> map_of(before).insert(
        pair.0@,
        pair.1@,
    ).contains_key(key) by {
        lemma_domain(before, key);
        lemma_domain(after, key);
        if has_key(before, key) {
            let j = choose|j: int| 0 <= j < before.len() && (#[trigger] before[j]).0@ == key;
            assert(after[if j < i { j } else { j + 1 }].0@ == key);
        }
        if key == pair.0@ {
            assert(after[i].0@ == key);
        }
        if has_key(after, key) && key != pair.0@ {
            let j = choose|j: int| 0 <= j < after.len() && (#[trigger] after[j]).0@ == key;
            assert(before[if j < i { j } else { j - 1 }].0@ == key);
        }
    }
    assert forall|key: Seq<char>| map_of(after).contains_key(key) implies map_of(after)[key]
        == map_of(before).insert(pair.0@, pair.1@)[key] by {
        lemma_domain(after, key);
        let j = choose|j: int| 0 <= j < after.len() && (#[trigger] after[j]).0@ == key;
        lemma_value(after, j);
        if j < i {
            lemma_value(before, j);
            lemma_precedes_irreflexive(key);
        } else if j > i {
            assert(after[j] == before[j - 1]);
            lemma_value(before, j - 1);
            lemma_precedes_irreflexive(key);
        }
    }
    assert(map_of(after) =~= map_of(before).insert(pair.0@, pair.1@));
}

impl Clone for StringMap {
    fn clone(&self) -> (r: Self)
        ensures
            r@ == self@,
    {
        let mut pairs: Vec<(String, String)> = Vec::new();
        let mut i: usize = 0;
        while i < self.entries.len()
            invariant
                i <= self.entries@.len(),
                pairs@ == self.entries@.take(i as int),
            decreases self.entries.len() - i,
        {
            pairs.push((self.entries[i].0.clone(), self.entries[i].1.clone()));
            i += 1;
        }
        assert(self.entries@.take(i as int) == self.entries@);
        proof {
            use_type_invariant(self);
        }
        StringMap { entries: pairs }
    }
}

impl Default for StringMap {
    fn default() -> (r: Self)
        ensures
            r@ == Map::<Seq<char>, Seq<char>>::empty(),
    {
        StringMap::new()
    }
}

impl PartialEq for StringMap {
    fn eq(&self, other: &Self) -> (r: bool) {
        proof {
            use_type_invariant(self);
            use_type_invariant(other);
            if self@ == other@ {
                lemma_canonical(self.entries@, other.entries@);
            }
        }
        if self.entries.len() != other.entries.len() {
            return false;
        }
        let mut i: usize = 0;
        while i < self.entries.len()
            invariant
                i <= self.entries@.len(),
                self.entries@.len() == other.entries@.len(),
                ascending(self.entries@),
                ascending(other.entries@),
                forall|j: int|
                    0 <= j < i ==> (#[trigger] self.entries@[j]).0@ == other.entries@[j].0@
                        && self.entries@[j].1@ == other.entries@[j].1@,
            decreases self.entries.len() - i,
        {
            if self.entries[i].0 != other.entries[i].0 || self.entries[i].1 != other.entries[i].1 {
                proof {
                    if self@ == other@ {
                        lemma_canonical(self.entries@, other.entries@);
                        assert(self.entries@[i as int].0@ == other.entries@[i as int].0@);
                    }
                }
                return false;
            }
            i += 1;
        }
        proof {
            lemma_same_views(self.entries@, other.entries@);
        }
        true
    }
}

impl vstd::std_specs::cmp::PartialEqSpecImpl for StringMap {
    open spec fn obeys_eq_spec() -> bool {
        true
    }

    open spec fn eq_spec(&self, other: &Self) -> bool {
        self@ == other@
    }
}

impl Eq for StringMap {

}

/// Keeping some keys keeps their entries as they are, and no others.
pub proof fn law_kept_entries_stay_as_they_are(m: TextMap, keys: Seq<Seq<char>>, key: Seq<char>)
    ensures
        only_keys(m, keys).get(key) == if keys.contains(key) {
            m.get(key)
        } else {
            None
        },
{
}

} // verus!
