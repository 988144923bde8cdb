//! A map from text to values whose keys are kept in ascending order, so that
//! walking it and rendering it are deterministic.

use vstd::prelude::*;
use vstd::string::*;
use crate::text;

verus! {

/// Keys strictly ascend: none occurs twice, and iteration order is key order.
pub open spec fn ascending<V>(entries: Seq<(Seq<char>, V)>) -> bool {
    forall|i: int, j: int|
        0 <= i < j < entries.len() ==> text::text_before(
            #[trigger] entries[i].0,
            #[trigger] entries[j].0,
        )
}

/// What `entries` holds under `key`.
pub open spec fn lookup<V>(entries: Seq<(Seq<char>, V)>, key: Seq<char>) -> Option<V>
    decreases entries.len(),
{
    if entries.len() == 0 {
        None
    } else if entries[0].0 == key {
        Some(entries[0].1)
    } else {
        lookup(entries.drop_first(), key)
    }
}

/// `entries` with `value` under `key`: in place of what stood there, or at its
/// place in key order.
pub open spec fn put<V>(entries: Seq<(Seq<char>, V)>, key: Seq<char>, value: V) -> Seq<
    (Seq<char>, V),
>
    decreases entries.len(),
{
    if entries.len() == 0 {
        seq![(key, value)]
    } else if entries[0].0 == key {
        seq![(key, value)] + entries.drop_first()
    } else if text::text_before(key, entries[0].0) {
        seq![(key, value)] + entries
    } else {
        seq![entries[0]] + put(entries.drop_first(), key, value)
    }
}

/// `put` where there is a value, and no change where there is none.
pub open spec fn put_given<V>(
    entries: Seq<(Seq<char>, V)>,
    key: Seq<char>,
    value: Option<V>,
) -> Seq<(Seq<char>, V)> {
    match value {
        Some(value) => put(entries, key, value),
        None => entries,
    }
}

/// `entries` with every value mapped.
pub open spec fn mapped<V, W>(entries: Seq<(Seq<char>, V)>, f: spec_fn(V) -> W) -> Seq<
    (Seq<char>, W),
> {
    Seq::new(entries.len(), |i: int| (entries[i].0, f(entries[i].1)))
}

/// After `put` the key holds the new value, and every other key what it held.
pub broadcast proof fn lemma_lookup_put<V>(
    entries: Seq<(Seq<char>, V)>,
    key: Seq<char>,
    value: V,
    other: Seq<char>,
)
    ensures
        #[trigger] lookup(put(entries, key, value), other) == if other == key {
            Some(value)
        } else {
            lookup(entries, other)
        },
    decreases entries.len(),
{
    reveal_with_fuel(lookup, 2);
    let after = put(entries, key, value);
    if entries.len() == 0 {
        assert(after.drop_first() =~= Seq::empty());
    } else if entries[0].0 == key {
        assert(after.drop_first() =~= entries.drop_first());
    } else if text::text_before(key, entries[0].0) {
        assert(after.drop_first() =~= entries);
    } else {
        assert(after.drop_first() =~= put(entries.drop_first(), key, value));
        lemma_lookup_put(entries.drop_first(), key, value, other);
    }
}

/// What `lookup` finds stands at some position; where it finds nothing, no
/// position has the key.
pub proof fn lemma_lookup_position<V>(entries: Seq<(Seq<char>, V)>, key: Seq<char>)
    ensures
        match lookup(entries, key) {
            Some(value) => exists|i: int|
                0 <= i < entries.len() && #[trigger] entries[i] == (key, value),
            None => forall|i: int| 0 <= i < entries.len() ==> (#[trigger] entries[i]).0 != key,
        },
    decreases entries.len(),
{
    if entries.len() > 0 {
        let rest = entries.drop_first();
        if entries[0].0 == key {
            assert(entries[0] == (key, entries[0].1));
        } else {
            lemma_lookup_position(rest, key);
            match lookup(rest, key) {
                Some(value) => {
                    let i = choose|i: int| 0 <= i < rest.len() && #[trigger] rest[i] == (key, value);
                    assert(entries[i + 1] == (key, value));
                },
                None => {
                    assert forall|i: int| 0 <= i < entries.len() implies (
                    #[trigger] entries[i]).0 != key by {
                        if i > 0 {
                            assert(rest[i - 1] == entries[i]);
                        }
                    }
                },
            }
        }
    }
}

/// In an ascending map, what stands at a position is what `lookup` finds.
pub proof fn lemma_position_lookup<V>(entries: Seq<(Seq<char>, V)>, i: int)
    requires
        ascending(entries),
        0 <= i < entries.len(),
    ensures
        lookup(entries, entries[i].0) == Some(entries[i].1),
    decreases entries.len(),
{
    let rest = entries.drop_first();
    if i > 0 {
        text::lemma_before_irreflexive(entries[i].0);
        assert(text::text_before(entries[0].0, entries[i].0));
        assert(rest[i - 1] == entries[i]);
        assert(ascending(rest)) by {
            assert forall|a: int, b: int| 0 <= a < b < rest.len() implies text::text_before(
                #[trigger] rest[a].0,
                #[trigger] rest[b].0,
            ) by {
                assert(rest[a] == entries[a + 1] && rest[b] == entries[b + 1]);
            }
        }
        lemma_position_lookup(rest, i - 1);
    }
}

/// `put` keeps the keys ascending.
pub proof fn lemma_put_ascending<V>(entries: Seq<(Seq<char>, V)>, key: Seq<char>, value: V)
    requires
        ascending(entries),
    ensures
        ascending(put(entries, key, value)),
        forall|i: int|
            0 <= i < put(entries, key, value).len() ==> {
                let k = #[trigger] put(entries, key, value)[i].0;
                k == key || exists|j: int| 0 <= j < entries.len() && k == #[trigger] entries[j].0
            },
    decreases entries.len(),
{
    let after = put(entries, key, value);
    if entries.len() == 0 {
    } else {
        let rest = entries.drop_first();
        assert(forall|i: int| 0 <= i < rest.len() ==> rest[i] == #[trigger] entries[i + 1]);
        assert(ascending(rest)) by {
            assert forall|a: int, b: int| 0 <= a < b < rest.len() implies text::text_before(
                #[trigger] rest[a].0,
                #[trigger] rest[b].0,
            ) by {
                assert(rest[a] == entries[a + 1] && rest[b] == entries[b + 1]);
            }
        }
        if entries[0].0 == key {
            assert forall|a: int, b: int| 0 <= a < b < after.len() implies text::text_before(
                #[trigger] after[a].0,
                #[trigger] after[b].0,
            ) by {
                assert(after[b].0 == entries[b].0 && after[a].0 == entries[a].0);
            }
            assert forall|i: int| 0 <= i < after.len() implies exists|j: int|
                0 <= j < entries.len() && (#[trigger] after[i]).0 == #[trigger] entries[j].0 by {
                assert(after[i].0 == entries[i].0);
            }
        } else if text::text_before(key, entries[0].0) {
            assert forall|a: int, b: int| 0 <= a < b < after.len() implies text::text_before(
                #[trigger] after[a].0,
                #[trigger] after[b].0,
            ) by {
                assert(after[b] == entries[b - 1]);
                if a == 0 {
                    if b > 1 {
                        text::lemma_before_transitive(key, entries[0].0, entries[b - 1].0);
                    }
                } else {
                    assert(after[a] == entries[a - 1]);
                }
            }
            assert forall|i: int| 0 <= i < after.len() implies ({
                let k = #[trigger] after[i].0;
                k == key || exists|j: int| 0 <= j < entries.len() && k == #[trigger] entries[j].0
            }) by {
                if i > 0 {
                    assert(after[i].0 == entries[i - 1].0);
                }
            }
        } else {
            text::lemma_before_total(entries[0].0, key);
            lemma_put_ascending(rest, key, value);
            let tail = put(rest, key, value);
            assert(after =~= seq![entries[0]] + tail);
            assert forall|i: int| 0 <= i < tail.len() implies text::text_before(
                entries[0].0,
                #[trigger] tail[i].0,
            ) by {
                let k = tail[i].0;
                if k != key {
                    let j = choose|j: int| 0 <= j < rest.len() && k == #[trigger] rest[j].0;
                    assert(rest[j] == entries[j + 1]);
                }
            }
            assert forall|a: int, b: int| 0 <= a < b < after.len() implies text::text_before(
                #[trigger] after[a].0,
                #[trigger] after[b].0,
            ) by {
                assert(after[b] == tail[b - 1]);
                if a > 0 {
                    assert(after[a] == tail[a - 1]);
                }
            }
            assert forall|i: int| 0 <= i < after.len() implies ({
                let k = #[trigger] after[i].0;
                k == key || exists|j: int| 0 <= j < entries.len() && k == #[trigger] entries[j].0
            }) by {
                if i > 0 {
                    let k = tail[i - 1].0;
                    assert(after[i].0 == k);
                    if k != key {
                        let j = choose|j: int| 0 <= j < rest.len() && k == #[trigger] rest[j].0;
                        assert(rest[j] == entries[j + 1]);
                    }
                } else {
                    assert(after[0].0 == entries[0].0);
                }
            }
        }
    }
}

/// Where `put` puts a pair: behind exactly the keys that come before it.
proof fn lemma_put_position<V>(
    entries: Seq<(Seq<char>, V)>,
    key: Seq<char>,
    value: V,
    at: int,
)
    requires
        0 <= at <= entries.len(),
        forall|i: int| 0 <= i < at ==> text::text_before(#[trigger] entries[i].0, key),
        at < entries.len() ==> !text::text_before(entries[at].0, key),
    ensures
        put(entries, key, value) == if at < entries.len() && entries[at].0 == key {
            entries.update(at, (key, value))
        } else {
            entries.insert(at, (key, value))
        },
    decreases entries.len(),
{
    let rest = entries.drop_first();
    if entries.len() == 0 {
        assert(put(entries, key, value) =~= entries.insert(0, (key, value)));
    } else if at == 0 {
        text::lemma_before_total(entries[0].0, key);
        if entries[0].0 == key {
            assert(put(entries, key, value) =~= entries.update(0, (key, value)));
        } else {
            assert(put(entries, key, value) =~= entries.insert(0, (key, value)));
        }
    } else {
        text::lemma_before_irreflexive(key);
        text::lemma_before_total(entries[0].0, key);
        assert(forall|i: int| 0 <= i < rest.len() ==> rest[i] == #[trigger] entries[i + 1]);
        assert forall|i: int| 0 <= i < at - 1 implies text::text_before(
            #[trigger] rest[i].0,
            key,
        ) by {
            assert(rest[i] == entries[i + 1]);
        }
        lemma_put_position(rest, key, value, at - 1);
        if at < entries.len() && entries[at].0 == key {
            assert(put(entries, key, value) =~= entries.update(at, (key, value)));
        } else {
            assert(put(entries, key, value) =~= entries.insert(at, (key, value)));
        }
    }
}

/// Putting a key that comes after all others.
pub proof fn lemma_put_last<V>(entries: Seq<(Seq<char>, V)>, key: Seq<char>, value: V)
    requires
        forall|i: int|
            0 <= i < entries.len() ==> text::text_before((#[trigger] entries[i]).0, key),
    ensures
        put(entries, key, value) == entries.push((key, value)),
{
    lemma_put_position(entries, key, value, entries.len() as int);
    assert(entries.insert(entries.len() as int, (key, value)) =~= entries.push((key, value)));
}

/// Putting a value under a new key adds that pair, and keeps every other.
pub proof fn lemma_put_new<V>(entries: Seq<(Seq<char>, V)>, key: Seq<char>, value: V)
    requires
        forall|i: int| 0 <= i < entries.len() ==> (#[trigger] entries[i]).0 != key,
    ensures
        put(entries, key, value).len() == entries.len() + 1,
        forall|i: int|
            0 <= i < put(entries, key, value).len() ==> {
                let pair = #[trigger] put(entries, key, value)[i];
                pair == (key, value) || exists|j: int|
                    0 <= j < entries.len() && #[trigger] entries[j] == pair
            },
    decreases entries.len(),
{
    let after = put(entries, key, value);
    if entries.len() > 0 {
        assert(entries[0].0 != key);
        let rest = entries.drop_first();
        if text::text_before(key, entries[0].0) {
            assert forall|i: int| 0 <= i < after.len() implies {
                let pair = #[trigger] after[i];
                pair == (key, value) || exists|j: int|
                    0 <= j < entries.len() && #[trigger] entries[j] == pair
            } by {
                if i > 0 {
                    assert(after[i] == entries[i - 1]);
                }
            }
        } else {
            assert forall|i: int| 0 <= i < rest.len() implies (#[trigger] rest[i]).0 != key by {
                assert(rest[i] == entries[i + 1]);
            }
            lemma_put_new(rest, key, value);
            let inner = put(rest, key, value);
            assert forall|i: int| 0 <= i < after.len() implies {
                let pair = #[trigger] after[i];
                pair == (key, value) || exists|j: int|
                    0 <= j < entries.len() && #[trigger] entries[j] == pair
            } by {
                if i == 0 {
                    assert(after[i] == entries[0]);
                } else {
                    assert(after[i] == inner[i - 1]);
                    if inner[i - 1] != (key, value) {
                        let j = choose|j: int|
                            0 <= j < rest.len() && #[trigger] rest[j] == inner[i - 1];
                        assert(entries[j + 1] == after[i]);
                    }
                }
            }
        }
    }
}

/// Putting the next pair of an ascending map behind those before it.
pub proof fn lemma_put_next<V>(entries: Seq<(Seq<char>, V)>, i: int)
    requires
        ascending(entries),
        0 <= i < entries.len(),
    ensures
        put(entries.take(i), entries[i].0, entries[i].1) == entries.take(i + 1),
{
    let before = entries.take(i);
    assert forall|j: int| 0 <= j < before.len() implies text::text_before(
        (#[trigger] before[j]).0,
        entries[i].0,
    ) by {
        assert(before[j] == entries[j]);
    }
    lemma_put_last(before, entries[i].0, entries[i].1);
    assert(before.push((entries[i].0, entries[i].1)) =~= entries.take(i + 1));
}

/// Mapping the values commutes with `lookup`.
pub proof fn lemma_lookup_mapped<V, W>(
    entries: Seq<(Seq<char>, V)>,
    f: spec_fn(V) -> W,
    key: Seq<char>,
)
    ensures
        lookup(mapped(entries, f), key) == match lookup(entries, key) {
            Some(value) => Some(f(value)),
            None => None,
        },
    decreases entries.len(),
{
    if entries.len() > 0 {
        assert(mapped(entries, f).drop_first() =~= mapped(entries.drop_first(), f));
        lemma_lookup_mapped(entries.drop_first(), f, key);
    }
}

/// Mapping the values commutes with `put`.
pub proof fn lemma_put_mapped<V, W>(
    entries: Seq<(Seq<char>, V)>,
    f: spec_fn(V) -> W,
    key: Seq<char>,
    value: V,
)
    ensures
        mapped(put(entries, key, value), f) == put(mapped(entries, f), key, f(value)),
    decreases entries.len(),
{
    if entries.len() > 0 {
        let rest = entries.drop_first();
        assert(mapped(entries, f).drop_first() =~= mapped(rest, f));
        lemma_put_mapped(rest, f, key, value);
    }
    assert(mapped(put(entries, key, value), f) =~= put(mapped(entries, f), key, f(value)));
}

/// What holds of all values and of a new one holds of all values after `put`.
pub proof fn lemma_put_all<V>(
    entries: Seq<(Seq<char>, V)>,
    key: Seq<char>,
    value: V,
    p: spec_fn(V) -> bool,
)
    requires
        p(value),
        forall|i: int| 0 <= i < entries.len() ==> p((#[trigger] entries[i]).1),
    ensures
        forall|i: int|
            0 <= i < put(entries, key, value).len() ==> p((#[trigger] put(entries, key, value)[i]).1),
    decreases entries.len(),
{
    let after = put(entries, key, value);
    if entries.len() > 0 {
        let rest = entries.drop_first();
        assert forall|i: int| 0 <= i < rest.len() implies p((#[trigger] rest[i]).1) by {
            assert(rest[i] == entries[i + 1]);
        }
        lemma_put_all(rest, key, value, p);
        let tail = put(rest, key, value);
        assert forall|i: int| 0 <= i < after.len() implies p((#[trigger] after[i]).1) by {
            if entries[0].0 == key {
                if i > 0 {
                    assert(after[i] == entries[i]);
                }
            } else if text::text_before(key, entries[0].0) {
                if i > 0 {
                    assert(after[i] == entries[i - 1]);
                }
            } else if i > 0 {
                assert(after[i] == tail[i - 1]);
            } else {
                assert(after[0] == entries[0]);
            }
        }
    }
}

/// A map from text to values, in ascending key order.
#[derive(Debug, PartialEq)]
pub struct SortedMap<V> {
    entries: Vec<(String, V)>,
}

impl<V> SortedMap<V> {
    #[verifier::type_invariant]
    spec fn keys_ascend(self) -> bool {
        ascending(self.view())
    }

    /// The stored pairs, in order.
    pub closed spec fn pairs(self) -> Seq<(String, V)> {
        self.entries@
    }

    /// The content, in key order.
    pub open spec fn view(self) -> Seq<(Seq<char>, V)> {
        Seq::new(self.pairs().len(), |i: int| (self.pairs()[i].0@, self.pairs()[i].1))
    }

    /// A value stored in a map is smaller than the map.
    pub broadcast proof fn lemma_value_smaller(self, i: int)
        requires
            0 <= i < self.pairs().len(),
        ensures
            #[trigger] (decreases_to!(self => self.pairs()[i].1)),
    {
    }

    /// The map without entries.
    pub fn new() -> (map: SortedMap<V>)
        ensures
            map@ == Seq::<(Seq<char>, V)>::empty(),
    {
        let map = SortedMap { entries: Vec::new() };
        assert(map@ =~= Seq::<(Seq<char>, V)>::empty());
        map
    }

    /// The number of entries.
    pub fn len(&self) -> (n: usize)
        ensures
            n == self@.len(),
    {
        self.entries.len()
    }

    /// Whether there are no entries.
    pub fn is_empty(&self) -> (yes: bool)
        ensures
            yes == (self@.len() == 0),
    {
        self.entries.len() == 0
    }

    /// The keys ascend.
    pub fn reveal_order(&self)
        ensures
            ascending(self@),
    {
        proof {
            use_type_invariant(self);
        }
    }

    /// The key at a position.
    pub fn key_at(&self, i: usize) -> (key: &String)
        requires
            i < self@.len(),
        ensures
            key@ == self@[i as int].0,
    {
        &self.entries[i].0
    }

    /// The value at a position.
    pub fn value_at(&self, i: usize) -> (value: &V)
        requires
            i < self@.len(),
        ensures
            *value == self@[i as int].1,
    {
        &self.entries[i].1
    }

    /// What the map holds under a key.
    pub fn get(&self, key: &str) -> (found: Option<&V>)
        ensures
            match found {
                Some(value) => lookup(self@, key@) == Some(*value),
                None => lookup(self@, key@) is None,
            },
    {
        let wanted: String = key.to_owned();
        let mut i: usize = 0;
        assert(self@.skip(0) =~= self@);
        while i < self.entries.len()
            invariant
                i <= self@.len(),
                self@.len() == self.entries@.len(),
                wanted@ == key@,
                lookup(self@, key@) == lookup(self@.skip(i as int), key@),
            decreases self@.len() - i,
        {
            assert(self@.skip(i as int)[0] == self@[i as int]);
            if self.entries[i].0 == wanted {
                return Some(&self.entries[i].1);
            }
            assert(self@.skip(i as int).drop_first() =~= self@.skip(i + 1));
            i += 1;
        }
        None
    }

    /// Whether the map has an entry under a key.
    pub fn contains_key(&self, key: &str) -> (yes: bool)
        ensures
            yes == (lookup(self@, key@) is Some),
    {
        match self.get(key) {
            Some(_) => true,
            None => false,
        }
    }

    /// Put a value under a key, and hand back what stood there.
    pub fn insert(&mut self, key: String, value: V) -> (previous: Option<V>)
        ensures
            final(self)@ == put(old(self)@, key@, value),
            previous == lookup(old(self)@, key@),
    {
        proof {
            use_type_invariant(&*self);
        }
        let ghost before = self@;
        let mut entries: Vec<(String, V)> = Vec::new();
        std::mem::swap(&mut entries, &mut self.entries);
        let ghost stored = entries@;
        let mut at: usize = 0;
        while at < entries.len() && text::comes_before(entries[at].0.as_str(), key.as_str())
            invariant
                entries@ == stored,
                at <= stored.len(),
                before.len() == stored.len(),
                forall|i: int|
                    0 <= i < stored.len() ==> #[trigger] before[i] == (stored[i].0@, stored[i].1),
                forall|i: int| 0 <= i < at ==> text::text_before(#[trigger] before[i].0, key@),
            decreases stored.len() - at,
        {
            at += 1;
        }
        proof {
            lemma_put_position(before, key@, value, at as int);
            lemma_put_ascending(before, key@, value);
        }
        if at < entries.len() && entries[at].0 == key {
            proof {
                lemma_position_lookup(before, at as int);
            }
            let previous = entries.remove(at);
            entries.insert(at, (key, value));
            assert(Seq::new(entries@.len(), |i: int| (entries@[i].0@, entries@[i].1)) =~= put(
                before,
                key@,
                value,
            ));
            self.entries = entries;
            Some(previous.1)
        } else {
            proof {
                lemma_absent(before, key@, at as int);
            }
            entries.insert(at, (key, value));
            assert(Seq::new(entries@.len(), |i: int| (entries@[i].0@, entries@[i].1)) =~= put(
                before,
                key@,
                value,
            ));
            self.entries = entries;
            None
        }
    }
}

/// A key that is not at its place is nowhere.
proof fn lemma_absent<V>(entries: Seq<(Seq<char>, V)>, key: Seq<char>, at: int)
    requires
        ascending(entries),
        0 <= at <= entries.len(),
        forall|i: int| 0 <= i < at ==> text::text_before(#[trigger] entries[i].0, key),
        at < entries.len() ==> !text::text_before(entries[at].0, key) && entries[at].0 != key,
    ensures
        lookup(entries, key) is None,
{
    lemma_lookup_position(entries, key);
    if lookup(entries, key) is Some {
        let value = lookup(entries, key)->0;
        let i = choose|i: int| 0 <= i < entries.len() && #[trigger] entries[i] == (key, value);
        text::lemma_before_irreflexive(key);
        assert(entries[i].0 == key);
        if i > at {
            assert(text::text_before(entries[at].0, entries[i].0));
        }
    }
}

} // verus!
