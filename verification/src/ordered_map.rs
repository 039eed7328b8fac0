//! A string-keyed map that remembers the order in which keys were first inserted: inserting an
//! existing key replaces its value in place, inserting a new key appends it.
use vstd::prelude::*;

verus! {

/// The keys of a sequence of entries, in order.
pub open spec fn keys_of<V>(entries: Seq<(Seq<char>, V)>) -> Seq<Seq<char>> {
    entries.map_values(|e: (Seq<char>, V)| e.0)
}

/// No key occurs twice.
pub open spec fn unique_keys<V>(entries: Seq<(Seq<char>, V)>) -> bool {
    forall|i: int, j: int|
        0 <= i < entries.len() && 0 <= j < entries.len() && i != j ==> #[trigger] entries[i].0
            != #[trigger] entries[j].0
}

/// Whether some entry has key `key`.
pub open spec fn has_key<V>(entries: Seq<(Seq<char>, V)>, key: Seq<char>) -> bool {
    exists|i: int| 0 <= i < entries.len() && #[trigger] entries[i].0 == key
}

/// The position of `key`, where it is present.
pub open spec fn position_of<V>(entries: Seq<(Seq<char>, V)>, key: Seq<char>) -> int {
    choose|i: int| 0 <= i < entries.len() && #[trigger] entries[i].0 == key
}

/// Entries after inserting `key => value`: the value replaces the old one at the key's position,
/// or the pair is appended when the key is new.
pub open spec fn inserted<V>(entries: Seq<(Seq<char>, V)>, key: Seq<char>, value: V) -> Seq<
    (Seq<char>, V),
> {
    if has_key(entries, key) {
        entries.update(position_of(entries, key), (key, value))
    } else {
        entries.push((key, value))
    }
}

/// Entries after inserting each pair of `pairs` in turn.
pub open spec fn inserted_all<V>(entries: Seq<(Seq<char>, V)>, pairs: Seq<(Seq<char>, V)>) -> Seq<
    (Seq<char>, V),
>
    decreases pairs.len(),
{
    if pairs.len() == 0 {
        entries
    } else {
        inserted(inserted_all(entries, pairs.drop_last()), pairs.last().0, pairs.last().1)
    }
}

/// The view of owned string-keyed pairs.
pub open spec fn pairs_view<V>(pairs: Seq<(String, V)>) -> Seq<(Seq<char>, V)> {
    pairs.map_values(|p: (String, V)| (p.0@, p.1))
}

/// An insertion-ordered map from strings to `V`.
pub struct OrderedMap<V> {
    entries: Vec<(String, V)>,
}

impl<V> View for OrderedMap<V> {
    type V = Seq<(Seq<char>, V)>;

    closed spec fn view(&self) -> Seq<(Seq<char>, V)> {
        pairs_view(self.entries@)
    }
}

impl<V> OrderedMap<V> {
    #[verifier::type_invariant]
    closed spec fn keys_are_unique(&self) -> bool {
        unique_keys(self@)
    }

    /// An empty map.
    pub fn new() -> (map: Self)
        ensures
            map@ == Seq::<(Seq<char>, V)>::empty(),
            unique_keys(map@),
    {
        let map = OrderedMap { entries: Vec::new() };
        assert(map@ =~= Seq::<(Seq<char>, V)>::empty());
        map
    }

    /// The number of entries.
    pub fn len(&self) -> (n: usize)
        ensures
            n == self@.len(),
    {
        self.entries.len()
    }

    /// Whether there are no entries.
    pub fn is_empty(&self) -> (empty: bool)
        ensures
            empty == (self@.len() == 0),
    {
        self.entries.len() == 0
    }

    /// The position of `key`, if present.
    pub fn find(&self, key: &String) -> (found: Option<usize>)
        ensures
            unique_keys(self@),
            match found {
                Some(i) => i < self@.len() && self@[i as int].0 == key@,
                None => !has_key(self@, key@),
            },
    {
        proof {
            use_type_invariant(self);
        }
        let mut i: usize = 0;
        while i < self.entries.len()
            invariant
                0 <= i <= self.entries@.len(),
                unique_keys(self@),
                forall|j: int| 0 <= j < i ==> self.entries@[j].0@ != key@,
            decreases self.entries@.len() - i,
        {
            if self.entries[i].0 == *key {
                return Some(i);
            }
            i = i + 1;
        }
        assert(!has_key(self@, key@)) by {
            if has_key(self@, key@) {
                let j = choose|j: int| 0 <= j < self@.len() && #[trigger] self@[j].0 == key@;
                assert(self.entries@[j].0@ == key@);
            }
        }
        None
    }

    /// The value at position `i`.
    pub fn value_at(&self, i: usize) -> (value: &V)
        requires
            i < self@.len(),
        ensures
            *value == self@[i as int].1,
    {
        &self.entries[i].1
    }

    /// Inserts `key => value`: replaces the value of an existing key in place, or appends.
    pub fn insert(&mut self, key: String, value: V)
        ensures
            final(self)@ == inserted(old(self)@, key@, value),
            unique_keys(final(self)@),
    {
        proof {
            use_type_invariant(&*self);
        }
        let found = self.find(&key);
        let ghost before = self@;
        let mut entries: Vec<(String, V)> = Vec::new();
        std::mem::swap(&mut entries, &mut self.entries);
        assert(pairs_view(entries@) == before);
        match found {
            Some(i) => {
                proof {
                    let p = position_of(before, key@);
                    assert(has_key(before, key@));
                    assert(0 <= p < before.len() && before[p].0 == key@);
                    assert(p == i);
                }
                entries.set(i, (key, value));
                assert(pairs_view(entries@) =~= before.update(i as int, (key@, value)));
            },
            None => {
                entries.push((key, value));
                assert(pairs_view(entries@) =~= before.push((key@, value)));
            },
        }
        self.entries = entries;
        proof {
            use_type_invariant(&*self);
        }
    }

    /// Inserts each pair in turn.
    pub fn insert_all(&mut self, pairs: Vec<(String, V)>)
        ensures
            final(self)@ == inserted_all(old(self)@, pairs_view(pairs@)),
            unique_keys(final(self)@),
    {
        let ghost start = self@;
        let ghost total = pairs@;
        for pair in it: pairs.into_iter()
            invariant
                it.seq() == total,
                self@ == inserted_all(start, pairs_view(total.take(it.index() as int))),
        {
            let (key, value) = pair;
            let ghost i = it.index();
            assert(pairs_view(total.take(i + 1)).drop_last() =~= pairs_view(total.take(i as int)));
            self.insert(key, value);
        }
        assert(total.take(total.len() as int) =~= total);
        proof {
            use_type_invariant(&*self);
        }
    }

    /// The entries, in insertion order.
    pub fn into_vec(self) -> (pairs: Vec<(String, V)>)
        ensures
            pairs_view(pairs@) == self@,
            unique_keys(self@),
    {
        proof {
            use_type_invariant(&self);
        }
        self.entries
    }
}

/// Inserting a key that is already present keeps the number of entries and the order of the
/// keys; inserting a new key appends it.
pub proof fn law_insert_keeps_first_position<V>(entries: Seq<(Seq<char>, V)>, key: Seq<char>, value: V)
    requires
        unique_keys(entries),
    ensures
        has_key(entries, key) ==> keys_of(inserted(entries, key, value)) == keys_of(entries),
        !has_key(entries, key) ==> keys_of(inserted(entries, key, value)) == keys_of(entries).push(
            key,
        ),
        unique_keys(inserted(entries, key, value)),
        has_key(inserted(entries, key, value), key),
{
    let r = inserted(entries, key, value);
    if has_key(entries, key) {
        let p = position_of(entries, key);
        assert(keys_of(r) =~= keys_of(entries));
        assert(r[p].0 == key);
    } else {
        assert(keys_of(r) =~= keys_of(entries).push(key));
        assert(r[entries.len() as int].0 == key);
    }
}

/// The last write wins: after inserting `key => value`, the entry for `key` holds `value`, and
/// every other entry is unchanged.
pub proof fn law_last_writer_wins<V>(entries: Seq<(Seq<char>, V)>, key: Seq<char>, value: V, i: int)
    requires
        unique_keys(entries),
        0 <= i < inserted(entries, key, value).len(),
    ensures
        inserted(entries, key, value)[i].0 == key ==> inserted(entries, key, value)[i].1 == value,
        inserted(entries, key, value)[i].0 != key ==> i < entries.len() && inserted(
            entries,
            key,
            value,
        )[i] == entries[i],
{
}

/// The value an entry list holds for `key` (meaningful where `key` is present).
pub open spec fn lookup<V>(entries: Seq<(Seq<char>, V)>, key: Seq<char>) -> V {
    entries[position_of(entries, key)].1
}

/// The value the last pair with key `key` carries, if any pair has that key.
pub open spec fn last_value<V>(pairs: Seq<(Seq<char>, V)>, key: Seq<char>) -> Option<V>
    decreases pairs.len(),
{
    if pairs.len() == 0 {
        None
    } else if pairs.last().0 == key {
        Some(pairs.last().1)
    } else {
        last_value(pairs.drop_last(), key)
    }
}

/// With unique keys, the position of an entry's key is that entry's index.
pub proof fn lemma_position_is_index<V>(entries: Seq<(Seq<char>, V)>, i: int)
    requires
        unique_keys(entries),
        0 <= i < entries.len(),
    ensures
        has_key(entries, entries[i].0),
        position_of(entries, entries[i].0) == i,
{
    let key = entries[i].0;
    assert(entries[i].0 == key);
    let p = position_of(entries, key);
    assert(0 <= p < entries.len() && entries[p].0 == key);
}

/// One insertion: the key is present with the new value, every other key keeps its presence and
/// its value, and keys stay unique.
pub proof fn lemma_inserted_lookup<V>(entries: Seq<(Seq<char>, V)>, key: Seq<char>, value: V, other: Seq<char>)
    requires
        unique_keys(entries),
    ensures
        unique_keys(inserted(entries, key, value)),
        has_key(inserted(entries, key, value), key),
        lookup(inserted(entries, key, value), key) == value,
        other != key ==> has_key(inserted(entries, key, value), other) == has_key(entries, other),
        other != key && has_key(entries, other) ==> lookup(inserted(entries, key, value), other)
            == lookup(entries, other),
{
    law_insert_keeps_first_position(entries, key, value);
    let r = inserted(entries, key, value);
    if has_key(entries, key) {
        let p = position_of(entries, key);
        assert(0 <= p < entries.len() && entries[p].0 == key);
        assert(r[p].0 == key);
        lemma_position_is_index(r, p);
        if other != key {
            if has_key(entries, other) {
                let q = position_of(entries, other);
                assert(0 <= q < entries.len() && entries[q].0 == other);
                assert(r[q] == entries[q]);
                lemma_position_is_index(r, q);
            }
            if has_key(r, other) {
                let q = choose|q: int| 0 <= q < r.len() && #[trigger] r[q].0 == other;
                assert(entries[q].0 == other);
            }
        }
    } else {
        let n = entries.len() as int;
        assert(r[n].0 == key);
        lemma_position_is_index(r, n);
        if other != key {
            if has_key(entries, other) {
                let q = position_of(entries, other);
                assert(0 <= q < entries.len() && entries[q].0 == other);
                assert(r[q] == entries[q]);
                lemma_position_is_index(r, q);
            }
            if has_key(r, other) {
                let q = choose|q: int| 0 <= q < r.len() && #[trigger] r[q].0 == other;
                assert(q < n);
                assert(entries[q].0 == other);
            }
        }
    }
}

/// Inserting a list of pairs: a key that some pair carries ends with the last such pair's value;
/// any other key keeps its presence and value; keys stay unique.
pub proof fn lemma_inserted_all_lookup<V>(entries: Seq<(Seq<char>, V)>, pairs: Seq<(Seq<char>, V)>, key: Seq<char>)
    requires
        unique_keys(entries),
    ensures
        unique_keys(inserted_all(entries, pairs)),
        match last_value(pairs, key) {
            Some(v) => has_key(inserted_all(entries, pairs), key) && lookup(
                inserted_all(entries, pairs),
                key,
            ) == v,
            None => has_key(inserted_all(entries, pairs), key) == has_key(entries, key) && (has_key(
                entries,
                key,
            ) ==> lookup(inserted_all(entries, pairs), key) == lookup(entries, key)),
        },
    decreases pairs.len(),
{
    if pairs.len() > 0 {
        let init = pairs.drop_last();
        lemma_inserted_all_lookup(entries, init, key);
        lemma_inserted_lookup(inserted_all(entries, init), pairs.last().0, pairs.last().1, key);
    }
}

/// Every key a pair carries has a last value.
pub proof fn lemma_last_value_present<V>(pairs: Seq<(Seq<char>, V)>, i: int)
    requires
        0 <= i < pairs.len(),
    ensures
        last_value(pairs, pairs[i].0) is Some,
    decreases pairs.len(),
{
    if i < pairs.len() - 1 && pairs.last().0 != pairs[i].0 {
        lemma_last_value_present(pairs.drop_last(), i);
        assert(pairs.drop_last()[i] == pairs[i]);
    }
}

/// Inserting pairs whose keys are all present keeps the keys and their order.
pub proof fn lemma_inserted_all_keeps_keys<V>(entries: Seq<(Seq<char>, V)>, pairs: Seq<(Seq<char>, V)>)
    requires
        unique_keys(entries),
        forall|i: int| 0 <= i < pairs.len() ==> has_key(entries, #[trigger] pairs[i].0),
    ensures
        keys_of(inserted_all(entries, pairs)) == keys_of(entries),
    decreases pairs.len(),
{
    if pairs.len() > 0 {
        let init = pairs.drop_last();
        assert forall|i: int| 0 <= i < init.len() implies has_key(entries, #[trigger] init[i].0) by {
            assert(init[i] == pairs[i]);
        }
        lemma_inserted_all_keeps_keys(entries, init);
        let prev = inserted_all(entries, init);
        lemma_inserted_all_lookup(entries, init, pairs.last().0);
        let k = pairs.last().0;
        assert(has_key(entries, pairs[pairs.len() - 1].0));
        let j = choose|j: int| 0 <= j < entries.len() && #[trigger] entries[j].0 == k;
        assert(keys_of(prev).len() == prev.len());
        assert(keys_of(entries)[j] == k);
        assert(keys_of(prev)[j] == prev[j].0);
        assert(prev[j].0 == k);
        law_insert_keeps_first_position(prev, k, pairs.last().1);
    }
}

/// Two entry lists with unique keys, the same keys in the same order, and the same value for
/// every key are equal.
pub proof fn lemma_entries_equal<V>(a: Seq<(Seq<char>, V)>, b: Seq<(Seq<char>, V)>)
    requires
        unique_keys(a),
        unique_keys(b),
        keys_of(a) == keys_of(b),
        forall|key: Seq<char>| has_key(a, key) ==> #[trigger] lookup(a, key) == lookup(b, key),
    ensures
        a == b,
{
    assert(a.len() == keys_of(a).len() && b.len() == keys_of(b).len());
    assert forall|i: int| 0 <= i < a.len() implies a[i] == b[i] by {
        assert(keys_of(a)[i] == keys_of(b)[i]);
        lemma_position_is_index(a, i);
        lemma_position_is_index(b, i);
        assert(lookup(a, a[i].0) == lookup(b, a[i].0));
    }
    assert(a =~= b);
}

/// Inserting the same pairs a second time changes nothing: every key already holds the last value
/// the pairs give it.
pub proof fn law_inserted_all_twice_is_once<V>(entries: Seq<(Seq<char>, V)>, pairs: Seq<(Seq<char>, V)>)
    requires
        unique_keys(entries),
    ensures
        inserted_all(inserted_all(entries, pairs), pairs) == inserted_all(entries, pairs),
{
    let once = inserted_all(entries, pairs);
    let twice = inserted_all(once, pairs);
    lemma_inserted_all_lookup(entries, pairs, Seq::empty());
    assert forall|i: int| 0 <= i < pairs.len() implies has_key(once, #[trigger] pairs[i].0) by {
        lemma_last_value_present(pairs, i);
        lemma_inserted_all_lookup(entries, pairs, pairs[i].0);
    }
    lemma_inserted_all_keeps_keys(once, pairs);
    lemma_inserted_all_lookup(once, pairs, Seq::empty());
    assert forall|key: Seq<char>| has_key(twice, key) implies #[trigger] lookup(twice, key) == lookup(
        once,
        key,
    ) by {
        lemma_inserted_all_lookup(entries, pairs, key);
        lemma_inserted_all_lookup(once, pairs, key);
    }
    lemma_entries_equal(twice, once);
}

/// An insertion never makes the list longer than one more entry.
pub proof fn lemma_inserted_all_len<V>(entries: Seq<(Seq<char>, V)>, pairs: Seq<(Seq<char>, V)>)
    ensures
        inserted_all(entries, pairs).len() <= entries.len() + pairs.len(),
    decreases pairs.len(),
{
    if pairs.len() > 0 {
        lemma_inserted_all_len(entries, pairs.drop_last());
    }
}

/// Inserting two lists of pairs one after the other is inserting their concatenation.
pub proof fn lemma_inserted_all_concat<V>(
    entries: Seq<(Seq<char>, V)>,
    first: Seq<(Seq<char>, V)>,
    second: Seq<(Seq<char>, V)>,
)
    ensures
        inserted_all(inserted_all(entries, first), second) == inserted_all(entries, first + second),
    decreases second.len(),
{
    if second.len() == 0 {
        assert(first + second =~= first);
    } else {
        lemma_inserted_all_concat(entries, first, second.drop_last());
        assert((first + second).drop_last() =~= first + second.drop_last());
        assert((first + second).last() == second.last());
    }
}

} // verus!
