//! A table from text keys to values that keeps its entries in ascending key
//! order, so that a key occurs at most once and the entries are always listed
//! in the same order, whatever the order in which they were inserted.

use crate::text::{
    ascending, lemma_precedes_asymmetric, lemma_precedes_transitive, precedes, text_order,
    TextOrder,
};
use vstd::prelude::*;

verus! {

/// A key that is read as a text.
pub trait Keyed: Sized {
    /// The text of the key.
    spec fn key(&self) -> Seq<char>;

    /// The text of the key, to compare it.
    fn key_str(&self) -> (s: &str)
        ensures
            s@ == self.key(),
    ;

    /// The key of the given text.
    fn from_text(text: String) -> (key: Self)
        ensures
            key.key() == text@,
    ;
}

impl Keyed for String {
    open spec fn key(&self) -> Seq<char> {
        self@
    }

    fn key_str(&self) -> (s: &str) {
        self.as_str()
    }

    fn from_text(text: String) -> (key: Self) {
        text
    }
}

/// The keys of a sequence of entries, in its order.
pub open spec fn keys_of<V>(pairs: Seq<(Seq<char>, V)>) -> Seq<Seq<char>> {
    Seq::new(pairs.len(), |i: int| pairs[i].0)
}

/// Some entry of `pairs` has the key `key`.
pub open spec fn holds_key<V>(pairs: Seq<(Seq<char>, V)>, key: Seq<char>) -> bool {
    exists|i: int| 0 <= i < pairs.len() && pairs[i].0 == key
}

/// A place in `pairs` at which the key `key` stands, where there is one.
pub open spec fn place_of<V>(pairs: Seq<(Seq<char>, V)>, key: Seq<char>) -> int {
    choose|i: int| 0 <= i < pairs.len() && pairs[i].0 == key
}

/// No two entries of `pairs` have the same key.
pub open spec fn distinct_keys<V>(pairs: Seq<(Seq<char>, V)>) -> bool {
    forall|i: int, j: int|
        0 <= i < pairs.len() && 0 <= j < pairs.len() && i != j ==> pairs[i].0 != pairs[j].0
}

/// The entries of `pairs` as a map. Where a key occurs once, the map holds its
/// value.
pub open spec fn map_of<V>(pairs: Seq<(Seq<char>, V)>) -> Map<Seq<char>, V> {
    Map::new(|key: Seq<char>| holds_key(pairs, key), |key: Seq<char>| pairs[place_of(pairs, key)].1)
}

/// Entries in ascending key order have distinct keys.
pub proof fn lemma_ascending_distinct<V>(pairs: Seq<(Seq<char>, V)>)
    requires
        ascending(keys_of(pairs)),
    ensures
        distinct_keys(pairs),
{
    assert forall|i: int, j: int|
        0 <= i < pairs.len() && 0 <= j < pairs.len() && i != j implies pairs[i].0 != pairs[j].0 by {
        if i < j {
            assert(precedes(keys_of(pairs)[i], keys_of(pairs)[j]));
            lemma_precedes_asymmetric(pairs[i].0, pairs[j].0);
        } else {
            assert(precedes(keys_of(pairs)[j], keys_of(pairs)[i]));
            lemma_precedes_asymmetric(pairs[j].0, pairs[i].0);
        }
    }
}

/// Among entries with distinct keys, a key stands at one place only.
pub proof fn lemma_place_of<V>(pairs: Seq<(Seq<char>, V)>, i: int)
    requires
        distinct_keys(pairs),
        0 <= i < pairs.len(),
    ensures
        holds_key(pairs, pairs[i].0),
        place_of(pairs, pairs[i].0) == i,
        map_of(pairs).dom().contains(pairs[i].0),
        map_of(pairs)[pairs[i].0] == pairs[i].1,
{
}

/// Two sequences of entries in ascending key order that hold the same map are
/// the same sequence: the order of a table's entries is fixed by what it holds.
pub proof fn lemma_ascending_unique<V>(a: Seq<(Seq<char>, V)>, b: Seq<(Seq<char>, V)>)
    requires
        ascending(keys_of(a)),
        ascending(keys_of(b)),
        map_of(a) == map_of(b),
    ensures
        a == b,
    decreases a.len(),
{
    lemma_ascending_distinct(a);
    lemma_ascending_distinct(b);
    if a.len() == 0 {
        if b.len() > 0 {
            lemma_place_of(b, 0);
            assert(map_of(a).dom().contains(b[0].0));
        }
        assert(a =~= b);
    } else if b.len() == 0 {
        lemma_place_of(a, 0);
        assert(map_of(b).dom().contains(a[0].0));
    } else {
        // The least key of either sequence is its first, so the firsts agree.
        lemma_place_of(a, 0);
        lemma_place_of(b, 0);
        assert(map_of(b).dom().contains(a[0].0));
        assert(map_of(a).dom().contains(b[0].0));
        let i = place_of(b, a[0].0);
        let j = place_of(a, b[0].0);
        if i != 0 {
            assert(precedes(keys_of(b)[0], keys_of(b)[i]));
            if j != 0 {
                assert(precedes(keys_of(a)[0], keys_of(a)[j]));
                lemma_precedes_asymmetric(a[0].0, b[0].0);
            }
            lemma_precedes_asymmetric(b[0].0, a[0].0);
        }
        assert(a[0].0 == b[0].0);
        assert(a[0].1 == b[0].1);
        let a1 = a.drop_first();
        let b1 = b.drop_first();
        assert(ascending(keys_of(a1))) by {
            assert forall|x: int, y: int| 0 <= x < y < keys_of(a1).len() implies precedes(
                keys_of(a1)[x],
                keys_of(a1)[y],
            ) by {
                assert(precedes(keys_of(a)[x + 1], keys_of(a)[y + 1]));
            }
        }
        assert(ascending(keys_of(b1))) by {
            assert forall|x: int, y: int| 0 <= x < y < keys_of(b1).len() implies precedes(
                keys_of(b1)[x],
                keys_of(b1)[y],
            ) by {
                assert(precedes(keys_of(b)[x + 1], keys_of(b)[y + 1]));
            }
        }
        lemma_ascending_distinct(a1);
        lemma_ascending_distinct(b1);
        assert(map_of(a1) =~= map_of(b1)) by {
            assert forall|key: Seq<char>| holds_key(a1, key) implies holds_key(b1, key)
                && map_of(a1)[key] == map_of(b1)[key] by {
                let x = place_of(a1, key);
                lemma_place_of(a1, x);
                lemma_place_of(a, x + 1);
                assert(map_of(b).dom().contains(key));
                let y = place_of(b, key);
                lemma_place_of(b, y);
                assert(y != 0);
                assert(b1[y - 1] == b[y]);
                lemma_place_of(b1, y - 1);
            }
            assert forall|key: Seq<char>| holds_key(b1, key) implies holds_key(a1, key) by {
                let y = place_of(b1, key);
                lemma_place_of(b1, y);
                lemma_place_of(b, y + 1);
                assert(map_of(a).dom().contains(key));
                let x = place_of(a, key);
                lemma_place_of(a, x);
                assert(x != 0);
                assert(a1[x - 1] == a[x]);
            }
        }
        lemma_ascending_unique(a1, b1);
        assert(a =~= seq![a[0]] + a1);
        assert(b =~= seq![b[0]] + b1);
    }
}

/// Adding an entry under a new key to entries with distinct keys keeps the keys
/// distinct and adds that entry to the map.
pub proof fn lemma_map_of_push<V>(pairs: Seq<(Seq<char>, V)>, key: Seq<char>, value: V)
    requires
        distinct_keys(pairs),
        !holds_key(pairs, key),
    ensures
        distinct_keys(pairs.push((key, value))),
        map_of(pairs.push((key, value))) == map_of(pairs).insert(key, value),
{
    let more = pairs.push((key, value));
    assert forall|i: int, j: int|
        0 <= i < more.len() && 0 <= j < more.len() && i != j implies more[i].0 != more[j].0 by {
        if i < pairs.len() && j < pairs.len() {
            assert(pairs[i].0 != pairs[j].0);
        }
    }
    lemma_place_of(more, pairs.len() as int);
    assert forall|k: Seq<char>| holds_key(pairs, k) implies holds_key(more, k) && map_of(more)[k]
        == map_of(pairs)[k] by {
        let i = place_of(pairs, k);
        lemma_place_of(pairs, i);
        assert(more[i] == pairs[i]);
        lemma_place_of(more, i);
    }
    assert forall|k: Seq<char>| holds_key(more, k) && k != key implies holds_key(pairs, k) by {
        let i = place_of(more, k);
        assert(pairs[i] == more[i]);
    }
    assert(map_of(more) =~= map_of(pairs).insert(key, value));
}

/// The map of a sequence of entries with distinct keys depends on the entries
/// alone, not on the order in which they stand.
pub proof fn lemma_map_of_order<V>(a: Seq<(Seq<char>, V)>, b: Seq<(Seq<char>, V)>)
    requires
        distinct_keys(a),
        distinct_keys(b),
        a.to_set() == b.to_set(),
    ensures
        map_of(a) == map_of(b),
{
    assert forall|key: Seq<char>| holds_key(a, key) implies holds_key(b, key) && map_of(a)[key]
        == map_of(b)[key] by {
        let i = place_of(a, key);
        lemma_place_of(a, i);
        assert(a.to_set().contains(a[i]));
        assert(b.contains(a[i]));
        let j = choose|j: int| 0 <= j < b.len() && b[j] == a[i];
        lemma_place_of(b, j);
    }
    assert forall|key: Seq<char>| holds_key(b, key) implies holds_key(a, key) by {
        let j = place_of(b, key);
        assert(b.to_set().contains(b[j]));
        assert(a.contains(b[j]));
        let i = choose|i: int| 0 <= i < a.len() && a[i] == b[j];
    }
    assert(map_of(a) =~= map_of(b));
}

/// A table from keys to values, in ascending key order.
#[derive(Debug)]
pub struct Table<K: Keyed, V> {
    entries: Vec<(K, V)>,
}

impl<K: Keyed, V> View for Table<K, V> {
    type V = Seq<(Seq<char>, V)>;

    /// The entries, each with the text of its key, in the table's order.
    closed spec fn view(&self) -> Seq<(Seq<char>, V)> {
        Seq::new(self.entries@.len(), |i: int| (self.entries@[i].0.key(), self.entries@[i].1))
    }
}

impl<K: Keyed, V> Table<K, V> {
    /// The keys are in strictly ascending order. This holds of every table.
    #[verifier::type_invariant]
    pub open spec fn wf(self) -> bool {
        ascending(keys_of(self@))
    }

    /// A table without entries.
    pub fn new() -> (table: Self)
        ensures
            table@ == Seq::<(Seq<char>, V)>::empty(),
            table.wf(),
    {
        let table = Table { entries: Vec::new() };
        assert(table@ =~= Seq::<(Seq<char>, V)>::empty());
        table
    }

    /// The number of entries.
    pub fn len(&self) -> (n: usize)
        ensures
            n == self@.len(),
    {
        self.entries.len()
    }

    /// Finds the place of `key`: where it stands, or else where it would have to
    /// be inserted.
    fn locate(&self, key: &str) -> (r: (bool, usize))
        ensures
            r.1 <= self@.len(),
            forall|i: int| 0 <= i < r.1 ==> precedes(#[trigger] self@[i].0, key@),
            r.0 ==> r.1 < self@.len() && self@[r.1 as int].0 == key@,
            !r.0 ==> forall|i: int|
                r.1 <= i < self@.len() ==> precedes(key@, #[trigger] self@[i].0),
    {
        proof {
            use_type_invariant(self);
        }
        let mut low: usize = 0;
        let mut high: usize = self.entries.len();
        while low < high
            invariant
                low <= high <= self@.len(),
                self@.len() == self.entries@.len(),
                ascending(keys_of(self@)),
                forall|i: int| 0 <= i < low ==> precedes(#[trigger] self@[i].0, key@),
                forall|i: int| high <= i < self@.len() ==> precedes(key@, #[trigger] self@[i].0),
            decreases high - low,
        {
            let middle: usize = low + (high - low) / 2;
            let here = self.entries[middle].0.key_str();
            assert(here@ == self@[middle as int].0);
            match text_order(here, key) {
                TextOrder::Before => {
                    assert forall|i: int| 0 <= i < middle + 1 implies precedes(
                        #[trigger] self@[i].0,
                        key@,
                    ) by {
                        if i < middle {
                            assert(precedes(keys_of(self@)[i], keys_of(self@)[middle as int]));
                            lemma_precedes_transitive(self@[i].0, here@, key@);
                        }
                    }
                    low = middle + 1;
                },
                TextOrder::Same => {
                    assert forall|i: int| 0 <= i < middle implies precedes(
                        #[trigger] self@[i].0,
                        key@,
                    ) by {
                        assert(precedes(keys_of(self@)[i], keys_of(self@)[middle as int]));
                    }
                    return (true, middle);
                },
                TextOrder::After => {
                    assert forall|i: int| middle <= i < self@.len() implies precedes(
                        key@,
                        #[trigger] self@[i].0,
                    ) by {
                        if middle < i {
                            assert(precedes(keys_of(self@)[middle as int], keys_of(self@)[i]));
                            lemma_precedes_transitive(key@, here@, self@[i].0);
                        }
                    }
                    high = middle;
                },
            }
        }
        (false, low)
    }

    /// The value under `key`, if the table has that key.
    pub fn get(&self, key: &str) -> (r: Option<&V>)
        ensures
            r == if map_of(self@).dom().contains(key@) {
                Some(&map_of(self@)[key@])
            } else {
                None
            },
    {
        proof {
            use_type_invariant(self);
            lemma_ascending_distinct(self@);
        }
        let (found, at) = self.locate(key);
        if found {
            proof {
                lemma_place_of(self@, at as int);
            }
            Some(&self.entries[at].1)
        } else {
            proof {
                if holds_key(self@, key@) {
                    let i = place_of(self@, key@);
                    if i < at {
                        lemma_precedes_asymmetric(self@[i].0, key@);
                    } else {
                        lemma_precedes_asymmetric(key@, self@[i].0);
                    }
                }
            }
            None
        }
    }

    /// Inserts `value` under `key`, unless the table has that key already: then
    /// the table stays as it is and the answer is `false`.
    pub fn insert(&mut self, key: K, value: V) -> (inserted: bool)
        ensures
            final(self).wf(),
            inserted == !map_of(old(self)@).dom().contains(key.key()),
            inserted ==> map_of(final(self)@) == map_of(old(self)@).insert(key.key(), value),
            inserted ==> final(self)@.len() == old(self)@.len() + 1,
            !inserted ==> final(self)@ == old(self)@,
    {
        proof {
            use_type_invariant(&*self);
            lemma_ascending_distinct(self@);
        }
        let (found, at) = self.locate(key.key_str());
        if found {
            proof {
                lemma_place_of(self@, at as int);
            }
            return false;
        }
        let ghost before = self@;
        let ghost name = key.key();
        let mut entries: Vec<(K, V)> = Vec::new();
        std::mem::swap(&mut entries, &mut self.entries);
        entries.insert(at, (key, value));
        let ghost after = Seq::new(
            entries@.len(),
            |i: int| (entries@[i].0.key(), entries@[i].1),
        );
        proof {
            assert(after =~= before.insert(at as int, (name, value)));
            assert forall|i: int, j: int| 0 <= i < j < keys_of(after).len() implies precedes(
                keys_of(after)[i],
                keys_of(after)[j],
            ) by {
                let i0 = if i < at { i } else { i - 1 };
                let j0 = if j < at { j } else { j - 1 };
                if i == at {
                    assert(precedes(name, before[j0].0));
                } else if j == at {
                    assert(precedes(before[i0].0, name));
                } else {
                    assert(precedes(keys_of(before)[i0], keys_of(before)[j0]));
                }
            }
            lemma_ascending_distinct(after);
            if holds_key(before, name) {
                let i = place_of(before, name);
                if i < at {
                    lemma_precedes_asymmetric(before[i].0, name);
                } else {
                    lemma_precedes_asymmetric(name, before[i].0);
                }
            }
            assert(map_of(after) =~= map_of(before).insert(name, value)) by {
                lemma_place_of(after, at as int);
                assert forall|k: Seq<char>| holds_key(before, k) implies holds_key(after, k)
                    && (k != name ==> map_of(after)[k] == map_of(before)[k]) by {
                    let i = place_of(before, k);
                    lemma_place_of(before, i);
                    let i1 = if i < at { i } else { i + 1 };
                    assert(after[i1] == before[i]);
                    lemma_place_of(after, i1);
                }
                assert forall|k: Seq<char>| holds_key(after, k) && k != name implies holds_key(
                    before,
                    k,
                ) by {
                    let i = place_of(after, k);
                    let i0 = if i < at { i } else { i - 1 };
                    assert(before[i0] == after[i]);
                }
            }
        }
        self.entries = entries;
        assert(self@ == after);
        true
    }

    /// The entry at place `at` in ascending key order, if there are that many.
    pub fn entry(&self, at: usize) -> (r: Option<(&K, &V)>)
        ensures
            r is Some <==> at < self@.len(),
            r matches Some((key, value)) ==> key.key() == self@[at as int].0 && *value
                == self@[at as int].1,
    {
        if at < self.entries.len() {
            Some((&self.entries[at].0, &self.entries[at].1))
        } else {
            None
        }
    }

    /// The keys, in ascending order.
    pub fn keys(&self) -> (keys: Vec<&K>)
        ensures
            keys@.len() == self@.len(),
            forall|i: int| 0 <= i < keys@.len() ==> (#[trigger] keys@[i]).key() == self@[i].0,
            self.wf(),
    {
        proof {
            use_type_invariant(self);
        }
        let mut keys: Vec<&K> = Vec::new();
        let mut at: usize = 0;
        while at < self.entries.len()
            invariant
                at <= self.entries@.len(),
                self@.len() == self.entries@.len(),
                keys@.len() == at,
                forall|i: int| 0 <= i < at ==> (#[trigger] keys@[i]).key() == self@[i].0,
            decreases self.entries@.len() - at,
        {
            keys.push(&self.entries[at].0);
            at = at + 1;
        }
        keys
    }

    /// The entries, in ascending key order.
    pub fn entries(&self) -> (pairs: Vec<(&K, &V)>)
        ensures
            pairs@.len() == self@.len(),
            forall|i: int|
                0 <= i < pairs@.len() ==> (#[trigger] pairs@[i]).0.key() == self@[i].0
                    && *pairs@[i].1 == self@[i].1,
            self.wf(),
    {
        proof {
            use_type_invariant(self);
        }
        let mut pairs: Vec<(&K, &V)> = Vec::new();
        let mut at: usize = 0;
        while at < self.entries.len()
            invariant
                at <= self.entries@.len(),
                self@.len() == self.entries@.len(),
                pairs@.len() == at,
                forall|i: int|
                    0 <= i < at ==> (#[trigger] pairs@[i]).0.key() == self@[i].0 && *pairs@[i].1
                        == self@[i].1,
            decreases self.entries@.len() - at,
        {
            pairs.push((&self.entries[at].0, &self.entries[at].1));
            at = at + 1;
        }
        pairs
    }
}

} // verus!
