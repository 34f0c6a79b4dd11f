//! Sequences of entries in the lexicographic order of their keys.
use vstd::prelude::*;

use crate::hash::HashValue;
use crate::nibble::NibblePath;

verus! {

/// Whether `a` and `b` are the same up to position `i`.
pub open spec fn agree(a: Seq<u8>, b: Seq<u8>, i: int) -> bool {
    &&& 0 <= i <= a.len()
    &&& i <= b.len()
    &&& forall|j: int| 0 <= j < i ==> a[j] == b[j]
}

/// Whether `a` comes before `b` in lexicographic order.
pub open spec fn precedes(a: Seq<u8>, b: Seq<u8>) -> bool {
    exists|i: int| #[trigger]
        agree(a, b, i) && i < b.len() && (i == a.len() || a[i] < b[i])
}

/// How one key stands to another.
pub enum Rank {
    Before,
    Same,
    After,
}

/// A key that is ordered by a sequence of digits.
pub trait Digits {
    spec fn digits(&self) -> Seq<u8>;

    /// Tells how `self` stands to `other`.
    fn rank(&self, other: &Self) -> (r: Rank)
        ensures
            match r {
                Rank::Before => precedes(self.digits(), other.digits()),
                Rank::Same => self.digits() == other.digits(),
                Rank::After => precedes(other.digits(), self.digits()),
            },
    ;
}

impl Digits for HashValue {
    open spec fn digits(&self) -> Seq<u8> {
        self.nibbles()
    }

    fn rank(&self, other: &Self) -> (r: Rank) {
        let mut i: usize = 0;
        while i < 32
            invariant
                i <= 32,
                forall|j: int| 0 <= j < i ==> self.hash[j] == other.hash[j],
            decreases 32 - i,
        {
            let a: u8 = self.hash[i];
            let b: u8 = other.hash[i];
            if a != b {
                proof {
                    assert(agree(self.nibbles(), other.nibbles(), 2 * i));
                    assert(agree(other.nibbles(), self.nibbles(), 2 * i));
                    if a / 16 == b / 16 {
                        assert(agree(self.nibbles(), other.nibbles(), 2 * i + 1));
                        assert(agree(other.nibbles(), self.nibbles(), 2 * i + 1));
                    }
                }
                if a < b {
                    return Rank::Before;
                }
                return Rank::After;
            }
            i += 1;
        }
        assert(self.nibbles() =~= other.nibbles());
        Rank::Same
    }
}

impl Digits for NibblePath {
    open spec fn digits(&self) -> Seq<u8> {
        self@
    }

    fn rank(&self, other: &Self) -> (r: Rank) {
        let mut i: usize = 0;
        while i < self.nibbles.len() && i < other.nibbles.len()
            invariant
                i <= self.nibbles.len(),
                i <= other.nibbles.len(),
                agree(self@, other@, i as int),
                agree(other@, self@, i as int),
            decreases self.nibbles.len() - i,
        {
            if self.nibbles[i] < other.nibbles[i] {
                return Rank::Before;
            }
            if self.nibbles[i] > other.nibbles[i] {
                return Rank::After;
            }
            i += 1;
        }
        if i < other.nibbles.len() {
            return Rank::Before;
        }
        if i < self.nibbles.len() {
            return Rank::After;
        }
        assert(self@ =~= other@);
        Rank::Same
    }
}

/// Whether the keys of `entries` rise from each entry to the next, so that no key occurs twice.
pub open spec fn sorted<Q: Digits, V>(entries: Seq<(Q, V)>) -> bool {
    forall|i: int, j: int|
        0 <= i < j < entries.len() ==> precedes(
            #[trigger] entries[i].0.digits(),
            #[trigger] entries[j].0.digits(),
        )
}

/// The place of `key` in `entries`: behind the last entry that comes before it.
pub open spec fn place_of<Q: Digits, V>(entries: Seq<(Q, V)>, key: Q) -> int
    decreases entries.len(),
{
    if entries.len() == 0 {
        0
    } else if precedes(entries.last().0.digits(), key.digits()) {
        entries.len() as int
    } else {
        place_of(entries.drop_last(), key)
    }
}

/// `entries` with `key` mapped to `value`, in the place of an entry with the same key if there
/// is one.
pub open spec fn with_entry<Q: Digits, V>(entries: Seq<(Q, V)>, key: Q, value: V) -> Seq<(Q, V)> {
    let place = place_of(entries, key);
    if place < entries.len() && entries[place].0.digits() == key.digits() {
        entries.update(place, (key, value))
    } else {
        entries.insert(place, (key, value))
    }
}

/// The entries of `pairs` in the order of their keys. Of several pairs with one key the last
/// one counts.
pub open spec fn sorted_set<Q: Digits, V>(pairs: Seq<(Q, V)>) -> Seq<(Q, V)>
    decreases pairs.len(),
{
    if pairs.len() == 0 {
        Seq::empty()
    } else {
        with_entry(sorted_set(pairs.drop_last()), pairs.last().0, pairs.last().1)
    }
}

pub proof fn lemma_precedes_transitive(a: Seq<u8>, b: Seq<u8>, c: Seq<u8>)
    requires
        precedes(a, b),
        precedes(b, c),
    ensures
        precedes(a, c),
{
    let i = choose|i: int| #[trigger]
        agree(a, b, i) && i < b.len() && (i == a.len() || a[i] < b[i]);
    let j = choose|j: int| #[trigger]
        agree(b, c, j) && j < c.len() && (j == b.len() || b[j] < c[j]);
    let k = if i < j {
        i
    } else {
        j
    };
    assert(agree(a, c, k));
}

pub proof fn lemma_precedes_irreflexive(a: Seq<u8>, b: Seq<u8>)
    requires
        precedes(a, b),
    ensures
        a != b,
        !precedes(b, a),
{
    if precedes(b, a) {
        lemma_precedes_transitive(a, b, a);
        let i = choose|i: int| #[trigger]
            agree(a, a, i) && i < a.len() && (i == a.len() || a[i] < a[i]);
    }
    if a == b {
        let i = choose|i: int| #[trigger]
            agree(a, b, i) && i < b.len() && (i == a.len() || a[i] < b[i]);
    }
}

/// The place of a key is known by its neighbours.
pub proof fn lemma_place<Q: Digits, V>(entries: Seq<(Q, V)>, key: Q, place: int)
    requires
        0 <= place <= entries.len(),
        place > 0 ==> precedes(entries[place - 1].0.digits(), key.digits()),
        forall|i: int|
            place <= i < entries.len() ==> !precedes(
                #[trigger] entries[i].0.digits(),
                key.digits(),
            ),
    ensures
        place_of(entries, key) == place,
    decreases entries.len(),
{
    if entries.len() > 0 {
        if place < entries.len() {
            assert(!precedes(entries[entries.len() - 1].0.digits(), key.digits()));
            let rest = entries.drop_last();
            assert forall|i: int| place <= i < rest.len() implies !precedes(
                #[trigger] rest[i].0.digits(),
                key.digits(),
            ) by {
                assert(rest[i] == entries[i]);
            }
            lemma_place(rest, key, place);
        }
    }
}

/// What the place of a key says of the entries around it.
pub proof fn lemma_place_of<Q: Digits, V>(entries: Seq<(Q, V)>, key: Q)
    requires
        sorted(entries),
    ensures
        0 <= place_of(entries, key) <= entries.len(),
        forall|i: int|
            0 <= i < place_of(entries, key) ==> precedes(
                #[trigger] entries[i].0.digits(),
                key.digits(),
            ),
        forall|i: int|
            place_of(entries, key) <= i < entries.len() ==> !precedes(
                #[trigger] entries[i].0.digits(),
                key.digits(),
            ),
    decreases entries.len(),
{
    if entries.len() > 0 {
        let last = entries.last().0.digits();
        if precedes(last, key.digits()) {
            assert forall|i: int| 0 <= i < entries.len() implies precedes(
                #[trigger] entries[i].0.digits(),
                key.digits(),
            ) by {
                if i < entries.len() - 1 {
                    assert(precedes(
                        entries[i].0.digits(),
                        entries[entries.len() - 1].0.digits(),
                    ));
                    lemma_precedes_transitive(entries[i].0.digits(), last, key.digits());
                }
            }
        } else {
            let rest = entries.drop_last();
            assert forall|i: int, j: int| 0 <= i < j < rest.len() implies precedes(
                #[trigger] rest[i].0.digits(),
                #[trigger] rest[j].0.digits(),
            ) by {
                assert(precedes(entries[i].0.digits(), entries[j].0.digits()));
            }
            lemma_place_of(rest, key);
            let place = place_of(entries, key);
            assert forall|i: int| 0 <= i < place implies precedes(
                #[trigger] entries[i].0.digits(),
                key.digits(),
            ) by {
                assert(precedes(rest[i].0.digits(), key.digits()));
            }
            assert forall|i: int| place <= i < entries.len() implies !precedes(
                #[trigger] entries[i].0.digits(),
                key.digits(),
            ) by {
                if i < rest.len() {
                    assert(!precedes(rest[i].0.digits(), key.digits()));
                }
            }
        }
    }
}

/// Two sequences of digits are the same, or one comes before the other.
pub proof fn lemma_precedes_total(a: Seq<u8>, b: Seq<u8>)
    ensures
        a == b || precedes(a, b) || precedes(b, a),
{
    lemma_first_difference(a, b, 0);
}

proof fn lemma_first_difference(a: Seq<u8>, b: Seq<u8>, i: int)
    requires
        agree(a, b, i),
    ensures
        a == b || precedes(a, b) || precedes(b, a),
    decreases a.len() - i,
{
    assert(agree(b, a, i));
    if i == a.len() || i == b.len() {
        if a.len() == b.len() {
            assert(a =~= b);
        }
    } else if a[i] == b[i] {
        lemma_first_difference(a, b, i + 1);
    }
}

/// Adding an entry keeps the entries sorted and changes what is found under its key only.
pub proof fn lemma_with_entry<Q: Digits, V>(entries: Seq<(Q, V)>, key: Q, value: V)
    requires
        sorted(entries),
    ensures
        sorted(with_entry(entries, key, value)),
        with_entry(entries, key, value).contains((key, value)),
        forall|i: int|
            0 <= i < with_entry(entries, key, value).len() ==> {
                let e = #[trigger] with_entry(entries, key, value)[i];
                e == (key, value) || (e.0.digits() != key.digits() && entries.contains(e))
            },
        forall|i: int|
            0 <= i < entries.len() && #[trigger] entries[i].0.digits() != key.digits()
                ==> with_entry(entries, key, value).contains(entries[i]),
{
    let place = place_of(entries, key);
    lemma_place_of(entries, key);
    let after = with_entry(entries, key, value);
    let replace = place < entries.len() && entries[place].0.digits() == key.digits();
    assert(after[place] == (key, value));
    assert forall|i: int| place <= i < entries.len() && !(i == place && replace) implies precedes(
        key.digits(),
        #[trigger] entries[i].0.digits(),
    ) by {
        lemma_precedes_total(key.digits(), entries[i].0.digits());
        if entries[i].0.digits() == key.digits() {
            // then the entry at `place` comes before the key
            assert(place < i);
            assert(precedes(entries[place].0.digits(), entries[i].0.digits()));
        }
    }
    assert forall|i: int, j: int| 0 <= i < j < after.len() implies precedes(
        #[trigger] after[i].0.digits(),
        #[trigger] after[j].0.digits(),
    ) by {
        let io = if replace || i < place {
            i
        } else {
            i - 1
        };
        let jo = if replace || j < place {
            j
        } else {
            j - 1
        };
        if i == place {
            assert(after[j] == entries[jo]);
            assert(precedes(key.digits(), entries[jo].0.digits()));
        } else if j == place {
            assert(after[i] == entries[io]);
            assert(precedes(entries[io].0.digits(), key.digits()));
        } else {
            assert(after[i] == entries[io]);
            assert(after[j] == entries[jo]);
            assert(precedes(entries[io].0.digits(), entries[jo].0.digits()));
        }
    }
    assert forall|i: int| 0 <= i < after.len() implies {
        let e = #[trigger] after[i];
        e == (key, value) || (e.0.digits() != key.digits() && entries.contains(e))
    } by {
        if i != place {
            let io = if replace || i < place {
                i
            } else {
                i - 1
            };
            assert(after[i] == entries[io]);
            if io < place {
                assert(precedes(entries[io].0.digits(), key.digits()));
                lemma_precedes_irreflexive(entries[io].0.digits(), key.digits());
            } else {
                assert(precedes(key.digits(), entries[io].0.digits()));
                lemma_precedes_irreflexive(key.digits(), entries[io].0.digits());
            }
        }
    }
    assert forall|i: int|
        0 <= i < entries.len() && #[trigger] entries[i].0.digits() != key.digits() implies after.contains(
        entries[i],
    ) by {
        let ia = if replace || i < place {
            i
        } else {
            i + 1
        };
        assert(after[ia] == entries[i]);
    }
}

/// A sorted set is sorted; it holds the last pair of each key, and nothing else.
pub proof fn lemma_sorted_set<Q: Digits, V>(pairs: Seq<(Q, V)>)
    ensures
        sorted(sorted_set(pairs)),
        sorted_set(pairs).len() <= pairs.len(),
        pairs.len() > 0 ==> sorted_set(pairs).len() > 0,
    decreases pairs.len(),
{
    if pairs.len() > 0 {
        let before = sorted_set(pairs.drop_last());
        lemma_sorted_set(pairs.drop_last());
        lemma_with_entry(before, pairs.last().0, pairs.last().1);
        lemma_place_of(before, pairs.last().0);
    }
}

/// A map whose entries are kept in the order of their keys.
pub struct SortedMap<Q, V> {
    pub entries: Vec<(Q, V)>,
}

impl<Q: Digits, V> SortedMap<Q, V> {
    pub open spec fn wf(self) -> bool {
        sorted(self.entries@)
    }

    /// The map from the digits of each key to its value.
    pub open spec fn map(self) -> Map<Seq<u8>, V> {
        Map::new(
            |d: Seq<u8>| exists|i: int|
                0 <= i < self.entries.len() && (#[trigger] self.entries[i]).0.digits() == d,
            |d: Seq<u8>|
                self.entries[choose|i: int|
                    0 <= i < self.entries.len() && (#[trigger] self.entries[i]).0.digits() == d].1,
        )
    }

    /// The empty map.
    pub fn new() -> (r: Self)
        ensures
            r.wf(),
            r.entries@ == Seq::<(Q, V)>::empty(),
            r.map() == Map::<Seq<u8>, V>::empty(),
    {
        let r = SortedMap { entries: Vec::new() };
        assert(r.map() =~= Map::<Seq<u8>, V>::empty());
        r
    }

    /// Finds the place of `key`.
    fn find(&self, key: &Q) -> (place: usize)
        requires
            self.wf(),
        ensures
            place == place_of(self.entries@, *key),
            place <= self.entries.len(),
    {
        let mut low: usize = 0;
        let mut high: usize = self.entries.len();
        while low < high
            invariant
                self.wf(),
                low <= high <= self.entries.len(),
                low > 0 ==> precedes(self.entries[low - 1].0.digits(), key.digits()),
                forall|i: int|
                    high <= i < self.entries.len() ==> !precedes(
                        #[trigger] self.entries[i].0.digits(),
                        key.digits(),
                    ),
            decreases high - low,
        {
            let mid: usize = low + (high - low) / 2;
            let before: bool = match self.entries[mid].0.rank(key) {
                Rank::Before => true,
                Rank::Same => {
                    proof {
                        if precedes(self.entries[mid as int].0.digits(), key.digits()) {
                            lemma_precedes_irreflexive(
                                self.entries[mid as int].0.digits(),
                                key.digits(),
                            );
                        }
                    }
                    false
                },
                Rank::After => {
                    proof {
                        lemma_precedes_irreflexive(
                            key.digits(),
                            self.entries[mid as int].0.digits(),
                        );
                    }
                    false
                },
            };
            if before {
                low = mid + 1;
            } else {
                assert forall|i: int| mid <= i < self.entries.len() implies !precedes(
                    #[trigger] self.entries[i].0.digits(),
                    key.digits(),
                ) by {
                    if i > mid && precedes(self.entries[i].0.digits(), key.digits()) {
                        assert(precedes(
                            self.entries@[mid as int].0.digits(),
                            self.entries@[i].0.digits(),
                        ));
                        lemma_precedes_transitive(
                            self.entries[mid as int].0.digits(),
                            self.entries[i].0.digits(),
                            key.digits(),
                        );
                    }
                }
                high = mid;
            }
        }
        proof {
            assert forall|i: int| low <= i < self.entries@.len() implies !precedes(
                #[trigger] self.entries@[i].0.digits(),
                key.digits(),
            ) by {
                assert(!precedes(self.entries[i].0.digits(), key.digits()));
            }
            lemma_place(self.entries@, *key, low as int);
        }
        low
    }

    /// Maps `key` to `value`.
    pub fn insert(&mut self, key: Q, value: V)
        requires
            old(self).wf(),
        ensures
            final(self).wf(),
            final(self).entries@ == with_entry(old(self).entries@, key, value),
            final(self).map() == old(self).map().insert(key.digits(), value),
            final(self).entries@.contains((key, value)),
            forall|e: (Q, V)| #[trigger]
                final(self).entries@.contains(e) ==> e == (key, value) || (e.0.digits()
                    != key.digits() && old(self).entries@.contains(e)),
            forall|e: (Q, V)| #[trigger]
                old(self).entries@.contains(e) && e.0.digits() != key.digits()
                    ==> final(self).entries@.contains(e),
    {
        let place: usize = self.find(&key);
        proof {
            lemma_with_entry(self.entries@, key, value);
            lemma_place_of(self.entries@, key);
        }
        let ghost before = *self;
        let ghost entry = (key, value);
        let mut same: bool = false;
        if place < self.entries.len() {
            same =
            match self.entries[place].0.rank(&key) {
                Rank::Same => true,
                Rank::Before => {
                    proof {
                        lemma_precedes_irreflexive(
                            self.entries[place as int].0.digits(),
                            key.digits(),
                        );
                    }
                    false
                },
                Rank::After => {
                    proof {
                        lemma_precedes_irreflexive(
                            key.digits(),
                            self.entries[place as int].0.digits(),
                        );
                    }
                    false
                },
            };
        }
        if same {
            self.entries[place] = (key, value);
        } else {
            self.entries.insert(place, (key, value));
        }
        proof {
            assert(self.entries@ =~= with_entry(before.entries@, key, value));
            lemma_map_entries(*self);
            lemma_map_entries(before);
            let after = self.entries@;
            assert forall|d: Seq<u8>| #[trigger]
                self.map().contains_key(d) <==> before.map().insert(key.digits(), value).contains_key(
                    d,
                ) by {
                if self.map().contains_key(d) && d != key.digits() {
                    let i = choose|i: int|
                        0 <= i < self.entries.len() && (#[trigger] self.entries[i]).0.digits() == d;
                    assert(before.entries@.contains(after[i]));
                    let j = choose|j: int|
                        0 <= j < before.entries@.len() && before.entries@[j] == after[i];
                    assert(before.entries[j].0.digits() == d);
                }
                if before.map().contains_key(d) && d != key.digits() {
                    let i = choose|i: int|
                        0 <= i < before.entries.len() && (#[trigger] before.entries[i]).0.digits()
                            == d;
                    assert(before.entries@[i].0.digits() == d);
                    assert(after.contains(before.entries@[i]));
                    let j = choose|j: int|
                        0 <= j < after.len() && after[j] == before.entries@[i];
                    assert(self.entries[j].0.digits() == d);
                }
                if d == key.digits() {
                    let j = choose|j: int| 0 <= j < after.len() && after[j] == entry;
                    assert(self.entries[j].0.digits() == d);
                }
            }
            assert forall|d: Seq<u8>| #[trigger]
                self.map().contains_key(d) implies self.map()[d] == before.map().insert(
                key.digits(),
                value,
            )[d] by {
                let i = choose|i: int|
                    0 <= i < self.entries.len() && (#[trigger] self.entries[i]).0.digits() == d;
                if d == key.digits() {
                    assert(after[i] == entry);
                } else {
                    assert(before.entries@.contains(after[i]));
                    let j = choose|j: int|
                        0 <= j < before.entries@.len() && before.entries@[j] == after[i];
                    assert(before.entries[j].0.digits() == d);
                }
            }
            assert(self.map() =~= before.map().insert(key.digits(), value));
        }
    }

    /// The value that `key` is mapped to.
    pub fn get(&self, key: &Q) -> (r: Option<&V>)
        requires
            self.wf(),
        ensures
            match r {
                Some(value) => self.map().contains_key(key.digits()) && self.map()[key.digits()]
                    == *value,
                None => !self.map().contains_key(key.digits()),
            },
            match r {
                Some(value) => exists|i: int|
                    0 <= i < self.entries@.len() && (#[trigger] self.entries@[i]).0.digits()
                        == key.digits() && self.entries@[i].1 == *value,
                None => forall|i: int|
                    0 <= i < self.entries@.len() ==> (#[trigger] self.entries@[i]).0.digits()
                        != key.digits(),
            },
    {
        let place: usize = self.find(key);
        proof {
            lemma_place_of(self.entries@, *key);
            lemma_map_entries(*self);
            if self.map().contains_key(key.digits()) {
                let i = choose|i: int|
                    0 <= i < self.entries.len() && (#[trigger] self.entries[i]).0.digits()
                        == key.digits();
                if i < place {
                    assert(precedes(self.entries@[i].0.digits(), key.digits()));
                    lemma_precedes_irreflexive(self.entries@[i].0.digits(), key.digits());
                } else if i > place {
                    assert(precedes(
                        self.entries@[place as int].0.digits(),
                        self.entries@[i].0.digits(),
                    ));
                    assert(!precedes(self.entries@[place as int].0.digits(), key.digits()));
                }
            }
        }
        if place < self.entries.len() {
            match self.entries[place].0.rank(key) {
                Rank::Same => {
                    return Some(&self.entries[place].1);
                },
                Rank::Before => {
                    proof {
                        lemma_precedes_irreflexive(
                            self.entries[place as int].0.digits(),
                            key.digits(),
                        );
                    }
                },
                Rank::After => {
                    proof {
                        lemma_precedes_irreflexive(
                            key.digits(),
                            self.entries[place as int].0.digits(),
                        );
                    }
                },
            }
        }
        None
    }
}

/// Each entry of a sorted map is what the map holds under its key.
pub proof fn lemma_map_entries<Q: Digits, V>(m: SortedMap<Q, V>)
    requires
        m.wf(),
    ensures
        forall|i: int|
            0 <= i < m.entries.len() ==> m.map().contains_key(
                (#[trigger] m.entries[i]).0.digits(),
            ) && m.map()[m.entries[i].0.digits()] == m.entries[i].1,
{
    assert forall|i: int| 0 <= i < m.entries.len() implies m.map().contains_key(
        (#[trigger] m.entries[i]).0.digits(),
    ) && m.map()[m.entries[i].0.digits()] == m.entries[i].1 by {
        let d = m.entries[i].0.digits();
        let j = choose|j: int|
            0 <= j < m.entries.len() && (#[trigger] m.entries[j]).0.digits() == d;
        if i < j {
            assert(precedes(m.entries@[i].0.digits(), m.entries@[j].0.digits()));
            lemma_precedes_irreflexive(d, d);
        } else if j < i {
            assert(precedes(m.entries@[j].0.digits(), m.entries@[i].0.digits()));
            lemma_precedes_irreflexive(d, d);
        }
    }
}

} // verus!
