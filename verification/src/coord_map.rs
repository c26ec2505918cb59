//! A map keyed by chunk-grid coordinates that keeps its entries in the order
//! in which they were inserted. The entries stand in a list; a hash index from
//! each key, packed into one integer, to its place in the list finds an entry
//! in constant time.

use crate::grid::{coord, in_range, same_coord};
use std::collections::HashMap;
use vstd::prelude::*;

verus! {

/// A key with its value.
#[derive(Clone, Debug)]
pub struct Entry<V> {
    pub key: [i32; 3],
    pub value: V,
}

/// A map from chunk-grid coordinates to values. No coordinate is the key of
/// two entries; a coordinate without an entry is not loaded. `index` holds the
/// place of every entry under its packed key.
#[derive(Clone, Debug)]
pub struct CoordMap<V> {
    pub entries: Vec<Entry<V>>,
    pub index: HashMap<u128, usize>,
}

/// A coordinate packed into one number: its three components, each moved
/// into the range of 32 unsigned bits, side by side.
pub open spec fn packed(c: (int, int, int)) -> int {
    ((c.0 + 0x8000_0000) * 0x1_0000_0000 + (c.1 + 0x8000_0000)) * 0x1_0000_0000 + (c.2
        + 0x8000_0000)
}

/// Whether each component of `c` is a 32-bit integer.
pub open spec fn is_coord(c: (int, int, int)) -> bool {
    &&& i32::MIN <= c.0 <= i32::MAX
    &&& i32::MIN <= c.1 <= i32::MAX
    &&& i32::MIN <= c.2 <= i32::MAX
}

/// Two coordinates with the same packed number are the same.
pub proof fn lemma_packed_injective(a: (int, int, int), b: (int, int, int))
    requires
        is_coord(a),
        is_coord(b),
        packed(a) == packed(b),
    ensures
        a == b,
{
}

/// The packed number of a key.
pub fn pack(key: &[i32; 3]) -> (p: u128)
    ensures
        p == packed(coord(*key)),
{
    let x: u128 = (key[0] as i64 + 0x8000_0000) as u128;
    let y: u128 = (key[1] as i64 + 0x8000_0000) as u128;
    let z: u128 = (key[2] as i64 + 0x8000_0000) as u128;
    (x * 0x1_0000_0000 + y) * 0x1_0000_0000 + z
}

/// The keys of a list of entries, in order.
pub open spec fn keys_of<V>(entries: Seq<Entry<V>>) -> Seq<(int, int, int)> {
    Seq::new(entries.len(), |i: int| coord(entries[i].key))
}

/// The chunk-grid coordinates in a list, in order.
pub open spec fn coords_of(list: Seq<[i32; 3]>) -> Seq<(int, int, int)> {
    Seq::new(list.len(), |i: int| coord(list[i]))
}

/// The test that a coordinate is not among `list`.
pub open spec fn absent_from(list: Seq<(int, int, int)>) -> spec_fn((int, int, int)) -> bool {
    |c: (int, int, int)| !list.contains(c)
}

/// The test that a coordinate lies in the cube of radius `r` around `center`.
pub open spec fn within(center: (int, int, int), r: int) -> spec_fn((int, int, int)) -> bool {
    |c: (int, int, int)| in_range(c, center, r)
}

/// Filtering a sequence that ends in `x`.
pub proof fn lemma_filter_push<A>(s: Seq<A>, x: A, pred: spec_fn(A) -> bool)
    ensures
        s.push(x).filter(pred) == (if pred(x) {
            s.filter(pred).push(x)
        } else {
            s.filter(pred)
        }),
{
    reveal(Seq::filter);
    assert(s.push(x).drop_last() =~= s);
}

/// What a filtered sequence contains.
pub proof fn lemma_filter_contains<A>(s: Seq<A>, pred: spec_fn(A) -> bool, x: A)
    ensures
        s.filter(pred).contains(x) <==> s.contains(x) && pred(x),
    decreases s.len(),
{
    reveal(Seq::filter);
    if s.len() > 0 {
        let front = s.drop_last();
        lemma_filter_contains(front, pred, x);
        if s.contains(x) {
            let i = choose|i: int| 0 <= i < s.len() && s[i] == x;
            if i < s.len() - 1 {
                assert(front[i] == x);
            }
        }
        if front.contains(x) {
            let i = choose|i: int| 0 <= i < front.len() && front[i] == x;
            assert(s[i] == x);
        }
        if pred(s.last()) {
            let kept = front.filter(pred);
            assert(s.filter(pred) == kept.push(s.last()));
            if kept.contains(x) {
                let i = choose|i: int| 0 <= i < kept.len() && kept[i] == x;
                assert(kept.push(s.last())[i] == x);
            }
            if s.last() == x {
                assert(kept.push(s.last())[kept.len() as int] == x);
            }
            if s.filter(pred).contains(x) {
                let i = choose|i: int| 0 <= i < s.filter(pred).len() && s.filter(pred)[i] == x;
                if i < kept.len() {
                    assert(kept[i] == x);
                }
            }
        }
        assert(s[s.len() - 1] == s.last());
    }
}

/// Filtering a sequence whose members all pass the test leaves it as it is.
pub proof fn lemma_filter_all<A>(s: Seq<A>, pred: spec_fn(A) -> bool)
    requires
        forall|i: int| 0 <= i < s.len() ==> pred(#[trigger] s[i]),
    ensures
        s.filter(pred) == s,
    decreases s.len(),
{
    reveal(Seq::filter);
    if s.len() > 0 {
        let front = s.drop_last();
        assert forall|i: int| 0 <= i < front.len() implies pred(#[trigger] front[i]) by {
            assert(front[i] == s[i]);
        }
        lemma_filter_all(front, pred);
        assert(front.push(s.last()) =~= s);
    }
}

/// Filtering keeps a sequence free of duplicates.
pub proof fn lemma_filter_no_duplicates<A>(s: Seq<A>, pred: spec_fn(A) -> bool)
    requires
        s.no_duplicates(),
    ensures
        s.filter(pred).no_duplicates(),
    decreases s.len(),
{
    reveal(Seq::filter);
    if s.len() > 0 {
        let front = s.drop_last();
        lemma_filter_no_duplicates(front, pred);
        if pred(s.last()) {
            lemma_filter_contains(front, pred, s.last());
            if front.contains(s.last()) {
                let i = choose|i: int| 0 <= i < front.len() && front[i] == s.last();
                assert(s[i] == s[s.len() - 1]);
            }
            let kept = front.filter(pred);
            assert forall|i: int, j: int|
                0 <= i < kept.len() + 1 && 0 <= j < kept.len() + 1 && i != j implies kept.push(
                s.last(),
            )[i] != kept.push(s.last())[j] by {
                if i < kept.len() && j < kept.len() {
                } else if i < kept.len() {
                    assert(kept.contains(kept[i]));
                } else {
                    assert(kept.contains(kept[j]));
                }
            }
        }
    }
}

impl<V> CoordMap<V> {
    /// The keys, in insertion order.
    pub open spec fn keys(&self) -> Seq<(int, int, int)> {
        keys_of(self.entries@)
    }

    /// The index holds the place of every entry under its packed key.
    pub open spec fn indexed(&self) -> bool {
        forall|i: int|
            0 <= i < self.entries.len() ==> self.index@.contains_key(
                packed(#[trigger] self.keys()[i]) as u128,
            ) && self.index@[packed(self.keys()[i]) as u128] == i
    }

    /// No coordinate is the key of two entries, and the index is in step with
    /// the entries.
    pub open spec fn wf(&self) -> bool {
        &&& self.keys().no_duplicates()
        &&& self.indexed()
    }

    /// Whether `c` has an entry.
    pub open spec fn contains(&self, c: (int, int, int)) -> bool {
        self.keys().contains(c)
    }

    /// The value of the entry of `c`.
    pub open spec fn value(&self, c: (int, int, int)) -> V {
        self.entries[self.keys().index_of(c)].value
    }

    /// The entry at place `i` is the entry of its key.
    pub proof fn lemma_entry(&self, i: int)
        requires
            self.keys().no_duplicates(),
            0 <= i < self.entries.len(),
        ensures
            self.contains(coord(self.entries[i].key)),
            self.keys().index_of(coord(self.entries[i].key)) == i,
            self.value(coord(self.entries[i].key)) == self.entries[i].value,
    {
        let c = coord(self.entries[i].key);
        assert(self.keys()[i] == c);
        let j = self.keys().index_of(c);
        assert(0 <= j < self.keys().len() && self.keys()[j] == c);
    }

    pub fn new() -> (map: Self)
        ensures
            map.entries@.len() == 0,
            map.wf(),
    {
        CoordMap { entries: Vec::new(), index: HashMap::new() }
    }

    /// Tests whether the map is well formed.
    pub fn is_wf(&self) -> (ok: bool)
        ensures
            ok == self.wf(),
    {
        let mut i: usize = 0;
        while i < self.entries.len()
            invariant
                i <= self.entries.len(),
                forall|j: int|
                    0 <= j < i ==> self.index@.contains_key(
                        packed(#[trigger] self.keys()[j]) as u128,
                    ) && self.index@[packed(self.keys()[j]) as u128] == j,
            decreases self.entries.len() - i,
        {
            let p = pack(&self.entries[i].key);
            assert(p == packed(self.keys()[i as int]) as u128);
            match self.index.get(&p) {
                Some(at) => {
                    if *at != i {
                        return false;
                    }
                },
                None => {
                    return false;
                },
            }
            i += 1;
        }
        proof {
            assert forall|a: int, b: int|
                0 <= a < self.keys().len() && 0 <= b < self.keys().len() && a != b implies self.keys()[a]
                != self.keys()[b] by {
                if self.keys()[a] == self.keys()[b] {
                    assert(self.index@[packed(self.keys()[a]) as u128] == a);
                    assert(self.index@[packed(self.keys()[b]) as u128] == b);
                }
            }
        }
        true
    }

    pub fn len(&self) -> (n: usize)
        ensures
            n == self.entries.len(),
    {
        self.entries.len()
    }

    /// The place of the entry of `key`, if it has one.
    pub fn find(&self, key: &[i32; 3]) -> (place: Option<usize>)
        requires
            self.wf(),
        ensures
            match place {
                Some(i) => {
                    &&& i < self.entries.len()
                    &&& self.keys()[i as int] == coord(*key)
                    &&& i == self.keys().index_of(coord(*key))
                    &&& self.contains(coord(*key))
                },
                None => !self.contains(coord(*key)),
            },
    {
        let p = pack(key);
        proof {
            if self.contains(coord(*key)) {
                let j = choose|j: int| 0 <= j < self.keys().len() && self.keys()[j] == coord(*key);
                assert(self.index@[packed(self.keys()[j]) as u128] == j);
            }
        }
        match self.index.get(&p) {
            Some(at) => {
                let i: usize = *at;
                if i < self.entries.len() && same_coord(&self.entries[i].key, key) {
                    proof {
                        assert(self.keys()[i as int] == coord(*key));
                        self.lemma_entry(i as int);
                    }
                    Some(i)
                } else {
                    None
                }
            },
            None => None,
        }
    }

    pub fn contains_key(&self, key: &[i32; 3]) -> (found: bool)
        requires
            self.wf(),
        ensures
            found == self.contains(coord(*key)),
    {
        self.find(key).is_some()
    }

    pub fn get(&self, key: &[i32; 3]) -> (value: Option<&V>)
        requires
            self.wf(),
        ensures
            match value {
                Some(v) => self.contains(coord(*key)) && *v == self.value(coord(*key)),
                None => !self.contains(coord(*key)),
            },
    {
        match self.find(key) {
            Some(i) => Some(&self.entries[i].value),
            None => None,
        }
    }

    /// Adds an entry for a key that has none.
    pub fn insert(&mut self, key: [i32; 3], value: V)
        requires
            old(self).wf(),
            !old(self).contains(coord(key)),
        ensures
            final(self).wf(),
            final(self).entries@ == old(self).entries@.push(Entry { key, value }),
            final(self).keys() == old(self).keys().push(coord(key)),
    {
        let ghost before = self.keys();
        let ghost index_before = self.index@;
        let place: usize = self.entries.len();
        self.index.insert(pack(&key), place);
        self.entries.push(Entry { key, value });
        proof {
            assert(self.keys() =~= before.push(coord(key)));
            assert forall|i: int| 0 <= i < self.entries.len() implies self.index@.contains_key(
                packed(#[trigger] self.keys()[i]) as u128,
            ) && self.index@[packed(self.keys()[i]) as u128] == i by {
                if i < before.len() {
                    assert(self.keys()[i] == before[i]);
                    assert(before.contains(before[i]));
                    assert(index_before[packed(before[i]) as u128] == i);
                    if packed(before[i]) == packed(coord(key)) {
                        assert(before[i] == coord(self.entries[i].key));
                        lemma_packed_injective(before[i], coord(key));
                    }
                }
            }
            assert forall|i: int, j: int|
                0 <= i < self.keys().len() && 0 <= j < self.keys().len() && i != j implies self.keys()[i]
                != self.keys()[j] by {
                if i < before.len() && j < before.len() {
                } else if i < before.len() {
                    assert(before.contains(before[i]));
                } else {
                    assert(before.contains(before[j]));
                }
            }
        }
    }

    /// Keeps the entries whose place is marked in `keep`, in their order, and
    /// returns the keys of the others, in their order. `pred` is the test on
    /// keys that the marks stand for.
    pub(crate) fn retain_marked(
        &mut self,
        keep: &Vec<bool>,
        Ghost(pred): Ghost<spec_fn((int, int, int)) -> bool>,
    ) -> (dropped: Vec<[i32; 3]>)
        requires
            old(self).wf(),
            keep.len() == old(self).entries.len(),
            forall|i: int| 0 <= i < keep.len() ==> keep[i] == pred(#[trigger] old(self).keys()[i]),
        ensures
            final(self).wf(),
            final(self).keys() == old(self).keys().filter(pred),
            coords_of(dropped@) == old(self).keys().filter(negated(pred)),
            forall|c: (int, int, int)| final(self).contains(c) <==> old(self).contains(c) && pred(c),
            forall|c: (int, int, int)| #[trigger]
                final(self).contains(c) ==> final(self).value(c) == old(self).value(c),
    {
        let ghost before = *self;
        let mut source: Vec<Entry<V>> = Vec::new();
        core::mem::swap(&mut source, &mut self.entries);
        let mut kept: Vec<Entry<V>> = Vec::new();
        let mut index: HashMap<u128, usize> = HashMap::new();
        let mut dropped: Vec<[i32; 3]> = Vec::new();
        let ghost mut places: Seq<int> = Seq::empty();
        let mut i: usize = 0;
        for entry in it: source
            invariant
                it.seq() == before.entries@,
                i == it.index(),
                before.wf(),
                forall|j: int|
                    0 <= j < kept.len() ==> index@.contains_key(
                        packed(#[trigger] keys_of(kept@)[j]) as u128,
                    ) && index@[packed(keys_of(kept@)[j]) as u128] == j,
                forall|j: int, t: int|
                    0 <= j < kept.len() && i <= t < before.entries.len() ==> #[trigger] keys_of(
                        kept@,
                    )[j] != #[trigger] before.keys()[t],
                keep.len() == before.entries.len(),
                forall|j: int| 0 <= j < keep.len() ==> keep[j] == pred(#[trigger] before.keys()[j]),
                keys_of(kept@) == before.keys().take(i as int).filter(pred),
                coords_of(dropped@) == before.keys().take(i as int).filter(negated(pred)),
                places.len() == kept.len(),
                forall|j: int|
                    0 <= j < kept.len() ==> 0 <= #[trigger] places[j] < i && kept[j]
                        == before.entries[places[j]],
        {
            proof {
                assert(before.keys()[i as int] == coord(entry.key));
                assert(before.keys().take(i + 1) == before.keys().take(i as int).push(
                    coord(entry.key),
                ));
                lemma_filter_push(before.keys().take(i as int), coord(entry.key), pred);
                lemma_filter_push(before.keys().take(i as int), coord(entry.key), negated(pred));
            }
            if keep[i] {
                let ghost kept_before = kept@;
                let ghost index_before = index@;
                index.insert(pack(&entry.key), kept.len());
                kept.push(entry);
                proof {
                    places = places.push(i as int);
                    assert(keys_of(kept@) =~= keys_of(kept_before).push(coord(entry.key)));
                    assert forall|j: int| 0 <= j < kept.len() implies index@.contains_key(
                        packed(#[trigger] keys_of(kept@)[j]) as u128,
                    ) && index@[packed(keys_of(kept@)[j]) as u128] == j by {
                        if j < kept_before.len() {
                            assert(keys_of(kept@)[j] == keys_of(kept_before)[j]);
                            assert(keys_of(kept_before)[j] != before.keys()[i as int]);
                            assert(keys_of(kept_before)[j] == coord(kept_before[j].key));
                            if packed(keys_of(kept_before)[j]) == packed(coord(entry.key)) {
                                lemma_packed_injective(keys_of(kept_before)[j], coord(entry.key));
                            }
                        }
                    }
                    assert forall|j: int, t: int|
                        0 <= j < kept.len() && i + 1 <= t < before.entries.len() implies #[trigger] keys_of(
                        kept@,
                    )[j] != #[trigger] before.keys()[t] by {
                        if j == kept_before.len() {
                            assert(keys_of(kept@)[j] == before.keys()[i as int]);
                        } else {
                            assert(keys_of(kept@)[j] == keys_of(kept_before)[j]);
                        }
                    }
                }
            } else {
                let ghost dropped_before = dropped@;
                dropped.push(entry.key);
                assert(coords_of(dropped@) =~= coords_of(dropped_before).push(coord(entry.key)));
            }
            i += 1;
        }
        self.entries = kept;
        self.index = index;
        proof {
            assert(before.keys().take(before.entries.len() as int) == before.keys());
            lemma_filter_no_duplicates(before.keys(), pred);
            assert forall|c: (int, int, int)|
                self.contains(c) <==> before.contains(c) && pred(c) by {
                lemma_filter_contains(before.keys(), pred, c);
            }
            assert forall|c: (int, int, int)| #[trigger] self.contains(c) implies self.value(c)
                == before.value(c) by {
                let j = self.keys().index_of(c);
                assert(0 <= j < self.keys().len() && self.keys()[j] == c);
                before.lemma_entry(places[j]);
            }
        }
        dropped
    }

    /// Drops every entry whose key lies outside the cube of radius `radius`
    /// around `center`; the others keep their order. Returns the keys of the
    /// dropped entries, in their order.
    pub fn retain_within(&mut self, center: &[i32; 3], radius: i32) -> (dropped: Vec<[i32; 3]>)
        requires
            old(self).wf(),
        ensures
            final(self).wf(),
            final(self).keys() == old(self).keys().filter(within(coord(*center), radius as int)),
            coords_of(dropped@) == old(self).keys().filter(
                negated(within(coord(*center), radius as int)),
            ),
            forall|c: (int, int, int)|
                final(self).contains(c) <==> old(self).contains(c) && in_range(
                    c,
                    coord(*center),
                    radius as int,
                ),
            forall|c: (int, int, int)| #[trigger]
                final(self).contains(c) ==> final(self).value(c) == old(self).value(c),
    {
        let ghost pred = within(coord(*center), radius as int);
        let mut keep: Vec<bool> = Vec::new();
        let mut i: usize = 0;
        while i < self.entries.len()
            invariant
                i <= self.entries.len(),
                keep.len() == i,
                pred == within(coord(*center), radius as int),
                forall|j: int| 0 <= j < i ==> keep[j] == pred(#[trigger] self.keys()[j]),
            decreases self.entries.len() - i,
        {
            keep.push(key_in_range(&self.entries[i].key, center, radius));
            i += 1;
        }
        self.retain_marked(&keep, Ghost(pred))
    }
}

/// The test that fails where `pred` holds.
pub open spec fn negated(pred: spec_fn((int, int, int)) -> bool) -> spec_fn((int, int, int)) -> bool {
    |c: (int, int, int)| !pred(c)
}

/// Whether `key` lies in the cube of Chebyshev radius `radius` around `center`.
pub fn key_in_range(key: &[i32; 3], center: &[i32; 3], radius: i32) -> (inside: bool)
    ensures
        inside == in_range(coord(*key), coord(*center), radius as int),
{
    let r: i64 = radius as i64;
    let mut inside = true;
    let mut a: usize = 0;
    while a < 3
        invariant
            a <= 3,
            r == radius,
            inside == (forall|b: int|
                0 <= b < a ==> center[b] - r <= #[trigger] key[b] <= center[b] + r),
        decreases 3 - a,
    {
        let k: i64 = key[a] as i64;
        let c: i64 = center[a] as i64;
        if k < c - r || k > c + r {
            inside = false;
        }
        a += 1;
    }
    proof {
        if in_range(coord(*key), coord(*center), radius as int) {
            assert forall|b: int| 0 <= b < 3 implies center[b] - r <= #[trigger] key[b] <= center[b]
                + r by {
                assert(b == 0 || b == 1 || b == 2);
            }
        }
    }
    inside
}

} // verus!
