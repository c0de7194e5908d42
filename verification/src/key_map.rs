//! An ordered map from fixed-width keys to values.

use vstd::prelude::*;

use crate::keys::{lemma_rank_injective, position, rank, Position};

verus! {

/// Whether the entries stand in strictly ascending key order.
pub open spec fn ascending<const N: usize, V>(entries: Seq<([u8; N], V)>) -> bool {
    forall|i: int, j: int|
        0 <= i < j < entries.len() ==> rank(#[trigger] entries[i].0) < rank(#[trigger] entries[j].0)
}

/// The map that a list of entries writes down, later entries winning.
pub open spec fn contents<const N: usize, V>(entries: Seq<([u8; N], V)>) -> Map<[u8; N], V>
    decreases entries.len(),
{
    if entries.len() == 0 {
        Map::empty()
    } else {
        contents(entries.drop_last()).insert(entries.last().0, entries.last().1)
    }
}

/// Whether `key` is the least key of `map`.
pub open spec fn is_least<const N: usize, V>(map: Map<[u8; N], V>, key: [u8; N]) -> bool {
    &&& map.contains_key(key)
    &&& forall|other: [u8; N]| #[trigger] map.contains_key(other) ==> rank(key) <= rank(other)
}

/// Whether `keys` lists exactly the keys of `map`, in ascending order.
pub open spec fn lists_keys<const N: usize, V>(keys: Seq<[u8; N]>, map: Map<[u8; N], V>) -> bool {
    &&& forall|i: int, j: int|
        0 <= i < j < keys.len() ==> rank(#[trigger] keys[i]) < rank(#[trigger] keys[j])
    &&& forall|i: int| 0 <= i < keys.len() ==> map.contains_key(#[trigger] keys[i])
    &&& forall|key: [u8; N]| #[trigger] map.contains_key(key) ==> keys.contains(key)
}

/// An ascending list holds each of its entries once, and nothing else.
pub proof fn lemma_contents<const N: usize, V>(entries: Seq<([u8; N], V)>)
    requires
        ascending(entries),
    ensures
        forall|i: int|
            0 <= i < entries.len() ==> contents(entries).contains_key(#[trigger] entries[i].0)
                && contents(entries)[entries[i].0] == entries[i].1,
        forall|key: [u8; N]| #[trigger]
            contents(entries).contains_key(key) ==> exists|i: int|
                0 <= i < entries.len() && #[trigger] entries[i].0 == key,
        contents(entries).dom().finite(),
        contents(entries).dom().len() == entries.len(),
    decreases entries.len(),
{
    if entries.len() > 0 {
        let front = entries.drop_last();
        let last = entries.last();
        assert forall|i: int, j: int| 0 <= i < j < front.len() implies rank(
            #[trigger] front[i].0,
        ) < rank(#[trigger] front[j].0) by {
            assert(front[i] == entries[i] && front[j] == entries[j]);
        }
        lemma_contents(front);
        assert forall|i: int| 0 <= i < entries.len() implies contents(entries).contains_key(
            #[trigger] entries[i].0,
        ) && contents(entries)[entries[i].0] == entries[i].1 by {
            if i < front.len() {
                assert(front[i] == entries[i]);
                assert(rank(entries[i].0) < rank(entries[entries.len() - 1].0));
            }
        }
        assert forall|key: [u8; N]| #[trigger] contents(entries).contains_key(key) implies exists|
            i: int,
        | 0 <= i < entries.len() && #[trigger] entries[i].0 == key by {
            if key == last.0 {
                assert(entries[entries.len() - 1].0 == key);
            } else {
                assert(contents(front).contains_key(key));
                let i = choose|i: int| 0 <= i < front.len() && #[trigger] front[i].0 == key;
                assert(entries[i].0 == key);
            }
        }
        if contents(front).contains_key(last.0) {
            let i = choose|i: int| 0 <= i < front.len() && #[trigger] front[i].0 == last.0;
            assert(rank(entries[i].0) < rank(entries[entries.len() - 1].0));
        }
    }
}

/// A list of entries writes down finitely many keys, one per entry at most.
pub proof fn lemma_contents_finite<const N: usize, V>(entries: Seq<([u8; N], V)>)
    ensures
        contents(entries).dom().finite(),
        contents(entries).dom().len() <= entries.len(),
    decreases entries.len(),
{
    if entries.len() > 0 {
        lemma_contents_finite(entries.drop_last());
    }
}

/// The part of an ascending list before a position is ascending.
pub proof fn lemma_ascending_take<const N: usize, V>(entries: Seq<([u8; N], V)>, count: int)
    requires
        ascending(entries),
        0 <= count <= entries.len(),
    ensures
        ascending(entries.take(count)),
{
    let front = entries.take(count);
    assert forall|i: int, j: int| 0 <= i < j < front.len() implies rank(#[trigger] front[i].0)
        < rank(#[trigger] front[j].0) by {
        assert(front[i] == entries[i] && front[j] == entries[j]);
    }
}

/// Reading one entry more inserts that entry.
pub proof fn lemma_contents_take<const N: usize, V>(entries: Seq<([u8; N], V)>, count: int)
    requires
        0 <= count < entries.len(),
    ensures
        contents(entries.take(count + 1)) == contents(entries.take(count)).insert(
            entries[count].0,
            entries[count].1,
        ),
{
    assert(entries.take(count + 1).drop_last() =~= entries.take(count));
    assert(entries.take(count + 1).last() == entries[count]);
}

/// An ordered map from `N`-byte keys to values, as an ascending list of entries.
#[derive(Debug, PartialEq, Eq)]
pub struct KeyMap<const N: usize, V> {
    entries: Vec<([u8; N], V)>,
}

impl<const N: usize, V> View for KeyMap<N, V> {
    type V = Map<[u8; N], V>;

    closed spec fn view(&self) -> Map<[u8; N], V> {
        contents(self.entries@)
    }
}

impl<const N: usize, V> KeyMap<N, V> {
    #[verifier::type_invariant]
    spec fn well_formed(self) -> bool {
        ascending(self.entries@)
    }

    /// The entries, in ascending key order.
    pub closed spec fn list(&self) -> Seq<([u8; N], V)> {
        self.entries@
    }

    /// The empty map.
    pub fn new() -> (map: Self)
        ensures
            map@ == Map::<[u8; N], V>::empty(),
    {
        KeyMap { entries: Vec::new() }
    }

    /// A map has finitely many keys, no more than can be counted.
    pub proof fn lemma_size(&self)
        ensures
            self@.dom().finite(),
            self@.dom().len() <= usize::MAX,
    {
        lemma_contents_finite(self.entries@);
        assert(self.entries@.len() == self.entries.len());
    }

    /// The number of keys.
    pub fn len(&self) -> (count: usize)
        ensures
            count == self@.dom().len(),
            self@.dom().finite(),
    {
        proof {
            use_type_invariant(self);
            lemma_contents(self.entries@);
        }
        self.entries.len()
    }

    /// Whether there is no key.
    pub fn is_empty(&self) -> (empty: bool)
        ensures
            empty == (self@ == Map::<[u8; N], V>::empty()),
    {
        proof {
            use_type_invariant(self);
            lemma_contents(self.entries@);
            if self.entries@.len() > 0 {
                assert(self@.contains_key(self.entries@[0].0));
            }
        }
        self.entries.len() == 0
    }

    /// The entries, in ascending key order.
    pub fn entries(&self) -> (list: &Vec<([u8; N], V)>)
        ensures
            list@ == self.list(),
            ascending(list@),
            contents(list@) == self@,
    {
        proof {
            use_type_invariant(self);
        }
        &self.entries
    }

    /// The entries, in ascending key order, taken out of the map.
    pub fn into_entries(self) -> (list: Vec<([u8; N], V)>)
        ensures
            list@ == self.list(),
            ascending(list@),
            contents(list@) == self@,
    {
        proof {
            use_type_invariant(&self);
        }
        self.entries
    }

    /// How many keys precede `key`.
    pub fn search(&self, key: &[u8; N]) -> (at: usize)
        ensures
            at <= self.list().len(),
            forall|i: int| 0 <= i < at ==> rank(#[trigger] self.list()[i].0) < rank(*key),
            forall|i: int|
                at <= i < self.list().len() ==> rank(#[trigger] self.list()[i].0) >= rank(*key),
    {
        proof {
            use_type_invariant(self);
        }
        let mut low: usize = 0;
        let mut high: usize = self.entries.len();
        while low < high
            invariant
                low <= high <= self.entries@.len(),
                ascending(self.entries@),
                forall|i: int| 0 <= i < low ==> rank(#[trigger] self.entries@[i].0) < rank(*key),
                forall|i: int|
                    high <= i < self.entries@.len() ==> rank(#[trigger] self.entries@[i].0) >= rank(
                        *key,
                    ),
            decreases high - low,
        {
            let middle: usize = low + (high - low) / 2;
            match position(&self.entries[middle].0, key) {
                Position::Before => {
                    assert forall|i: int| 0 <= i < middle + 1 implies rank(
                        #[trigger] self.entries@[i].0,
                    ) < rank(*key) by {
                        if i < middle {
                            assert(rank(self.entries@[i].0) < rank(self.entries@[middle as int].0));
                        }
                    }
                    low = middle + 1;
                },
                _ => {
                    assert forall|i: int| middle <= i < self.entries@.len() implies rank(
                        #[trigger] self.entries@[i].0,
                    ) >= rank(*key) by {
                        if i > middle {
                            assert(rank(self.entries@[middle as int].0) < rank(self.entries@[i].0));
                        }
                    }
                    high = middle;
                },
            }
        }
        low
    }

    /// The position of `key`, if it is there.
    fn find(&self, key: &[u8; N]) -> (at: Option<usize>)
        ensures
            match at {
                Some(at) => at < self.entries@.len() && self.entries@[at as int].0 == *key
                    && self@.contains_key(*key) && self@[*key] == self.entries@[at as int].1,
                None => !self@.contains_key(*key),
            },
    {
        let at: usize = self.search(key);
        proof {
            use_type_invariant(self);
            lemma_contents(self.entries@);
        }
        if at < self.entries.len() {
            if let Position::Same = position(&self.entries[at].0, key) {
                return Some(at);
            }
            proof {
                if rank(self.entries@[at as int].0) == rank(*key) {
                    lemma_rank_injective(self.entries@[at as int].0, *key);
                }
            }
        }
        proof {
            if self@.contains_key(*key) {
                let i = choose|i: int|
                    0 <= i < self.entries@.len() && #[trigger] self.entries@[i].0 == *key;
                assert(i >= at);
                if i > at {
                    assert(rank(self.entries@[at as int].0) < rank(self.entries@[i].0));
                }
            }
        }
        None
    }

    /// Whether `key` is there.
    pub fn contains_key(&self, key: &[u8; N]) -> (found: bool)
        ensures
            found == self@.contains_key(*key),
    {
        match self.find(key) {
            Some(_) => true,
            None => false,
        }
    }

    /// The value at `key`.
    pub fn get_ref(&self, key: &[u8; N]) -> (value: Option<&V>)
        ensures
            match value {
                Some(value) => self@.contains_key(*key) && *value == self@[*key],
                None => !self@.contains_key(*key),
            },
    {
        match self.find(key) {
            Some(at) => Some(&self.entries[at].1),
            None => None,
        }
    }

    /// Set the value at `key`, whether or not it was there.
    pub fn insert(&mut self, key: [u8; N], value: V)
        ensures
            final(self)@ == old(self)@.insert(key, value),
    {
        let at: usize = self.search(&key);
        let ghost before = self.entries@;
        proof {
            use_type_invariant(&*self);
            lemma_contents(before);
        }
        if at < self.entries.len() {
            if let Position::Same = position(&self.entries[at].0, &key) {
                let ghost after = before.update(at as int, (key, value));
                proof {
                    assert forall|i: int, j: int| 0 <= i < j < after.len() implies rank(
                        #[trigger] after[i].0,
                    ) < rank(#[trigger] after[j].0) by {
                        assert(after[i].0 == before[i].0 && after[j].0 == before[j].0);
                    }
                    lemma_contents(after);
                    assert forall|k: [u8; N]|
                        contents(after).contains_key(k) == contents(before).insert(
                            key,
                            value,
                        ).contains_key(k) by {
                        if contents(after).contains_key(k) {
                            let i = choose|i: int| 0 <= i < after.len() && #[trigger] after[i].0 == k;
                            assert(before[i].0 == k);
                        }
                        if contents(before).contains_key(k) {
                            let i = choose|i: int|
                                0 <= i < before.len() && #[trigger] before[i].0 == k;
                            assert(after[i].0 == k);
                        }
                        assert(after[at as int].0 == key);
                    }
                    assert forall|k: [u8; N]| #[trigger]
                        contents(after).contains_key(k) implies contents(after)[k] == contents(
                        before,
                    ).insert(key, value)[k] by {
                        let i = choose|i: int| 0 <= i < after.len() && #[trigger] after[i].0 == k;
                        if i != at {
                            assert(before[i] == after[i]);
                            if i < at {
                                assert(rank(after[i].0) < rank(after[at as int].0));
                            } else {
                                assert(rank(after[at as int].0) < rank(after[i].0));
                            }
                        }
                    }
                    assert(contents(after) =~= contents(before).insert(key, value));
                }
                let mut entries: Vec<([u8; N], V)> = Vec::new();
                core::mem::swap(&mut self.entries, &mut entries);
                entries.set(at, (key, value));
                self.entries = entries;
                return ;
            }
            proof {
                if rank(before[at as int].0) == rank(key) {
                    lemma_rank_injective(before[at as int].0, key);
                }
            }
        }
        proof {
            lemma_insert_new(before, at as int, key, value);
        }
        let mut entries: Vec<([u8; N], V)> = Vec::new();
        core::mem::swap(&mut self.entries, &mut entries);
        entries.insert(at, (key, value));
        self.entries = entries;
    }

    /// Forget `key`; whether it was there.
    pub fn remove(&mut self, key: &[u8; N]) -> (found: bool)
        ensures
            found == old(self)@.contains_key(*key),
            final(self)@ == old(self)@.remove(*key),
    {
        let ghost before = self.entries@;
        match self.find(key) {
            Some(at) => {
                proof {
                    use_type_invariant(&*self);
                    lemma_remove_at(before, at as int);
                }
                let mut entries: Vec<([u8; N], V)> = Vec::new();
                core::mem::swap(&mut self.entries, &mut entries);
                let _ = entries.remove(at);
                self.entries = entries;
                true
            },
            None => {
                assert(self@.remove(*key) =~= self@);
                false
            },
        }
    }

    /// The least key.
    pub fn first(&self) -> (key: Option<[u8; N]>)
        ensures
            match key {
                Some(key) => is_least(self@, key),
                None => self@ == Map::<[u8; N], V>::empty(),
            },
            self@.dom().finite(),
    {
        proof {
            use_type_invariant(self);
            lemma_contents(self.entries@);
        }
        if self.entries.len() == 0 {
            return None;
        }
        proof {
            assert forall|other: [u8; N]| #[trigger] self@.contains_key(other) implies rank(
                self.entries@[0].0,
            ) <= rank(other) by {
                let i = choose|i: int|
                    0 <= i < self.entries@.len() && #[trigger] self.entries@[i].0 == other;
                if i > 0 {
                    assert(rank(self.entries@[0].0) < rank(self.entries@[i].0));
                }
            }
        }
        Some(self.entries[0].0)
    }

    /// All keys, in ascending order.
    pub fn keys(&self) -> (keys: Vec<[u8; N]>)
        ensures
            lists_keys(keys@, self@),
            keys@.len() == self@.dom().len(),
            self@.dom().finite(),
    {
        proof {
            use_type_invariant(self);
            lemma_contents(self.entries@);
        }
        let mut keys: Vec<[u8; N]> = Vec::new();
        let mut i: usize = 0;
        while i < self.entries.len()
            invariant
                i <= self.entries@.len(),
                keys@.len() == i,
                forall|j: int| 0 <= j < i ==> #[trigger] keys@[j] == self.entries@[j].0,
            decreases self.entries@.len() - i,
        {
            keys.push(self.entries[i].0);
            i = i + 1;
        }
        proof {
            assert forall|i: int, j: int| 0 <= i < j < keys@.len() implies rank(
                #[trigger] keys@[i],
            ) < rank(#[trigger] keys@[j]) by {
                assert(rank(self.entries@[i].0) < rank(self.entries@[j].0));
            }
            assert forall|i: int| 0 <= i < keys@.len() implies self@.contains_key(
                #[trigger] keys@[i],
            ) by {
                assert(self@.contains_key(self.entries@[i].0));
            }
            assert forall|key: [u8; N]| #[trigger] self@.contains_key(key) implies keys@.contains(
                key,
            ) by {
                let i = choose|i: int|
                    0 <= i < self.entries@.len() && #[trigger] self.entries@[i].0 == key;
                assert(keys@[i] == key);
            }
        }
        keys
    }
}

impl<const N: usize, V: Copy> KeyMap<N, V> {
    /// A copy of the value at `key`.
    pub fn get(&self, key: &[u8; N]) -> (value: Option<V>)
        ensures
            value == self@.get(*key),
    {
        match self.find(key) {
            Some(at) => Some(self.entries[at].1),
            None => None,
        }
    }

    /// A copy of the map.
    fn copied(&self) -> (copy: Self)
        ensures
            copy@ == self@,
    {
        let mut entries: Vec<([u8; N], V)> = Vec::new();
        let mut i: usize = 0;
        while i < self.entries.len()
            invariant
                i <= self.entries@.len(),
                entries@ == self.entries@.take(i as int),
            decreases self.entries@.len() - i,
        {
            entries.push((self.entries[i].0, self.entries[i].1));
            i = i + 1;
            assert(self.entries@.take(i as int) =~= self.entries@.take(i - 1).push(
                self.entries@[i - 1],
            ));
        }
        proof {
            use_type_invariant(self);
            assert(entries@ =~= self.entries@);
        }
        KeyMap { entries }
    }

    /// The entries whose key `other` holds too.
    pub fn intersect<W>(&self, other: &KeyMap<N, W>) -> (common: Self)
        ensures
            common@ == self@.restrict(other@.dom()),
    {
        self.select(other, true)
    }

    /// The entries whose key `other` does not hold.
    pub fn difference<W>(&self, other: &KeyMap<N, W>) -> (rest: Self)
        ensures
            rest@ == self@.remove_keys(other@.dom()),
    {
        let rest = self.select(other, false);
        assert(rest@ =~= self@.remove_keys(other@.dom()));
        rest
    }

    /// The entries whose key `other` holds, or does not hold.
    fn select<W>(&self, other: &KeyMap<N, W>, held: bool) -> (selected: Self)
        ensures
            selected@ == self@.restrict(
                Set::new(|key: [u8; N]| other@.contains_key(key) == held),
            ),
            held ==> selected@ == self@.restrict(other@.dom()),
    {
        let ghost wanted = Set::new(|key: [u8; N]| other@.contains_key(key) == held);
        let ghost all = self.entries@;
        let mut entries: Vec<([u8; N], V)> = Vec::new();
        let mut i: usize = 0;
        proof {
            use_type_invariant(self);
            assert(contents(all.take(0)).restrict(wanted) =~= contents(entries@));
        }
        while i < self.entries.len()
            invariant
                all == self.entries@,
                i <= all.len(),
                ascending(all),
                ascending(entries@),
                forall|j: int|
                    0 <= j < entries@.len() ==> i < all.len() ==> rank(#[trigger] entries@[j].0)
                        < rank(all[i as int].0),
                contents(entries@) == contents(all.take(i as int)).restrict(wanted),
                wanted == Set::new(|key: [u8; N]| other@.contains_key(key) == held),
            decreases all.len() - i,
        {
            let ghost before = entries@;
            proof {
                lemma_contents_take(all, i as int);
                lemma_ascending_take(all, i as int);
                lemma_contents(all.take(i as int));
                if contents(all.take(i as int)).contains_key(all[i as int].0) {
                    let j = choose|j: int|
                        0 <= j < all.take(i as int).len() && #[trigger] all.take(i as int)[j].0
                            == all[i as int].0;
                    assert(all[j] == all.take(i as int)[j]);
                    assert(rank(all[j].0) < rank(all[i as int].0));
                }
            }
            if other.contains_key(&self.entries[i].0) == held {
                entries.push((self.entries[i].0, self.entries[i].1));
                proof {
                    assert(entries@.drop_last() =~= before);
                    assert(contents(entries@) =~= contents(all.take(i + 1)).restrict(wanted));
                }
            } else {
                proof {
                    assert(contents(entries@) =~= contents(all.take(i + 1)).restrict(wanted));
                }
            }
            proof {
                assert forall|j: int|
                    0 <= j < entries@.len() && i + 1 < all.len() implies rank(
                    #[trigger] entries@[j].0,
                ) < rank(all[i + 1].0) by {
                    assert(rank(all[i as int].0) < rank(all[i + 1].0));
                }
            }
            i = i + 1;
        }
        proof {
            assert(all.take(i as int) =~= all);
            assert(held ==> self@.restrict(wanted) =~= self@.restrict(other@.dom()));
        }
        KeyMap { entries }
    }

    /// Add the entries of `other` whose key is not there yet.
    pub fn union(&mut self, other: &Self)
        ensures
            final(self)@ == other@.union_prefer_right(old(self)@),
    {
        let ghost a = self.entries@;
        let ghost b = other.entries@;
        let mut merged: Vec<([u8; N], V)> = Vec::new();
        let mut i: usize = 0;
        let mut j: usize = 0;
        proof {
            use_type_invariant(&*self);
            use_type_invariant(other);
            assert(contents(merged@) =~= contents(b.take(0)).union_prefer_right(
                contents(a.take(0)),
            ));
        }
        while i < self.entries.len() || j < other.entries.len()
            invariant
                a == self.entries@,
                b == other.entries@,
                ascending(a),
                ascending(b),
                i <= a.len(),
                j <= b.len(),
                ascending(merged@),
                i < a.len() ==> forall|k: int|
                    0 <= k < merged@.len() ==> rank(#[trigger] merged@[k].0) < rank(a[i as int].0),
                j < b.len() ==> forall|k: int|
                    0 <= k < merged@.len() ==> rank(#[trigger] merged@[k].0) < rank(b[j as int].0),
                contents(merged@) == contents(b.take(j as int)).union_prefer_right(
                    contents(a.take(i as int)),
                ),
            decreases a.len() - i + b.len() - j,
        {
            let ghost before = merged@;
            let ghost left = contents(a.take(i as int));
            let ghost right = contents(b.take(j as int));
            let from: Position = if i == self.entries.len() {
                Position::After
            } else if j == other.entries.len() {
                Position::Before
            } else {
                position(&self.entries[i].0, &other.entries[j].0)
            };
            proof {
                if i < a.len() {
                    lemma_contents_take(a, i as int);
                    if i + 1 < a.len() {
                        assert(rank(a[i as int].0) < rank(a[i + 1].0));
                    }
                }
                if j < b.len() {
                    lemma_contents_take(b, j as int);
                    if j + 1 < b.len() {
                        assert(rank(b[j as int].0) < rank(b[j + 1].0));
                    }
                }
            }
            match from {
                Position::Before => {
                    merged.push((self.entries[i].0, self.entries[i].1));
                    proof {
                        assert(merged@.drop_last() =~= before);
                        assert(contents(merged@) =~= right.union_prefer_right(
                            contents(a.take(i + 1)),
                        ));
                    }
                    i = i + 1;
                },
                Position::Same => {
                    merged.push((self.entries[i].0, self.entries[i].1));
                    proof {
                        assert(merged@.drop_last() =~= before);
                        assert(contents(merged@) =~= contents(b.take(j + 1)).union_prefer_right(
                            contents(a.take(i + 1)),
                        ));
                    }
                    i = i + 1;
                    j = j + 1;
                },
                Position::After => {
                    merged.push((other.entries[j].0, other.entries[j].1));
                    proof {
                        assert(merged@.drop_last() =~= before);
                        lemma_ascending_take(a, i as int);
                        lemma_contents(a.take(i as int));
                        if left.contains_key(b[j as int].0) {
                            assert(contents(before).contains_key(b[j as int].0));
                            lemma_contents(before);
                            let k = choose|k: int|
                                0 <= k < before.len() && #[trigger] before[k].0 == b[j as int].0;
                            assert(rank(before[k].0) < rank(b[j as int].0));
                        }
                        assert(contents(merged@) =~= contents(b.take(j + 1)).union_prefer_right(
                            left,
                        ));
                    }
                    j = j + 1;
                },
            }
        }
        proof {
            assert(a.take(i as int) =~= a);
            assert(b.take(j as int) =~= b);
        }
        self.entries = merged;
    }
}

impl<const N: usize, V: Copy> Clone for KeyMap<N, V> {
    fn clone(&self) -> (copy: Self)
        ensures
            copy@ == self@,
    {
        self.copied()
    }
}

impl<const N: usize, V> Default for KeyMap<N, V> {
    fn default() -> (map: Self)
        ensures
            map@ == Map::<[u8; N], V>::empty(),
    {
        KeyMap::new()
    }
}

/// Inserting a key that is absent, at its place, keeps the order and adds the entry.
proof fn lemma_insert_new<const N: usize, V>(
    before: Seq<([u8; N], V)>,
    at: int,
    key: [u8; N],
    value: V,
)
    requires
        ascending(before),
        0 <= at <= before.len(),
        forall|i: int| 0 <= i < at ==> rank(#[trigger] before[i].0) < rank(key),
        forall|i: int| at <= i < before.len() ==> rank(#[trigger] before[i].0) > rank(key),
    ensures
        ascending(before.insert(at, (key, value))),
        contents(before.insert(at, (key, value))) == contents(before).insert(key, value),
{
    let after = before.insert(at, (key, value));
    assert forall|i: int, j: int| 0 <= i < j < after.len() implies rank(#[trigger] after[i].0)
        < rank(#[trigger] after[j].0) by {
        let p = if i < at { i } else { i - 1 };
        let q = if j < at { j } else { j - 1 };
        if i != at {
            assert(after[i] == before[p]);
        }
        if j != at {
            assert(after[j] == before[q]);
        }
        if i != at && j != at {
            assert(rank(before[p].0) < rank(before[q].0));
        }
    }
    lemma_contents(before);
    lemma_contents(after);
    assert forall|k: [u8; N]|
        contents(after).contains_key(k) == contents(before).insert(key, value).contains_key(k) by {
        if contents(after).contains_key(k) {
            let i = choose|i: int| 0 <= i < after.len() && #[trigger] after[i].0 == k;
            if i < at {
                assert(before[i].0 == k);
            } else if i > at {
                assert(before[i - 1].0 == k);
            }
        }
        if contents(before).contains_key(k) {
            let i = choose|i: int| 0 <= i < before.len() && #[trigger] before[i].0 == k;
            if i < at {
                assert(after[i].0 == k);
            } else {
                assert(after[i + 1].0 == k);
            }
        }
        assert(after[at].0 == key);
    }
    assert forall|k: [u8; N]| #[trigger] contents(after).contains_key(k) implies contents(after)[k]
        == contents(before).insert(key, value)[k] by {
        let i = choose|i: int| 0 <= i < after.len() && #[trigger] after[i].0 == k;
        if i < at {
            assert(before[i] == after[i]);
        } else if i > at {
            assert(before[i - 1] == after[i]);
        }
    }
    assert(contents(after) =~= contents(before).insert(key, value));
}

/// Taking one entry out keeps the order and removes its key.
proof fn lemma_remove_at<const N: usize, V>(before: Seq<([u8; N], V)>, at: int)
    requires
        ascending(before),
        0 <= at < before.len(),
    ensures
        ascending(before.remove(at)),
        contents(before.remove(at)) == contents(before).remove(before[at].0),
{
    let after = before.remove(at);
    let key = before[at].0;
    assert forall|i: int, j: int| 0 <= i < j < after.len() implies rank(#[trigger] after[i].0)
        < rank(#[trigger] after[j].0) by {
        let p = if i < at { i } else { i + 1 };
        let q = if j < at { j } else { j + 1 };
        assert(after[i] == before[p] && after[j] == before[q]);
        assert(rank(before[p].0) < rank(before[q].0));
    }
    lemma_contents(before);
    lemma_contents(after);
    assert forall|k: [u8; N]|
        contents(after).contains_key(k) == contents(before).remove(key).contains_key(k) by {
        if contents(after).contains_key(k) {
            let i = choose|i: int| 0 <= i < after.len() && #[trigger] after[i].0 == k;
            if i < at {
                assert(before[i].0 == k);
                assert(rank(before[i].0) < rank(before[at].0));
            } else {
                assert(before[i + 1].0 == k);
                assert(rank(before[at].0) < rank(before[i + 1].0));
            }
        }
        if contents(before).remove(key).contains_key(k) {
            let i = choose|i: int| 0 <= i < before.len() && #[trigger] before[i].0 == k;
            if i < at {
                assert(after[i].0 == k);
            } else {
                assert(after[i - 1].0 == k);
            }
        }
    }
    assert forall|k: [u8; N]| #[trigger] contents(after).contains_key(k) implies contents(after)[k]
        == contents(before).remove(key)[k] by {
        let i = choose|i: int| 0 <= i < after.len() && #[trigger] after[i].0 == k;
        if i < at {
            assert(before[i] == after[i]);
        } else {
            assert(before[i + 1] == after[i]);
        }
    }
    assert(contents(after) =~= contents(before).remove(key));
}

} // verus!
