//! A small multimap from keys to ordered rows, for key types that offer
//! nothing but an equality test.

use vstd::prelude::*;

verus! {

/// What a type must offer to index a [`Table`]: an equality test that agrees
/// with equality of values.
pub trait Key: Sized {
    /// Whether `self` and `other` are the same value.
    fn same(&self, other: &Self) -> (b: bool)
        ensures
            b == (self == other),
    ;
}

impl Key for bool {
    fn same(&self, other: &Self) -> (b: bool) {
        *self == *other
    }
}

impl Key for char {
    fn same(&self, other: &Self) -> (b: bool) {
        *self == *other
    }
}

impl Key for u8 {
    fn same(&self, other: &Self) -> (b: bool) {
        *self == *other
    }
}

impl Key for u16 {
    fn same(&self, other: &Self) -> (b: bool) {
        *self == *other
    }
}

impl Key for u32 {
    fn same(&self, other: &Self) -> (b: bool) {
        *self == *other
    }
}

impl Key for u64 {
    fn same(&self, other: &Self) -> (b: bool) {
        *self == *other
    }
}

impl Key for usize {
    fn same(&self, other: &Self) -> (b: bool) {
        *self == *other
    }
}

/// Rows of items, one row per key, each row in insertion order.
///
/// A key that was never pushed to has the empty row. Rows are never removed,
/// only emptied.
pub struct Table<K, T> {
    keys: Vec<K>,
    rows: Vec<Vec<T>>,
}

impl<K: Key, T> Table<K, T> {
    /// No key occurs twice, and every key has its row.
    pub closed spec fn wf(&self) -> bool {
        &&& self.keys.len() == self.rows.len()
        &&& forall|i: int, j: int|
            0 <= i < j < self.keys.len() ==> self.keys@[i] != self.keys@[j]
    }

    spec fn holds(&self, key: K, i: int) -> bool {
        0 <= i < self.keys.len() && self.keys@[i] == key
    }

    /// The row of `key`, oldest item first; empty for a key without a row.
    pub closed spec fn row(&self, key: K) -> Seq<T> {
        if exists|i: int| self.holds(key, i) {
            self.rows@[choose|i: int| self.holds(key, i)]@
        } else {
            Seq::empty()
        }
    }

    proof fn lemma_row_present(&self, i: int)
        requires
            self.wf(),
            0 <= i < self.keys.len(),
        ensures
            self.row(self.keys@[i]) == self.rows@[i]@,
    {
        let key = self.keys@[i];
        assert(self.holds(key, i));
        let j = choose|j: int| self.holds(key, j);
        assert(self.holds(key, j));
        assert(i == j);
    }

    proof fn lemma_row_absent(&self, key: K)
        requires
            forall|i: int| 0 <= i < self.keys.len() ==> self.keys@[i] != key,
        ensures
            self.row(key) == Seq::<T>::empty(),
    {
        assert(forall|i: int| !self.holds(key, i));
    }

    /// A row other than the one at `changed` is what it was in `before`.
    proof fn lemma_row_unchanged(&self, before: &Self, other: K, changed: int)
        requires
            self.wf(),
            before.wf(),
            0 <= changed < self.keys.len(),
            self.keys@[changed] != other,
            before.keys.len() <= self.keys.len(),
            forall|i: int| 0 <= i < before.keys.len() ==> self.keys@[i] == before.keys@[i],
            forall|i: int|
                0 <= i < before.keys.len() && i != changed ==> self.rows@[i] == before.rows@[i],
            self.keys.len() == before.keys.len() || (self.keys.len() == before.keys.len() + 1
                && changed == before.keys.len()),
        ensures
            self.row(other) == before.row(other),
    {
        if exists|i: int| before.holds(other, i) {
            let i = choose|i: int| before.holds(other, i);
            assert(before.holds(other, i));
            before.lemma_row_present(i);
            self.lemma_row_present(i);
        } else {
            assert forall|i: int| 0 <= i < self.keys.len() implies self.keys@[i] != other by {
                if i < before.keys.len() {
                    assert(!before.holds(other, i));
                }
            }
            self.lemma_row_absent(other);
            assert(forall|i: int| 0 <= i < before.keys.len() ==> !before.holds(other, i));
            before.lemma_row_absent(other);
        }
    }

    /// A table in which every row is empty.
    pub fn new() -> (table: Self)
        ensures
            table.wf(),
            forall|key: K| #[trigger] table.row(key) == Seq::<T>::empty(),
    {
        let table = Table { keys: Vec::new(), rows: Vec::new() };
        proof {
            assert forall|key: K| #[trigger] table.row(key) == Seq::<T>::empty() by {
                table.lemma_row_absent(key);
            }
        }
        table
    }

    fn find(&self, key: &K) -> (found: Option<usize>)
        requires
            self.wf(),
        ensures
            match found {
                Some(i) => i < self.keys.len() && self.keys@[i as int] == *key,
                None => forall|i: int| 0 <= i < self.keys.len() ==> self.keys@[i] != *key,
            },
    {
        let mut i: usize = 0;
        while i < self.keys.len()
            invariant
                i <= self.keys.len(),
                forall|j: int| 0 <= j < i ==> self.keys@[j] != *key,
            decreases self.keys.len() - i,
        {
            if self.keys[i].same(key) {
                return Some(i);
            }
            i += 1;
        }
        None
    }

    /// The row of `key`, or `None` where the key has no row yet.
    pub fn get(&self, key: &K) -> (found: Option<&Vec<T>>)
        requires
            self.wf(),
        ensures
            match found {
                Some(items) => items@ == self.row(*key),
                None => self.row(*key) == Seq::<T>::empty(),
            },
    {
        match self.find(key) {
            Some(i) => {
                proof {
                    self.lemma_row_present(i as int);
                }
                Some(&self.rows[i])
            },
            None => {
                proof {
                    self.lemma_row_absent(*key);
                }
                None
            },
        }
    }

    /// Appends `item` to the row of `key` and returns its place in that row.
    pub fn push(&mut self, key: K, item: T) -> (slot: usize)
        requires
            old(self).wf(),
        ensures
            final(self).wf(),
            slot == old(self).row(key).len(),
            final(self).row(key) == old(self).row(key).push(item),
            forall|other: K| other != key ==> #[trigger] final(self).row(other) == old(self).row(other),
    {
        let ghost before = *self;
        match self.find(&key) {
            Some(i) => {
                let slot: usize = self.rows[i].len();
                self.rows[i].push(item);
                proof {
                    before.lemma_row_present(i as int);
                    self.lemma_row_present(i as int);
                    assert forall|other: K| other != key implies #[trigger] self.row(other)
                        == before.row(other) by {
                        self.lemma_row_unchanged(&before, other, i as int);
                    }
                }
                slot
            },
            None => {
                let mut row = Vec::new();
                row.push(item);
                self.keys.push(key);
                self.rows.push(row);
                proof {
                    let last = before.keys.len() as int;
                    before.lemma_row_absent(key);
                    self.lemma_row_present(last);
                    assert(self.rows@[last]@ =~= Seq::<T>::empty().push(item));
                    assert forall|other: K| other != key implies #[trigger] self.row(other)
                        == before.row(other) by {
                        self.lemma_row_unchanged(&before, other, last);
                    }
                }
                0
            },
        }
    }

    /// Removes and returns the newest item of the row of `key`.
    pub fn pop(&mut self, key: &K) -> (item: Option<T>)
        requires
            old(self).wf(),
        ensures
            final(self).wf(),
            match item {
                Some(last) => {
                    &&& old(self).row(*key).len() > 0
                    &&& last == old(self).row(*key).last()
                    &&& final(self).row(*key) == old(self).row(*key).drop_last()
                },
                None => {
                    &&& old(self).row(*key).len() == 0
                    &&& final(self).row(*key) == old(self).row(*key)
                },
            },
            forall|other: K| other != *key ==> #[trigger] final(self).row(other) == old(self).row(other),
    {
        let ghost before = *self;
        match self.find(key) {
            Some(i) => {
                let item = self.rows[i].pop();
                proof {
                    before.lemma_row_present(i as int);
                    self.lemma_row_present(i as int);
                    assert forall|other: K| other != *key implies #[trigger] self.row(other)
                        == before.row(other) by {
                        self.lemma_row_unchanged(&before, other, i as int);
                    }
                }
                item
            },
            None => {
                proof {
                    self.lemma_row_absent(*key);
                }
                None
            },
        }
    }

    /// Replaces the item at `slot` of the row of `key`. The slot has to be
    /// there.
    pub fn set(&mut self, key: &K, slot: usize, item: T)
        requires
            old(self).wf(),
            slot < old(self).row(*key).len(),
        ensures
            final(self).wf(),
            final(self).row(*key) == old(self).row(*key).update(slot as int, item),
            forall|other: K| other != *key ==> #[trigger] final(self).row(other) == old(self).row(other),
    {
        let ghost before = *self;
        match self.find(key) {
            Some(i) => {
                proof {
                    before.lemma_row_present(i as int);
                }
                self.rows[i][slot] = item;
                proof {
                    self.lemma_row_present(i as int);
                    assert forall|other: K| other != *key implies #[trigger] self.row(other)
                        == before.row(other) by {
                        self.lemma_row_unchanged(&before, other, i as int);
                    }
                }
            },
            None => {
                proof {
                    self.lemma_row_absent(*key);
                }
                unreached()
            },
        }
    }
}

} // verus!
