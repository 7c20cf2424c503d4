//! A table of amounts kept in ascending order of its keys.
//!
//! The table stands for a finite map from keys to amounts. It is held as a
//! vector of (key, amount) pairs whose keys strictly ascend, so the pairs can
//! be handed out as a sorted series at any time.

use crate::time::Key;
use vstd::prelude::*;

verus! {

/// The keys of `entries` strictly ascend; in particular none occurs twice.
pub open spec fn ascending<K: Key>(entries: Seq<(K, u128)>) -> bool {
    forall|i: int, j: int|
        0 <= i < j < entries.len() ==> (#[trigger] entries[i]).0.rank() < (
        #[trigger] entries[j]).0.rank()
}

/// Some pair of `entries` has the key `key`.
pub open spec fn holds<K: Key>(entries: Seq<(K, u128)>, key: K) -> bool {
    exists|i: int| 0 <= i < entries.len() && (#[trigger] entries[i]).0 == key
}

/// An index at which `entries` has the key `key`, where there is one.
pub open spec fn place_of<K: Key>(entries: Seq<(K, u128)>, key: K) -> int {
    choose|i: int| 0 <= i < entries.len() && (#[trigger] entries[i]).0 == key
}

/// The map that `entries` stands for: each key that occurs, with its amount.
pub open spec fn book_of<K: Key>(entries: Seq<(K, u128)>) -> Map<K, nat> {
    Map::new(|key: K| holds(entries, key), |key: K| entries[place_of(entries, key)].1 as nat)
}

/// The sum of all amounts in `entries`.
pub open spec fn sum_of<K: Key>(entries: Seq<(K, u128)>) -> nat
    decreases entries.len(),
{
    if entries.len() == 0 {
        0
    } else {
        sum_of(entries.drop_last()) + entries.last().1 as nat
    }
}

/// The amount that `book` has under `key`, and zero where it has none.
pub open spec fn amount_at<K>(book: Map<K, nat>, key: K) -> nat {
    if book.dom().contains(key) {
        book[key]
    } else {
        0
    }
}

/// `book` after `amount` was added to what it has under `key`.
pub open spec fn credited<K>(book: Map<K, nat>, key: K, amount: nat) -> Map<K, nat> {
    book.insert(key, amount_at(book, key) + amount)
}

/// In an ascending sequence each key is found at exactly one index.
pub proof fn lemma_place_is_unique<K: Key>(entries: Seq<(K, u128)>, i: int)
    requires
        ascending(entries),
        0 <= i < entries.len(),
    ensures
        holds(entries, entries[i].0),
        place_of(entries, entries[i].0) == i,
        book_of(entries).dom().contains(entries[i].0),
        book_of(entries)[entries[i].0] == entries[i].1,
{
    let key = entries[i].0;
    let p = place_of(entries, key);
    assert(0 <= p < entries.len() && entries[p].0 == key);
    if p < i {
        assert(entries[p].0.rank() < entries[i].0.rank());
    } else if i < p {
        assert(entries[i].0.rank() < entries[p].0.rank());
    }
}

/// An ascending sequence holds no key twice.
pub proof fn lemma_ascending_has_no_duplicates<K: Key>(entries: Seq<(K, u128)>, i: int, j: int)
    requires
        ascending(entries),
        0 <= i < entries.len(),
        0 <= j < entries.len(),
        entries[i].0 == entries[j].0,
    ensures
        i == j,
{
    lemma_place_is_unique(entries, i);
    lemma_place_is_unique(entries, j);
}

/// Two ascending sequences that stand for the same map are the same
/// sequence: a sorted series is determined by the map it shows.
pub proof fn lemma_series_is_determined<K: Key>(a: Seq<(K, u128)>, b: Seq<(K, u128)>)
    requires
        ascending(a),
        ascending(b),
        book_of(a) == book_of(b),
    ensures
        a == b,
    decreases a.len(),
{
    if a.len() == 0 {
        if b.len() > 0 {
            lemma_place_is_unique(b, 0);
            assert(book_of(a).dom().contains(b[0].0));
            assert(holds(a, b[0].0));
        }
        assert(a =~= b);
    } else {
        let la = a.len() - 1;
        lemma_place_is_unique(a, la);
        assert(book_of(b).dom().contains(a[la].0));
        assert(holds(b, a[la].0));
        let lb = b.len() - 1;
        lemma_place_is_unique(b, lb);
        assert(book_of(a).dom().contains(b[lb].0));
        assert(holds(a, b[lb].0));
        let pa = place_of(a, b[lb].0);
        let pb = place_of(b, a[la].0);
        assert(0 <= pa < a.len() && a[pa].0 == b[lb].0);
        assert(0 <= pb < b.len() && b[pb].0 == a[la].0);
        // The last key of each is the greatest key of both.
        if pa < la {
            assert(a[pa].0.rank() < a[la].0.rank());
            if pb < lb {
                assert(b[pb].0.rank() < b[lb].0.rank());
            }
        }
        assert(a[la].0.rank() == b[lb].0.rank());
        K::rank_is_faithful(a[la].0, b[lb].0);
        assert(a[la].1 == b[lb].1);
        let a0 = a.drop_last();
        let b0 = b.drop_last();
        assert forall|key: K| holds(a0, key) <==> holds(b0, key) by {
            if holds(a0, key) {
                let i = place_of(a0, key);
                assert(a[i].0 == key);
                lemma_place_is_unique(a, i);
                assert(holds(b, key));
                let j = place_of(b, key);
                assert(a[i].0.rank() < a[la].0.rank());
                assert(j != lb);
                assert(b0[j].0 == key);
            }
            if holds(b0, key) {
                let i = place_of(b0, key);
                assert(b[i].0 == key);
                lemma_place_is_unique(b, i);
                assert(holds(a, key));
                let j = place_of(a, key);
                assert(b[i].0.rank() < b[lb].0.rank());
                assert(j != la);
                assert(a0[j].0 == key);
            }
        }
        assert forall|key: K| holds(a0, key) implies book_of(a0)[key] == book_of(b0)[key] by {
            let i = place_of(a0, key);
            let j = place_of(b0, key);
            assert(a[i].0 == key && b[j].0 == key);
            lemma_place_is_unique(a0, i);
            lemma_place_is_unique(b0, j);
            lemma_place_is_unique(a, i);
            lemma_place_is_unique(b, j);
            assert(a0[i] == a[i] && b0[j] == b[j]);
        }
        assert(book_of(a0) =~= book_of(b0));
        lemma_series_is_determined(a0, b0);
        assert(a =~= a0.push(a[la]));
        assert(b =~= b0.push(b[lb]));
    }
}

/// The sum over a sequence with one pair put in at `at`.
pub proof fn lemma_sum_of_insert<K: Key>(entries: Seq<(K, u128)>, at: int, pair: (K, u128))
    requires
        0 <= at <= entries.len(),
    ensures
        sum_of(entries.insert(at, pair)) == sum_of(entries) + pair.1,
    decreases entries.len(),
{
    let grown = entries.insert(at, pair);
    if at == entries.len() {
        assert(grown.drop_last() =~= entries);
    } else {
        assert(grown.drop_last() =~= entries.drop_last().insert(at, pair));
        lemma_sum_of_insert(entries.drop_last(), at, pair);
    }
}

/// The sum over a sequence with the pair at `at` replaced.
pub proof fn lemma_sum_of_update<K: Key>(entries: Seq<(K, u128)>, at: int, pair: (K, u128))
    requires
        0 <= at < entries.len(),
    ensures
        sum_of(entries.update(at, pair)) + entries[at].1 == sum_of(entries) + pair.1,
    decreases entries.len(),
{
    let changed = entries.update(at, pair);
    if at == entries.len() - 1 {
        assert(changed.drop_last() =~= entries.drop_last());
    } else {
        assert(changed.drop_last() =~= entries.drop_last().update(at, pair));
        lemma_sum_of_update(entries.drop_last(), at, pair);
    }
}

/// No single amount exceeds the sum of all.
pub proof fn lemma_sum_bounds_each<K: Key>(entries: Seq<(K, u128)>, at: int)
    requires
        0 <= at < entries.len(),
    ensures
        entries[at].1 <= sum_of(entries),
    decreases entries.len(),
{
    if at < entries.len() - 1 {
        lemma_sum_bounds_each(entries.drop_last(), at);
    }
}

/// A finite map from keys to amounts, kept sorted by key.
pub struct Table<K: Key> {
    entries: Vec<(K, u128)>,
}

impl<K: Key> Table<K> {
    /// The pairs of the table in the order in which it keeps them.
    pub closed spec fn entries(&self) -> Seq<(K, u128)> {
        self.entries@
    }

    /// The table's invariant: its keys strictly ascend.
    pub open spec fn wf(&self) -> bool {
        ascending(self.entries())
    }

    /// The map that the table stands for.
    pub open spec fn view(&self) -> Map<K, nat> {
        book_of(self.entries())
    }

    /// The sum of all amounts in the table.
    pub open spec fn total(&self) -> nat {
        sum_of(self.entries())
    }

    /// The empty table.
    pub fn new() -> (table: Table<K>)
        ensures
            table.wf(),
            table.entries() == Seq::<(K, u128)>::empty(),
            table@ == Map::<K, nat>::empty(),
            table.total() == 0,
    {
        let table = Table { entries: Vec::new() };
        assert(table@ =~= Map::<K, nat>::empty());
        table
    }

    /// The number of keys in the table.
    pub fn len(&self) -> (n: usize)
        ensures
            n == self.entries().len(),
    {
        self.entries.len()
    }

    /// The index of the first pair whose key does not come before `key`.
    fn lower_bound(&self, key: &K) -> (at: usize)
        requires
            self.wf(),
        ensures
            at <= self.entries().len(),
            forall|i: int| 0 <= i < at ==> (#[trigger] self.entries()[i]).0.rank() < key.rank(),
            forall|i: int|
                at <= i < self.entries().len() ==> (#[trigger] self.entries()[i]).0.rank()
                    >= key.rank(),
    {
        let mut low: usize = 0;
        let mut high: usize = self.entries.len();
        while low < high
            invariant
                self.wf(),
                low <= high <= self.entries@.len(),
                forall|i: int| 0 <= i < low ==> (#[trigger] self.entries@[i]).0.rank() < key.rank(),
                forall|i: int|
                    high <= i < self.entries@.len() ==> (#[trigger] self.entries@[i]).0.rank()
                        >= key.rank(),
            decreases high - low,
        {
            let middle: usize = low + (high - low) / 2;
            if self.entries[middle].0.precedes(key) {
                assert forall|i: int| 0 <= i < middle + 1 implies (
                #[trigger] self.entries@[i]).0.rank() < key.rank() by {
                    if i < middle {
                        assert(self.entries@[i].0.rank() < self.entries@[middle as int].0.rank());
                    }
                }
                low = middle + 1;
            } else {
                assert forall|i: int| middle <= i < self.entries@.len() implies (
                #[trigger] self.entries@[i]).0.rank() >= key.rank() by {
                    if middle < i {
                        assert(self.entries@[middle as int].0.rank() < self.entries@[i].0.rank());
                    }
                }
                high = middle;
            }
        }
        low
    }

    /// The amount under `key`, where the table has one.
    pub fn get(&self, key: &K) -> (found: Option<u128>)
        requires
            self.wf(),
        ensures
            found is Some <==> self@.dom().contains(*key),
            found is Some ==> found->Some_0 == self@[*key],
            found is Some ==> found->Some_0 <= self.total(),
    {
        let at = self.lower_bound(key);
        if at < self.entries.len() && !key.precedes(&self.entries[at].0) {
            proof {
                K::rank_is_faithful(self.entries@[at as int].0, *key);
                lemma_place_is_unique(self.entries@, at as int);
                lemma_sum_bounds_each(self.entries@, at as int);
            }
            Some(self.entries[at].1)
        } else {
            proof {
                if holds(self.entries@, *key) {
                    let i = place_of(self.entries@, *key);
                    assert(self.entries@[i].0 == *key);
                    if i < at {
                        assert(self.entries@[i].0.rank() < key.rank());
                    } else {
                        assert(at < self.entries@.len());
                        if at < i {
                            assert(self.entries@[at as int].0.rank() < self.entries@[i].0.rank());
                        }
                    }
                }
            }
            None
        }
    }

    /// Puts `amount` under `key`, in place of what the table had there.
    pub fn put(&mut self, key: K, amount: u128)
        requires
            old(self).wf(),
        ensures
            final(self).wf(),
            final(self)@ == old(self)@.insert(key, amount as nat),
            final(self).total() + amount_at(old(self)@, key) == old(self).total() + amount,
    {
        let at = self.lower_bound(&key);
        let ghost before = self.entries@;
        if at < self.entries.len() && !key.precedes(&self.entries[at].0) {
            proof {
                K::rank_is_faithful(before[at as int].0, key);
                lemma_place_is_unique(before, at as int);
                lemma_sum_of_update(before, at as int, (key, amount));
            }
            self.entries[at] = (key, amount);
            proof {
                let after = self.entries@;
                assert(after =~= before.update(at as int, (key, amount)));
                assert forall|i: int, j: int| 0 <= i < j < after.len() implies (
                #[trigger] after[i]).0.rank() < (#[trigger] after[j]).0.rank() by {
                    assert(before[i].0.rank() < before[j].0.rank());
                }
                assert forall|k: K| holds(after, k) <==> (k == key || holds(before, k)) by {
                    if holds(after, k) {
                        let i = place_of(after, k);
                        assert(before[i].0 == after[i].0);
                    }
                    if holds(before, k) {
                        let i = place_of(before, k);
                        assert(after[i].0 == before[i].0);
                    }
                    if k == key {
                        assert(after[at as int].0 == key);
                    }
                }
                assert forall|k: K| holds(after, k) implies book_of(after)[k] == book_of(
                    before,
                ).insert(key, amount as nat)[k] by {
                    let i = place_of(after, k);
                    lemma_place_is_unique(after, i);
                    if i != at {
                        assert(before[i] == after[i]);
                        lemma_place_is_unique(before, i);
                    }
                }
                assert(book_of(after) =~= book_of(before).insert(key, amount as nat));
            }
        } else {
            proof {
                if holds(before, key) {
                    let i = place_of(before, key);
                    assert(before[i].0 == key);
                    if i < at {
                        assert(before[i].0.rank() < key.rank());
                    } else {
                        assert(at < before.len());
                        if at < i {
                            assert(before[at as int].0.rank() < before[i].0.rank());
                        }
                    }
                }
                lemma_sum_of_insert(before, at as int, (key, amount));
            }
            self.entries.insert(at, (key, amount));
            proof {
                let after = self.entries@;
                assert(after =~= before.insert(at as int, (key, amount)));
                assert forall|i: int| 0 <= i < after.len() implies #[trigger] after[i] == (if i
                    < at {
                    before[i]
                } else if i == at {
                    (key, amount)
                } else {
                    before[i - 1]
                }) by {}
                assert forall|i: int, j: int| 0 <= i < j < after.len() implies (
                #[trigger] after[i]).0.rank() < (#[trigger] after[j]).0.rank() by {
                    if j < at {
                        assert(before[i].0.rank() < before[j].0.rank());
                    } else if j == at {
                        assert(before[i].0.rank() < key.rank());
                    } else if i < at {
                        assert(before[i].0.rank() < before[j - 1].0.rank());
                    } else if i == at {
                        assert(before[j - 1].0.rank() >= key.rank());
                        if before[j - 1].0.rank() == key.rank() {
                            K::rank_is_faithful(before[j - 1].0, key);
                        }
                    } else {
                        assert(before[i - 1].0.rank() < before[j - 1].0.rank());
                    }
                }
                assert forall|k: K| holds(after, k) <==> (k == key || holds(before, k)) by {
                    if holds(after, k) {
                        let i = place_of(after, k);
                        if i < at {
                            assert(before[i].0 == k);
                        } else if i > at {
                            assert(before[i - 1].0 == k);
                        }
                    }
                    if holds(before, k) {
                        let i = place_of(before, k);
                        if i < at {
                            assert(after[i].0 == k);
                        } else {
                            assert(after[i + 1].0 == k);
                        }
                    }
                    if k == key {
                        assert(after[at as int].0 == key);
                    }
                }
                assert forall|k: K| holds(after, k) implies book_of(after)[k] == book_of(
                    before,
                ).insert(key, amount as nat)[k] by {
                    let i = place_of(after, k);
                    lemma_place_is_unique(after, i);
                    if i < at {
                        lemma_place_is_unique(before, i);
                    } else if i > at {
                        lemma_place_is_unique(before, i - 1);
                    }
                }
                assert(book_of(after) =~= book_of(before).insert(key, amount as nat));
            }
        }
    }

    /// Adds `amount` to what the table has under `key`, starting from zero
    /// where it had nothing there.
    pub fn credit(&mut self, key: K, amount: u64)
        requires
            old(self).wf(),
            old(self).total() + amount <= u128::MAX,
        ensures
            final(self).wf(),
            final(self)@ == credited(old(self)@, key, amount as nat),
            final(self).total() == old(self).total() + amount,
    {
        let had: u128 = match self.get(&key) {
            Some(value) => value,
            None => 0,
        };
        self.put(key, had + amount as u128);
    }

    /// The table's pairs as a series in ascending order of their keys.
    pub fn into_series(self) -> (series: Vec<(K, u128)>)
        requires
            self.wf(),
        ensures
            series@ == self.entries(),
            ascending(series@),
            book_of(series@) == self@,
            sum_of(series@) == self.total(),
    {
        self.entries
    }
}

} // verus!
