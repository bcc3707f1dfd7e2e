//! A small association table with `u64` keys, the core's store for
//! per-account balances and LP share records.
//!
//! Keys are kept unique; lookup is a linear scan.  The table exposes its
//! key and value sequences so that callers can state sum and conservation
//! properties over all entries.

use vstd::prelude::*;

verus! {

/// An association table from `u64` keys to values, with unique keys.
pub struct Table<V> {
    keys: Vec<u64>,
    vals: Vec<V>,
}

impl<V> Table<V> {
    /// The keys, in insertion order.
    pub closed spec fn keys_seq(self) -> Seq<u64> {
        self.keys@
    }

    /// The values, in the same order as the keys.
    pub closed spec fn vals_seq(self) -> Seq<V> {
        self.vals@
    }

    /// Well-formed: aligned columns and no repeated key.
    pub open spec fn wf(self) -> bool {
        &&& self.keys_seq().len() == self.vals_seq().len()
        &&& forall|i: int, j: int|
            0 <= i < j < self.keys_seq().len() ==> self.keys_seq()[i] != self.keys_seq()[j]
    }

    /// Whether the key is present.
    pub open spec fn has(self, k: u64) -> bool {
        self.keys_seq().contains(k)
    }

    /// The row of a present key.
    pub open spec fn idx_of(self, k: u64) -> int {
        self.keys_seq().index_of(k)
    }

    /// The value stored under a present key.
    pub open spec fn spec_get(self, k: u64) -> V
        recommends
            self.has(k),
    {
        self.vals_seq()[self.idx_of(k)]
    }

    /// In a well-formed table the row of a key is its only row.
    pub proof fn lemma_idx_of(self, k: u64)
        requires
            self.wf(),
            self.has(k),
        ensures
            0 <= self.idx_of(k) < self.keys_seq().len(),
            self.keys_seq()[self.idx_of(k)] == k,
            forall|i: int|
                0 <= i < self.keys_seq().len() && self.keys_seq()[i] == k ==> i == self.idx_of(k),
    {
        let ks = self.keys_seq();
        assert(exists|i: int| 0 <= i < ks.len() && ks[i] == k);
        assert(0 <= ks.index_of(k) < ks.len() && ks[ks.index_of(k)] == k);
    }

    /// An empty table.
    pub fn new() -> (r: Table<V>)
        ensures
            r.wf(),
            r.keys_seq() == Seq::<u64>::empty(),
            r.vals_seq() == Seq::<V>::empty(),
    {
        let r = Table { keys: Vec::new(), vals: Vec::new() };
        proof {
            assert(r.keys_seq() =~= Seq::<u64>::empty());
            assert(r.vals_seq() =~= Seq::<V>::empty());
        }
        r
    }

    /// How many entries the table holds.
    pub fn len(&self) -> (r: usize)
        requires
            self.wf(),
        ensures
            r == self.keys_seq().len(),
    {
        self.keys.len()
    }

    /// The key stored at a row.
    pub fn key_at(&self, i: usize) -> (r: u64)
        requires
            self.wf(),
            i < self.keys_seq().len(),
        ensures
            r == self.keys_seq()[i as int],
    {
        self.keys[i]
    }

    /// A borrow of the value stored at a row.
    pub fn val_at(&self, i: usize) -> (r: &V)
        requires
            self.wf(),
            i < self.keys_seq().len(),
        ensures
            *r == self.vals_seq()[i as int],
    {
        &self.vals[i]
    }

    /// The row holding the key, if any.
    pub fn find(&self, k: u64) -> (r: Option<usize>)
        requires
            self.wf(),
        ensures
            match r {
                Some(i) => self.has(k) && i == self.idx_of(k),
                None => !self.has(k),
            },
    {
        let n = self.keys.len();
        let mut i: usize = 0;
        while i < n
            invariant
                self.wf(),
                i <= n == self.keys_seq().len(),
                forall|j: int| 0 <= j < i ==> self.keys_seq()[j] != k,
            decreases n - i,
        {
            if self.keys[i] == k {
                proof {
                    self.lemma_idx_of(k);
                }
                return Some(i);
            }
            i = i + 1;
        }
        proof {
            if self.has(k) {
                let w = choose|j: int|
                    0 <= j < self.keys_seq().len() && self.keys_seq()[j] == k;
                assert(self.keys_seq()[w] == k);
            }
        }
        None
    }

    /// A borrow of the value under a key, if present.
    pub fn get(&self, k: u64) -> (r: Option<&V>)
        requires
            self.wf(),
        ensures
            match r {
                Some(v) => self.has(k) && *v == self.spec_get(k),
                None => !self.has(k),
            },
    {
        match self.find(k) {
            Some(i) => Some(&self.vals[i]),
            None => None,
        }
    }

    /// Whether the key is stored.
    pub fn contains_key(&self, k: u64) -> (r: bool)
        requires
            self.wf(),
        ensures
            r == self.has(k),
    {
        match self.find(k) {
            Some(_) => true,
            None => false,
        }
    }

    /// Stores a value under a key, replacing any previous value.  A new key
    /// lands in a fresh row at the end; an old key keeps its row.
    pub fn insert(&mut self, k: u64, v: V)
        requires
            old(self).wf(),
        ensures
            final(self).wf(),
            final(self).has(k),
            final(self).spec_get(k) == v,
            old(self).has(k) ==> {
                &&& final(self).keys_seq() == old(self).keys_seq()
                &&& final(self).vals_seq() == old(self).vals_seq().update(old(self).idx_of(k), v)
            },
            !old(self).has(k) ==> {
                &&& final(self).keys_seq() == old(self).keys_seq().push(k)
                &&& final(self).vals_seq() == old(self).vals_seq().push(v)
            },
    {
        let found = self.find(k);
        match found {
            Some(i) => {
                proof {
                    self.lemma_idx_of(k);
                }
                self.vals[i] = v;
                proof {
                    assert(final(self).keys_seq() =~= old(self).keys_seq());
                }
            },
            None => {
                self.keys.push(k);
                self.vals.push(v);
                proof {
                    let ks = final(self).keys_seq();
                    let n = ks.len() - 1;
                    assert(ks[n] == k);
                    assert(final(self).has(k));
                    assert(forall|i: int| 0 <= i < n ==> ks[i] == old(self).keys_seq()[i]);
                    assert(0 <= ks.index_of(k) < ks.len() && ks[ks.index_of(k)] == k);
                    assert(final(self).idx_of(k) == n);
                }
            },
        }
    }

    /// An independent copy with the same rows.
    pub fn duplicate(&self) -> (r: Table<V>) where V: Copy
        requires
            self.wf(),
        ensures
            r.wf(),
            r.keys_seq() == self.keys_seq(),
            r.vals_seq() == self.vals_seq(),
    {
        let n = self.keys.len();
        let mut keys: Vec<u64> = Vec::new();
        let mut vals: Vec<V> = Vec::new();
        let mut i: usize = 0;
        while i < n
            invariant
                self.wf(),
                i <= n == self.keys_seq().len(),
                keys@ == self.keys_seq().subrange(0, i as int),
                vals@ == self.vals_seq().subrange(0, i as int),
            decreases n - i,
        {
            keys.push(self.keys[i]);
            vals.push(self.vals[i]);
            proof {
                assert(keys@ =~= self.keys_seq().subrange(0, i + 1));
                assert(vals@ =~= self.vals_seq().subrange(0, i + 1));
            }
            i = i + 1;
        }
        proof {
            assert(self.keys_seq().subrange(0, n as int) =~= self.keys_seq());
            assert(self.vals_seq().subrange(0, n as int) =~= self.vals_seq());
        }
        Table { keys, vals }
    }

    /// Removes a key and its value; the last row moves into the vacated row.
    pub fn remove(&mut self, k: u64)
        requires
            old(self).wf(),
            old(self).has(k),
        ensures
            final(self).wf(),
            !final(self).has(k),
            final(self).keys_seq() == old(self).keys_seq().remove(old(self).idx_of(k)),
            final(self).vals_seq() == old(self).vals_seq().remove(old(self).idx_of(k)),
    {
        proof {
            self.lemma_idx_of(k);
        }
        let i = self.find(k).unwrap();
        self.keys.remove(i);
        self.vals.remove(i);
        proof {
            let ks = self.keys_seq();
            if self.has(k) {
                let w = choose|j: int| 0 <= j < ks.len() && ks[j] == k;
                if w < i {
                    assert(old(self).keys_seq()[w] == k);
                } else {
                    assert(old(self).keys_seq()[w + 1] == k);
                }
            }
        }
    }
}

/// Storing under one key leaves every other key's row intact, whether the
/// key's row was updated in place or pushed fresh.
pub proof fn lemma_insert_other<V>(before: Table<V>, after: Table<V>, k: u64, v: V, u: u64)
    requires
        before.wf(),
        after.wf(),
        before.has(k) ==> after.keys_seq() == before.keys_seq() && after.vals_seq()
            == before.vals_seq().update(before.idx_of(k), v),
        !before.has(k) ==> after.keys_seq() == before.keys_seq().push(k) && after.vals_seq()
            == before.vals_seq().push(v),
        u != k,
    ensures
        after.has(u) == before.has(u),
        before.has(u) ==> after.spec_get(u) == before.spec_get(u),
{
    if before.has(k) {
        before.lemma_idx_of(k);
        if before.has(u) {
            before.lemma_idx_of(u);
            after.lemma_idx_of(u);
        }
    } else {
        if before.has(u) {
            before.lemma_idx_of(u);
            assert(after.keys_seq()[before.idx_of(u)] == u);
            assert(after.has(u));
            after.lemma_idx_of(u);
        } else {
            if after.has(u) {
                after.lemma_idx_of(u);
                let w = after.idx_of(u);
                if w < before.keys_seq().len() {
                    assert(before.keys_seq()[w] == u);
                }
            }
        }
    }
}

/// The sum of a sequence of balances, as a mathematical integer.
pub open spec fn sum_vals(s: Seq<u128>) -> int
    decreases s.len(),
{
    if s.len() == 0 {
        0
    } else {
        sum_vals(s.drop_last()) + s.last()
    }
}

/// A sum of balances is never negative.
pub proof fn lemma_sum_nonneg(s: Seq<u128>)
    ensures
        sum_vals(s) >= 0,
    decreases s.len(),
{
    if s.len() > 0 {
        lemma_sum_nonneg(s.drop_last());
    }
}

/// Appending one balance adds it to the sum.
pub proof fn lemma_sum_push(s: Seq<u128>, v: u128)
    ensures
        sum_vals(s.push(v)) == sum_vals(s) + v,
{
    assert(s.push(v).drop_last() =~= s);
}

/// Replacing one balance shifts the sum by the difference.
pub proof fn lemma_sum_update(s: Seq<u128>, i: int, v: u128)
    requires
        0 <= i < s.len(),
    ensures
        sum_vals(s.update(i, v)) == sum_vals(s) - s[i] + v,
    decreases s.len(),
{
    let t = s.update(i, v);
    if i == s.len() - 1 {
        assert(t.drop_last() =~= s.drop_last());
        assert(t.last() == v);
    } else {
        assert(t.drop_last() =~= s.drop_last().update(i, v));
        lemma_sum_update(s.drop_last(), i, v);
        assert(t.last() == s.last());
    }
}

/// Every balance is at most the sum of all balances.
pub proof fn lemma_sum_elem_le(s: Seq<u128>, i: int)
    requires
        0 <= i < s.len(),
    ensures
        s[i] <= sum_vals(s),
    decreases s.len(),
{
    if i == s.len() - 1 {
        lemma_sum_nonneg(s.drop_last());
    } else {
        lemma_sum_elem_le(s.drop_last(), i);
    }
}

/// A prefix of a balance sequence sums to at most the whole.
pub proof fn lemma_sum_prefix_le(s: Seq<u128>, i: int)
    requires
        0 <= i <= s.len(),
    ensures
        sum_vals(s.subrange(0, i)) <= sum_vals(s),
    decreases s.len() - i,
{
    if i == s.len() {
        assert(s.subrange(0, i) =~= s);
    } else {
        lemma_sum_prefix_le(s, i + 1);
        assert(s.subrange(0, i + 1).drop_last() =~= s.subrange(0, i));
        assert(sum_vals(s.subrange(0, i + 1)) == sum_vals(s.subrange(0, i)) + s[i]);
    }
}

/// Two distinct balances together are at most the sum of all balances.
pub proof fn lemma_sum_two_elems(s: Seq<u128>, i: int, j: int)
    requires
        0 <= i < s.len(),
        0 <= j < s.len(),
        i != j,
    ensures
        s[i] + s[j] <= sum_vals(s),
    decreases s.len(),
{
    if j == s.len() - 1 {
        lemma_sum_elem_le(s.drop_last(), i);
    } else if i == s.len() - 1 {
        lemma_sum_elem_le(s.drop_last(), j);
    } else {
        lemma_sum_two_elems(s.drop_last(), i, j);
    }
}

} // verus!
