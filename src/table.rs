use vstd::prelude::*;
use vstd::slice::slice_to_vec;

use crate::u256::U256;

verus! {

/// One stored amount and the key it is stored under.
#[derive(Debug, Clone)]
struct AmountEntry {
    key: Vec<u8>,
    amount: U256,
}

/// The amount stored under `k`: the last entry with that key decides, and a
/// key that no entry has stands for zero.
spec fn lookup(entries: Seq<AmountEntry>, k: Seq<u8>) -> nat
    decreases entries.len(),
{
    if entries.len() == 0 {
        0
    } else if entries.last().key@ == k {
        entries.last().amount.value()
    } else {
        lookup(entries.drop_last(), k)
    }
}

/// Entries past `i` that all miss `k` leave the amount of `k` to the first `i`.
proof fn lemma_lookup_prefix(entries: Seq<AmountEntry>, k: Seq<u8>, i: int)
    requires
        0 <= i <= entries.len(),
        forall|j: int| i <= j < entries.len() ==> entries[j].key@ != k,
    ensures
        lookup(entries, k) == lookup(entries.subrange(0, i), k),
    decreases entries.len(),
{
    if i < entries.len() {
        let t = entries.drop_last();
        assert(t.subrange(0, i) =~= entries.subrange(0, i));
        lemma_lookup_prefix(t, k, i);
    } else {
        assert(entries.subrange(0, i) =~= entries);
    }
}

/// Replacing the last entry of a key, keeping the key, changes that key's
/// amount and no other.
proof fn lemma_lookup_update(entries: Seq<AmountEntry>, i: int, e: AmountEntry, k: Seq<u8>)
    requires
        0 <= i < entries.len(),
        e.key@ == entries[i].key@,
        forall|j: int| i < j < entries.len() ==> entries[j].key@ != e.key@,
    ensures
        lookup(entries.update(i, e), k) == if k == e.key@ {
            e.amount.value()
        } else {
            lookup(entries, k)
        },
    decreases entries.len(),
{
    let u = entries.update(i, e);
    if i < entries.len() - 1 {
        assert(u.drop_last() =~= entries.drop_last().update(i, e));
        lemma_lookup_update(entries.drop_last(), i, e, k);
    } else {
        assert(u.drop_last() =~= entries.drop_last());
    }
}

/// A map from byte keys to amounts, held as a list of entries with distinct keys.
#[derive(Debug, Clone)]
pub struct AmountTable {
    entries: Vec<AmountEntry>,
}

impl AmountTable {
    /// The amount stored under `k`, zero where nothing is.
    pub closed spec fn amount_of(&self, k: Seq<u8>) -> nat {
        lookup(self.entries@, k)
    }

    /// No two entries share a key.
    pub closed spec fn wf(&self) -> bool {
        forall|i: int, j: int|
            0 <= i < j < self.entries@.len() ==> self.entries@[i].key@ != self.entries@[j].key@
    }

    /// A table that holds zero under every key.
    pub fn new() -> (r: Self)
        ensures
            r.wf(),
            forall|k: Seq<u8>| r.amount_of(k) == 0,
    {
        AmountTable { entries: Vec::new() }
    }

    /// The index of the entry with key `k`, if there is one.
    fn find(&self, k: &[u8]) -> (r: Option<usize>)
        ensures
            r matches Some(i) ==> i < self.entries@.len() && self.entries@[i as int].key@ == k@
                && forall|j: int| i < j < self.entries@.len() ==> self.entries@[j].key@ != k@,
            r is None ==> forall|j: int| 0 <= j < self.entries@.len() ==> self.entries@[j].key@ != k@,
    {
        let mut i: usize = self.entries.len();
        while i > 0
            invariant
                i <= self.entries@.len(),
                forall|j: int| i <= j < self.entries@.len() ==> self.entries@[j].key@ != k@,
            decreases i,
        {
            i = i - 1;
            if bytes_equal(self.entries[i].key.as_slice(), k) {
                return Some(i);
            }
        }
        None
    }

    /// The amount stored under `k`.
    pub fn get(&self, k: &[u8]) -> (r: U256)
        ensures
            r.value() == self.amount_of(k@),
    {
        match self.find(k) {
            Some(i) => {
                proof {
                    lemma_lookup_prefix(self.entries@, k@, i + 1);
                    assert(self.entries@.subrange(0, i + 1).drop_last() =~= self.entries@.subrange(
                        0,
                        i as int,
                    ));
                }
                self.entries[i].amount
            },
            None => {
                proof {
                    lemma_lookup_prefix(self.entries@, k@, 0);
                }
                U256::new_zero()
            },
        }
    }

    /// Stores `v` under `k`, replacing what was there.
    pub fn set(&mut self, k: &[u8], v: U256)
        requires
            old(self).wf(),
        ensures
            final(self).wf(),
            forall|k2: Seq<u8>|
                #[trigger] final(self).amount_of(k2) == if k2 == k@ {
                    v.value()
                } else {
                    old(self).amount_of(k2)
                },
    {
        let e = AmountEntry { key: slice_to_vec(k), amount: v };
        match self.find(k) {
            Some(i) => {
                proof {
                    assert forall|k2: Seq<u8>|
                        lookup(self.entries@.update(i as int, e), k2) == if k2 == k@ {
                            v.value()
                        } else {
                            lookup(self.entries@, k2)
                        } by {
                        lemma_lookup_update(self.entries@, i as int, e, k2);
                    }
                }
                self.entries.set(i, e);
            },
            None => {
                let ghost before = self.entries@;
                self.entries.push(e);
                proof {
                    assert(self.entries@.drop_last() =~= before);
                }
            },
        }
    }
}

/// Whether two byte sequences are equal.
pub fn bytes_equal(a: &[u8], b: &[u8]) -> (r: bool)
    ensures
        r == (a@ == b@),
{
    if a.len() != b.len() {
        return false;
    }
    let mut i: usize = 0;
    while i < a.len()
        invariant
            i <= a@.len(),
            a@.len() == b@.len(),
            forall|j: int| 0 <= j < i ==> a@[j] == b@[j],
        decreases a@.len() - i,
    {
        if a[i] != b[i] {
            assert(a@[i as int] != b@[i as int]);
            return false;
        }
        i = i + 1;
    }
    assert(a@ =~= b@);
    true
}

} // verus!
