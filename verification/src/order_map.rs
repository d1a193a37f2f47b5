//! Ordering helpers built on the argsort: sorting one vector by another's
//! keys, and a read-only rank index built once from a key sequence.

use crate::arg_sort::{apply_order, arg_sort, gathered, is_arg_sort_of};
use vstd::prelude::*;

verus! {

/// How many entries of `keys` are strictly below `k`; for a key that is
/// present, this is its 0-based rank in sorted order.
pub open spec fn count_lt(keys: Seq<u64>, k: u64) -> nat
    decreases keys.len(),
{
    if keys.len() == 0 {
        0
    } else {
        count_lt(keys.drop_last(), k) + if keys.last() < k {
            1nat
        } else {
            0nat
        }
    }
}

/// The ranks (as keys for a further argsort) of the entry keys of `entries`
/// within `keys`.
pub open spec fn rank_seq<T>(keys: Seq<u64>, entries: Seq<(u64, T)>) -> Seq<u64> {
    Seq::new(entries.len(), |i: int| count_lt(keys, entries[i].0) as u64)
}

/// The payloads of `entries`, in order.
pub open spec fn values_of<T>(entries: Seq<(u64, T)>) -> Seq<T> {
    Seq::new(entries.len(), |i: int| entries[i].1)
}

/// `count_lt` never exceeds the number of keys.
proof fn lemma_count_lt_le_len(keys: Seq<u64>, k: u64)
    ensures
        count_lt(keys, k) <= keys.len(),
    decreases keys.len(),
{
    if keys.len() > 0 {
        lemma_count_lt_le_len(keys.drop_last(), k);
    }
}

/// Law: among keys that are present, ranks order exactly like the keys
/// themselves, so sorting by rank is sorting by key.
pub proof fn lemma_rank_orders_like_keys(keys: Seq<u64>, k1: u64, k2: u64)
    requires
        keys.contains(k1),
        k1 < k2,
    ensures
        count_lt(keys, k1) < count_lt(keys, k2),
    decreases keys.len(),
{
    lemma_count_lt_monotone(keys, k1, k2);
    let w = choose|w: int| 0 <= w < keys.len() && keys[w] == k1;
    if keys.last() == k1 {
        lemma_count_lt_monotone(keys.drop_last(), k1, k2);
    } else {
        assert(keys.drop_last()[w] == k1);
        lemma_rank_orders_like_keys(keys.drop_last(), k1, k2);
    }
}

/// `count_lt` grows with its threshold.
proof fn lemma_count_lt_monotone(keys: Seq<u64>, k1: u64, k2: u64)
    requires
        k1 <= k2,
    ensures
        count_lt(keys, k1) <= count_lt(keys, k2),
    decreases keys.len(),
{
    if keys.len() > 0 {
        lemma_count_lt_monotone(keys.drop_last(), k1, k2);
    }
}

/// Sort `values` into the order induced by stably sorting `keys`.
pub fn order_with<T>(keys: &Vec<u64>, values: Vec<T>) -> (r: Vec<T>)
    requires
        keys@.len() == values@.len(),
    ensures
        exists|ord: Seq<usize>| is_arg_sort_of(ord, keys@) && r@ == gathered(values@, ord),
{
    let ord = arg_sort(keys);
    let mut out = values;
    let ghost vals0 = out@;
    apply_order(&mut out, &ord);
    proof {
        assert(is_arg_sort_of(ord@, keys@) && out@ == gathered(vals0, ord@));
    }
    out
}

/// A read-only rank index built once from a key sequence: each key maps to
/// its 0-based position in the stably sorted order of all keys.
pub struct OrderMap {
    keys: Vec<u64>,
}

impl OrderMap {
    /// The key sequence the index was built from.
    pub closed spec fn key_seq(&self) -> Seq<u64> {
        self.keys@
    }

    /// Build the index from a key sequence.
    pub fn new(keys: &Vec<u64>) -> (r: OrderMap)
        ensures
            r.key_seq() == keys@,
    {
        let mut copy: Vec<u64> = Vec::new();
        let mut t: usize = 0;
        while t < keys.len()
            invariant
                t <= keys@.len(),
                copy@ =~= keys@.take(t as int),
            decreases keys@.len() - t,
        {
            copy.push(keys[t]);
            proof {
                assert(copy@ =~= keys@.take(t as int + 1));
            }
            t += 1;
        }
        proof {
            assert(copy@ =~= keys@);
        }
        OrderMap { keys: copy }
    }

    /// The rank of `key`, or `None` when the key is absent.
    pub fn get(&self, key: u64) -> (r: Option<usize>)
        ensures
            r == if self.key_seq().contains(key) {
                Some(count_lt(self.key_seq(), key) as usize)
            } else {
                None::<usize>
            },
    {
        let n = self.keys.len();
        let mut count: usize = 0;
        let mut found = false;
        let mut t: usize = 0;
        while t < n
            invariant
                t <= n,
                n == self.keys@.len(),
                count == count_lt(self.keys@.take(t as int), key),
                count <= t,
                found == exists|w: int| 0 <= w < t && self.keys@[w] == key,
            decreases n - t,
        {
            proof {
                assert(self.keys@.take(t as int + 1).drop_last() =~= self.keys@.take(t as int));
                lemma_count_lt_le_len(self.keys@.take(t as int + 1), key);
            }
            if self.keys[t] < key {
                count += 1;
            }
            if self.keys[t] == key {
                found = true;
            }
            t += 1;
        }
        proof {
            assert(self.keys@.take(n as int) =~= self.keys@);
        }
        if found {
            Some(count)
        } else {
            None
        }
    }

    /// Sort the payloads of `values` stably by the ranks of their keys,
    /// which all must be present in the index.
    pub fn reorder<T>(&self, values: Vec<(u64, T)>) -> (r: Vec<T>)
        requires
            forall|i: int|
                0 <= i < values@.len() ==> self.key_seq().contains(#[trigger] values@[i].0),
        ensures
            exists|ord: Seq<usize>|
                is_arg_sort_of(ord, rank_seq(self.key_seq(), values@)) && r@ == gathered(
                    values_of(values@),
                    ord,
                ),
    {
        let ghost entries = values@;
        let n = values.len();
        let mut values = values;
        let mut ranks: Vec<u64> = Vec::new();
        let mut vals: Vec<T> = Vec::new();
        let mut t: usize = 0;
        while t < n
            invariant
                t <= n,
                n == entries.len(),
                values@ == entries.skip(t as int),
                ranks@ =~= rank_seq(self.key_seq(), entries.take(t as int)),
                vals@ =~= values_of(entries.take(t as int)),
                forall|i: int|
                    0 <= i < entries.len() ==> self.key_seq().contains(#[trigger] entries[i].0),
            decreases n - t,
        {
            let (k, v) = values.remove(0);
            proof {
                assert(entries.skip(t as int).remove(0) =~= entries.skip(t as int + 1));
                assert(entries.skip(t as int)[0] == entries[t as int]);
                assert(k == entries[t as int].0);
                assert(self.key_seq().contains(k));
                lemma_count_lt_le_len(self.key_seq(), k);
                vstd::std_specs::vec::axiom_spec_len(&self.keys);
            }
            let rank = match self.get(k) {
                Some(rank) => rank,
                None => 0,
            };
            proof {
                assert(rank == count_lt(self.key_seq(), k) as usize);
                assert(rank as u64 == count_lt(self.key_seq(), k) as u64);
            }
            ranks.push(rank as u64);
            vals.push(v);
            proof {
                assert(ranks@ =~= rank_seq(self.key_seq(), entries.take(t as int + 1)));
                assert(vals@ =~= values_of(entries.take(t as int + 1)));
            }
            t += 1;
        }
        proof {
            assert(entries.take(n as int) =~= entries);
        }
        let ord = arg_sort(&ranks);
        let ghost vals0 = vals@;
        apply_order(&mut vals, &ord);
        proof {
            assert(ranks@ == rank_seq(self.key_seq(), entries));
            assert(is_arg_sort_of(ord@, rank_seq(self.key_seq(), entries)) && vals@ == gathered(
                values_of(entries),
                ord@,
            ));
        }
        vals
    }
}

/// Build a rank index from a key sequence.
pub fn order_map(keys: &Vec<u64>) -> (r: OrderMap)
    ensures
        r.key_seq() == keys@,
{
    OrderMap::new(keys)
}

} // verus!
