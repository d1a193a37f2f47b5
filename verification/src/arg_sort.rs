//! Stable argsort and in-place permutation application.
//!
//! `arg_sort` produces the permutation of indices that lists a key sequence
//! in non-decreasing order, ties kept in their original relative order;
//! `apply_order` rearranges a value vector so that slot `i` receives the
//! element that sat at `order[i]`.

use vstd::prelude::*;

verus! {

/// `ord` lists each index `0 .. n` exactly once.
pub open spec fn is_permutation(ord: Seq<usize>, n: nat) -> bool {
    &&& ord.len() == n
    &&& forall|i: int| 0 <= i < ord.len() ==> (#[trigger] ord[i]) < n
    &&& forall|i: int, j: int| 0 <= i < j < ord.len() ==> ord[i] != ord[j]
}

/// Strict "sorts before" order on positions of `keys`: the smaller key
/// first, equal keys in position order (this is what makes a sort stable).
pub open spec fn sorts_before(keys: Seq<u64>, a: int, b: int) -> bool {
    keys[a] < keys[b] || (keys[a] == keys[b] && a < b)
}

/// `ord` is the stable argsort of `keys`: a permutation of the key
/// positions listing them in strictly increasing (key, position) order.
pub open spec fn is_arg_sort_of(ord: Seq<usize>, keys: Seq<u64>) -> bool {
    &&& is_permutation(ord, keys.len())
    &&& forall|i: int, j: int|
            0 <= i < j < ord.len() ==> sorts_before(
                keys,
                #[trigger] ord[i] as int,
                #[trigger] ord[j] as int,
            )
}

/// The sequence gathered from `values` along `ord`: element `i` of the
/// result is `values[ord[i]]`.
pub open spec fn gathered<T>(values: Seq<T>, ord: Seq<usize>) -> Seq<T> {
    Seq::new(ord.len(), |i: int| values[ord[i] as int])
}

/// Some position before `k` in `ord` already names slot `t`.
spec fn used_by(ord: Seq<usize>, k: int, t: int) -> bool {
    exists|i: int| 0 <= i < k && ord[i] == t
}

/// The stable argsort of `keys`, by insertion sort on an index vector.
pub fn arg_sort(keys: &Vec<u64>) -> (r: Vec<usize>)
    ensures
        is_arg_sort_of(r@, keys@),
{
    let n = keys.len();
    let mut idx: Vec<usize> = Vec::new();
    while idx.len() < n
        invariant
            idx@.len() <= n,
            forall|t: int| 0 <= t < idx@.len() ==> (#[trigger] idx@[t]) as int == t,
        decreases n - idx@.len(),
    {
        idx.push(idx.len());
    }
    if n <= 1 {
        return idx;
    }
    let mut i: usize = 1;
    while i < n
        invariant
            1 <= i <= n,
            n == keys@.len(),
            idx@.len() == n,
            is_permutation(idx@, n as nat),
            forall|a: int, b: int|
                0 <= a < b < i ==> sorts_before(keys@, idx@[a] as int, idx@[b] as int),
            forall|t: int| 0 <= t < i ==> ((#[trigger] idx@[t]) as int) < i,
            forall|t: int| i <= t < n ==> (#[trigger] idx@[t]) as int == t,
        decreases n - i,
    {
        let mut j: usize = i;
        while j > 0 && keys[idx[j - 1]] > keys[idx[j]]
            invariant
                0 <= j <= i < n,
                n == keys@.len(),
                idx@.len() == n,
                is_permutation(idx@, n as nat),
                idx@[j as int] as int == i,
                forall|t: int| 0 <= t <= i && t != j ==> ((#[trigger] idx@[t]) as int) < i,
                forall|t: int| i + 1 <= t < n ==> (#[trigger] idx@[t]) as int == t,
                forall|a: int, b: int|
                    0 <= a < b <= i && a != j && b != j ==> sorts_before(
                        keys@,
                        idx@[a] as int,
                        idx@[b] as int,
                    ),
                forall|b: int|
                    j < b <= i ==> sorts_before(keys@, idx@[j as int] as int, idx@[b] as int),
            decreases j,
        {
            let hi = idx[j - 1];
            let lo = idx[j];
            idx.set(j - 1, lo);
            idx.set(j, hi);
            j = j - 1;
        }
        proof {
            // At the stop point the moving index `i` sorts after its left
            // neighbour: either its key is strictly larger, or the keys tie
            // and the neighbour is an older (smaller) index.
            assert forall|a: int, b: int| 0 <= a < b <= i implies sorts_before(
                keys@,
                idx@[a] as int,
                idx@[b] as int,
            ) by {
                if b == j as int && j > 0 {
                    assert(sorts_before(keys@, idx@[j - 1] as int, idx@[j as int] as int));
                    if a < j - 1 {
                        assert(sorts_before(keys@, idx@[a] as int, idx@[j - 1] as int));
                    }
                }
            }
        }
        i = i + 1;
    }
    idx
}

/// Rearrange `values` in place so that slot `i` ends up holding the element
/// that sat at `order[i]`.
pub fn apply_order<T>(values: &mut Vec<T>, order: &Vec<usize>)
    requires
        is_permutation(order@, old(values)@.len() as nat),
    ensures
        final(values)@ == gathered(old(values)@, order@),
{
    let n = order.len();
    let mut slots: Vec<Option<T>> = Vec::new();
    while values.len() > 0
        invariant
            slots@.len() + values@.len() == n,
            n == old(values)@.len(),
            forall|t: int| 0 <= t < slots@.len() ==> slots@[t] == Some(old(values)@[t]),
            values@ == old(values)@.skip(slots@.len() as int),
        decreases values@.len(),
    {
        let x = values.remove(0);
        proof {
            assert(old(values)@.skip(slots@.len() as int).remove(0) =~= old(values)@.skip(
                slots@.len() as int + 1,
            ));
        }
        slots.push(Some(x));
    }
    let mut k: usize = 0;
    while k < n
        invariant
            k <= n,
            n == order@.len(),
            n == old(values)@.len(),
            slots@.len() == n,
            values@.len() == k,
            is_permutation(order@, n as nat),
            forall|i: int| 0 <= i < k ==> values@[i] == old(values)@[order@[i] as int],
            forall|t: int|
                0 <= t < n && !used_by(order@, k as int, t) ==> slots@[t] == Some(
                    old(values)@[t],
                ),
        decreases n - k,
    {
        let j = order[k];
        proof {
            assert(!used_by(order@, k as int, j as int));
        }
        let ghost slots_before = slots@;
        let x = slots.remove(j);
        slots.insert(j, None);
        proof {
            assert(slots@ =~= slots_before.update(j as int, None));
            assert forall|t: int|
                0 <= t < n && !used_by(order@, k as int + 1, t) implies slots@[t] == Some(
                old(values)@[t],
            ) by {
                if t == j as int {
                    assert(order@[k as int] == t);
                    assert(used_by(order@, k as int + 1, t));
                }
                if used_by(order@, k as int, t) {
                    let w = choose|w: int| 0 <= w < k as int && order@[w] == t;
                    assert(0 <= w < k as int + 1 && order@[w] == t);
                    assert(used_by(order@, k as int + 1, t));
                }
            }
        }
        values.push(x.unwrap());
        k += 1;
    }
    proof {
        assert(values@ =~= gathered(old(values)@, order@));
    }
}

/// Law: gathering the keys along their own argsort yields a non-decreasing
/// sequence, so `order_with` really sorts its payloads by their keys.
pub proof fn lemma_arg_sort_sorts(keys: Seq<u64>, ord: Seq<usize>)
    requires
        is_arg_sort_of(ord, keys),
    ensures
        forall|i: int, j: int|
            0 <= i <= j < keys.len() ==> gathered(keys, ord)[i] <= gathered(keys, ord)[j],
{
}

/// A permutation of `0 .. n` mentions every index below `n`.
proof fn lemma_permutation_onto(s: Seq<usize>, n: nat, v: usize)
    requires
        is_permutation(s, n),
        v < n,
    ensures
        s.contains(v),
{
    broadcast use vstd::set::group_set_axioms;

    let si = Seq::new(s.len(), |i: int| s[i] as int);
    assert(si.no_duplicates());
    si.unique_seq_to_set();
    let u = vstd::set_lib::set_int_range(0, n as int);
    vstd::set_lib::lemma_int_range(0, n as int);
    assert(si.to_set().subset_of(u)) by {
        assert forall|x: int| si.to_set().contains(x) implies u.contains(x) by {
            let w = choose|w: int| 0 <= w < si.len() && si[w] == x;
            assert(s[w] < n);
        }
    }
    if !si.to_set().contains(v as int) {
        si.to_set().lemma_subset_not_in_lt(u, v as int);
        assert(false);
    }
    let w = choose|w: int| 0 <= w < si.len() && si[w] == v as int;
    assert(s[w] == v);
}

/// Two permutations of `0 .. n` carry the same indices, each exactly once.
proof fn lemma_permutation_multiset(a: Seq<usize>, b: Seq<usize>, n: nat)
    requires
        is_permutation(a, n),
        is_permutation(b, n),
    ensures
        a.to_multiset() == b.to_multiset(),
{
    broadcast use vstd::seq_lib::group_to_multiset_ensures;

    a.lemma_multiset_has_no_duplicates();
    b.lemma_multiset_has_no_duplicates();
    assert forall|x: usize| a.to_multiset().count(x) == b.to_multiset().count(x) by {
        if x < n {
            lemma_permutation_onto(a, n, x);
            lemma_permutation_onto(b, n, x);
            assert(a.to_multiset().count(x) == 1);
            assert(b.to_multiset().count(x) == 1);
        } else {
            assert(!a.contains(x)) by {
                if a.contains(x) {
                    let w = choose|w: int| 0 <= w < a.len() && a[w] == x;
                }
            }
            assert(!b.contains(x)) by {
                if b.contains(x) {
                    let w = choose|w: int| 0 <= w < b.len() && b[w] == x;
                }
            }
            assert(a.to_multiset().count(x) == 0);
            assert(b.to_multiset().count(x) == 0);
        }
    }
    assert(a.to_multiset() =~= b.to_multiset());
}

/// Law: the stable argsort of a key sequence is unique, so a contract
/// stated through `is_arg_sort_of` pins exactly one permutation.
pub proof fn lemma_arg_sort_unique(keys: Seq<u64>, a: Seq<usize>, b: Seq<usize>)
    requires
        is_arg_sort_of(a, keys),
        is_arg_sort_of(b, keys),
    ensures
        a == b,
{
    let leq = |p: usize, q: usize| p == q || sorts_before(keys, p as int, q as int);
    assert(vstd::relations::total_ordering(leq)) by {
        assert forall|x: usize| #[trigger] leq(x, x) by {}
        assert forall|x: usize, y: usize| #[trigger] leq(x, y) && #[trigger] leq(y, x) implies x
            == y by {}
        assert forall|x: usize, y: usize, z: usize|
            #[trigger] leq(x, y) && #[trigger] leq(y, z) implies leq(x, z) by {}
        assert forall|x: usize, y: usize| #[trigger] leq(x, y) || #[trigger] leq(y, x) by {}
    }
    assert(vstd::relations::sorted_by(a, leq)) by {
        assert forall|i: int, j: int| 0 <= i < j < a.len() implies #[trigger] leq(a[i], a[j]) by {
            assert(sorts_before(keys, a[i] as int, a[j] as int));
        }
    }
    assert(vstd::relations::sorted_by(b, leq)) by {
        assert forall|i: int, j: int| 0 <= i < j < b.len() implies #[trigger] leq(b[i], b[j]) by {
            assert(sorts_before(keys, b[i] as int, b[j] as int));
        }
    }
    lemma_permutation_multiset(a, b, keys.len());
    vstd::seq_lib::lemma_sorted_unique(a, b, leq);
    assert(a =~= b);
}

} // verus!
