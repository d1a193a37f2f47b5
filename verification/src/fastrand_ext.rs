//! Inserting a value into a map under a randomly drawn fresh key.  The
//! draw itself comes from the `fastrand` crate; everything decided about
//! the draw's outcome is verified here.

use std::collections::HashMap;
use vstd::prelude::*;

verus! {

broadcast use vstd::std_specs::hash::group_hash_axioms;

/// Relies on fastrand::u64: a draw from the given range, of which nothing
/// is assumed beyond lying below the exclusive upper bound.
#[verifier::external_body]
fn random_u64_below(limit: u64) -> (r: u64)
    requires
        limit > 0,
    ensures
        r < limit,
{
    fastrand::u64(0..limit)
}

/// Insert `value` under `key` only when `key` is still free; otherwise
/// leave the map untouched and hand the value back.
pub fn insert_fresh<V>(m: &mut HashMap<u64, V>, key: u64, value: V) -> (r: Option<V>)
    ensures
        !old(m)@.contains_key(key) ==> final(m)@ == old(m)@.insert(key, value) && r is None,
        old(m)@.contains_key(key) ==> final(m)@ == old(m)@ && r == Some(value),
{
    if m.contains_key(&key) {
        Some(value)
    } else {
        m.insert(key, value);
        None
    }
}

/// Draw a random key and insert `value` under it when the draw came out
/// fresh; `Err` hands the value back untouched and the caller draws again.
pub fn insert_randomized<V>(m: &mut HashMap<u64, V>, value: V) -> (r: Result<u64, V>)
    ensures
        match r {
            Ok(key) => key < u64::MAX && !old(m)@.contains_key(key) && final(m)@ == old(
                m,
            )@.insert(key, value),
            Err(v) => v == value && final(m)@ == old(m)@,
        },
{
    let key = random_u64_below(u64::MAX);
    match insert_fresh(m, key, value) {
        None => Ok(key),
        Some(v) => Err(v),
    }
}

} // verus!
