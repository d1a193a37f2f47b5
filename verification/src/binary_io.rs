//! Big-endian byte codecs: fixed-width unsigned and signed integers read
//! from and written to byte strings, and length-prefixed framing of byte
//! payloads.  The stream-facing read/write halves live with the caller;
//! everything here is pure computation on bytes.

use vstd::arithmetic::div_mod::{lemma_div_denominator, lemma_fundamental_div_mod};
use vstd::prelude::*;

verus! {

/// The big-endian value of a byte string.
pub open spec fn be_value(s: Seq<u8>) -> nat
    decreases s.len(),
{
    if s.len() == 0 {
        0
    } else {
        be_value(s.drop_last()) * 256 + s.last() as nat
    }
}

/// `256^n`, the number of values `n` bytes can carry.
pub open spec fn pow256(n: nat) -> nat
    decreases n,
{
    if n == 0 {
        1
    } else {
        256 * pow256((n - 1) as nat)
    }
}

/// A byte string's value is below `256^length`.
proof fn lemma_be_value_bound(s: Seq<u8>)
    ensures
        be_value(s) < pow256(s.len()),
    decreases s.len(),
{
    if s.len() > 0 {
        lemma_be_value_bound(s.drop_last());
    }
}

/// `pow256` is monotone.
proof fn lemma_pow256_mono(a: nat, b: nat)
    requires
        a <= b,
    ensures
        pow256(a) <= pow256(b),
    decreases b,
{
    if a < b {
        lemma_pow256_mono(a, (b - 1) as nat);
    }
}

/// The concrete powers of 256 up to eight bytes.
proof fn lemma_pow256_values()
    ensures
        pow256(0) == 1,
        pow256(1) == 0x100,
        pow256(2) == 0x10000,
        pow256(3) == 0x1000000,
        pow256(4) == 0x100000000,
        pow256(5) == 0x10000000000,
        pow256(6) == 0x1000000000000,
        pow256(7) == 0x100000000000000,
        pow256(8) == 0x10000000000000000,
{
    assert(pow256(0) == 1);
    assert(pow256(1) == 0x100);
    assert(pow256(2) == 0x10000);
    assert(pow256(3) == 0x1000000);
    assert(pow256(4) == 0x100000000);
    assert(pow256(5) == 0x10000000000);
    assert(pow256(6) == 0x1000000000000);
    assert(pow256(7) == 0x100000000000000);
    assert(pow256(8) == 0x10000000000000000);
}

/// Appending the next lower byte extends a big-endian quotient by one step:
/// the high `m+1`-byte quotient times 256 plus byte `m` is the `m`-byte
/// quotient.
proof fn lemma_be_quotient_step(v: nat, m: nat)
    ensures
        (v / pow256(m + 1)) * 256 + (v / pow256(m)) % 256 == v / pow256(m),
{
    let d = pow256(m);
    assert(pow256(m + 1) == 256 * d);
    assert(d > 0) by {
        lemma_pow256_mono(0, m);
    }
    lemma_div_denominator(v as int, d as int, 256);
    assert(v as int / (d as int * 256) == (v as int / d as int) / 256);
    assert(d as int * 256 == 256 * d);
    lemma_fundamental_div_mod(v as int / d as int, 256);
}

/// Read the big-endian value of up to eight bytes.
fn read_be(slice: &[u8]) -> (r: u64)
    requires
        slice@.len() <= 8,
    ensures
        r == be_value(slice@),
{
    let n = slice.len();
    let mut acc: u64 = 0;
    let mut t: usize = 0;
    while t < n
        invariant
            t <= n,
            n == slice@.len(),
            n <= 8,
            acc == be_value(slice@.take(t as int)),
        decreases n - t,
    {
        proof {
            lemma_be_value_bound(slice@.take(t as int));
            lemma_pow256_mono(t as nat, 7);
            lemma_pow256_values();
            assert(slice@.take(t as int + 1).drop_last() =~= slice@.take(t as int));
            assert(slice@.take(t as int + 1).last() == slice@[t as int]);
        }
        acc = acc * 256 + (slice[t] as u64);
        t += 1;
    }
    proof {
        assert(slice@.take(n as int) =~= slice@);
    }
    acc
}

/// Write `value` as `n` big-endian bytes.
fn write_be(value: u64, n: usize) -> (r: Vec<u8>)
    requires
        n <= 8,
        value < pow256(n as nat),
    ensures
        r@.len() == n,
        be_value(r@) == value,
{
    proof {
        lemma_pow256_values();
    }
    // divisor for the most significant byte: 256^(n-1)
    let mut d: u64 = 1;
    let mut k: usize = 0;
    while k + 1 < n
        invariant
            n <= 8,
            k < 8,
            n > 0 ==> k + 1 <= n,
            d == pow256(k as nat),
        decreases n - k,
    {
        proof {
            lemma_pow256_mono(k as nat + 1, 7);
            lemma_pow256_values();
        }
        d = d * 256;
        k += 1;
    }
    proof {
        lemma_pow256_mono(0, n as nat);
        vstd::arithmetic::div_mod::lemma_basic_div(value as int, pow256(n as nat) as int);
    }
    let mut out: Vec<u8> = Vec::new();
    let mut t: usize = 0;
    while t < n
        invariant
            t <= n,
            n <= 8,
            value < pow256(n as nat),
            out@.len() == t,
            t < n ==> d == pow256((n - 1 - t) as nat),
            t < n ==> d > 0,
            be_value(out@) == value as nat / pow256((n - t) as nat),
        decreases n - t,
    {
        proof {
            lemma_pow256_mono(0, (n - 1 - t) as nat);
            lemma_be_quotient_step(value as nat, (n - 1 - t) as nat);
            lemma_pow256_values();
            lemma_pow256_mono((n - t) as nat, 8);
        }
        let byte = ((value / d) % 256) as u8;
        let ghost out_before = out@;
        out.push(byte);
        proof {
            assert(out@.drop_last() =~= out_before);
        }
        if t + 1 < n {
            proof {
                assert(pow256((n - 1 - t) as nat) == 256 * pow256((n - 2 - t) as nat));
            }
            d = d / 256;
            proof {
                vstd::arithmetic::div_mod::lemma_div_multiples_vanish(
                    pow256((n - 2 - t) as nat) as int,
                    256,
                );
            }
        }
        t += 1;
    }
    proof {
        assert(pow256(0) == 1);
        vstd::arithmetic::div_mod::lemma_div_basics(value as int);
    }
    out
}

/// The big-endian `u16` held in a 2-byte string.
pub fn read_be_u16(slice: &[u8]) -> (r: u16)
    requires
        slice@.len() == 2,
    ensures
        r == be_value(slice@),
{
    let v = read_be(slice);
    proof {
        lemma_be_value_bound(slice@);
        lemma_pow256_values();
    }
    v as u16
}

/// The big-endian `u32` held in a 4-byte string.
pub fn read_be_u32(slice: &[u8]) -> (r: u32)
    requires
        slice@.len() == 4,
    ensures
        r == be_value(slice@),
{
    let v = read_be(slice);
    proof {
        lemma_be_value_bound(slice@);
        lemma_pow256_values();
    }
    v as u32
}

/// The big-endian `u64` held in an 8-byte string.
pub fn read_be_u64(slice: &[u8]) -> (r: u64)
    requires
        slice@.len() == 8,
    ensures
        r == be_value(slice@),
{
    read_be(slice)
}

/// The big-endian `i64` held in an 8-byte string: the eight bytes read as a
/// `u64`, reinterpreted in two's complement.
pub fn read_be_i64(slice: &[u8]) -> (r: i64)
    requires
        slice@.len() == 8,
    ensures
        r == (be_value(slice@) as u64) as i64,
{
    let v = read_be(slice);
    proof {
        lemma_be_value_bound(slice@);
        lemma_pow256_values();
    }
    #[verifier::truncate] (v as i64)
}

/// The two big-endian bytes of a `u16`.
pub fn be_bytes_u16(value: u16) -> (r: Vec<u8>)
    ensures
        r@.len() == 2,
        be_value(r@) == value,
{
    proof {
        lemma_pow256_values();
    }
    write_be(value as u64, 2)
}

/// The four big-endian bytes of a `u32`.
pub fn be_bytes_u32(value: u32) -> (r: Vec<u8>)
    ensures
        r@.len() == 4,
        be_value(r@) == value,
{
    proof {
        lemma_pow256_values();
    }
    write_be(value as u64, 4)
}

/// The eight big-endian bytes of a `u64`.
pub fn be_bytes_u64(value: u64) -> (r: Vec<u8>)
    ensures
        r@.len() == 8,
        be_value(r@) == value,
{
    proof {
        lemma_pow256_values();
        lemma_be_value_bound(Seq::<u8>::empty());
    }
    write_be(value, 8)
}

/// The eight big-endian bytes of an `i64`, in two's complement.
pub fn be_bytes_i64(value: i64) -> (r: Vec<u8>)
    ensures
        r@.len() == 8,
        be_value(r@) == value as u64,
{
    proof {
        lemma_pow256_values();
    }
    write_be(#[verifier::truncate] (value as u64), 8)
}

/// Frame `payload` behind a two-byte big-endian length prefix; `None`
/// exactly when the payload is too long for the prefix.
pub fn frame_len16(payload: &Vec<u8>) -> (r: Option<Vec<u8>>)
    ensures
        match r {
            Some(v) => {
                &&& payload@.len() <= 0xffff
                &&& v@.len() == 2 + payload@.len()
                &&& be_value(v@.take(2)) == payload@.len()
                &&& v@.skip(2) == payload@
            },
            None => payload@.len() > 0xffff,
        },
{
    if payload.len() > 0xffff {
        return None;
    }
    let mut out = be_bytes_u16(payload.len() as u16);
    let ghost prefix = out@;
    let mut t: usize = 0;
    while t < payload.len()
        invariant
            t <= payload@.len(),
            prefix.len() == 2,
            out@ == prefix + payload@.take(t as int),
        decreases payload@.len() - t,
    {
        out.push(payload[t]);
        proof {
            assert(out@ =~= prefix + payload@.take(t as int + 1));
        }
        t += 1;
    }
    proof {
        assert(payload@.take(payload@.len() as int) =~= payload@);
        assert(out@.take(2) =~= prefix);
        assert(out@.skip(2) =~= payload@);
    }
    Some(out)
}

/// Frame `payload` behind a four-byte big-endian length prefix; `None`
/// exactly when the payload is too long for the prefix.
pub fn frame_len32(payload: &Vec<u8>) -> (r: Option<Vec<u8>>)
    ensures
        match r {
            Some(v) => {
                &&& payload@.len() <= 0xffff_ffff
                &&& v@.len() == 4 + payload@.len()
                &&& be_value(v@.take(4)) == payload@.len()
                &&& v@.skip(4) == payload@
            },
            None => payload@.len() > 0xffff_ffff,
        },
{
    if payload.len() > 0xffff_ffff {
        return None;
    }
    let mut out = be_bytes_u32(payload.len() as u32);
    let ghost prefix = out@;
    let mut t: usize = 0;
    while t < payload.len()
        invariant
            t <= payload@.len(),
            prefix.len() == 4,
            out@ == prefix + payload@.take(t as int),
        decreases payload@.len() - t,
    {
        out.push(payload[t]);
        proof {
            assert(out@ =~= prefix + payload@.take(t as int + 1));
        }
        t += 1;
    }
    proof {
        assert(payload@.take(payload@.len() as int) =~= payload@);
        assert(out@.take(4) =~= prefix);
        assert(out@.skip(4) =~= payload@);
    }
    Some(out)
}

/// Split a two-byte-length-prefixed frame off the front of `data`: the
/// payload and the number of bytes consumed.  `None` exactly when `data`
/// is too short for the prefix or for the length the prefix announces.
pub fn parse_len16(data: &Vec<u8>) -> (r: Option<(Vec<u8>, usize)>)
    ensures
        match r {
            Some(p) => {
                &&& data@.len() >= 2
                &&& 2 + be_value(data@.take(2)) <= data@.len()
                &&& p.1 == 2 + be_value(data@.take(2))
                &&& p.0@ == data@.subrange(2, p.1 as int)
            },
            None => data@.len() < 2 || data@.len() < 2 + be_value(data@.take(2)),
        },
{
    if data.len() < 2 {
        return None;
    }
    let prefix: &[u8] = &data.as_slice()[0..2];
    proof {
        assert(prefix@ =~= data@.take(2));
    }
    let n = read_be_u16(prefix) as usize;
    let total = data.len();
    if total - 2 < n {
        return None;
    }
    let mut body: Vec<u8> = Vec::new();
    let mut t: usize = 0;
    while t < n
        invariant
            t <= n,
            total == data@.len(),
            n + 2 <= total,
            body@ == data@.subrange(2, 2 + t as int),
        decreases n - t,
    {
        body.push(data[2 + t]);
        proof {
            assert(body@ =~= data@.subrange(2, 2 + t as int + 1));
        }
        t += 1;
    }
    Some((body, 2 + n))
}

/// Split a four-byte-length-prefixed frame off the front of `data`: the
/// payload and the number of bytes consumed.  `None` exactly when `data`
/// is too short for the prefix or for the length the prefix announces.
pub fn parse_len32(data: &Vec<u8>) -> (r: Option<(Vec<u8>, usize)>)
    ensures
        match r {
            Some(p) => {
                &&& data@.len() >= 4
                &&& 4 + be_value(data@.take(4)) <= data@.len()
                &&& p.1 == 4 + be_value(data@.take(4))
                &&& p.0@ == data@.subrange(4, p.1 as int)
            },
            None => data@.len() < 4 || data@.len() < 4 + be_value(data@.take(4)),
        },
{
    if data.len() < 4 {
        return None;
    }
    let prefix: &[u8] = &data.as_slice()[0..4];
    proof {
        assert(prefix@ =~= data@.take(4));
    }
    let announced = read_be_u32(prefix);
    proof {
        lemma_pow256_values();
    }
    if announced as u64 > (data.len() - 4) as u64 {
        return None;
    }

    let n = announced as usize;
    let total = data.len();
    let mut body: Vec<u8> = Vec::new();
    let mut t: usize = 0;
    while t < n
        invariant
            t <= n,
            total == data@.len(),
            n + 4 <= total,
            body@ == data@.subrange(4, 4 + t as int),
        decreases n - t,
    {
        body.push(data[4 + t]);
        proof {
            assert(body@ =~= data@.subrange(4, 4 + t as int + 1));
        }
        t += 1;
    }
    Some((body, 4 + n))
}

} // verus!
