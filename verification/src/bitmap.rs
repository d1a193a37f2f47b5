//! A packed, fixed-length bit vector stored in 128-bit words.
//!
//! The length is fixed at construction.  Bit `i` lives in word `i / 128`,
//! at position `i % 128` (least-significant bit first).  When the length is
//! not a multiple of 128, the bit positions of the last word at or beyond
//! `len % 128` are *padding bits*: they are never observable through `get`,
//! and every operation keeps them all equal to one common value, so that
//! `filled` (a word-level comparison against all-ones words) stays accurate.

use vstd::arithmetic::div_mod::{
    lemma_fundamental_div_mod, lemma_fundamental_div_mod_converse_div,
    lemma_fundamental_div_mod_converse_mod, lemma_mod_division_less_than_divisor,
};
use vstd::prelude::*;

verus! {

/// Number of 128-bit words needed to hold `len` bits.
pub open spec fn word_count(len: nat) -> nat {
    if len % 128 == 0 {
        len / 128
    } else {
        len / 128 + 1
    }
}

/// Bit `b` of word `w`, least-significant bit first.
pub open spec fn bit_of(w: u128, b: u128) -> bool {
    (w >> b) & 1 == 1
}

/// Pointwise conjunction of two equal-length bit sequences.
pub open spec fn and_bits(a: Seq<bool>, b: Seq<bool>) -> Seq<bool> {
    Seq::new(a.len(), |i: int| a[i] && b[i])
}

/// Pointwise disjunction of two equal-length bit sequences.
pub open spec fn or_bits(a: Seq<bool>, b: Seq<bool>) -> Seq<bool> {
    Seq::new(a.len(), |i: int| a[i] || b[i])
}

/// Pointwise complement of a bit sequence.
pub open spec fn not_bits(a: Seq<bool>) -> Seq<bool> {
    Seq::new(a.len(), |i: int| !a[i])
}

/// Whether a bitmap whose observable bits are `bits` and whose padding bits
/// all equal `pad` consists entirely of all-ones words.
pub open spec fn filled_spec(bits: Seq<bool>, pad: bool) -> bool {
    pad && forall|i: int| 0 <= i < bits.len() ==> bits[i]
}

/// A packed, fixed-length bit vector over 128-bit words.
pub struct Bitmap {
    data: Vec<u128>,
    len: usize,
}

impl View for Bitmap {
    type V = Seq<bool>;

    closed spec fn view(&self) -> Seq<bool> {
        Seq::new(self.len as nat, |i: int| bit_of(self.data@[i / 128], (i % 128) as u128))
    }
}

impl Bitmap {
    /// Structural invariant: the word vector has exactly the required number
    /// of words, and all padding bits agree on the one value `pad()`.
    pub closed spec fn wf(&self) -> bool {
        &&& self.data@.len() == word_count(self.len as nat)
        &&& forall|q: int, b: u128|
                0 <= q < self.data@.len() && b < 128 && q * 128 + b >= self.len
                    ==> (#[trigger] bit_of(self.data@[q], b)) == self.pad()
    }

    /// The common value of the padding bits of the last word; `true` when the
    /// length is a multiple of the word size (there are no padding bits).
    pub closed spec fn pad(&self) -> bool {
        if self.len as int % 128 == 0 {
            true
        } else {
            bit_of(self.data@[self.data@.len() - 1], (self.len as int % 128) as u128)
        }
    }

    /// A fresh bitmap of `len` bits, all zero.  Padding bits start out all
    /// ones, so that setting every observable bit makes `filled` true.
    pub fn new(len: usize) -> (r: Self)
        ensures
            r.wf(),
            r@.len() == len,
            forall|i: int| 0 <= i < len ==> !r@[i],
            r.pad(),
    {
        let words = if len % 128 == 0 {
            len / 128
        } else {
            len / 128 + 1
        };
        let mut data: Vec<u128> = Vec::new();
        while data.len() < words
            invariant
                data@.len() <= words,
                forall|q: int| 0 <= q < data@.len() ==> data@[q] == 0u128,
            decreases words - data@.len(),
        {
            data.push(0u128);
        }
        if len % 128 != 0 {
            let s = len % 128;
            let w: u128 = !0u128 << s;
            data.set(words - 1, w);
        }
        let r = Bitmap { data, len };
        proof {
            lemma_bitmap_new_shape(r);
        }
        r
    }

    /// A fresh bitmap of `len` bits, all one; padding bits are all ones too,
    /// so the result consists of all-ones words.
    pub fn new_filled(len: usize) -> (r: Self)
        ensures
            r.wf(),
            r@.len() == len,
            forall|i: int| 0 <= i < len ==> r@[i],
            r.pad(),
    {
        let words = if len % 128 == 0 {
            len / 128
        } else {
            len / 128 + 1
        };
        let mut data: Vec<u128> = Vec::new();
        while data.len() < words
            invariant
                data@.len() <= words,
                forall|q: int| 0 <= q < data@.len() ==> data@[q] == !0u128,
            decreases words - data@.len(),
        {
            data.push(!0u128);
        }
        let r = Bitmap { data, len };
        proof {
            assert forall|q: int, b: u128|
                0 <= q < r.data@.len() && b < 128 && q * 128 + b >= r.len implies (
            #[trigger] bit_of(r.data@[q], b)) == r.pad() by {
                lemma_bit_ones(b);
                lemma_pad_of_all_ones(r);
            }
            assert(r.wf());
            assert forall|i: int| 0 <= i < r@.len() implies r@[i] by {
                lemma_word_index(r.len as nat, i);
                lemma_bit_ones((i % 128) as u128);
            }
            lemma_pad_of_all_ones(r);
        }
        r
    }

    /// Write bit `index`; every other bit, and the padding, is unchanged.
    pub fn set(&mut self, index: usize, value: bool)
        requires
            old(self).wf(),
            index < old(self)@.len(),
        ensures
            final(self).wf(),
            final(self)@ == old(self)@.update(index as int, value),
            final(self).pad() == old(self).pad(),
    {
        proof {
            lemma_word_index(self.len as nat, index as int);
        }
        let q = index / 128;
        let b = index % 128;
        let w_old = self.data[q];
        let w_new = if value {
            w_old | (1u128 << b)
        } else {
            w_old & !(1u128 << b)
        };
        self.data.set(q, w_new);
        proof {
            let len = self.len as int;
            let qi = index as int / 128;
            let bi = (index as int % 128) as u128;
            assert forall|b2: u128| b2 < 128 implies #[trigger] bit_of(self.data@[qi], b2) == (
            if b2 == bi {
                value
            } else {
                bit_of(old(self).data@[qi], b2)
            }) by {
                lemma_bit_write(w_old, bi, value, b2);
            }
            assert forall|i: int| 0 <= i < len implies #[trigger] self@[i] == old(self)@.update(
                index as int,
                value,
            )[i] by {
                lemma_word_index(self.len as nat, i);
                if i / 128 != qi {
                    assert(self.data@[i / 128] == old(self).data@[i / 128]);
                } else {
                    assert(i == index as int <==> (i % 128) as u128 == bi);
                }
            }
            assert(self@ =~= old(self)@.update(index as int, value));
            // Padding bits live past `len`, and `index` is below it, so no
            // padding bit and in particular not the one defining `pad()` moved.
            assert forall|q2: int, b2: u128|
                0 <= q2 < self.data@.len() && b2 < 128 && q2 * 128 + b2 >= self.len implies (
            #[trigger] bit_of(self.data@[q2], b2)) == old(self).pad() by {
                if q2 == qi {
                    assert(qi * 128 + bi < len);
                    assert(b2 != bi);
                }
            }
            if len % 128 != 0 {
                let s = (len % 128) as u128;
                let last = self.data@.len() - 1;
                assert(last * 128 + s >= len);
                assert(bit_of(self.data@[last], s) == old(self).pad());
            }
            assert(self.pad() == old(self).pad());
            assert(self.wf());
        }
    }

    /// Word-wise conjunction with an equal-length bitmap; both operands are
    /// left untouched.
    pub fn and(&self, other: &Bitmap) -> (r: Bitmap)
        requires
            self.wf(),
            other.wf(),
            self@.len() == other@.len(),
        ensures
            r.wf(),
            r@ == and_bits(self@, other@),
            r.pad() == (self.pad() && other.pad()),
    {
        let n = self.data.len();
        proof {
            assert(other.data@.len() == n);
        }
        let mut data: Vec<u128> = Vec::new();
        while data.len() < n
            invariant
                n == self.data@.len(),
                n == other.data@.len(),
                data@.len() <= n,
                forall|q: int|
                    0 <= q < data@.len() ==> data@[q] == (self.data@[q] & other.data@[q]),
            decreases n - data@.len(),
        {
            let j = data.len();
            data.push(self.data[j] & other.data[j]);
        }
        let r = Bitmap { data, len: self.len };
        proof {
            assert forall|q: int, bb: u128| 0 <= q < r.data@.len() && bb < 128 implies (
            #[trigger] bit_of(r.data@[q], bb)) == (bit_of(self.data@[q], bb) && bit_of(
                other.data@[q],
                bb,
            )) by {
                lemma_bit_and(self.data@[q], other.data@[q], bb);
            }
            lemma_combine_shape(*self, *other, r, |x: bool, y: bool| x && y);
            assert(r@ =~= and_bits(self@, other@));
        }
        r
    }

    /// Word-wise disjunction with an equal-length bitmap; both operands are
    /// left untouched.
    pub fn or(&self, other: &Bitmap) -> (r: Bitmap)
        requires
            self.wf(),
            other.wf(),
            self@.len() == other@.len(),
        ensures
            r.wf(),
            r@ == or_bits(self@, other@),
            r.pad() == (self.pad() || other.pad()),
    {
        let n = self.data.len();
        proof {
            assert(other.data@.len() == n);
        }
        let mut data: Vec<u128> = Vec::new();
        while data.len() < n
            invariant
                n == self.data@.len(),
                n == other.data@.len(),
                data@.len() <= n,
                forall|q: int|
                    0 <= q < data@.len() ==> data@[q] == (self.data@[q] | other.data@[q]),
            decreases n - data@.len(),
        {
            let j = data.len();
            data.push(self.data[j] | other.data[j]);
        }
        let r = Bitmap { data, len: self.len };
        proof {
            assert forall|q: int, bb: u128| 0 <= q < r.data@.len() && bb < 128 implies (
            #[trigger] bit_of(r.data@[q], bb)) == (bit_of(self.data@[q], bb) || bit_of(
                other.data@[q],
                bb,
            )) by {
                lemma_bit_or(self.data@[q], other.data@[q], bb);
            }
            lemma_combine_shape(*self, *other, r, |x: bool, y: bool| x || y);
            assert(r@ =~= or_bits(self@, other@));
        }
        r
    }

    /// Word-wise conjunction applied to `self` in place.
    pub fn in_place_and(&mut self, other: &Bitmap)
        requires
            old(self).wf(),
            other.wf(),
            old(self)@.len() == other@.len(),
        ensures
            final(self).wf(),
            final(self)@ == and_bits(old(self)@, other@),
            final(self).pad() == (old(self).pad() && other.pad()),
    {
        let n = self.data.len();
        proof {
            assert(other.data@.len() == n);
        }
        let mut j: usize = 0;
        while j < n
            invariant
                j <= n,
                n == self.data@.len(),
                n == other.data@.len(),
                self.len == old(self).len,
                forall|q: int|
                    0 <= q < j ==> self.data@[q] == (old(self).data@[q] & other.data@[q]),
                forall|q: int| j <= q < n ==> self.data@[q] == old(self).data@[q],
            decreases n - j,
        {
            let w = self.data[j] & other.data[j];
            self.data.set(j, w);
            j += 1;
        }
        proof {
            assert forall|q: int, bb: u128| 0 <= q < self.data@.len() && bb < 128 implies (
            #[trigger] bit_of(self.data@[q], bb)) == (bit_of(old(self).data@[q], bb) && bit_of(
                other.data@[q],
                bb,
            )) by {
                lemma_bit_and(old(self).data@[q], other.data@[q], bb);
            }
            lemma_combine_shape(*old(self), *other, *self, |x: bool, y: bool| x && y);
            assert(self@ =~= and_bits(old(self)@, other@));
        }
    }

    /// Word-wise disjunction applied to `self` in place.
    pub fn in_place_or(&mut self, other: &Bitmap)
        requires
            old(self).wf(),
            other.wf(),
            old(self)@.len() == other@.len(),
        ensures
            final(self).wf(),
            final(self)@ == or_bits(old(self)@, other@),
            final(self).pad() == (old(self).pad() || other.pad()),
    {
        let n = self.data.len();
        proof {
            assert(other.data@.len() == n);
        }
        let mut j: usize = 0;
        while j < n
            invariant
                j <= n,
                n == self.data@.len(),
                n == other.data@.len(),
                self.len == old(self).len,
                forall|q: int|
                    0 <= q < j ==> self.data@[q] == (old(self).data@[q] | other.data@[q]),
                forall|q: int| j <= q < n ==> self.data@[q] == old(self).data@[q],
            decreases n - j,
        {
            let w = self.data[j] | other.data[j];
            self.data.set(j, w);
            j += 1;
        }
        proof {
            assert forall|q: int, bb: u128| 0 <= q < self.data@.len() && bb < 128 implies (
            #[trigger] bit_of(self.data@[q], bb)) == (bit_of(old(self).data@[q], bb) || bit_of(
                other.data@[q],
                bb,
            )) by {
                lemma_bit_or(old(self).data@[q], other.data@[q], bb);
            }
            lemma_combine_shape(*old(self), *other, *self, |x: bool, y: bool| x || y);
            assert(self@ =~= or_bits(old(self)@, other@));
        }
    }

    /// Word-wise complement into a fresh bitmap; the padding bits of the
    /// result are re-masked to zero.
    pub fn inverse(&self) -> (r: Bitmap)
        requires
            self.wf(),
        ensures
            r.wf(),
            r@ == not_bits(self@),
            r.pad() == (self@.len() % 128 == 0),
    {
        let n = self.data.len();
        let mut data: Vec<u128> = Vec::new();
        while data.len() < n
            invariant
                n == self.data@.len(),
                data@.len() <= n,
                forall|q: int| 0 <= q < data@.len() ==> data@[q] == !self.data@[q],
            decreases n - data@.len(),
        {
            let j = data.len();
            data.push(!self.data[j]);
        }
        if self.len % 128 != 0 {
            let s = self.len % 128;
            let w = data[n - 1] & !(!0u128 << s);
            data.set(n - 1, w);
        }
        let r = Bitmap { data, len: self.len };
        proof {
            let len = self.len as int;
            let s = (len % 128) as u128;
            lemma_fundamental_div_mod(len, 128);
            lemma_mod_division_less_than_divisor(len, 128);
            assert forall|i: int| 0 <= i < len implies #[trigger] r@[i] == !self@[i] by {
                lemma_word_index(self.len as nat, i);
                let q = i / 128;
                let b = (i % 128) as u128;
                lemma_bit_not(self.data@[q], b);
                if len % 128 != 0 && q == n - 1 {
                    assert(b < s) by (nonlinear_arith)
                        requires
                            i == q * 128 + (i % 128),
                            i < len,
                            q == len / 128,
                            len == (len / 128) * 128 + len % 128,
                            0 <= i % 128 < 128,
                            b == i % 128,
                            s == len % 128,
                            n == len / 128 + 1;
                    lemma_bit_mask_low(!self.data@[n - 1], s, b);
                }
            }
            assert(r@ =~= not_bits(self@));
            if len % 128 == 0 {
                assert forall|q: int, b: u128|
                    0 <= q < r.data@.len() && b < 128 && q * 128 + b >= r.len implies (
                #[trigger] bit_of(r.data@[q], b)) == r.pad() by {
                    assert(q * 128 + b < r.data@.len() * 128) by (nonlinear_arith)
                        requires 0 <= q < r.data@.len() && b < 128;
                }
                assert(r.wf());
            } else {
                assert forall|q: int, b: u128|
                    0 <= q < r.data@.len() && b < 128 && q * 128 + b >= r.len implies !(
                #[trigger] bit_of(r.data@[q], b)) by {
                    assert(q == r.data@.len() - 1 && b >= s) by (nonlinear_arith)
                        requires
                            0 <= q < r.data@.len(),
                            b < 128,
                            q * 128 + b >= len,
                            r.data@.len() == len / 128 + 1,
                            len == (len / 128) * 128 + len % 128,
                            0 < len % 128 < 128,
                            s == len % 128;
                    lemma_bit_mask_low(!self.data@[n - 1], s, b);
                }
                assert(!bit_of(r.data@[r.data@.len() - 1], s));
                assert(!r.pad());
                assert(r.wf());
            }
        }
        r
    }

    /// The fixed number of bits.
    pub fn len(&self) -> (r: usize)
        ensures
            r == self@.len(),
    {
        self.len
    }

    /// True exactly when the bitmap holds zero bits.
    pub fn is_empty(&self) -> (r: bool)
        ensures
            r == (self@.len() == 0),
    {
        self.len == 0
    }

    /// True exactly when every stored word is the all-ones pattern; by the
    /// padding discipline that is the same as "every observable bit is one
    /// and the padding bits are ones too".
    pub fn filled(&self) -> (r: bool)
        requires
            self.wf(),
        ensures
            r == filled_spec(self@, self.pad()),
    {
        let n = self.data.len();
        let mut j: usize = 0;
        let mut all = true;
        while j < n
            invariant
                j <= n,
                n == self.data@.len(),
                all == (forall|q: int| 0 <= q < j ==> self.data@[q] == !0u128),
            decreases n - j,
        {
            if self.data[j] != !0u128 {
                all = false;
            }
            j += 1;
        }
        proof {
            lemma_filled_equiv(*self);
        }
        all
    }

    /// A fresh cursor over the bits, starting at index zero.
    pub fn iter(&self) -> (r: BitmapIter<'_>)
        requires
            self.wf(),
        ensures
            r.wf(),
            r.bits() == self@,
            r.pos() == 0,
    {
        BitmapIter { bitmap: self, current: 0 }
    }

    /// All bits in index order, collected by walking a fresh cursor.
    pub fn to_vec(&self) -> (r: Vec<bool>)
        requires
            self.wf(),
        ensures
            r@ == self@,
    {
        let mut it = self.iter();
        let mut out: Vec<bool> = Vec::new();
        let n = self.len();
        while out.len() < n
            invariant
                it.wf(),
                it.bits() == self@,
                n == self@.len(),
                it.pos() == out@.len() as int,
                out@.len() <= n,
                forall|i: int| 0 <= i < out@.len() ==> out@[i] == self@[i],
            decreases n - out@.len(),
        {
            let b = it.next();
            out.push(b.unwrap());
        }
        proof {
            assert(out@ =~= self@);
        }
        out
    }

    /// Read bit `index`.
    pub fn get(&self, index: usize) -> (r: bool)
        requires
            self.wf(),
            index < self@.len(),
        ensures
            r == self@[index as int],
    {
        proof {
            lemma_word_index(self.len as nat, index as int);
        }
        let q = index / 128;
        let b = index % 128;
        let word = self.data[q];
        proof {
            lemma_bit_test(word, b as u128);
        }
        word & (1u128 << b) != 0
    }
}

/// A cursor over the bits of a borrowed bitmap, yielding them in index
/// order.  Every call to `Bitmap::iter` hands out a fresh, independent one.
pub struct BitmapIter<'a> {
    bitmap: &'a Bitmap,
    current: usize,
}

impl<'a> BitmapIter<'a> {
    /// The bit sequence being walked.
    pub closed spec fn bits(&self) -> Seq<bool> {
        self.bitmap@
    }

    /// How many bits were already yielded.
    pub closed spec fn pos(&self) -> int {
        self.current as int
    }

    /// The cursor hangs off a well-formed bitmap and sits within range.
    pub closed spec fn wf(&self) -> bool {
        self.bitmap.wf() && self.current <= self.bitmap@.len()
    }

    /// Yield bit `pos()` and advance, or `None` once every bit was yielded.
    pub fn next(&mut self) -> (r: Option<bool>)
        requires
            old(self).wf(),
        ensures
            final(self).wf(),
            final(self).bits() == old(self).bits(),
            old(self).pos() < old(self).bits().len() ==> {
                &&& r == Some(old(self).bits()[old(self).pos()])
                &&& final(self).pos() == old(self).pos() + 1
            },
            old(self).pos() >= old(self).bits().len() ==> {
                &&& r is None
                &&& final(self).pos() == old(self).pos()
            },
    {
        if self.current < self.bitmap.len() {
            let b = self.bitmap.get(self.current);
            self.current = self.current + 1;
            Some(b)
        } else {
            None
        }
    }
}

/// After writing bit `i` of a bit sequence, reading bit `i` gives back the
/// written value; this is the set/get round trip at the model level.
pub proof fn lemma_set_get_round_trip(bits: Seq<bool>, i: int, v: bool)
    requires
        0 <= i < bits.len(),
    ensures
        bits.update(i, v)[i] == v,
{
}

/// A bitmap of at least one bit whose bits are all clear is never filled,
/// whatever its padding value.
pub proof fn lemma_unset_not_filled(len: nat, pad: bool)
    requires
        len >= 1,
    ensures
        !filled_spec(Seq::new(len, |i: int| false), pad),
{
    assert(!Seq::new(len, |i: int| false)[0]);
}

/// Once every observable bit is set, a bitmap with all-ones padding is
/// filled.
pub proof fn lemma_all_set_filled(bits: Seq<bool>)
    requires
        forall|i: int| 0 <= i < bits.len() ==> bits[i],
    ensures
        filled_spec(bits, true),
{
}

/// Clearing any single bit un-fills a bitmap.
pub proof fn lemma_clear_not_filled(bits: Seq<bool>, pad: bool, i: int)
    requires
        0 <= i < bits.len(),
    ensures
        !filled_spec(bits.update(i, false), pad),
{
    assert(!bits.update(i, false)[i]);
}

/// Conjunction and disjunction act bit by bit, and complement flips each
/// bit: the pointwise reading of `and_bits`, `or_bits` and `not_bits`.
pub proof fn lemma_pointwise(a: Seq<bool>, b: Seq<bool>, i: int)
    requires
        a.len() == b.len(),
        0 <= i < a.len(),
    ensures
        and_bits(a, b)[i] == (a[i] && b[i]),
        or_bits(a, b)[i] == (a[i] || b[i]),
        not_bits(a)[i] == !a[i],
{
}

/// Position decomposition: for `0 <= i < len`, bit `i` lives in a valid word.
proof fn lemma_word_index(len: nat, i: int)
    requires
        0 <= i < len,
    ensures
        0 <= i / 128 < word_count(len),
        0 <= i % 128 < 128,
        i == (i / 128) * 128 + (i % 128),
        len <= word_count(len) * 128,
{
    lemma_fundamental_div_mod(i, 128);
    lemma_mod_division_less_than_divisor(i, 128);
    lemma_fundamental_div_mod(len as int, 128);
    lemma_mod_division_less_than_divisor(len as int, 128);
}

/// The shape facts about a freshly built bitmap: zero words, with the last
/// word's padding bits (if any) set to one.
proof fn lemma_bitmap_new_shape(r: Bitmap)
    requires
        r.data@.len() == word_count(r.len as nat),
        r.len as int % 128 == 0 ==> forall|q: int| 0 <= q < r.data@.len() ==> r.data@[q] == 0u128,
        r.len as int % 128 != 0 ==> {
            &&& forall|q: int| 0 <= q < r.data@.len() - 1 ==> r.data@[q] == 0u128
            &&& r.data@[r.data@.len() - 1] == !0u128 << ((r.len as int % 128) as u128)
        },
    ensures
        r.wf(),
        forall|i: int| 0 <= i < r@.len() ==> !r@[i],
        r.pad(),
{
    let len = r.len as int;
    let s = (len % 128) as u128;
    lemma_fundamental_div_mod(len, 128);
    lemma_mod_division_less_than_divisor(len, 128);
    assert forall|q: int, b: u128|
        0 <= q < r.data@.len() && b < 128 && q * 128 + b >= r.len implies (#[trigger] bit_of(
        r.data@[q],
        b,
    )) == r.pad() by {
        // Positions at or past `len` only exist in the last word, at offsets
        // at or past `s`; there, a fresh bitmap reads from `!0 << s`.
        if len % 128 == 0 {
            assert(q * 128 + b < r.data@.len() * 128) by (nonlinear_arith)
                requires 0 <= q < r.data@.len() && b < 128;
            assert(r.data@.len() * 128 == len);
            assert(false);
        } else {
            assert(q == r.data@.len() - 1 && b >= s) by (nonlinear_arith)
                requires
                    0 <= q < r.data@.len(),
                    b < 128,
                    q * 128 + b >= len,
                    r.data@.len() == len / 128 + 1,
                    len == (len / 128) * 128 + len % 128,
                    0 < len % 128 < 128,
                    s == len % 128;
            lemma_bit_shl_ones(s, b);
            lemma_bit_shl_ones(s, s);
        }
    }
    assert(r.wf());
    assert forall|i: int| 0 <= i < r@.len() implies !r@[i] by {
        lemma_word_index(r.len as nat, i);
        let q = i / 128;
        let b = (i % 128) as u128;
        if len % 128 != 0 && q == r.data@.len() - 1 {
            assert(b < s) by (nonlinear_arith)
                requires
                    i == q * 128 + (i % 128),
                    i < len,
                    q == len / 128,
                    len == (len / 128) * 128 + len % 128,
                    0 <= i % 128 < 128,
                    b == i % 128,
                    s == len % 128;
            lemma_bit_shl_ones(s, b);
        } else {
            lemma_bit_zero(b);
        }
    }
    if len % 128 != 0 {
        lemma_bit_shl_ones(s, s);
    }
}

/// When every bit of `r`'s words is the pointwise `f` of the corresponding
/// bits of `a`'s and `b`'s words, `r`'s view, invariant and padding follow
/// pointwise as well.
proof fn lemma_combine_shape(a: Bitmap, b: Bitmap, r: Bitmap, f: spec_fn(bool, bool) -> bool)
    requires
        a.wf(),
        b.wf(),
        a@.len() == b@.len(),
        r.len == a.len,
        r.data@.len() == a.data@.len(),
        f(true, true),
        forall|q: int, bb: u128|
            0 <= q < r.data@.len() && bb < 128 ==> (#[trigger] bit_of(r.data@[q], bb)) == f(
                bit_of(a.data@[q], bb),
                bit_of(b.data@[q], bb),
            ),
    ensures
        r.wf(),
        r@ =~= Seq::new(a@.len(), |i: int| f(a@[i], b@[i])),
        r.pad() == f(a.pad(), b.pad()),
{
    let len = a.len as int;
    lemma_fundamental_div_mod(len, 128);
    lemma_mod_division_less_than_divisor(len, 128);
    assert(b.data@.len() == a.data@.len());
    if len % 128 != 0 {
        let s = (len % 128) as u128;
        let last = r.data@.len() - 1;
        assert(last * 128 + s >= len);
        assert(r.pad() == f(a.pad(), b.pad()));
    }
    assert forall|q: int, bb: u128|
        0 <= q < r.data@.len() && bb < 128 && q * 128 + bb >= r.len implies (#[trigger] bit_of(
        r.data@[q],
        bb,
    )) == r.pad() by {
        assert(bit_of(a.data@[q], bb) == a.pad());
        assert(bit_of(b.data@[q], bb) == b.pad());
    }
    assert(r.wf());
    assert forall|i: int| 0 <= i < a@.len() implies #[trigger] r@[i] == f(a@[i], b@[i]) by {
        lemma_word_index(a.len as nat, i);
    }
}

/// If bits `0..n` of `w` are all set, the value of the low `n` bits of `w`
/// is `2^n - 1`; at `n == 128` the whole word is all ones.
#[verifier::rlimit(100)]
proof fn lemma_low_ones(w: u128, n: u128)
    requires
        n <= 128,
        forall|b: u128| b < n ==> bit_of(w, b),
    ensures
        n < 128 ==> (w & (((1u128 << n) - 1) as u128)) == ((1u128 << n) - 1) as u128,
        n == 128 ==> w == !0u128,
    decreases n,
{
    if n == 0 {
        assert((w & (((1u128 << 0) - 1) as u128)) == ((1u128 << 0) - 1) as u128) by (bit_vector);
    } else {
        let m = (n - 1) as u128;
        lemma_low_ones(w, m);
        assert(bit_of(w, m));
        if n < 128 {
            assert((w & (((1u128 << n) - 1) as u128)) == ((1u128 << n) - 1) as u128) by (bit_vector)
                requires
                    1 <= n < 128,
                    n == m + 1,
                    (w & (((1u128 << m) - 1) as u128)) == ((1u128 << m) - 1) as u128,
                    (w >> m) & 1 == 1,
            ;
        } else {
            assert(w == !0u128) by (bit_vector)
                requires
                    m == 127,
                    (w & (((1u128 << m) - 1) as u128)) == ((1u128 << m) - 1) as u128,
                    (w >> m) & 1 == 1,
            ;
        }
    }
}

/// A word with all 128 bits set is the all-ones word.
proof fn lemma_word_all_ones(w: u128)
    requires
        forall|b: u128| b < 128 ==> bit_of(w, b),
    ensures
        w == !0u128,
{
    lemma_low_ones(w, 128);
}

/// The word-level all-ones check agrees with "every observable bit set and
/// padding all ones" on a well-formed bitmap.
proof fn lemma_filled_equiv(bm: Bitmap)
    requires
        bm.wf(),
    ensures
        (forall|q: int| 0 <= q < bm.data@.len() ==> bm.data@[q] == !0u128) <==> filled_spec(
            bm@,
            bm.pad(),
        ),
{
    let len = bm.len as int;
    lemma_fundamental_div_mod(len, 128);
    lemma_mod_division_less_than_divisor(len, 128);
    if forall|q: int| 0 <= q < bm.data@.len() ==> bm.data@[q] == !0u128 {
        assert forall|i: int| 0 <= i < bm@.len() implies bm@[i] by {
            lemma_word_index(bm.len as nat, i);
            lemma_bit_ones((i % 128) as u128);
        }
        lemma_pad_of_all_ones(bm);
        assert(filled_spec(bm@, bm.pad()));
    }
    if filled_spec(bm@, bm.pad()) {
        assert forall|q: int| 0 <= q < bm.data@.len() implies bm.data@[q] == !0u128 by {
            assert forall|b: u128| b < 128 implies bit_of(bm.data@[q], b) by {
                let p = q * 128 + b;
                if p < len {
                    lemma_fundamental_div_mod_converse_div(p, 128, q, b as int);
                    lemma_fundamental_div_mod_converse_mod(p, 128, q, b as int);
                    assert(bm@[p]);
                } else {
                    assert(bit_of(bm.data@[q], b) == bm.pad());
                }
            }
            lemma_word_all_ones(bm.data@[q]);
        }
    }
}

/// A bitmap whose words are all ones has `pad() == true`.
proof fn lemma_pad_of_all_ones(r: Bitmap)
    requires
        r.data@.len() == word_count(r.len as nat),
        forall|q: int| 0 <= q < r.data@.len() ==> r.data@[q] == !0u128,
    ensures
        r.pad(),
{
    let len = r.len as int;
    if len % 128 != 0 {
        lemma_fundamental_div_mod(len, 128);
        lemma_mod_division_less_than_divisor(len, 128);
        lemma_bit_ones((len % 128) as u128);
    }
}

/// Setting or clearing one bit of a word leaves every other bit alone.
proof fn lemma_bit_write(w: u128, s: u128, v: bool, b: u128)
    requires
        s < 128,
        b < 128,
    ensures
        bit_of(
            if v {
                w | (1u128 << s)
            } else {
                w & !(1u128 << s)
            },
            b,
        ) == if b == s {
            v
        } else {
            bit_of(w, b)
        },
{
    if v {
        assert((((w | (1u128 << s)) >> b) & 1 == 1) == (if b == s {
            true
        } else {
            (w >> b) & 1 == 1
        })) by (bit_vector)
            requires
                s < 128 && b < 128,
        ;
    } else {
        assert((((w & !(1u128 << s)) >> b) & 1 == 1) == (if b == s {
            false
        } else {
            (w >> b) & 1 == 1
        })) by (bit_vector)
            requires
                s < 128 && b < 128,
        ;
    }
}

/// Bit `b` of the zero word is clear.
proof fn lemma_bit_zero(b: u128)
    requires
        b < 128,
    ensures
        !bit_of(0u128, b),
{
    assert(!((0u128 >> b) & 1 == 1)) by (bit_vector);
}

/// Bit `b` of the all-ones word is set.
proof fn lemma_bit_ones(b: u128)
    requires
        b < 128,
    ensures
        bit_of(!0u128, b),
{
    assert(((!0u128 >> b) & 1 == 1)) by (bit_vector)
        requires
            b < 128,
    ;
}

/// `!0 << s` has exactly the bits at positions `s..128` set.
proof fn lemma_bit_shl_ones(s: u128, b: u128)
    requires
        s < 128,
        b < 128,
    ensures
        bit_of(!0u128 << s, b) == (b >= s),
{
    assert((((!0u128 << s) >> b) & 1 == 1) == (b >= s)) by (bit_vector)
        requires
            s < 128 && b < 128,
    ;
}

/// Conjunction of words is conjunction of bits.
proof fn lemma_bit_and(x: u128, y: u128, b: u128)
    requires
        b < 128,
    ensures
        bit_of(x & y, b) == (bit_of(x, b) && bit_of(y, b)),
{
    assert((((x & y) >> b) & 1 == 1) == (((x >> b) & 1 == 1) && ((y >> b) & 1 == 1)))
        by (bit_vector);
}

/// Disjunction of words is disjunction of bits.
proof fn lemma_bit_or(x: u128, y: u128, b: u128)
    requires
        b < 128,
    ensures
        bit_of(x | y, b) == (bit_of(x, b) || bit_of(y, b)),
{
    assert((((x | y) >> b) & 1 == 1) == (((x >> b) & 1 == 1) || ((y >> b) & 1 == 1)))
        by (bit_vector);
}

/// Complement of a word is complement of its bits.
proof fn lemma_bit_not(x: u128, b: u128)
    requires
        b < 128,
    ensures
        bit_of(!x, b) == !bit_of(x, b),
{
    assert((((!x) >> b) & 1 == 1) == !((x >> b) & 1 == 1)) by (bit_vector)
        requires
            b < 128,
    ;
}

/// Masking with `!(!0 << s)` keeps exactly the bits below `s`.
proof fn lemma_bit_mask_low(w: u128, s: u128, b: u128)
    requires
        s < 128,
        b < 128,
    ensures
        bit_of(w & !(!0u128 << s), b) == (b < s && bit_of(w, b)),
{
    assert((((w & !(!0u128 << s)) >> b) & 1 == 1) == (b < s && ((w >> b) & 1 == 1)))
        by (bit_vector)
        requires
            s < 128 && b < 128,
    ;
}

/// Testing a bit with a mask agrees with `bit_of`.
proof fn lemma_bit_test(w: u128, b: u128)
    requires
        b < 128,
    ensures
        (w & (1u128 << b) != 0) == bit_of(w, b),
{
    assert((w & (1u128 << b) != 0) == ((w >> b) & 1 == 1)) by (bit_vector)
        requires
            b < 128,
    ;
}

} // verus!
