//! A growable, densely packed sequence of booleans stored in 64-bit words,
//! with word-parallel population count and Hamming distance.

use vstd::prelude::*;
use crate::space::Metric;

verus! {

/// Number of bits stored in one word.
pub const NUM_BITS: u64 = 64;

/// True iff bit `k` of word `w` is set.
pub open spec fn nth_bit(w: u64, k: u64) -> bool {
    (w >> k) & 1u64 == 1u64
}

/// The 64 bits of a word, lowest first.
pub open spec fn word_seq(w: u64) -> Seq<bool> {
    Seq::new(64, |k: int| nth_bit(w, k as u64))
}

/// Number of true entries in a sequence of booleans.
pub open spec fn num_ones(s: Seq<bool>) -> nat
    decreases s.len(),
{
    if s.len() == 0 {
        0
    } else {
        num_ones(s.drop_last()) + (if s.last() {
            1nat
        } else {
            0nat
        })
    }
}

/// The number of indices `i < n` at which the sequence reads true.
pub open spec fn count_true_upto(s: Seq<bool>, n: int) -> nat
    decreases n,
{
    if n <= 0 {
        0
    } else {
        count_true_upto(s, n - 1) + (if s[n - 1] {
            1nat
        } else {
            0nat
        })
    }
}

/// The population count is the number of indices that read true: what
/// `count_bits_on` returns equals a brute-force count over `is_set`.
pub proof fn lemma_num_ones_counts_indices(s: Seq<bool>)
    ensures
        num_ones(s) == count_true_upto(s, s.len() as int),
    decreases s.len(),
{
    if s.len() > 0 {
        lemma_num_ones_counts_indices(s.drop_last());
        lemma_count_prefix(s, s.len() as int - 1);
    }
}

/// Counting over a prefix of the sequence equals counting over the prefix
/// taken as its own sequence.
proof fn lemma_count_prefix(s: Seq<bool>, n: int)
    requires
        0 <= n <= s.len(),
    ensures
        n < s.len() ==> count_true_upto(s, n) == count_true_upto(s.drop_last(), n),
    decreases n,
{
    if n > 0 {
        lemma_count_prefix(s, n - 1);
    }
}

/// Pointwise difference of two equal-length bit sequences.
pub open spec fn xor_seq(a: Seq<bool>, b: Seq<bool>) -> Seq<bool> {
    Seq::new(a.len(), |i: int| a[i] != b[i])
}

/// Hamming distance: the number of positions at which two equal-length
/// bit sequences differ.
pub open spec fn hamming(a: Seq<bool>, b: Seq<bool>) -> nat {
    num_ones(xor_seq(a, b))
}

pub proof fn lemma_num_ones_le_len(s: Seq<bool>)
    ensures
        num_ones(s) <= s.len(),
    decreases s.len(),
{
    if s.len() > 0 {
        lemma_num_ones_le_len(s.drop_last());
    }
}

pub proof fn lemma_num_ones_all_false(s: Seq<bool>)
    requires
        forall|i: int| 0 <= i < s.len() ==> !s[i],
    ensures
        num_ones(s) == 0,
    decreases s.len(),
{
    if s.len() > 0 {
        lemma_num_ones_all_false(s.drop_last());
    }
}

pub proof fn lemma_num_ones_concat(a: Seq<bool>, b: Seq<bool>)
    ensures
        num_ones(a + b) == num_ones(a) + num_ones(b),
    decreases b.len(),
{
    if b.len() == 0 {
        assert(a + b =~= a);
    } else {
        lemma_num_ones_concat(a, b.drop_last());
        assert((a + b).drop_last() =~= a + b.drop_last());
    }
}

/// Hamming distance is symmetric.
pub proof fn lemma_hamming_symmetric(a: Seq<bool>, b: Seq<bool>)
    requires
        a.len() == b.len(),
    ensures
        hamming(a, b) == hamming(b, a),
{
    assert(xor_seq(a, b) =~= xor_seq(b, a));
}

/// The Hamming distance from a sequence to itself is zero.
pub proof fn lemma_hamming_self(a: Seq<bool>)
    ensures
        hamming(a, a) == 0,
{
    lemma_num_ones_all_false(xor_seq(a, a));
}

/// The Hamming distance of two equal-length sequences never exceeds their length.
pub proof fn lemma_hamming_le_len(a: Seq<bool>, b: Seq<bool>)
    requires
        a.len() == b.len(),
    ensures
        hamming(a, b) <= a.len(),
{
    lemma_num_ones_le_len(xor_seq(a, b));
}

proof fn lemma_bit_or(w: u64, off: u64)
    by (bit_vector)
    requires
        off < 64,
    ensures
        forall|k: u64| k < 64 ==> #[trigger] nth_bit(w | (1u64 << off), k) == (k == off || nth_bit(w, k)),
{
}

proof fn lemma_bit_and_not(w: u64, off: u64)
    by (bit_vector)
    requires
        off < 64,
    ensures
        forall|k: u64| k < 64 ==> #[trigger] nth_bit(w & !(1u64 << off), k) == (k != off && nth_bit(w, k)),
{
}

proof fn lemma_bit_xor(a: u64, b: u64)
    by (bit_vector)
    ensures
        forall|k: u64| k < 64 ==> #[trigger] nth_bit(a ^ b, k) == (nth_bit(a, k) != nth_bit(b, k)),
{
}

proof fn lemma_zero_word()
    by (bit_vector)
    ensures
        forall|k: u64| k < 64 ==> !#[trigger] nth_bit(0u64, k),
{
}

/// A packed sequence of bits: `size` booleans stored in `ceil(size / 64)` words,
/// lowest index in the lowest bit of the first word.  All bits of the final
/// word beyond `size` are kept at zero.
#[derive(Clone, Debug)]
pub struct BitArray {
    bits: Vec<u64>,
    size: u64,
}

impl View for BitArray {
    type V = Seq<bool>;

    closed spec fn view(&self) -> Seq<bool> {
        Seq::new(self.size as nat, |i: int| nth_bit(self.bits@[i / 64], (i % 64) as u64))
    }
}

impl BitArray {
    /// Structural invariant: exactly enough words, and the padding bits of the
    /// last word are all zero.
    pub closed spec fn wf(&self) -> bool {
        &&& self.bits@.len() as int == (self.size as int + 63) / 64
        &&& forall|i: int|
            self.size as int <= i < 64 * self.bits@.len() ==> !nth_bit(
                self.bits@[i / 64],
                #[trigger] (i % 64) as u64,
            )
    }

    pub fn new() -> (r: BitArray)
        ensures
            r.wf(),
            r@ =~= Seq::<bool>::empty(),
    {
        BitArray { bits: Vec::new(), size: 0 }
    }

    pub fn len(&self) -> (r: u64)
        ensures
            r as nat == self@.len(),
    {
        self.size
    }

    /// Appends one bit at the end, allocating a fresh word whenever the
    /// current length is an exact multiple of the word granularity.
    pub fn add(&mut self, value: bool)
        requires
            old(self).wf(),
            old(self)@.len() < u64::MAX,
        ensures
            final(self).wf(),
            final(self)@ =~= old(self)@.push(value),
    {
        proof {
            vstd::arithmetic::div_mod::lemma_fundamental_div_mod(self.size as int, 64);
        }
        if self.size % NUM_BITS == 0 {
            self.bits.push(0);
            proof {
                lemma_zero_word();
            }
        }
        let ghost old_size = self.size as int;
        assert(old_size < 64 * self.bits@.len());
        self.write_bit(self.size, value);
        self.size = self.size + 1;
        proof {
            assert forall|i: int| self.size as int <= i < 64 * self.bits@.len() implies !nth_bit(
                self.bits@[i / 64],
                #[trigger] (i % 64) as u64,
            ) by {
                vstd::arithmetic::div_mod::lemma_fundamental_div_mod(i, 64);
                vstd::arithmetic::div_mod::lemma_fundamental_div_mod(old_size, 64);
            }
            assert forall|i: int| 0 <= i < self.size as int implies self@[i] == old(self)@.push(
                value,
            )[i] by {
                vstd::arithmetic::div_mod::lemma_fundamental_div_mod(i, 64);
                vstd::arithmetic::div_mod::lemma_fundamental_div_mod(old_size, 64);
            }
        }
    }

    /// Overwrites the bit at `index`, which must be below the current length.
    pub fn set(&mut self, index: u64, value: bool)
        requires
            old(self).wf(),
            index < old(self)@.len(),
        ensures
            final(self).wf(),
            final(self)@ =~= old(self)@.update(index as int, value),
    {
        proof {
            vstd::arithmetic::div_mod::lemma_fundamental_div_mod(index as int, 64);
        }
        self.write_bit(index, value);
        proof {
            assert forall|i: int|
                self.size as int <= i < 64 * self.bits@.len() implies !nth_bit(
                self.bits@[i / 64],
                #[trigger] (i % 64) as u64,
            ) by {
                vstd::arithmetic::div_mod::lemma_fundamental_div_mod(i, 64);
                vstd::arithmetic::div_mod::lemma_fundamental_div_mod(index as int, 64);
            }
            assert forall|i: int| 0 <= i < self.size as int implies self@[i] == old(self)@.update(index as int, value)[i] by {
                vstd::arithmetic::div_mod::lemma_fundamental_div_mod(i, 64);
                vstd::arithmetic::div_mod::lemma_fundamental_div_mod(index as int, 64);
            }
        }
    }

    /// Writes one bit of the word storage; touches neither `size` nor any other bit.
    fn write_bit(&mut self, index: u64, value: bool)
        requires
            (index as int) < 64 * old(self).bits@.len(),
        ensures
            final(self).size == old(self).size,
            final(self).bits@.len() == old(self).bits@.len(),
            forall|j: int|
                0 <= j < final(self).bits@.len() && j != index as int / 64 ==> final(self).bits@[j] == old(self).bits@[j],
            forall|k: u64|
                k < 64 ==> #[trigger] nth_bit(final(self).bits@[index as int / 64], k) == (if k == index % 64 {
                    value
                } else {
                    nth_bit(old(self).bits@[index as int / 64], k)
                }),
    {
        let nwords: usize = self.bits.len();
        proof {
            vstd::arithmetic::div_mod::lemma_fundamental_div_mod(index as int, 64);
        }
        let q: u64 = index / NUM_BITS;
        assert(q < nwords as u64);
        let wi: usize = q as usize;
        let off: u64 = index % NUM_BITS;
        let w = self.bits[wi];
        let nw = if value {
            w | (1u64 << off)
        } else {
            w & !(1u64 << off)
        };
        self.bits.set(wi, nw);
        proof {
            if value {
                lemma_bit_or(w, off);
            } else {
                lemma_bit_and_not(w, off);
            }
            assert(self.bits@[index as int / 64] == nw);
            assert forall|k: u64| k < 64 implies #[trigger] nth_bit(nw, k) == (if k == index % 64 {
                value
            } else {
                nth_bit(old(self).bits@[index as int / 64], k)
            }) by {
                assert(off == index % 64);
                if value {
                    assert(nth_bit(w | (1u64 << off), k) == (k == off || nth_bit(w, k)));
                } else {
                    assert(nth_bit(w & !(1u64 << off), k) == (k != off && nth_bit(w, k)));
                }
            }
        }
    }

    /// Reads the bit at `index`, which must be below the current length.
    pub fn is_set(&self, index: u64) -> (r: bool)
        requires
            self.wf(),
            index < self@.len(),
        ensures
            r == self@[index as int],
    {
        let nwords: usize = self.bits.len();
        proof {
            vstd::arithmetic::div_mod::lemma_fundamental_div_mod(index as int, 64);
            assert((index as int) < 64 * self.bits@.len());
        }
        let q: u64 = index / NUM_BITS;
        assert(q < nwords as u64);
        let wi: usize = q as usize;
        let off: u64 = index % NUM_BITS;
        ((self.bits[wi] >> off) & 1u64) == 1u64
    }

    /// The number of true bits, computed as the sum of each word's population
    /// count; the zeroed padding of the last word contributes nothing.
    pub fn count_bits_on(&self) -> (r: u32)
        requires
            self.wf(),
            self@.len() <= u32::MAX,
        ensures
            r as nat == num_ones(self@),
    {
        let mut total: u64 = 0;
        let mut j: usize = 0;
        let n = self.bits.len();
        while j < n
            invariant
                self.wf(),
                self@.len() <= u32::MAX,
                n == self.bits@.len(),
                0 <= j <= n,
                total == num_ones(self@.take(min64(64 * j as int, self@.len() as int))),
                total <= 64 * j,
            decreases n - j,
        {
            let c = count_word_ones(self.bits[j]);
            proof {
                self.lemma_word_slice(j as int);
            }
            total = total + c as u64;
            j = j + 1;
        }
        proof {
            assert(self@.take(min64(64 * n as int, self@.len() as int)) =~= self@);
            lemma_num_ones_le_len(self@);
        }
        total as u32
    }

    /// Relates one word's population count to the bits it stores.
    proof fn lemma_word_slice(&self, j: int)
        requires
            self.wf(),
            0 <= j < self.bits@.len(),
        ensures
            num_ones(self@.take(min64(64 * (j + 1), self@.len() as int))) == num_ones(
                self@.take(min64(64 * j, self@.len() as int)),
            ) + num_ones(word_seq(self.bits@[j])),
    {
        let size = self@.len() as int;
        let lo = min64(64 * j, size);
        let hi = min64(64 * (j + 1), size);
        assert(lo == 64 * j);
        let covered = self@.subrange(lo, hi);
        let pad = Seq::new((64 * (j + 1) - hi) as nat, |k: int| false);
        assert forall|i: int| 0 <= i < covered.len() implies covered[i] == word_seq(
            self.bits@[j],
        )[i] by {
            vstd::arithmetic::div_mod::lemma_fundamental_div_mod(lo + i, 64);
        }
        assert forall|i: int| 0 <= i < pad.len() implies pad[i] == word_seq(self.bits@[j])[
            covered.len() + i
        ] by {
            let gi = hi + i;
            vstd::arithmetic::div_mod::lemma_fundamental_div_mod(gi, 64);
            assert(!nth_bit(self.bits@[gi / 64], (gi % 64) as u64));
        }
        assert(word_seq(self.bits@[j]) =~= covered + pad);
        lemma_num_ones_concat(covered, pad);
        lemma_num_ones_all_false(pad);
        lemma_num_ones_concat(self@.take(lo), covered);
        assert(self@.take(lo) + covered =~= self@.take(hi));
    }

    /// Bitwise exclusive or of two sequences of the same length.
    pub fn xor(&self, rhs: &BitArray) -> (r: BitArray)
        requires
            self.wf(),
            rhs.wf(),
            self@.len() == rhs@.len(),
        ensures
            r.wf(),
            r@ =~= xor_seq(self@, rhs@),
    {
        let mut words: Vec<u64> = Vec::new();
        let n = self.bits.len();
        let mut i: usize = 0;
        while i < n
            invariant
                self.wf(),
                rhs.wf(),
                self@.len() == rhs@.len(),
                n == self.bits@.len(),
                rhs.bits@.len() == n,
                0 <= i <= n,
                words@.len() == i,
                forall|j: int| 0 <= j < i ==> words@[j] == (self.bits@[j] ^ rhs.bits@[j]),
            decreases n - i,
        {
            words.push(self.bits[i] ^ rhs.bits[i]);
            i = i + 1;
        }
        let r = BitArray { bits: words, size: self.size };
        proof {
            assert forall|j: int, k: u64|
                0 <= j < n && k < 64 implies #[trigger] nth_bit(r.bits@[j], k) == (nth_bit(
                self.bits@[j],
                k,
            ) != nth_bit(rhs.bits@[j], k)) by {
                lemma_bit_xor(self.bits@[j], rhs.bits@[j]);
            }
            assert forall|i2: int|
                r.size as int <= i2 < 64 * r.bits@.len() implies !nth_bit(
                r.bits@[i2 / 64],
                #[trigger] (i2 % 64) as u64,
            ) by {
                vstd::arithmetic::div_mod::lemma_fundamental_div_mod(i2, 64);
            }
            assert forall|i2: int| 0 <= i2 < r@.len() implies r@[i2] == xor_seq(self@, rhs@)[
                i2
            ] by {
                vstd::arithmetic::div_mod::lemma_fundamental_div_mod(i2, 64);
            }
        }
        r
    }


    /// A copy holding the same bit sequence.
    pub fn duplicate(&self) -> (r: BitArray)
        requires
            self.wf(),
            self@.len() < u64::MAX,
        ensures
            r.wf(),
            r@ == self@,
    {
        let mut r = BitArray::new();
        let n = self.len();
        let mut i: u64 = 0;
        while i < n
            invariant
                self.wf(),
                n == self@.len(),
                n < u64::MAX,
                0 <= i <= n,
                r.wf(),
                r@ == self@.take(i as int),
            decreases n - i,
        {
            proof {
                assert(self@.take(i as int + 1) =~= self@.take(i as int).push(self@[i as int]));
            }
            r.add(self.is_set(i));
            i = i + 1;
        }
        proof {
            assert(self@.take(n as int) =~= self@);
        }
        r
    }

    /// Two bit arrays hold the same sequence iff their lengths match and
    /// every stored bit matches.
    pub fn equals(&self, other: &BitArray) -> (r: bool)
        requires
            self.wf(),
            other.wf(),
        ensures
            r == (self@ == other@),
    {
        if self.size != other.size {
            proof {
                if self@ == other@ {
                    assert(self@.len() == other@.len());
                }
            }
            return false;
        }
        let n = self.size;
        let mut i: u64 = 0;
        while i < n
            invariant
                self.wf(),
                other.wf(),
                self.size == other.size,
                n == self.size,
                0 <= i <= n,
                forall|j: int| 0 <= j < i ==> self@[j] == other@[j],
            decreases n - i,
        {
            if self.is_set(i) != other.is_set(i) {
                return false;
            }
            i = i + 1;
        }
        proof {
            assert(self@ =~= other@);
        }
        true
    }
}

/// The smaller of two mathematical integers.
pub open spec fn min64(a: int, b: int) -> int {
    if a <= b {
        a
    } else {
        b
    }
}

/// Population count of one 64-bit word.
fn count_word_ones(w: u64) -> (c: u32)
    ensures
        c as nat == num_ones(word_seq(w)),
        c <= 64,
{
    let mut c: u32 = 0;
    let mut k: u64 = 0;
    while k < 64
        invariant
            0 <= k <= 64,
            c as nat == num_ones(word_seq(w).take(k as int)),
            c <= k,
        decreases 64 - k,
    {
        let bit = ((w >> k) & 1u64) == 1u64;
        proof {
            assert(word_seq(w).take(k as int + 1).drop_last() =~= word_seq(w).take(k as int));
            assert(word_seq(w).take(k as int + 1).last() == nth_bit(w, k));
        }
        if bit {
            c = c + 1;
        }
        k = k + 1;
    }
    proof {
        assert(word_seq(w).take(64) =~= word_seq(w));
    }
    c
}

/// The number of positions at which two equal-length bit arrays differ,
/// by XOR followed by population count.
pub fn distance(b1: &BitArray, b2: &BitArray) -> (r: u32)
    requires
        b1.wf(),
        b2.wf(),
        b1@.len() == b2@.len(),
        b1@.len() <= u32::MAX,
    ensures
        r as nat == hamming(b1@, b2@),
{
    let x = b1.xor(b2);
    x.count_bits_on()
}


/// Builds a bit array by appending the given booleans in order.
pub fn from_bools(vals: &Vec<bool>) -> (r: BitArray)
    requires
        vals@.len() < u64::MAX,
    ensures
        r.wf(),
        r@ == vals@,
{
    let mut r = BitArray::new();
    let n = vals.len();
    let mut i: usize = 0;
    while i < n
        invariant
            n == vals@.len(),
            n < u64::MAX,
            0 <= i <= n,
            r.wf(),
            r@ == vals@.take(i as int),
        decreases n - i,
    {
        proof {
            assert(vals@.take(i as int + 1) =~= vals@.take(i as int).push(vals@[i as int]));
        }
        r.add(vals[i]);
        i = i + 1;
    }
    proof {
        assert(vals@.take(n as int) =~= vals@);
    }
    r
}

/// Round trip: a bit array built by appending `vals` reads back, at every
/// index, exactly the boolean that was appended there.
pub proof fn lemma_round_trip(b: BitArray, vals: Seq<bool>, i: int)
    requires
        b@ == vals,
        0 <= i < vals.len(),
    ensures
        b@[i] == vals[i],
{
}


/// The space of bit arrays of one fixed length, under Hamming distance.
pub struct HammingSpace {
    pub len: u64,
}

impl Metric<BitArray> for HammingSpace {
    open spec fn in_space(&self, p: BitArray) -> bool {
        p.wf() && p@.len() == self.len as nat && self.len <= u32::MAX
    }

    open spec fn spec_distance(&self, a: BitArray, b: BitArray) -> u64 {
        hamming(a@, b@) as u64
    }

    open spec fn spec_same(&self, a: BitArray, b: BitArray) -> bool {
        a@ == b@
    }

    fn distance(&self, a: &BitArray, b: &BitArray) -> (r: u64) {
        let d = distance(a, b);
        proof {
            lemma_hamming_le_len(a@, b@);
        }
        d as u64
    }

    fn same_point(&self, a: &BitArray, b: &BitArray) -> (r: bool) {
        a.equals(b)
    }

    fn clone_point(&self, p: &BitArray) -> (r: BitArray) {
        p.duplicate()
    }

    proof fn lemma_same_is_equivalence(&self, a: BitArray, b: BitArray, c: BitArray) {
    }

    proof fn lemma_distance_respects_same(&self, q: BitArray, a: BitArray, b: BitArray) {
    }
}

} // verus!
