//! Byte occurrence counting: a 256-slot weight table built from a byte
//! slice, with pairwise addition so that independently counted slices can be
//! reduced into one table.

use vstd::prelude::*;

verus! {

/// Number of occurrences of `b` in `s`.
pub open spec fn count_byte(s: Seq<u8>, b: u8) -> nat
    decreases s.len(),
{
    if s.len() == 0 {
        0
    } else {
        count_byte(s.drop_last(), b) + if s.last() == b {
            1nat
        } else {
            0nat
        }
    }
}

/// Number of nonzero entries of a weight table.
pub open spec fn nonzero_count(s: Seq<usize>) -> nat
    decreases s.len(),
{
    if s.len() == 0 {
        0
    } else {
        nonzero_count(s.drop_last()) + if s.last() == 0 {
            0nat
        } else {
            1nat
        }
    }
}

pub proof fn lemma_count_byte_le_len(s: Seq<u8>, b: u8)
    ensures
        count_byte(s, b) <= s.len(),
    decreases s.len(),
{
    if s.len() > 0 {
        lemma_count_byte_le_len(s.drop_last(), b);
    }
}

/// Every byte occurring in a slice has a positive count.
pub proof fn lemma_count_byte_pos(s: Seq<u8>, i: int)
    requires
        0 <= i < s.len(),
    ensures
        count_byte(s, s[i]) > 0,
    decreases s.len(),
{
    if i < s.len() - 1 {
        lemma_count_byte_pos(s.drop_last(), i);
        assert(s.drop_last()[i] == s[i]);
    }
}

/// Occurrence counts add up over concatenation.
pub proof fn lemma_count_byte_concat(a: Seq<u8>, b: Seq<u8>, x: u8)
    ensures
        count_byte(a + b, x) == count_byte(a, x) + count_byte(b, x),
    decreases b.len(),
{
    if b.len() == 0 {
        assert(a + b =~= a);
    } else {
        lemma_count_byte_concat(a, b.drop_last(), x);
        assert((a + b).drop_last() =~= a + b.drop_last());
    }
}

pub proof fn lemma_nonzero_count_update(s: Seq<usize>, i: int, v: usize)
    requires
        0 <= i < s.len(),
    ensures
        nonzero_count(s.update(i, v)) == nonzero_count(s) + (if v == 0 {
            0nat
        } else {
            1nat
        }) - (if s[i] == 0 {
            0nat
        } else {
            1nat
        }),
    decreases s.len(),
{
    let t = s.update(i, v);
    if i == s.len() - 1 {
        assert(t.drop_last() =~= s.drop_last());
        assert(t.last() == v);
    } else {
        lemma_nonzero_count_update(s.drop_last(), i, v);
        assert(t.drop_last() =~= s.drop_last().update(i, v));
        assert(t.last() == s.last());
    }
}

pub proof fn lemma_nonzero_count_zero(s: Seq<usize>)
    ensures
        nonzero_count(s) == 0 <==> (forall|i: int| 0 <= i < s.len() ==> s[i] == 0),
    decreases s.len(),
{
    if s.len() > 0 {
        lemma_nonzero_count_zero(s.drop_last());
        if nonzero_count(s) == 0 {
            assert forall|i: int| 0 <= i < s.len() implies s[i] == 0 by {
                if i < s.len() - 1 {
                    assert(s.drop_last()[i] == s[i]);
                }
            }
        }
    }
}

pub proof fn lemma_nonzero_count_le_len(s: Seq<usize>)
    ensures
        nonzero_count(s) <= s.len(),
    decreases s.len(),
{
    if s.len() > 0 {
        lemma_nonzero_count_le_len(s.drop_last());
    }
}

/// Well-formed raw weight table: 256 slots, `len` counted bytes.
pub open spec fn counts_wf(weights: Seq<usize>, len: usize) -> bool {
    weights.len() == 256 && len == nonzero_count(weights)
}

/// Count every byte of `bytes` into a fresh 256-slot table.
pub(crate) fn counts_from_bytes(bytes: &[u8]) -> (r: (Vec<usize>, usize))
    ensures
        counts_wf(r.0@, r.1),
        forall|b: u8| r.0@[b as int] == count_byte(bytes@, b),
{
    let mut weights: Vec<usize> = Vec::new();
    let mut k: usize = 0;
    while k < 256
        invariant
            0 <= k <= 256,
            weights@.len() == k,
            forall|i: int| 0 <= i < k ==> weights@[i] == 0,
        decreases 256 - k,
    {
        weights.push(0);
        k = k + 1;
    }
    proof {
        lemma_nonzero_count_zero(weights@);
        assert(count_byte(bytes@.subrange(0, 0), 0) == 0);
    }
    let mut len: usize = 0;
    let n = bytes.len();
    let mut i: usize = 0;
    while i < n
        invariant
            0 <= i <= n == bytes@.len(),
            counts_wf(weights@, len),
            forall|b: u8| weights@[b as int] == count_byte(bytes@.subrange(0, i as int), b),
        decreases n - i,
    {
        let b = bytes[i];
        let w = weights[b as usize];
        proof {
            lemma_count_byte_le_len(bytes@.subrange(0, i as int), b);
            lemma_nonzero_count_update(weights@, b as int, (w + 1) as usize);
            lemma_nonzero_count_le_len(weights@);
            assert forall|x: u8| #[trigger] count_byte(bytes@.subrange(0, i + 1), x) == count_byte(
                bytes@.subrange(0, i as int),
                x,
            ) + (if x == b {
                1nat
            } else {
                0nat
            }) by {
                assert(bytes@.subrange(0, i + 1).drop_last() =~= bytes@.subrange(0, i as int));
                assert(bytes@.subrange(0, i + 1).last() == b);
            }
        }
        if w == 0 {
            len = len + 1;
        }
        weights.set(b as usize, w + 1);
        i = i + 1;
    }
    assert(bytes@.subrange(0, n as int) =~= bytes@);
    (weights, len)
}

/// Add `other`'s counts into `weights` slot by slot.
pub(crate) fn counts_add(weights: &mut Vec<usize>, len: &mut usize, other: &Vec<usize>)
    requires
        counts_wf(old(weights)@, *old(len)),
        other@.len() == 256,
        forall|b: u8| old(weights)@[b as int] + other@[b as int] <= usize::MAX,
    ensures
        counts_wf(final(weights)@, *final(len)),
        forall|b: u8|
            final(weights)@[b as int] == old(weights)@[b as int] + other@[b as int],
{
    let mut k: usize = 0;
    while k < 256
        invariant
            0 <= k <= 256,
            counts_wf(weights@, *len),
            other@.len() == 256,
            forall|b: u8| old(weights)@[b as int] + other@[b as int] <= usize::MAX,
            forall|i: int| 0 <= i < k ==> weights@[i] == old(weights)@[i] + other@[i],
            forall|i: int| k <= i < 256 ==> weights@[i] == old(weights)@[i],
        decreases 256 - k,
    {
        let o = other[k];
        if o > 0 {
            let w = weights[k];
            proof {
                assert(weights@[k as int] == old(weights)@[k as int]);
                assert(old(weights)@[k as int] + other@[k as int] <= usize::MAX) by {
                    assert(0 <= k < 256);
                    assert(old(weights)@[(k as u8) as int] + other@[(k as u8) as int]
                        <= usize::MAX);
                }
                lemma_nonzero_count_update(weights@, k as int, (w + o) as usize);
                lemma_nonzero_count_le_len(weights@);
            }
            if w == 0 {
                *len = *len + 1;
            }
            weights.set(k, w + o);
        }
        k = k + 1;
    }
}

/// List the counted bytes in ascending order with their weights.
pub(crate) fn counts_iter(weights: &Vec<usize>) -> (r: Vec<(u8, usize)>)
    requires
        weights@.len() == 256,
    ensures
        forall|k: int|
            0 <= k < r@.len() ==> (#[trigger] r@[k]).1 == weights@[r@[k].0 as int] && r@[k].1 > 0,
        forall|k1: int, k2: int| 0 <= k1 < k2 < r@.len() ==> r@[k1].0 < r@[k2].0,
        forall|b: u8|
            weights@[b as int] > 0 ==> exists|k: int|
                0 <= k < r@.len() && (#[trigger] r@[k]) == (b, weights@[b as int]),
        r@.len() == nonzero_count(weights@),
{
    let mut out: Vec<(u8, usize)> = Vec::new();
    let mut k: usize = 0;
    while k < 256
        invariant
            0 <= k <= 256,
            weights@.len() == 256,
            forall|j: int|
                0 <= j < out@.len() ==> (#[trigger] out@[j]).1 == weights@[out@[j].0 as int]
                    && out@[j].1 > 0 && out@[j].0 < k,
            forall|j1: int, j2: int| 0 <= j1 < j2 < out@.len() ==> out@[j1].0 < out@[j2].0,
            forall|b: u8|
                b < k && weights@[b as int] > 0 ==> exists|j: int|
                    0 <= j < out@.len() && (#[trigger] out@[j]) == (b, weights@[b as int]),
            out@.len() == nonzero_count(weights@.subrange(0, k as int)),
        decreases 256 - k,
    {
        let w = weights[k];
        proof {
            assert(weights@.subrange(0, k + 1).drop_last() =~= weights@.subrange(0, k as int));
            assert(weights@.subrange(0, k + 1).last() == weights@[k as int]);
        }
        if w > 0 {
            let ghost old_out = out@;
            out.push((k as u8, w));
            proof {
                assert(out@[old_out.len() as int] == ((k as u8), w));
                assert forall|b: u8|
                    b < k + 1 && weights@[b as int] > 0 implies exists|j: int|
                    0 <= j < out@.len() && (#[trigger] out@[j]) == (b, weights@[b as int]) by {
                    if b < k {
                        let j = choose|j: int|
                            0 <= j < old_out.len() && (#[trigger] old_out[j]) == (
                                b,
                                weights@[b as int],
                            );
                        assert(out@[j] == (b, weights@[b as int]));
                    } else {
                        assert(out@[old_out.len() as int] == (b, weights@[b as int]));
                    }
                }
            }
        }
        k = k + 1;
    }
    proof {
        assert(weights@.subrange(0, 256) =~= weights@);
    }
    out
}

/// Trait signifying that a struct stores a weight for each byte, so that
/// for any counted byte there is a corresponding `usize` weight.
pub trait Weights {
    /// The weight stored for byte `b`.
    spec fn spec_weight_of(&self, b: u8) -> nat;

    /// Structural invariant of the table.
    spec fn table_wf(&self) -> bool;

    /// The weight of `letter`, or `None` if it was never counted.
    fn get(&self, letter: &u8) -> (r: Option<usize>)
        requires
            self.table_wf(),
        ensures
            self.spec_weight_of(*letter) == 0 ==> r is None,
            self.spec_weight_of(*letter) > 0 ==> r == Some(self.spec_weight_of(*letter) as usize),
    ;

    /// The number of distinct counted bytes.
    fn len(&self) -> (r: usize)
        requires
            self.table_wf(),
        ensures
            r <= 256,
    ;

    /// True if no byte has been counted.
    fn is_empty(&self) -> (r: bool)
        requires
            self.table_wf(),
        ensures
            r <==> (forall|b: u8| self.spec_weight_of(b) == 0),
    ;
}

/// Table of the number of occurrences of each byte in a byte slice.
///
/// Internally a fixed 256-slot table plus the number of distinct bytes seen.
pub struct ByteWeights {
    weights: Vec<usize>,
    len: usize,
}

impl ByteWeights {
    /// Structural invariant: 256 slots, `len` distinct counted bytes.
    pub closed spec fn wf(&self) -> bool {
        counts_wf(self.weights@, self.len)
    }

    /// The weight this table stores for byte `b`.
    pub closed spec fn spec_weight(&self, b: u8) -> nat {
        self.weights@[b as int] as nat
    }

    /// The number of distinct bytes with a nonzero weight.
    pub closed spec fn spec_len(&self) -> nat {
        nonzero_count(self.weights@)
    }

    /// Initialize new empty `ByteWeights`.
    pub fn new() -> (r: Self)
        ensures
            r.wf(),
            forall|b: u8| r.spec_weight(b) == 0,
    {
        let mut weights: Vec<usize> = Vec::new();
        let mut k: usize = 0;
        while k < 256
            invariant
                0 <= k <= 256,
                weights@.len() == k,
                forall|i: int| 0 <= i < k ==> weights@[i] == 0,
            decreases 256 - k,
        {
            weights.push(0);
            k = k + 1;
        }
        proof {
            lemma_nonzero_count_zero(weights@);
        }
        ByteWeights { weights, len: 0 }
    }

    /// Count every byte of `bytes` into a fresh table.
    pub fn from_bytes(bytes: &[u8]) -> (r: Self)
        ensures
            r.wf(),
            forall|b: u8| r.spec_weight(b) == count_byte(bytes@, b),
    {
        let (weights, len) = counts_from_bytes(bytes);
        ByteWeights { weights, len }
    }

    /// The weight of `byte`, or `None` if it was never counted.
    pub fn get(&self, byte: &u8) -> (r: Option<usize>)
        requires
            self.wf(),
        ensures
            self.spec_weight(*byte) == 0 ==> r is None,
            self.spec_weight(*byte) > 0 ==> r == Some(self.spec_weight(*byte) as usize),
    {
        let w = self.weights[*byte as usize];
        if w == 0 {
            None
        } else {
            Some(w)
        }
    }

    /// The number of distinct counted bytes.
    pub fn len(&self) -> (r: usize)
        requires
            self.wf(),
        ensures
            r == self.spec_len(),
            r <= 256,
    {
        proof {
            lemma_nonzero_count_le_len(self.weights@);
        }
        self.len
    }

    /// True if no byte has been counted.
    pub fn is_empty(&self) -> (r: bool)
        requires
            self.wf(),
        ensures
            r <==> (forall|b: u8| self.spec_weight(b) == 0),
    {
        proof {
            lemma_nonzero_count_zero(self.weights@);
            if forall|i: int| 0 <= i < 256 ==> self.weights@[i] == 0 {
                assert forall|b: u8| self.spec_weight(b) == 0 by {
                    assert(self.weights@[b as int] == 0);
                }
            }
            if nonzero_count(self.weights@) != 0 {
                let i = choose|i: int| 0 <= i < 256 && self.weights@[i] != 0;
                assert(self.spec_weight(i as u8) != 0);
            }
        }
        self.len == 0
    }

    /// The counted bytes in ascending order, each with its weight.
    pub fn iter(&self) -> (r: Vec<(u8, usize)>)
        requires
            self.wf(),
        ensures
            forall|k: int|
                0 <= k < r@.len() ==> (#[trigger] r@[k]).1 == self.spec_weight(r@[k].0) && r@[k].1
                    > 0,
            forall|k1: int, k2: int| 0 <= k1 < k2 < r@.len() ==> r@[k1].0 < r@[k2].0,
            forall|b: u8|
                self.spec_weight(b) > 0 ==> exists|k: int|
                    0 <= k < r@.len() && (#[trigger] r@[k]) == (b, self.spec_weight(b) as usize),
            r@.len() == self.spec_len(),
            r@.len() <= 256,
    {
        proof {
            lemma_nonzero_count_le_len(self.weights@);
        }
        counts_iter(&self.weights)
    }

    /// Add another `ByteWeights` to self: weights of bytes present in both
    /// are summed, bytes present only in `other` are inserted.
    pub fn add_byte_weights(&mut self, other: &ByteWeights)
        requires
            old(self).wf(),
            other.wf(),
            forall|b: u8| old(self).spec_weight(b) + other.spec_weight(b) <= usize::MAX,
        ensures
            final(self).wf(),
            forall|b: u8|
                final(self).spec_weight(b) == old(self).spec_weight(b) + other.spec_weight(b),
    {
        proof {
            assert forall|b: u8| self.weights@[b as int] + other.weights@[b as int]
                <= usize::MAX by {
                assert(old(self).spec_weight(b) + other.spec_weight(b) <= usize::MAX);
            }
        }
        counts_add(&mut self.weights, &mut self.len, &other.weights);
    }
}

/// Sum of the weights of all bytes below `k`.
pub open spec fn sum_weights(w: ByteWeights, k: int) -> nat
    decreases k,
{
    if k <= 0 {
        0
    } else {
        sum_weights(w, k - 1) + w.spec_weight((k - 1) as u8)
    }
}

/// Sum of the occurrence counts of all bytes below `k` in `s`.
pub open spec fn sum_counts(s: Seq<u8>, k: int) -> nat
    decreases k,
{
    if k <= 0 {
        0
    } else {
        sum_counts(s, k - 1) + count_byte(s, (k - 1) as u8)
    }
}

proof fn lemma_sum_counts_drop_last(s: Seq<u8>, k: int)
    requires
        s.len() > 0,
        0 <= k <= 256,
    ensures
        sum_counts(s, k) == sum_counts(s.drop_last(), k) + if (s.last() as int) < k {
            1nat
        } else {
            0nat
        },
    decreases k,
{
    if k > 0 {
        lemma_sum_counts_drop_last(s, k - 1);
    }
}

proof fn lemma_sum_counts_empty(s: Seq<u8>, k: int)
    requires
        s.len() == 0,
    ensures
        sum_counts(s, k) == 0,
    decreases k,
{
    if k > 0 {
        lemma_sum_counts_empty(s, k - 1);
    }
}

/// The occurrence counts of all 256 bytes sum to the length of the slice.
pub proof fn lemma_sum_counts_is_len(s: Seq<u8>)
    ensures
        sum_counts(s, 256) == s.len(),
    decreases s.len(),
{
    if s.len() == 0 {
        lemma_sum_counts_empty(s, 256);
    } else {
        lemma_sum_counts_is_len(s.drop_last());
        lemma_sum_counts_drop_last(s, 256);
    }
}

/// If a table's weights equal the occurrence counts of `s`, the weight sums
/// agree as well.
pub proof fn lemma_sum_weights_counts(w: ByteWeights, s: Seq<u8>, k: int)
    requires
        forall|b: u8| w.spec_weight(b) == count_byte(s, b),
    ensures
        sum_weights(w, k) == sum_counts(s, k),
    decreases k,
{
    if k > 0 {
        lemma_sum_weights_counts(w, s, k - 1);
    }
}

/// A stored weight always fits in `usize`.
pub proof fn lemma_spec_weight_bound(w: ByteWeights, b: u8)
    requires
        w.wf(),
    ensures
        w.spec_weight(b) <= usize::MAX,
{
    assert(w.weights@[b as int] <= usize::MAX);
}

/// The number of distinct counted bytes equals the number of bytes below
/// `256` with a nonzero weight.
pub open spec fn support_count(w: ByteWeights, k: int) -> nat
    decreases k,
{
    if k <= 0 {
        0
    } else {
        support_count(w, k - 1) + if w.spec_weight((k - 1) as u8) > 0 {
            1nat
        } else {
            0nat
        }
    }
}

pub proof fn lemma_spec_len_is_support(w: ByteWeights)
    requires
        w.wf(),
    ensures
        w.spec_len() == support_count(w, 256),
{
    lemma_spec_len_is_support_below(w, 256);
    assert(w.weights@.subrange(0, 256) =~= w.weights@);
}

proof fn lemma_spec_len_is_support_below(w: ByteWeights, k: int)
    requires
        w.wf(),
        0 <= k <= 256,
    ensures
        nonzero_count(w.weights@.subrange(0, k)) == support_count(w, k),
    decreases k,
{
    if k > 0 {
        lemma_spec_len_is_support_below(w, k - 1);
        assert(w.weights@.subrange(0, k).drop_last() =~= w.weights@.subrange(0, k - 1));
        assert(w.weights@.subrange(0, k).last() == w.weights@[k - 1]);
        assert(w.spec_weight((k - 1) as u8) == w.weights@[k - 1]);
    }
}

impl Weights for ByteWeights {
    open spec fn spec_weight_of(&self, b: u8) -> nat {
        self.spec_weight(b)
    }

    open spec fn table_wf(&self) -> bool {
        self.wf()
    }

    fn get(&self, letter: &u8) -> (r: Option<usize>) {
        ByteWeights::get(self, letter)
    }

    fn len(&self) -> (r: usize) {
        ByteWeights::len(self)
    }

    fn is_empty(&self) -> (r: bool) {
        let r = ByteWeights::is_empty(self);
        proof {
            if r {
                assert forall|b: u8| self.spec_weight_of(b) == 0 by {
                    assert(self.spec_weight(b) == 0);
                }
            } else {
                let b = choose|b: u8| self.spec_weight(b) != 0;
                assert(self.spec_weight_of(b) != 0);
            }
        }
        r
    }
}

impl Default for ByteWeights {
    /// An empty table.
    fn default() -> (r: Self)
        ensures
            r.wf(),
            forall|b: u8| r.spec_weight(b) == 0,
    {
        ByteWeights::new()
    }
}

} // verus!
