//! A frequency table over bytes: the same 256-slot occurrence counter as
//! [`crate::weights::ByteWeights`], under the interface of the older
//! frequency-counting API.

use vstd::prelude::*;

use crate::weights::count_byte;
use crate::weights::counts_add;
use crate::weights::counts_from_bytes;
use crate::weights::counts_iter;
use crate::weights::counts_wf;
use crate::weights::lemma_nonzero_count_le_len;
use crate::weights::lemma_nonzero_count_zero;
use crate::weights::nonzero_count;

verus! {

/// Trait signifying that a struct stores a frequency for each byte, so
/// that for any counted byte there is a corresponding `usize` frequency.
pub trait Freq {
    /// The frequency stored for byte `b`.
    spec fn spec_freq_of(&self, b: u8) -> nat;

    /// Structural invariant of the table.
    spec fn table_wf(&self) -> bool;

    /// The frequency of `letter`, or `None` if it never occurred.
    fn get(&self, letter: &u8) -> (r: Option<usize>)
        requires
            self.table_wf(),
        ensures
            self.spec_freq_of(*letter) == 0 ==> r is None,
            self.spec_freq_of(*letter) > 0 ==> r == Some(self.spec_freq_of(*letter) as usize),
    ;

    /// The number of distinct counted bytes.
    fn len(&self) -> (r: usize)
        requires
            self.table_wf(),
        ensures
            r <= 256,
    ;

    /// True if no byte has been counted.
    fn is_empty(&self) -> (r: bool)
        requires
            self.table_wf(),
        ensures
            r <==> (forall|b: u8| self.spec_freq_of(b) == 0),
    ;
}

/// Struct used to count and store the frequency of each byte in a given
/// byte slice.
pub struct ByteFreqs {
    freqs: Vec<usize>,
    len: usize,
}

impl ByteFreqs {
    /// Structural invariant: 256 slots, `len` distinct counted bytes.
    pub closed spec fn wf(&self) -> bool {
        counts_wf(self.freqs@, self.len)
    }

    /// The frequency this table stores for byte `b`.
    pub closed spec fn spec_freq(&self, b: u8) -> nat {
        self.freqs@[b as int] as nat
    }

    /// The number of distinct bytes with a nonzero frequency.
    pub closed spec fn spec_len(&self) -> nat {
        nonzero_count(self.freqs@)
    }

    /// Count every byte of `bytes` into a fresh table.
    pub fn from_bytes(bytes: &[u8]) -> (r: Self)
        ensures
            r.wf(),
            forall|b: u8| r.spec_freq(b) == count_byte(bytes@, b),
    {
        let (freqs, len) = counts_from_bytes(bytes);
        ByteFreqs { freqs, len }
    }

    /// The frequency of `byte`, or `None` if it never occurred.
    pub fn get(&self, byte: &u8) -> (r: Option<usize>)
        requires
            self.wf(),
        ensures
            self.spec_freq(*byte) == 0 ==> r is None,
            self.spec_freq(*byte) > 0 ==> r == Some(self.spec_freq(*byte) as usize),
    {
        let f = self.freqs[*byte as usize];
        if f == 0 {
            None
        } else {
            Some(f)
        }
    }

    /// The number of distinct counted bytes.
    pub fn len(&self) -> (r: usize)
        requires
            self.wf(),
        ensures
            r == self.spec_len(),
            r <= 256,
    {
        proof {
            lemma_nonzero_count_le_len(self.freqs@);
        }
        self.len
    }

    /// True if no byte has been counted.
    pub fn is_empty(&self) -> (r: bool)
        requires
            self.wf(),
        ensures
            r <==> (forall|b: u8| self.spec_freq(b) == 0),
    {
        proof {
            lemma_nonzero_count_zero(self.freqs@);
            if forall|i: int| 0 <= i < 256 ==> self.freqs@[i] == 0 {
                assert forall|b: u8| self.spec_freq(b) == 0 by {
                    assert(self.freqs@[b as int] == 0);
                }
            }
            if nonzero_count(self.freqs@) != 0 {
                let i = choose|i: int| 0 <= i < 256 && self.freqs@[i] != 0;
                assert(self.spec_freq(i as u8) != 0);
            }
        }
        self.len == 0
    }

    /// The counted bytes in ascending order, each with its frequency.
    pub fn iter(&self) -> (r: Vec<(u8, usize)>)
        requires
            self.wf(),
        ensures
            forall|k: int|
                0 <= k < r@.len() ==> (#[trigger] r@[k]).1 == self.spec_freq(r@[k].0) && r@[k].1
                    > 0,
            forall|k1: int, k2: int| 0 <= k1 < k2 < r@.len() ==> r@[k1].0 < r@[k2].0,
            forall|b: u8|
                self.spec_freq(b) > 0 ==> exists|k: int|
                    0 <= k < r@.len() && (#[trigger] r@[k]) == (b, self.spec_freq(b) as usize),
            r@.len() == self.spec_len(),
            r@.len() <= 256,
    {
        proof {
            lemma_nonzero_count_le_len(self.freqs@);
        }
        counts_iter(&self.freqs)
    }

    /// Add another `ByteFreqs` to self: frequencies of bytes present in both
    /// are summed, bytes present only in `other` are inserted.
    pub fn add_byte_freqs(&mut self, other: &ByteFreqs)
        requires
            old(self).wf(),
            other.wf(),
            forall|b: u8| old(self).spec_freq(b) + other.spec_freq(b) <= usize::MAX,
        ensures
            final(self).wf(),
            forall|b: u8|
                final(self).spec_freq(b) == old(self).spec_freq(b) + other.spec_freq(b),
    {
        proof {
            assert forall|b: u8| self.freqs@[b as int] + other.freqs@[b as int]
                <= usize::MAX by {
                assert(old(self).spec_freq(b) + other.spec_freq(b) <= usize::MAX);
            }
        }
        counts_add(&mut self.freqs, &mut self.len, &other.freqs);
    }
}

impl Freq for ByteFreqs {
    open spec fn spec_freq_of(&self, b: u8) -> nat {
        self.spec_freq(b)
    }

    open spec fn table_wf(&self) -> bool {
        self.wf()
    }

    fn get(&self, letter: &u8) -> (r: Option<usize>) {
        ByteFreqs::get(self, letter)
    }

    fn len(&self) -> (r: usize) {
        ByteFreqs::len(self)
    }

    fn is_empty(&self) -> (r: bool) {
        let r = ByteFreqs::is_empty(self);
        proof {
            if r {
                assert forall|b: u8| self.spec_freq_of(b) == 0 by {
                    assert(self.spec_freq(b) == 0);
                }
            } else {
                let b = choose|b: u8| self.spec_freq(b) != 0;
                assert(self.spec_freq_of(b) != 0);
            }
        }
        r
    }
}

} // verus!
