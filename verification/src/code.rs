//! A growable bit string used to store the prefix code of one letter,
//! accessed bitwise, most significant (root-side) bit first.

use vstd::prelude::*;

verus! {

/// Struct used to store the code of a given tree branch, accessed bitwise.
#[derive(Clone, Debug)]
pub struct HuffCode {
    bits: Vec<bool>,
}

impl View for HuffCode {
    type V = Seq<bool>;

    closed spec fn view(&self) -> Seq<bool> {
        self.bits@
    }
}

impl HuffCode {
    /// Initializes an empty code.
    pub fn new() -> (r: HuffCode)
        ensures
            r@ == Seq::<bool>::empty(),
    {
        HuffCode { bits: Vec::new() }
    }

    /// Returns the bit stored at the given index, or `None` if the index is
    /// out of bounds.
    pub fn get(&self, index: usize) -> (r: Option<bool>)
        ensures
            index < self@.len() ==> r == Some(self@[index as int]),
            index >= self@.len() ==> r is None,
    {
        if index >= self.bits.len() {
            None
        } else {
            Some(self.bits[index])
        }
    }

    /// Pushes a bit at the end of the code.
    pub fn push(&mut self, bit: bool)
        ensures
            final(self)@ == old(self)@.push(bit),
    {
        self.bits.push(bit);
    }

    /// Removes the last bit and returns it, or `None` if the code is empty.
    pub fn pop(&mut self) -> (r: Option<bool>)
        ensures
            old(self)@.len() == 0 ==> r is None && final(self)@ == old(self)@,
            old(self)@.len() > 0 ==> r == Some(old(self)@.last()) && final(self)@ == old(
                self,
            )@.drop_last(),
    {
        self.bits.pop()
    }

    /// Clears the code of all bits.
    pub fn clear(&mut self)
        ensures
            final(self)@ == Seq::<bool>::empty(),
    {
        self.bits.clear();
    }

    /// Returns the length of the code in bits.
    pub fn len(&self) -> (r: usize)
        ensures
            r == self@.len(),
    {
        self.bits.len()
    }

    /// Return true if the code holds no bits.
    pub fn is_empty(&self) -> (r: bool)
        ensures
            r <==> self@.len() == 0,
    {
        self.bits.len() == 0
    }

    /// Returns the bits of the code as a vector, in order.
    pub fn iter(&self) -> (r: Vec<bool>)
        ensures
            r@ == self@,
    {
        let mut out: Vec<bool> = Vec::new();
        let mut i: usize = 0;
        while i < self.bits.len()
            invariant
                0 <= i <= self.bits@.len(),
                out@ == self.bits@.subrange(0, i as int),
            decreases self.bits@.len() - i,
        {
            out.push(self.bits[i]);
            proof {
                assert(out@ =~= self.bits@.subrange(0, i + 1));
            }
            i = i + 1;
        }
        proof {
            assert(out@ =~= self.bits@);
        }
        out
    }

    /// Append every bit of the code to `out`, in order.
    pub fn push_bits_into(&self, out: &mut Vec<bool>)
        ensures
            final(out)@ == old(out)@ + self@,
    {
        let mut i: usize = 0;
        while i < self.bits.len()
            invariant
                0 <= i <= self.bits@.len(),
                out@ == old(out)@ + self.bits@.subrange(0, i as int),
            decreases self.bits@.len() - i,
        {
            out.push(self.bits[i]);
            proof {
                assert(out@ =~= old(out)@ + self.bits@.subrange(0, i + 1));
            }
            i = i + 1;
        }
        proof {
            assert(old(out)@ + self.bits@.subrange(0, self.bits@.len() as int) =~= old(out)@
                + self.bits@);
        }
    }

    /// Append every bit of `bits` to the code, in order.
    pub fn append_bits(&mut self, bits: &Vec<bool>)
        ensures
            final(self)@ == old(self)@ + bits@,
    {
        let mut i: usize = 0;
        while i < bits.len()
            invariant
                0 <= i <= bits@.len(),
                self.bits@ == old(self).bits@ + bits@.subrange(0, i as int),
            decreases bits@.len() - i,
        {
            self.bits.push(bits[i]);
            proof {
                assert(self.bits@ =~= old(self).bits@ + bits@.subrange(0, i + 1));
            }
            i = i + 1;
        }
        proof {
            assert(old(self).bits@ + bits@.subrange(0, bits@.len() as int) =~= old(self).bits@
                + bits@);
        }
    }
}

impl PartialEq for HuffCode {
    /// Two codes are equal when they hold the same bits in the same order.
    fn eq(&self, other: &Self) -> (r: bool) {
        if self.bits.len() != other.bits.len() {
            return false;
        }
        let n = self.bits.len();
        let mut i: usize = 0;
        while i < n
            invariant
                0 <= i <= n,
                n == self.bits@.len() == other.bits@.len(),
                forall|j: int| 0 <= j < i ==> self.bits@[j] == other.bits@[j],
            decreases n - i,
        {
            if self.bits[i] != other.bits[i] {
                return false;
            }
            i = i + 1;
        }
        proof {
            assert(self.bits@ =~= other.bits@);
        }
        true
    }
}

impl vstd::std_specs::cmp::PartialEqSpecImpl for HuffCode {
    open spec fn obeys_eq_spec() -> bool {
        true
    }

    open spec fn eq_spec(&self, other: &HuffCode) -> bool {
        self@ == other@
    }
}

} // verus!
