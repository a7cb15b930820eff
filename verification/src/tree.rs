//! The Huffman tree: a binary prefix tree built from a weight table by
//! greedy minimum-weight merging.
//!
//! Ties between equal minimum weights are broken deterministically: the
//! builder always takes the branch that entered the working list first, and
//! leaves enter in ascending byte order, so identical input always yields an
//! identical tree.

use vstd::prelude::*;

use crate::code::HuffCode;
use crate::error::Error;
use crate::error::ErrorKind;
use crate::weights::ByteWeights;
use crate::weights::count_byte;
use crate::weights::lemma_count_byte_le_len;
use crate::weights::lemma_spec_len_is_support;
use crate::weights::lemma_sum_counts_is_len;
use crate::weights::lemma_sum_weights_counts;
use crate::weights::sum_weights;
use crate::weights::support_count;

verus! {

/// A leaf record carried by every branch: the stored letter (`None` for a
/// joint branch) and the branch's weight.
#[derive(Clone, Copy, Debug, PartialEq, Eq)]
pub struct HuffLeaf {
    pub letter: Option<u8>,
    pub frequency: usize,
}

impl HuffLeaf {
    /// Initialize a new `HuffLeaf` with the given letter and frequency.
    pub fn new(letter: Option<u8>, frequency: usize) -> (r: Self)
        ensures
            r.letter == letter,
            r.frequency == frequency,
    {
        HuffLeaf { letter, frequency }
    }

    /// The stored letter, or `None` for a joint branch.
    pub fn letter(&self) -> (r: Option<u8>)
        ensures
            r == self.letter,
    {
        self.letter
    }

    /// The branch's weight.
    pub fn frequency(&self) -> (r: usize)
        ensures
            r == self.frequency,
    {
        self.frequency
    }
}

/// One node of a Huffman tree: a leaf record and, for a joint branch, the
/// exclusively owned left and right children.
pub struct HuffBranch {
    pub leaf: HuffLeaf,
    pub children: Option<(Box<HuffBranch>, Box<HuffBranch>)>,
}

impl HuffBranch {
    /// Initialize a new `HuffBranch` from its leaf record and its children.
    pub fn new(leaf: HuffLeaf, children: Option<(Box<HuffBranch>, Box<HuffBranch>)>) -> (r: Self)
        ensures
            r.leaf == leaf,
            r.children == children,
    {
        HuffBranch { leaf, children }
    }

    /// The branch's leaf record.
    pub fn leaf(&self) -> (r: HuffLeaf)
        ensures
            r == self.leaf,
    {
        self.leaf
    }

    /// True for a joint branch.
    pub fn has_children(&self) -> (r: bool)
        ensures
            r <==> self.children is Some,
    {
        self.children.is_some()
    }
}

impl PartialEq for HuffBranch {
    /// Deep structural equality of two branches.
    fn eq(&self, other: &Self) -> (r: bool)
        decreases self,
    {
        let leaf_eq = match (self.leaf.letter, other.leaf.letter) {
            (None, None) => true,
            (Some(a), Some(b)) => a == b,
            _ => false,
        } && self.leaf.frequency == other.leaf.frequency;
        if !leaf_eq {
            return false;
        }
        match (&self.children, &other.children) {
            (None, None) => true,
            (Some(c), Some(d)) => *c.0 == *d.0 && *c.1 == *d.1,
            _ => false,
        }
    }
}

impl vstd::std_specs::cmp::PartialEqSpecImpl for HuffBranch {
    open spec fn obeys_eq_spec() -> bool {
        true
    }

    open spec fn eq_spec(&self, other: &HuffBranch) -> bool {
        self == other
    }
}

/// Well-formed branch: a childless branch stores a letter; a joint branch
/// stores none and its weight is the sum of its children's weights.
pub open spec fn wf(b: HuffBranch) -> bool
    decreases b,
{
    match b.children {
        None => b.leaf.letter is Some,
        Some(c) => b.leaf.letter is None && b.leaf.frequency == (*c.0).leaf.frequency + (
        *c.1).leaf.frequency && wf(*c.0) && wf(*c.1),
    }
}

/// Number of leaves of a branch.
pub open spec fn num_leaves(b: HuffBranch) -> nat
    decreases b,
{
    match b.children {
        None => 1,
        Some(c) => num_leaves(*c.0) + num_leaves(*c.1),
    }
}

/// How many leaves of `b` store the letter `x`.
pub open spec fn letter_count(b: HuffBranch, x: u8) -> nat
    decreases b,
{
    match b.children {
        None => if b.leaf.letter == Some(x) {
            1nat
        } else {
            0nat
        },
        Some(c) => letter_count(*c.0, x) + letter_count(*c.1, x),
    }
}

/// The letter `x` occurs at some leaf of `b`.
pub open spec fn has_letter(b: HuffBranch, x: u8) -> bool {
    letter_count(b, x) > 0
}

/// A childless branch storing the letter `x` with weight `w`.
pub open spec fn leaf_branch(x: u8, w: usize) -> HuffBranch {
    HuffBranch { leaf: HuffLeaf { letter: Some(x), frequency: w }, children: None }
}

/// The joint branch merging `a` (left) and `b` (right).
pub open spec fn joint(a: HuffBranch, b: HuffBranch) -> HuffBranch {
    HuffBranch {
        leaf: HuffLeaf {
            letter: None,
            frequency: (a.leaf.frequency + b.leaf.frequency) as usize,
        },
        children: Some((Box::new(a), Box::new(b))),
    }
}

/// The first index of a branch of minimal weight.
pub open spec fn min_weight_idx(s: Seq<HuffBranch>) -> int
    decreases s.len(),
{
    if s.len() <= 1 {
        0
    } else {
        let m = min_weight_idx(s.drop_last());
        if s.last().leaf.frequency < s[m].leaf.frequency {
            s.len() - 1
        } else {
            m
        }
    }
}

pub proof fn lemma_min_weight_idx_range(s: Seq<HuffBranch>)
    requires
        s.len() >= 1,
    ensures
        0 <= min_weight_idx(s) < s.len(),
    decreases s.len(),
{
    if s.len() > 1 {
        lemma_min_weight_idx_range(s.drop_last());
    }
}

/// One greedy merge step: remove the two minimum-weight branches (first the
/// earlier of equals) and append their joint branch.
pub open spec fn build_step(s: Seq<HuffBranch>) -> Seq<HuffBranch> {
    let i = min_weight_idx(s);
    let a = s[i];
    let s1 = s.remove(i);
    let j = min_weight_idx(s1);
    let b = s1[j];
    s1.remove(j).push(joint(a, b))
}

/// Greedy minimum-weight merging: merge until a single branch, the root,
/// remains.
pub open spec fn spec_build(s: Seq<HuffBranch>) -> HuffBranch
    decreases s.len(),
    when s.len() >= 1
    via spec_build_decreases
{
    if s.len() == 1 {
        s[0]
    } else {
        spec_build(build_step(s))
    }
}

#[via_fn]
proof fn spec_build_decreases(s: Seq<HuffBranch>) {
    if s.len() > 1 {
        lemma_min_weight_idx_range(s);
        lemma_min_weight_idx_range(s.remove(min_weight_idx(s)));
    }
}

/// The leaf branches of the bytes below `k` with a nonzero weight, in
/// ascending byte order.
pub open spec fn weight_leaves(w: ByteWeights, k: int) -> Seq<HuffBranch>
    decreases k,
{
    if k <= 0 {
        Seq::empty()
    } else {
        weight_leaves(w, k - 1) + if w.spec_weight((k - 1) as u8) > 0 {
            seq![leaf_branch((k - 1) as u8, w.spec_weight((k - 1) as u8) as usize)]
        } else {
            Seq::empty()
        }
    }
}

/// The leaf branches of the bytes below `k` occurring in `s`, weighted by
/// their occurrence counts, in ascending byte order.
pub open spec fn count_leaves(s: Seq<u8>, k: int) -> Seq<HuffBranch>
    decreases k,
{
    if k <= 0 {
        Seq::empty()
    } else {
        count_leaves(s, k - 1) + if count_byte(s, (k - 1) as u8) > 0 {
            seq![leaf_branch((k - 1) as u8, count_byte(s, (k - 1) as u8) as usize)]
        } else {
            Seq::empty()
        }
    }
}

/// Every branch of the sequence is well formed.
pub open spec fn all_wf(s: Seq<HuffBranch>) -> bool {
    forall|k: int| 0 <= k < s.len() ==> wf(#[trigger] s[k])
}

/// Sum of the weights of a sequence of branches.
pub open spec fn seq_total_freq(s: Seq<HuffBranch>) -> nat
    decreases s.len(),
{
    if s.len() == 0 {
        0
    } else {
        seq_total_freq(s.drop_last()) + (s.last().leaf.frequency as nat)
    }
}

/// Sum of the leaf counts of a sequence of branches.
pub open spec fn seq_num_leaves(s: Seq<HuffBranch>) -> nat
    decreases s.len(),
{
    if s.len() == 0 {
        0
    } else {
        seq_num_leaves(s.drop_last()) + num_leaves(s.last())
    }
}

/// How many leaves over the whole sequence store the letter `x`.
pub open spec fn seq_letter_count(s: Seq<HuffBranch>, x: u8) -> nat
    decreases s.len(),
{
    if s.len() == 0 {
        0
    } else {
        seq_letter_count(s.drop_last(), x) + letter_count(s.last(), x)
    }
}

proof fn lemma_seq_total_freq_remove(s: Seq<HuffBranch>, i: int)
    requires
        0 <= i < s.len(),
    ensures
        seq_total_freq(s.remove(i)) + s[i].leaf.frequency == seq_total_freq(s),
    decreases s.len(),
{
    if i == s.len() - 1 {
        assert(s.remove(i) =~= s.drop_last());
    } else {
        lemma_seq_total_freq_remove(s.drop_last(), i);
        assert(s.remove(i).drop_last() =~= s.drop_last().remove(i));
        assert(s.remove(i).last() == s.last());
    }
}

proof fn lemma_seq_num_leaves_remove(s: Seq<HuffBranch>, i: int)
    requires
        0 <= i < s.len(),
    ensures
        seq_num_leaves(s.remove(i)) + num_leaves(s[i]) == seq_num_leaves(s),
    decreases s.len(),
{
    if i == s.len() - 1 {
        assert(s.remove(i) =~= s.drop_last());
    } else {
        lemma_seq_num_leaves_remove(s.drop_last(), i);
        assert(s.remove(i).drop_last() =~= s.drop_last().remove(i));
        assert(s.remove(i).last() == s.last());
    }
}

proof fn lemma_seq_letter_count_remove(s: Seq<HuffBranch>, i: int, x: u8)
    requires
        0 <= i < s.len(),
    ensures
        seq_letter_count(s.remove(i), x) + letter_count(s[i], x) == seq_letter_count(s, x),
    decreases s.len(),
{
    if i == s.len() - 1 {
        assert(s.remove(i) =~= s.drop_last());
    } else {
        lemma_seq_letter_count_remove(s.drop_last(), i, x);
        assert(s.remove(i).drop_last() =~= s.drop_last().remove(i));
        assert(s.remove(i).last() == s.last());
    }
}

proof fn lemma_freq_le_total(s: Seq<HuffBranch>, i: int)
    requires
        0 <= i < s.len(),
    ensures
        s[i].leaf.frequency <= seq_total_freq(s),
    decreases s.len(),
{
    if i == s.len() - 1 {
    } else {
        lemma_freq_le_total(s.drop_last(), i);
        assert(s.drop_last()[i] == s[i]);
    }
}

proof fn lemma_weight_leaves_facts(w: ByteWeights, k: int)
    requires
        w.wf(),
        0 <= k <= 256,
    ensures
        weight_leaves(w, k).len() == support_count(w, k),
        seq_total_freq(weight_leaves(w, k)) == sum_weights(w, k),
        seq_num_leaves(weight_leaves(w, k)) == support_count(w, k),
        all_wf(weight_leaves(w, k)),
        forall|x: u8|
            seq_letter_count(weight_leaves(w, k), x) == if (x as int) < k && w.spec_weight(x)
                > 0 {
                1nat
            } else {
                0nat
            },
    decreases k,
{
    if k > 0 {
        lemma_weight_leaves_facts(w, k - 1);
        let prev = weight_leaves(w, k - 1);
        let cur = weight_leaves(w, k);
        if w.spec_weight((k - 1) as u8) > 0 {
            crate::weights::lemma_spec_weight_bound(w, (k - 1) as u8);
            let lb = leaf_branch((k - 1) as u8, w.spec_weight((k - 1) as u8) as usize);
            assert(cur =~= prev.push(lb));
            assert(cur.drop_last() =~= prev);
            assert(cur.last() == lb);
            assert forall|x: u8|
                seq_letter_count(cur, x) == if (x as int) < k && w.spec_weight(x) > 0 {
                    1nat
                } else {
                    0nat
                } by {
                assert(seq_letter_count(cur, x) == seq_letter_count(prev, x) + letter_count(
                    lb,
                    x,
                ));
                assert(letter_count(lb, x) == if x == (k - 1) as u8 {
                    1nat
                } else {
                    0nat
                });
                assert(seq_letter_count(prev, x) == if (x as int) < k - 1 && w.spec_weight(x)
                    > 0 {
                    1nat
                } else {
                    0nat
                });
                if x == (k - 1) as u8 {
                    assert((x as int) == k - 1);
                } else {
                    assert((x as int) != k - 1);
                }
            }
        } else {
            assert(cur =~= prev);
        }
    }
}

proof fn lemma_support_le(w: ByteWeights, k: int)
    requires
        k >= 0,
    ensures
        support_count(w, k) <= k,
    decreases k,
{
    if k > 0 {
        lemma_support_le(w, k - 1);
    }
}

/// Remove and return the branch of minimal weight, taking the earliest of
/// equals.
fn pop_min(branches: &mut Vec<HuffBranch>) -> (r: HuffBranch)
    requires
        old(branches)@.len() >= 1,
    ensures
        r == old(branches)@[min_weight_idx(old(branches)@)],
        final(branches)@ == old(branches)@.remove(min_weight_idx(old(branches)@)),
{
    let n = branches.len();
    let mut best: usize = 0;
    let mut i: usize = 1;
    while i < n
        invariant
            1 <= i <= n == branches@.len(),
            0 <= best < i,
            best as int == min_weight_idx(branches@.subrange(0, i as int)),
        decreases n - i,
    {
        proof {
            let ext = branches@.subrange(0, i + 1);
            assert(ext.drop_last() =~= branches@.subrange(0, i as int));
            assert(ext.last() == branches@[i as int]);
        }
        if branches[i].leaf.frequency < branches[best].leaf.frequency {
            best = i;
        }
        i = i + 1;
    }
    proof {
        assert(branches@.subrange(0, n as int) =~= branches@);
    }
    branches.remove(best)
}

/// Struct representing a Huffman tree built over the byte alphabet.
///
/// Joint branches have exactly two children; every leaf stores a distinct
/// byte. A tree built from a weight table carries the table's weights; one
/// rebuilt from its serialized shape carries weight 0 everywhere.
pub struct HuffTree {
    pub root: HuffBranch,
}

impl HuffTree {
    /// A reference to the tree's root branch.
    pub fn root(&self) -> (r: &HuffBranch)
        ensures
            r == &self.root,
    {
        &self.root
    }

    /// Build the tree for the given weight table by greedy minimum-weight
    /// merging, ties broken by insertion order; an empty table is an error.
    pub fn from_weights(weights: ByteWeights) -> (r: Result<HuffTree, Error>)
        requires
            weights.wf(),
            sum_weights(weights, 256) <= usize::MAX,
        ensures
            (forall|b: u8| weights.spec_weight(b) == 0) <==> r is Err,
            r is Err ==> r->Err_0.kind == ErrorKind::InvalidInput && r->Err_0.message@
                == "provided empty weights"@,
            r is Ok ==> r->Ok_0.root == spec_build(weight_leaves(weights, 256)),
            r is Ok ==> wf(r->Ok_0.root),
            r is Ok ==> forall|x: u8|
                letter_count(r->Ok_0.root, x) == if weights.spec_weight(x) > 0 {
                    1nat
                } else {
                    0nat
                },
            r is Ok ==> num_leaves(r->Ok_0.root) == weights.spec_len() <= 256,
    {
        if weights.is_empty() {
            return Err(Error::new("provided empty weights", ErrorKind::InvalidInput));
        }
        proof {
            lemma_spec_len_is_support(weights);
            lemma_support_le(weights, 256);
            lemma_weight_leaves_facts(weights, 256);
        }
        let mut branches: Vec<HuffBranch> = Vec::new();
        let mut b: usize = 0;
        while b < 256
            invariant
                0 <= b <= 256,
                weights.wf(),
                branches@ == weight_leaves(weights, b as int),
            decreases 256 - b,
        {
            match weights.get(&(b as u8)) {
                Some(w) => {
                    branches.push(HuffBranch::new(HuffLeaf::new(Some(b as u8), w), None));
                    proof {
                        assert(branches@ =~= weight_leaves(weights, b + 1));
                    }
                },
                None => {
                    proof {
                        assert(branches@ =~= weight_leaves(weights, b + 1));
                    }
                },
            }
            b = b + 1;
        }
        proof {
            if branches@.len() == 0 {
                let x = choose|x: u8| weights.spec_weight(x) != 0;
                assert(seq_letter_count(branches@, x) == 1);
                assert(seq_letter_count(Seq::<HuffBranch>::empty(), x) == 0);
            }
        }
        let ghost leaves = branches@;
        while branches.len() > 1
            invariant
                1 <= branches@.len(),
                all_wf(branches@),
                spec_build(branches@) == spec_build(leaves),
                seq_total_freq(branches@) == seq_total_freq(leaves),
                seq_num_leaves(branches@) == seq_num_leaves(leaves),
                forall|x: u8| seq_letter_count(branches@, x) == seq_letter_count(leaves, x),
                seq_total_freq(leaves) <= usize::MAX,
            decreases branches@.len(),
        {
            let ghost s = branches@;
            proof {
                lemma_min_weight_idx_range(s);
            }
            let a = pop_min(&mut branches);
            let ghost s1 = branches@;
            proof {
                lemma_min_weight_idx_range(s1);
                lemma_seq_total_freq_remove(s, min_weight_idx(s));
                lemma_freq_le_total(s1, min_weight_idx(s1));
                lemma_seq_total_freq_remove(s1, min_weight_idx(s1));
                lemma_seq_num_leaves_remove(s, min_weight_idx(s));
                lemma_seq_num_leaves_remove(s1, min_weight_idx(s1));
            }
            let b2 = pop_min(&mut branches);
            let freq_sum = a.leaf.frequency + b2.leaf.frequency;
            let merged = HuffBranch::new(
                HuffLeaf::new(None, freq_sum),
                Some((Box::new(a), Box::new(b2))),
            );
            proof {
                assert(merged == joint(a, b2));
            }
            branches.push(merged);
            proof {
                assert(branches@ =~= build_step(s));
                assert(spec_build(s) == spec_build(build_step(s)));
                assert(branches@.drop_last() =~= s1.remove(min_weight_idx(s1)));
                assert(branches@.last() == merged);
                assert forall|x: u8|
                    seq_letter_count(branches@, x) == seq_letter_count(leaves, x) by {
                    lemma_seq_letter_count_remove(s, min_weight_idx(s), x);
                    lemma_seq_letter_count_remove(s1, min_weight_idx(s1), x);
                }
                assert forall|k: int| 0 <= k < branches@.len() implies wf(
                    #[trigger] branches@[k],
                ) by {
                    if k < branches@.len() - 1 {
                        assert(branches@[k] == s1.remove(min_weight_idx(s1))[k]);
                    }
                }
            }
        }
        let ghost fin = branches@;
        let root = pop_min(&mut branches);
        proof {
            assert(root == fin[0]);
            assert(root == spec_build(leaves));
            assert forall|x: u8|
                letter_count(root, x) == seq_letter_count(leaves, x) by {
                assert(seq![root].drop_last() =~= Seq::<HuffBranch>::empty());
                assert(seq_letter_count(seq![root].drop_last(), x) == 0);
                assert(seq_letter_count(seq![root], x) == letter_count(root, x));
                assert(seq![root] =~= fin);
            }
            assert(num_leaves(root) == seq_num_leaves(leaves)) by {
                assert(seq![root].drop_last() =~= Seq::<HuffBranch>::empty());
                assert(seq_num_leaves(seq![root].drop_last()) == 0);
                assert(seq![root] =~= fin);
            }
            assert(wf(root)) by {
                assert(wf(fin[0]));
            }
        }
        Ok(HuffTree { root })
    }

    /// Build the tree for a byte slice: count the bytes into a weight table
    /// and merge greedily; an empty slice is an error.
    pub fn from_bytes(bytes: &[u8]) -> (r: Result<HuffTree, Error>)
        ensures
            (bytes@.len() == 0) <==> r is Err,
            r is Err ==> r->Err_0.kind == ErrorKind::InvalidInput && r->Err_0.message@
                == "provided empty weights"@,
            r is Ok ==> r->Ok_0.root == spec_build(count_leaves(bytes@, 256)),
            r is Ok ==> wf(r->Ok_0.root),
            r is Ok ==> forall|x: u8|
                letter_count(r->Ok_0.root, x) == if count_byte(bytes@, x) > 0 {
                    1nat
                } else {
                    0nat
                },
            r is Ok ==> num_leaves(r->Ok_0.root) <= 256,
    {
        let n = bytes.len();
        let weights = ByteWeights::from_bytes(bytes);
        proof {
            assert(n == bytes@.len());
            lemma_sum_weights_counts(weights, bytes@, 256);
            lemma_sum_counts_is_len(bytes@);
            lemma_weight_count_leaves(weights, bytes@, 256);
            if bytes@.len() > 0 {
                assert(count_byte(bytes@, bytes@.last()) > 0);
                assert(weights.spec_weight(bytes@.last()) != 0);
            } else {
                assert forall|b: u8| weights.spec_weight(b) == 0 by {
                    assert(count_byte(bytes@, b) == 0);
                }
            }
        }
        HuffTree::from_weights(weights)
    }
}

/// When a table's weights equal the occurrence counts of `s`, their leaf
/// sequences coincide.
pub proof fn lemma_weight_count_leaves(w: ByteWeights, s: Seq<u8>, k: int)
    requires
        forall|b: u8| w.spec_weight(b) == count_byte(s, b),
    ensures
        weight_leaves(w, k) == count_leaves(s, k),
    decreases k,
{
    if k > 0 {
        lemma_weight_count_leaves(w, s, k - 1);
    }
}

/// The root-to-leaf path of the letter `x` in branch `b`: `false` for a left
/// descent, `true` for a right one; the left subtree is searched first.
pub open spec fn code_of(b: HuffBranch, x: u8) -> Option<Seq<bool>>
    decreases b,
{
    match b.children {
        None => if b.leaf.letter == Some(x) {
            Some(Seq::empty())
        } else {
            None
        },
        Some(c) => match code_of(*c.0, x) {
            Some(p) => Some(seq![false] + p),
            None => match code_of(*c.1, x) {
                Some(p) => Some(seq![true] + p),
                None => None,
            },
        },
    }
}

/// The code of the letter `x` in the whole tree: the path for a joint root,
/// and the single bit `0` for a single-leaf tree.
pub open spec fn tree_code(t: HuffTree, x: u8) -> Option<Seq<bool>> {
    if t.root.children is Some {
        code_of(t.root, x)
    } else if t.root.leaf.letter == Some(x) {
        Some(seq![false])
    } else {
        None
    }
}

/// A letter has a path in a branch exactly when one of its leaves stores it.
pub proof fn lemma_code_of_some(b: HuffBranch, x: u8)
    ensures
        code_of(b, x) is Some <==> has_letter(b, x),
    decreases b,
{
    match b.children {
        None => {},
        Some(c) => {
            lemma_code_of_some(*c.0, x);
            lemma_code_of_some(*c.1, x);
        },
    }
}

/// A letter has a code in the tree exactly when one of its leaves stores it.
pub proof fn lemma_tree_code_some(t: HuffTree, x: u8)
    ensures
        tree_code(t, x) is Some <==> has_letter(t.root, x),
{
    if t.root.children is Some {
        lemma_code_of_some(t.root, x);
    }
}

/// `a` is a prefix of `b`.
pub open spec fn is_prefix(a: Seq<bool>, b: Seq<bool>) -> bool {
    a.len() <= b.len() && a == b.subrange(0, a.len() as int)
}

proof fn lemma_code_prefix_step(bit: bool, p: Seq<bool>, q: Seq<bool>)
    requires
        is_prefix(seq![bit] + p, seq![bit] + q),
    ensures
        is_prefix(p, q),
{
    let a = seq![bit] + p;
    let b = seq![bit] + q;
    assert(p =~= b.subrange(0, a.len() as int).subrange(1, a.len() as int));
    assert(b.subrange(0, a.len() as int).subrange(1, a.len() as int) =~= q.subrange(
        0,
        p.len() as int,
    ));
}

/// No letter's path in a branch is a prefix of a different letter's path.
pub proof fn lemma_code_of_prefix_free(b: HuffBranch, x: u8, y: u8)
    requires
        x != y,
        code_of(b, x) is Some,
        code_of(b, y) is Some,
    ensures
        !is_prefix(code_of(b, x)->0, code_of(b, y)->0),
    decreases b,
{
    match b.children {
        None => {},
        Some(c) => {
            let cx = code_of(b, x)->0;
            let cy = code_of(b, y)->0;
            if code_of(*c.0, x) is Some && code_of(*c.0, y) is Some {
                lemma_code_of_prefix_free(*c.0, x, y);
                if is_prefix(cx, cy) {
                    lemma_code_prefix_step(false, code_of(*c.0, x)->0, code_of(*c.0, y)->0);
                }
            } else if code_of(*c.0, x) is None && code_of(*c.0, y) is None {
                lemma_code_of_prefix_free(*c.1, x, y);
                if is_prefix(cx, cy) {
                    lemma_code_prefix_step(true, code_of(*c.1, x)->0, code_of(*c.1, y)->0);
                }
            } else {
                if is_prefix(cx, cy) {
                    assert(cx[0] == cy.subrange(0, cx.len() as int)[0]);
                    assert(cx[0] == cy[0]);
                }
            }
        },
    }
}

/// No leaf's code in a tree is a prefix of a different leaf's code.
pub proof fn lemma_tree_codes_prefix_free(t: HuffTree, x: u8, y: u8)
    requires
        x != y,
        tree_code(t, x) is Some,
        tree_code(t, y) is Some,
    ensures
        !is_prefix(tree_code(t, x)->0, tree_code(t, y)->0),
{
    if t.root.children is Some {
        lemma_code_of_prefix_free(t.root, x, y);
    }
}

/// Does some leaf of `b` store the letter `x`?
fn contains_letter(b: &HuffBranch, x: u8) -> (r: bool)
    ensures
        r <==> has_letter(*b, x),
    decreases *b,
{
    match &b.children {
        None => match b.leaf.letter {
            Some(l) => l == x,
            None => false,
        },
        Some(c) => contains_letter(&c.0, x) || contains_letter(&c.1, x),
    }
}

/// The root-to-leaf path of the letter `x` in branch `b`, or `None` if no
/// leaf stores it.
fn find_code(b: &HuffBranch, x: u8) -> (r: Option<Vec<bool>>)
    ensures
        r is Some <==> has_letter(*b, x),
        r is Some ==> code_of(*b, x) == Some(r->0@),
{
    proof {
        lemma_code_of_some(*b, x);
    }
    if !contains_letter(b, x) {
        return None;
    }
    let mut code: Vec<bool> = Vec::new();
    let mut cur: &HuffBranch = b;
    loop
        invariant
            has_letter(*cur, x),
            code_of(*b, x) is Some,
            code_of(*cur, x) is Some,
            code_of(*b, x)->0 == code@ + code_of(*cur, x)->0,
        ensures
            cur.children is None,
            code_of(*b, x)->0 == code@,
        decreases *cur,
    {
        match &cur.children {
            None => {
                proof {
                    assert(code_of(*cur, x)->0 =~= Seq::<bool>::empty());
                    assert(code@ + Seq::<bool>::empty() =~= code@);
                }
                break;
            },
            Some(c) => {
                proof {
                    lemma_code_of_some(*c.0, x);
                    lemma_code_of_some(*c.1, x);
                }
                let ghost prev = *cur;
                let ghost old_code = code@;
                if contains_letter(&c.0, x) {
                    code.push(false);
                    cur = &c.0;
                    proof {
                        assert(code_of(prev, x)->0 =~= seq![false] + code_of(*cur, x)->0);
                        assert(old_code + (seq![false] + code_of(*cur, x)->0) =~= code@
                            + code_of(*cur, x)->0);
                    }
                } else {
                    code.push(true);
                    cur = &c.1;
                    proof {
                        assert(code_of(prev, x)->0 =~= seq![true] + code_of(*cur, x)->0);
                        assert(old_code + (seq![true] + code_of(*cur, x)->0) =~= code@
                            + code_of(*cur, x)->0);
                    }
                }
            },
        }
    }
    Some(code)
}

/// The pre-order shape serialization of a branch: `1` then both children for
/// a joint branch; `0` then the letter's eight bits for a childless one.
pub open spec fn ser(b: HuffBranch) -> Seq<bool>
    decreases b,
{
    match b.children {
        None => seq![false] + crate::bits::byte_bits(b.leaf.letter->0),
        Some(c) => seq![true] + ser(*c.0) + ser(*c.1),
    }
}

/// The same branch with every weight set to zero.
pub open spec fn zeroed(b: HuffBranch) -> HuffBranch
    decreases b,
{
    match b.children {
        None => HuffBranch {
            leaf: HuffLeaf { letter: b.leaf.letter, frequency: 0 },
            children: None,
        },
        Some(c) => HuffBranch {
            leaf: HuffLeaf { letter: b.leaf.letter, frequency: 0 },
            children: Some((Box::new(zeroed(*c.0)), Box::new(zeroed(*c.1)))),
        },
    }
}

/// Every weight of the branch is zero.
pub open spec fn all_zero(b: HuffBranch) -> bool
    decreases b,
{
    b.leaf.frequency == 0 && match b.children {
        None => true,
        Some(c) => all_zero(*c.0) && all_zero(*c.1),
    }
}

/// Zeroing the weights moves no leaf: the paths are unchanged.
pub proof fn lemma_code_of_zeroed(b: HuffBranch, x: u8)
    ensures
        code_of(zeroed(b), x) == code_of(b, x),
    decreases b,
{
    match b.children {
        None => {},
        Some(c) => {
            lemma_code_of_zeroed(*c.0, x);
            lemma_code_of_zeroed(*c.1, x);
        },
    }
}

pub proof fn lemma_zeroed_facts(b: HuffBranch)
    ensures
        all_zero(zeroed(b)),
        num_leaves(zeroed(b)) == num_leaves(b),
        zeroed(b).children is Some <==> b.children is Some,
        zeroed(b).leaf.letter == b.leaf.letter,
        wf(b) ==> wf(zeroed(b)),
        forall|x: u8| letter_count(zeroed(b), x) == letter_count(b, x),
    decreases b,
{
    match b.children {
        None => {
            assert forall|x: u8| letter_count(zeroed(b), x) == letter_count(b, x) by {
                assert(zeroed(b).leaf.letter == b.leaf.letter);
            }
        },
        Some(c) => {
            lemma_zeroed_facts(*c.0);
            lemma_zeroed_facts(*c.1);
            assert forall|x: u8| letter_count(zeroed(b), x) == letter_count(b, x) by {
                assert(letter_count(zeroed(*c.0), x) == letter_count(*c.0, x));
                assert(letter_count(zeroed(*c.1), x) == letter_count(*c.1, x));
            }
        },
    }
}

/// A serialized well-formed branch takes `10 * num_leaves - 1` bits.
pub proof fn lemma_ser_len(b: HuffBranch)
    requires
        wf(b),
    ensures
        ser(b).len() == 10 * num_leaves(b) - 1,
    decreases b,
{
    match b.children {
        None => {
            crate::bits::lemma_val_bits_len(b.leaf.letter->0 as nat, 8);
        },
        Some(c) => {
            lemma_ser_len(*c.0);
            lemma_ser_len(*c.1);
        },
    }
}

/// Shape parser with explicit recursion fuel: parse one branch starting at
/// bit `i`, returning the branch (weights zero) and the next unread index.
pub open spec fn spec_parse_fuel(bits: Seq<bool>, i: int, fuel: nat) -> Option<(HuffBranch, int)>
    decreases fuel,
{
    if fuel == 0 {
        None
    } else if !(0 <= i < bits.len()) {
        None
    } else if bits[i] {
        match spec_parse_fuel(bits, i + 1, (fuel - 1) as nat) {
            None => None,
            Some((l, j)) => match spec_parse_fuel(bits, j, (fuel - 1) as nat) {
                None => None,
                Some((r, k)) => Some(
                    (
                        HuffBranch {
                            leaf: HuffLeaf { letter: None, frequency: 0 },
                            children: Some((Box::new(l), Box::new(r))),
                        },
                        k,
                    ),
                ),
            },
        }
    } else {
        if i + 9 <= bits.len() {
            Some(
                (
                    leaf_branch(crate::bits::bits_val(bits.subrange(i + 1, i + 9)) as u8, 0),
                    i + 9,
                ),
            )
        } else {
            None
        }
    }
}

/// The shape parser: `bits.len() + 1` recursion fuel always suffices.
pub open spec fn spec_parse(bits: Seq<bool>, i: int) -> Option<(HuffBranch, int)> {
    spec_parse_fuel(bits, i, (bits.len() + 1) as nat)
}

/// A successful parse consumes at least one bit, stays within the input,
/// and yields a well-formed all-zero-weight branch.
pub proof fn lemma_parse_fuel_bound(bits: Seq<bool>, i: int, fuel: nat)
    requires
        spec_parse_fuel(bits, i, fuel) is Some,
    ensures
        i < (spec_parse_fuel(bits, i, fuel)->0).1 <= bits.len(),
        wf((spec_parse_fuel(bits, i, fuel)->0).0),
        all_zero((spec_parse_fuel(bits, i, fuel)->0).0),
    decreases fuel,
{
    if fuel > 0 && 0 <= i < bits.len() && bits[i] {
        lemma_parse_fuel_bound(bits, i + 1, (fuel - 1) as nat);
        let j = (spec_parse_fuel(bits, i + 1, (fuel - 1) as nat)->0).1;
        lemma_parse_fuel_bound(bits, j, (fuel - 1) as nat);
    }
}

/// Above `bits.len() - i` the exact amount of fuel does not matter.
pub proof fn lemma_parse_fuel_sat(bits: Seq<bool>, i: int, f1: nat, f2: nat)
    requires
        0 <= i,
        f1 >= bits.len() - i + 1,
        f2 >= bits.len() - i + 1,
    ensures
        spec_parse_fuel(bits, i, f1) == spec_parse_fuel(bits, i, f2),
    decreases f1,
{
    if i > bits.len() {
        // both sides fail immediately, whatever the fuel
    } else if f1 == 0 || f2 == 0 {
        // impossible: both are at least 1
    } else if 0 <= i < bits.len() && bits[i] {
        lemma_parse_fuel_sat(bits, i + 1, (f1 - 1) as nat, (f2 - 1) as nat);
        match spec_parse_fuel(bits, i + 1, (f1 - 1) as nat) {
            None => {},
            Some((l, j)) => {
                lemma_parse_fuel_bound(bits, i + 1, (f1 - 1) as nat);
                lemma_parse_fuel_sat(bits, j, (f1 - 1) as nat, (f2 - 1) as nat);
            },
        }
    }
}

/// Parsing the serialization of a well-formed branch, wherever it stands in
/// a longer bit stream, yields that branch with its weights zeroed and stops
/// exactly at its end.
pub proof fn lemma_parse_ser(t: HuffBranch, bits: Seq<bool>, i: int)
    requires
        wf(t),
        0 <= i,
        i + ser(t).len() <= bits.len(),
        bits.subrange(i, i + ser(t).len()) == ser(t),
    ensures
        spec_parse(bits, i) == Some((zeroed(t), i + ser(t).len())),
    decreases t,
{
    let n = bits.len();
    match t.children {
        None => {
            let lb = crate::bits::byte_bits(t.leaf.letter->0);
            crate::bits::lemma_val_bits_len(t.leaf.letter->0 as nat, 8);
            assert(ser(t).len() == 9);
            assert(bits[i] == ser(t)[0]);
            assert(ser(t)[0] == false);
            assert(bits.subrange(i + 1, i + 9) =~= lb) by {
                assert forall|q: int| 0 <= q < 8 implies bits.subrange(i + 1, i + 9)[q] == lb[q] by {
                    assert(bits.subrange(i, i + 9)[q + 1] == lb[q]);
                }
            }
            assert(crate::bits::pow2(8) == 256) by {
                reveal_with_fuel(crate::bits::pow2, 9);
            }
            assert((t.leaf.letter->0 as nat) < 256);
            crate::bits::lemma_bits_val_val_bits(t.leaf.letter->0 as nat, 8);
            assert((crate::bits::bits_val(lb) as u8) == t.leaf.letter->0) by {
                crate::bits::lemma_bits_val_bound(lb);
            }
            assert(zeroed(t) == leaf_branch(t.leaf.letter->0, 0));
        },
        Some(c) => {
            let sl = ser(*c.0);
            let sr = ser(*c.1);
            assert(ser(t).len() == 1 + sl.len() + sr.len());
            assert(bits[i] == ser(t)[0]);
            assert(ser(t)[0] == true);
            assert(bits.subrange(i + 1, i + 1 + sl.len() as int) =~= sl) by {
                assert forall|q: int| 0 <= q < sl.len() implies bits.subrange(
                    i + 1,
                    i + 1 + sl.len() as int,
                )[q] == sl[q] by {
                    assert(bits.subrange(i, i + ser(t).len() as int)[q + 1] == ser(t)[q + 1]);
                    assert(ser(t)[q + 1] == sl[q]);
                }
            }
            lemma_parse_ser(*c.0, bits, i + 1);
            let j = i + 1 + sl.len();
            assert(bits.subrange(j, j + sr.len() as int) =~= sr) by {
                assert forall|q: int| 0 <= q < sr.len() implies bits.subrange(
                    j,
                    j + sr.len() as int,
                )[q] == sr[q] by {
                    assert(bits.subrange(i, i + ser(t).len() as int)[1 + sl.len() + q] == ser(
                        t,
                    )[1 + sl.len() + q]);
                    assert(ser(t)[1 + sl.len() + q] == sr[q]);
                }
            }
            lemma_parse_ser(*c.1, bits, j);
            let k = j + sr.len();
            // relate the canonical parses at i + 1 and j to the fuel the
            // parse at i hands down
            lemma_parse_fuel_sat(bits, i + 1, n as nat, (n + 1) as nat);
            lemma_parse_fuel_sat(bits, j, n as nat, (n + 1) as nat);
            assert(spec_parse_fuel(bits, i + 1, n as nat) == Some((zeroed(*c.0), j)));
            assert(spec_parse_fuel(bits, j, n as nat) == Some((zeroed(*c.1), k)));
            assert(spec_parse(bits, i) == Some((zeroed(t), k)));
        },
    }
}

/// Append the shape serialization of `b` to `bits`.
fn push_ser(bits: &mut Vec<bool>, b: &HuffBranch)
    requires
        wf(*b),
    ensures
        final(bits)@ == old(bits)@ + ser(*b),
    decreases *b,
{
    match &b.children {
        None => {
            bits.push(false);
            let letter = match b.leaf.letter {
                Some(l) => l,
                None => 0,
            };
            crate::bits::push_byte_bits(bits, letter);
            proof {
                assert(bits@ =~= old(bits)@ + ser(*b));
            }
        },
        Some(c) => {
            bits.push(true);
            push_ser(bits, &c.0);
            push_ser(bits, &c.1);
            proof {
                assert(bits@ =~= old(bits)@ + ser(*b));
            }
        },
    }
}

/// Error encountered while trying to reconstruct a tree from its serialized
/// shape.
#[derive(Clone, Copy, Debug)]
pub struct FromBinError {
    message: &'static str,
}

/// The message of the error returned when the bits end before the shape is
/// complete.
pub open spec fn too_small_msg() -> Seq<char> {
    "provided bits are too small for an encoded tree"@
}

/// The message of the error returned when bits remain after a complete
/// shape.
pub open spec fn too_big_msg() -> Seq<char> {
    "provided bits are too big for an encoded tree"@
}

impl FromBinError {
    /// Initialize a new `FromBinError` with the given message.
    pub fn new(message: &'static str) -> (r: Self)
        ensures
            r.spec_message() == message@,
    {
        FromBinError { message }
    }

    /// Return the message.
    pub fn message(&self) -> (r: &str)
        ensures
            r@ == self.spec_message(),
    {
        self.message
    }

    /// The stored message.
    pub closed spec fn spec_message(&self) -> Seq<char> {
        self.message@
    }
}

/// Parse one branch of a serialized shape starting at bit `i`.
fn parse_branch(bits: &Vec<bool>, i: usize) -> (r: Option<(HuffBranch, usize)>)
    requires
        i <= bits@.len(),
    ensures
        r is Some <==> spec_parse(bits@, i as int) is Some,
        r is Some ==> spec_parse(bits@, i as int) == Some(((r->0).0, (r->0).1 as int)),
        r is Some ==> i < (r->0).1 <= bits@.len(),
        r is Some ==> wf((r->0).0) && all_zero((r->0).0),
    decreases bits@.len() - i,
{
    proof {
        if spec_parse(bits@, i as int) is Some {
            lemma_parse_fuel_bound(bits@, i as int, (bits@.len() + 1) as nat);
        }
    }
    let n = bits.len();
    if i >= n {
        return None;
    }
    if bits[i] {
        proof {
            lemma_parse_fuel_sat(bits@, i + 1, n as nat, (n + 1) as nat);
        }
        let left = match parse_branch(bits, i + 1) {
            Some(l) => l,
            None => {
                return None;
            },
        };
        let (l, j) = left;
        proof {
            lemma_parse_fuel_sat(bits@, j as int, n as nat, (n + 1) as nat);
        }
        let right = match parse_branch(bits, j) {
            Some(r) => r,
            None => {
                return None;
            },
        };
        let (rt, k) = right;
        let merged = HuffBranch::new(
            HuffLeaf::new(None, 0),
            Some((Box::new(l), Box::new(rt))),
        );
        Some((merged, k))
    } else {
        if n - i >= 9 {
            let letter = crate::bits::take_byte(bits, i + 1);
            proof {
                let sub = bits@.subrange(i + 1, i + 9);
                crate::bits::lemma_bits_val_bound(sub);
                crate::bits::lemma_bits_val_val_bits(crate::bits::bits_val(sub), 8);
                assert(crate::bits::pow2(8) == 256) by {
                    reveal_with_fuel(crate::bits::pow2, 9);
                }
                assert(crate::bits::byte_bits(letter) == sub);
                crate::bits::lemma_bits_val_val_bits(letter as nat, 8);
                assert(crate::bits::bits_val(sub) == letter as nat);
            }
            Some((HuffBranch::new(HuffLeaf::new(Some(letter), 0), None), i + 9))
        } else {
            None
        }
    }
}

impl HuffTree {
    /// The tree's shape serialized in pre-order: `1` for a joint branch,
    /// `0` followed by the letter's eight bits for a leaf. Weights are not
    /// stored.
    pub fn as_bin(&self) -> (r: Vec<bool>)
        requires
            wf(self.root),
        ensures
            r@ == ser(self.root),
    {
        let mut bits: Vec<bool> = Vec::new();
        push_ser(&mut bits, &self.root);
        proof {
            assert(bits@ =~= ser(self.root));
        }
        bits
    }

    /// Try to reconstruct a tree from its serialized shape. Every weight of
    /// the reconstructed tree is zero, as weights are not stored. The bits
    /// must encode exactly one tree: trailing bits are an error, as is
    /// running out of bits before the shape is complete.
    pub fn try_from_bin(bin: &Vec<bool>) -> (r: Result<HuffTree, FromBinError>)
        ensures
            r is Ok <==> (spec_parse(bin@, 0) is Some && (spec_parse(bin@, 0)->0).1 == bin@.len()),
            r is Ok ==> r->Ok_0.root == (spec_parse(bin@, 0)->0).0 && wf(r->Ok_0.root) && all_zero(
                r->Ok_0.root,
            ),
            spec_parse(bin@, 0) is None <==> r is Err && r->Err_0.spec_message()
                == too_small_msg(),
            (spec_parse(bin@, 0) is Some && (spec_parse(bin@, 0)->0).1 < bin@.len()) <==> r is Err
                && r->Err_0.spec_message() == too_big_msg(),
    {
        proof {
            if spec_parse(bin@, 0) is Some {
                lemma_parse_fuel_bound(bin@, 0, (bin@.len() + 1) as nat);
            }
        }
        proof {
            reveal_strlit("provided bits are too small for an encoded tree");
            reveal_strlit("provided bits are too big for an encoded tree");
        }
        match parse_branch(bin, 0) {
            None => {
                let e = FromBinError::new("provided bits are too small for an encoded tree");
                proof {
                    assert(e.spec_message() =~= too_small_msg());
                    assert(!(e.spec_message() =~= too_big_msg()));
                }
                Err(e)
            },
            Some((root, next)) => {
                if next < bin.len() {
                    let e = FromBinError::new("provided bits are too big for an encoded tree");
                    proof {
                        assert(e.spec_message() =~= too_big_msg());
                        assert(!(e.spec_message() =~= too_small_msg()));
                    }
                    Err(e)
                } else {
                    Ok(HuffTree { root })
                }
            },
        }
    }
}

impl HuffTree {
    /// The code of each byte as a 256-slot table: slot `b` holds `b`'s code,
    /// or `None` when no leaf stores `b`.
    pub fn code_table(&self) -> (r: Vec<Option<HuffCode>>)
        ensures
            r@.len() == 256,
            forall|b: u8| ((#[trigger] r@[b as int]) is Some <==> tree_code(*self, b) is Some),
            forall|b: u8|
                r@[b as int] is Some ==> (r@[b as int]->0)@ == tree_code(*self, b)->0,
    {
        let mut table: Vec<Option<HuffCode>> = Vec::new();
        if self.root.has_children() {
            let mut b: usize = 0;
            while b < 256
                invariant
                    0 <= b <= 256,
                    self.root.children is Some,
                    table@.len() == b,
                    forall|j: int|
                        0 <= j < b ==> ((#[trigger] table@[j]) is Some <==> tree_code(
                            *self,
                            j as u8,
                        ) is Some),
                    forall|j: int|
                        0 <= j < b ==> (table@[j] is Some ==> (table@[j]->0)@ == tree_code(
                            *self,
                            j as u8,
                        )->0),
                decreases 256 - b,
            {
                proof {
                    lemma_code_of_some(self.root, b as u8);
                }
                match find_code(&self.root, b as u8) {
                    Some(v) => {
                        let mut hc = HuffCode::new();
                        hc.append_bits(&v);
                        proof {
                            assert(hc@ =~= v@);
                        }
                        table.push(Some(hc));
                    },
                    None => {
                        table.push(None);
                    },
                }
                b = b + 1;
            }
        } else {
            let letter = match self.root.leaf.letter {
                Some(l) => Some(l),
                None => None,
            };
            let mut b: usize = 0;
            while b < 256
                invariant
                    0 <= b <= 256,
                    self.root.children is None,
                    letter == self.root.leaf.letter,
                    table@.len() == b,
                    forall|j: int|
                        0 <= j < b ==> ((#[trigger] table@[j]) is Some <==> tree_code(
                            *self,
                            j as u8,
                        ) is Some),
                    forall|j: int|
                        0 <= j < b ==> (table@[j] is Some ==> (table@[j]->0)@ == tree_code(
                            *self,
                            j as u8,
                        )->0),
                decreases 256 - b,
            {
                let matches_letter = match letter {
                    Some(l) => l == b as u8,
                    None => false,
                };
                if matches_letter {
                    let mut hc = HuffCode::new();
                    hc.push(false);
                    proof {
                        assert(hc@ =~= seq![false]);
                    }
                    table.push(Some(hc));
                } else {
                    table.push(None);
                }
                b = b + 1;
            }
        }
        proof {
            assert forall|b: u8| ((#[trigger] table@[b as int]) is Some <==> tree_code(
                *self,
                b,
            ) is Some) by {
                assert(0 <= (b as int) < 256);
            }
        }
        table
    }

    /// Every coded byte with its code, in ascending byte order.
    pub fn read_codes(&self) -> (r: Vec<(u8, HuffCode)>)
        ensures
            forall|k: int|
                0 <= k < r@.len() ==> tree_code(*self, (#[trigger] r@[k]).0) == Some(r@[k].1@),
            forall|k1: int, k2: int| 0 <= k1 < k2 < r@.len() ==> r@[k1].0 < r@[k2].0,
            forall|b: u8|
                tree_code(*self, b) is Some ==> exists|k: int|
                    0 <= k < r@.len() && (#[trigger] r@[k]).0 == b,
    {
        let table = self.code_table();
        let mut out: Vec<(u8, HuffCode)> = Vec::new();
        let mut b: usize = 0;
        while b < 256
            invariant
                0 <= b <= 256,
                table@.len() == 256,
                forall|x: u8| ((#[trigger] table@[x as int]) is Some <==> tree_code(
                    *self,
                    x,
                ) is Some),
                forall|x: u8|
                    table@[x as int] is Some ==> (table@[x as int]->0)@ == tree_code(*self, x)->0,
                forall|k: int|
                    0 <= k < out@.len() ==> tree_code(*self, (#[trigger] out@[k]).0) == Some(
                        out@[k].1@,
                    ) && (out@[k].0 as int) < b,
                forall|k1: int, k2: int| 0 <= k1 < k2 < out@.len() ==> out@[k1].0 < out@[k2].0,
                forall|x: u8|
                    (x as int) < b && tree_code(*self, x) is Some ==> exists|k: int|
                        0 <= k < out@.len() && (#[trigger] out@[k]).0 == x,
            decreases 256 - b,
        {
            let entry = &table[b];
            match entry {
                Some(hc) => {
                    let mut copy = HuffCode::new();
                    let bits = hc.iter();
                    copy.append_bits(&bits);
                    proof {
                        assert(copy@ =~= (table@[b as int]->0)@);
                    }
                    let ghost old_out = out@;
                    out.push((b as u8, copy));
                    proof {
                        assert forall|x: u8|
                            (x as int) < b + 1 && tree_code(*self, x) is Some implies exists|
                            k: int,
                        |
                            0 <= k < out@.len() && (#[trigger] out@[k]).0 == x by {
                            if (x as int) < b {
                                let k = choose|k: int|
                                    0 <= k < old_out.len() && (#[trigger] old_out[k]).0 == x;
                                assert(out@[k].0 == x);
                            } else {
                                assert(out@[old_out.len() as int].0 == x);
                            }
                        }
                    }
                },
                None => {
                    proof {
                        assert forall|x: u8|
                            (x as int) < b + 1 && tree_code(*self, x) is Some implies exists|
                            k: int,
                        |
                            0 <= k < out@.len() && (#[trigger] out@[k]).0 == x by {
                            if (x as int) < b {
                            } else {
                                assert(table@[x as int] is None);
                            }
                        }
                    }
                },
            }
            b = b + 1;
        }
        out
    }

    /// Read the codes directly out of a serialized tree shape: reconstruct
    /// the tree, then list each code with its byte.
    pub fn coded_bytes_from_bin(bin: &Vec<bool>) -> (r: Result<
        Vec<(HuffCode, u8)>,
        FromBinError,
    >)
        ensures
            r is Ok <==> (spec_parse(bin@, 0) is Some && (spec_parse(bin@, 0)->0).1
                == bin@.len()),
            r is Ok ==> forall|k: int|
                0 <= k < r->Ok_0@.len() ==> tree_code(
                    HuffTree { root: (spec_parse(bin@, 0)->0).0 },
                    (#[trigger] r->Ok_0@[k]).1,
                ) == Some(r->Ok_0@[k].0@),
            r is Ok ==> forall|b: u8|
                tree_code(HuffTree { root: (spec_parse(bin@, 0)->0).0 }, b) is Some
                    ==> exists|k: int|
                    0 <= k < r->Ok_0@.len() && (#[trigger] r->Ok_0@[k]).1 == b,
            r is Ok ==> forall|k1: int, k2: int|
                0 <= k1 < k2 < r->Ok_0@.len() ==> r->Ok_0@[k1].1 < r->Ok_0@[k2].1,
    {
        let tree = match HuffTree::try_from_bin(bin) {
            Ok(t) => t,
            Err(e) => {
                return Err(e);
            },
        };
        let codes = tree.read_codes();
        let mut out: Vec<(HuffCode, u8)> = Vec::new();
        let mut i: usize = 0;
        while i < codes.len()
            invariant
                0 <= i <= codes@.len(),
                out@.len() == i,
                forall|k: int|
                    0 <= k < i ==> (#[trigger] out@[k]).0@ == codes@[k].1@ && out@[k].1
                        == codes@[k].0,
                forall|k: int|
                    0 <= k < codes@.len() ==> tree_code(tree, (#[trigger] codes@[k]).0) == Some(
                        codes@[k].1@,
                    ),
                forall|b: u8|
                    tree_code(tree, b) is Some ==> exists|k: int|
                        0 <= k < codes@.len() && (#[trigger] codes@[k]).0 == b,
            decreases codes@.len() - i,
        {
            let byte = codes[i].0;
            let bits = codes[i].1.iter();
            let mut hc = HuffCode::new();
            hc.append_bits(&bits);
            proof {
                assert(hc@ =~= codes@[i as int].1@);
            }
            out.push((hc, byte));
            i = i + 1;
        }
        proof {
            assert forall|b: u8|
                tree_code(tree, b) is Some implies exists|k: int|
                0 <= k < out@.len() && (#[trigger] out@[k]).1 == b by {
                let k = choose|k: int| 0 <= k < codes@.len() && (#[trigger] codes@[k]).0 == b;
                assert(out@[k].1 == b);
            }
        }
        Ok(out)
    }
}

/// What greedy merging guarantees of its result: well-formedness, leaf
/// count and per-letter leaf counts carry over from the starting branches.
pub proof fn lemma_spec_build_facts(s: Seq<HuffBranch>)
    requires
        s.len() >= 1,
        all_wf(s),
        seq_total_freq(s) <= usize::MAX,
    ensures
        wf(spec_build(s)),
        num_leaves(spec_build(s)) == seq_num_leaves(s),
        forall|x: u8| letter_count(spec_build(s), x) == seq_letter_count(s, x),
    decreases s.len(),
{
    if s.len() == 1 {
        assert(spec_build(s) == s[0]);
        assert(wf(s[0]));
        assert(s.drop_last() =~= Seq::<HuffBranch>::empty());
        assert(seq_num_leaves(s.drop_last()) == 0);
        assert(seq_total_freq(s.drop_last()) == 0);
        assert(s.last() == s[0]);
        assert(seq_num_leaves(s) == num_leaves(s[0]));
        assert forall|x: u8| letter_count(spec_build(s), x) == seq_letter_count(s, x) by {
            assert(seq_letter_count(s.drop_last(), x) == 0);
            assert(seq_letter_count(s, x) == seq_letter_count(s.drop_last(), x) + letter_count(
                s[0],
                x,
            ));
        }
    } else {
        lemma_min_weight_idx_range(s);
        let i = min_weight_idx(s);
        let a = s[i];
        let s1 = s.remove(i);
        lemma_min_weight_idx_range(s1);
        let j = min_weight_idx(s1);
        let b = s1[j];
        let s2 = s1.remove(j);
        let m = joint(a, b);
        let stepped = s2.push(m);
        lemma_seq_total_freq_remove(s, i);
        lemma_freq_le_total(s1, j);
        lemma_seq_total_freq_remove(s1, j);
        lemma_seq_num_leaves_remove(s, i);
        lemma_seq_num_leaves_remove(s1, j);
        assert(wf(m)) by {
            assert(wf(a) && wf(b));
            assert(a.leaf.frequency + b.leaf.frequency <= usize::MAX);
        }
        assert(all_wf(stepped)) by {
            assert forall|k: int| 0 <= k < stepped.len() implies wf(#[trigger] stepped[k]) by {
                if k < stepped.len() - 1 {
                    assert(stepped[k] == s2[k]);
                    assert(wf(s1[if k < j {
                        k
                    } else {
                        k + 1
                    }]));
                }
            }
        }
        assert(seq_total_freq(stepped) == seq_total_freq(s)) by {
            assert(stepped.drop_last() =~= s2);
            assert(stepped.last() == m);
        }
        assert(seq_num_leaves(stepped) == seq_num_leaves(s)) by {
            assert(stepped.drop_last() =~= s2);
            assert(stepped.last() == m);
        }
        lemma_spec_build_facts(stepped);
        assert(spec_build(s) == spec_build(stepped));
        assert forall|x: u8| letter_count(spec_build(s), x) == seq_letter_count(s, x) by {
            lemma_seq_letter_count_remove(s, i, x);
            lemma_seq_letter_count_remove(s1, j, x);
            assert(stepped.drop_last() =~= s2);
            assert(stepped.last() == m);
            assert(seq_letter_count(stepped, x) == seq_letter_count(s2, x) + letter_count(m, x));
        }
    }
}

/// The facts `count_leaves` provides about its leaf sequence.
pub proof fn lemma_count_leaves_facts(s: Seq<u8>, k: int)
    requires
        0 <= k <= 256,
        s.len() <= usize::MAX,
    ensures
        count_leaves(s, k).len() <= k,
        seq_total_freq(count_leaves(s, k)) == crate::weights::sum_counts(s, k),
        seq_num_leaves(count_leaves(s, k)) == count_leaves(s, k).len(),
        all_wf(count_leaves(s, k)),
        forall|x: u8|
            seq_letter_count(count_leaves(s, k), x) == if (x as int) < k && count_byte(s, x)
                > 0 {
                1nat
            } else {
                0nat
            },
    decreases k,
{
    if k > 0 {
        lemma_count_leaves_facts(s, k - 1);
        let prev = count_leaves(s, k - 1);
        let cur = count_leaves(s, k);
        if count_byte(s, (k - 1) as u8) > 0 {
            lemma_count_byte_le_len(s, (k - 1) as u8);
            let lb = leaf_branch((k - 1) as u8, count_byte(s, (k - 1) as u8) as usize);
            assert(cur =~= prev.push(lb));
            assert(cur.drop_last() =~= prev);
            assert(cur.last() == lb);
            assert forall|x: u8|
                seq_letter_count(cur, x) == if (x as int) < k && count_byte(s, x) > 0 {
                    1nat
                } else {
                    0nat
                } by {
                assert(seq_letter_count(cur, x) == seq_letter_count(prev, x) + letter_count(
                    lb,
                    x,
                ));
                if x == (k - 1) as u8 {
                    assert((x as int) == k - 1);
                } else {
                    assert((x as int) != k - 1);
                }
            }
        } else {
            assert(cur =~= prev);
        }
    }
}

/// Zeroing the weights changes no code in the whole tree either.
pub proof fn lemma_tree_code_zeroed(t: HuffTree)
    ensures
        forall|x: u8|
            tree_code(HuffTree { root: zeroed(t.root) }, x) == tree_code(t, x),
{
    lemma_zeroed_facts(t.root);
    assert forall|x: u8|
        tree_code(HuffTree { root: zeroed(t.root) }, x) == tree_code(t, x) by {
        lemma_code_of_zeroed(t.root, x);
    }
}

/// Every code a tree assigns holds at least one bit.
pub proof fn lemma_tree_code_len(t: HuffTree, x: u8)
    requires
        tree_code(t, x) is Some,
    ensures
        tree_code(t, x)->0.len() >= 1,
{
    if t.root.children is Some {
        match t.root.children {
            Some(c) => {
                match code_of(*c.0, x) {
                    Some(p) => {
                        assert(tree_code(t, x)->0 == seq![false] + p);
                    },
                    None => {
                        let p = code_of(*c.1, x)->0;
                        assert(tree_code(t, x)->0 == seq![true] + p);
                    },
                }
            },
            None => {},
        }
    }
}

} // verus!
