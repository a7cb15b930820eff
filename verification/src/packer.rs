//! The bit packer: turn a byte slice into the concatenation of its letters'
//! codes, packed eight bits to a byte, and walk a tree bit by bit to turn
//! packed bytes back into letters.
//!
//! The chunked encoder and decoder process bounded chunks and keep the bit
//! stream seamless across chunk boundaries: the encoder carries up to seven
//! pending bits between chunks, and the decoder's tree cursor survives from
//! one chunk to the next, so a code may straddle a boundary.

use vstd::prelude::*;

use crate::bits::bits_to_bytes;
use crate::bits::bytes_bits;
use crate::bits::bytes_to_bits;
use crate::bits::zeros;
use crate::cmpr::missing_code_msg;
use crate::cmpr::CompressError;
use crate::code::HuffCode;
use crate::tree::code_of;
use crate::tree::tree_code;
use crate::tree::wf;
use crate::tree::HuffBranch;
use crate::tree::HuffTree;
use crate::utils::spec_padding_bits;

verus! {

/// The code a 256-slot table assigns to the byte `b`.
pub open spec fn table_code(table: Seq<Option<HuffCode>>, b: u8) -> Option<Seq<bool>> {
    match table[b as int] {
        Some(c) => Some(c@),
        None => None,
    }
}

/// The concatenation of the codes a table assigns to the bytes of `s`.
pub open spec fn table_bits(table: Seq<Option<HuffCode>>, s: Seq<u8>) -> Seq<bool>
    decreases s.len(),
{
    if s.len() == 0 {
        Seq::empty()
    } else {
        table_code(table, s[0])->0 + table_bits(table, s.subrange(1, s.len() as int))
    }
}

/// The concatenation of the codes a tree assigns to the bytes of `s`.
pub open spec fn code_bits(t: HuffTree, s: Seq<u8>) -> Seq<bool>
    decreases s.len(),
{
    if s.len() == 0 {
        Seq::empty()
    } else {
        tree_code(t, s[0])->0 + code_bits(t, s.subrange(1, s.len() as int))
    }
}

/// Every byte of `s` has a code in the tree.
pub open spec fn all_coded(t: HuffTree, s: Seq<u8>) -> bool {
    forall|i: int| 0 <= i < s.len() ==> tree_code(t, #[trigger] s[i]) is Some
}

/// Every byte of `s` has a code in the table.
pub open spec fn all_table_coded(table: Seq<Option<HuffCode>>, s: Seq<u8>) -> bool {
    forall|i: int| 0 <= i < s.len() ==> table_code(table, #[trigger] s[i]) is Some
}

/// The index of the first byte of `s` without a code, or `s.len()` when all
/// bytes are coded.
pub open spec fn first_uncoded(table: Seq<Option<HuffCode>>, s: Seq<u8>) -> int
    decreases s.len(),
{
    if s.len() == 0 {
        0
    } else if table_code(table, s[0]) is None {
        0
    } else {
        1 + first_uncoded(table, s.subrange(1, s.len() as int))
    }
}

/// The index of the first byte of `s` the tree assigns no code, or
/// `s.len()` when every byte is coded.
pub open spec fn first_uncoded_tree(t: HuffTree, s: Seq<u8>) -> int
    decreases s.len(),
{
    if s.len() == 0 {
        0
    } else if tree_code(t, s[0]) is None {
        0
    } else {
        1 + first_uncoded_tree(t, s.subrange(1, s.len() as int))
    }
}

/// When a table and a tree assign the same codes, the first uncoded byte is
/// the same.
pub proof fn lemma_first_uncoded_eq(table: Seq<Option<HuffCode>>, t: HuffTree, s: Seq<u8>)
    requires
        forall|b: u8| table_code(table, b) == tree_code(t, b),
    ensures
        first_uncoded(table, s) == first_uncoded_tree(t, s),
    decreases s.len(),
{
    if s.len() > 0 {
        lemma_first_uncoded_eq(table, t, s.subrange(1, s.len() as int));
    }
}

/// When a table and a tree assign the same codes, the packed streams agree.
pub proof fn lemma_table_bits_code_bits(table: Seq<Option<HuffCode>>, t: HuffTree, s: Seq<u8>)
    requires
        forall|b: u8| table_code(table, b) == tree_code(t, b),
    ensures
        table_bits(table, s) == code_bits(t, s),
        all_table_coded(table, s) <==> all_coded(t, s),
    decreases s.len(),
{
    if s.len() > 0 {
        lemma_table_bits_code_bits(table, t, s.subrange(1, s.len() as int));
    }
}

/// Two trees that assign the same codes pack every input identically.
pub proof fn lemma_code_bits_congruent(t1: HuffTree, t2: HuffTree, s: Seq<u8>)
    requires
        forall|b: u8| tree_code(t1, b) == tree_code(t2, b),
    ensures
        code_bits(t1, s) == code_bits(t2, s),
        all_coded(t1, s) <==> all_coded(t2, s),
    decreases s.len(),
{
    if s.len() > 0 {
        lemma_code_bits_congruent(t1, t2, s.subrange(1, s.len() as int));
    }
}

/// Packed code streams concatenate over input concatenation.
pub proof fn lemma_table_bits_concat(table: Seq<Option<HuffCode>>, a: Seq<u8>, b: Seq<u8>)
    ensures
        table_bits(table, a + b) == table_bits(table, a) + table_bits(table, b),
    decreases a.len(),
{
    if a.len() == 0 {
        assert(a + b =~= b);
        assert(table_bits(table, a) + table_bits(table, b) =~= table_bits(table, b));
    } else {
        lemma_table_bits_concat(table, a.subrange(1, a.len() as int), b);
        assert((a + b).subrange(1, (a + b).len() as int) =~= a.subrange(1, a.len() as int) + b);
        assert((a + b)[0] == a[0]);
        assert(table_code(table, a[0])->0 + (table_bits(table, a.subrange(1, a.len() as int))
            + table_bits(table, b)) =~= (table_code(table, a[0])->0 + table_bits(
            table,
            a.subrange(1, a.len() as int),
        )) + table_bits(table, b));
    }
}

/// The child of a joint branch selected by one bit: left on `false`, right
/// on `true`.
pub open spec fn child(b: HuffBranch, bit: bool) -> HuffBranch {
    let c = b.children->0;
    if bit {
        *c.1
    } else {
        *c.0
    }
}

/// The branch reached from `b` by following `path`.
pub open spec fn node_at(b: HuffBranch, path: Seq<bool>) -> HuffBranch
    decreases path.len(),
{
    if path.len() == 0 {
        b
    } else {
        node_at(child(b, path[0]), path.subrange(1, path.len() as int))
    }
}

/// `path` only descends through joint branches.
pub open spec fn valid_path(b: HuffBranch, path: Seq<bool>) -> bool
    decreases path.len(),
{
    path.len() == 0 || (b.children is Some && valid_path(
        child(b, path[0]),
        path.subrange(1, path.len() as int),
    ))
}

/// The decoder's cursor invariant: the path is valid and ends at a joint
/// branch, or is empty.
pub open spec fn decoder_inv(root: HuffBranch, path: Seq<bool>) -> bool {
    valid_path(root, path) && (path.len() == 0 || node_at(root, path).children is Some)
}

/// One decoding step: consume one bit from a cursor at `path`. At a joint
/// branch descend, emitting the letter and resetting to the root if a leaf
/// is reached; at a leaf root emit its letter whatever the bit says.
pub open spec fn step_path(root: HuffBranch, path: Seq<bool>, bit: bool) -> (Seq<bool>, Option<
    u8,
>) {
    let node = node_at(root, path);
    if node.children is Some {
        let p2 = path.push(bit);
        let n2 = child(node, bit);
        if n2.children is Some {
            (p2, None)
        } else {
            (Seq::empty(), Some(n2.leaf.letter->0))
        }
    } else {
        (Seq::empty(), Some(node.leaf.letter->0))
    }
}

/// Decode a bit stream from a cursor at `path`: the emitted letters and the
/// final cursor.
pub open spec fn decode_path(root: HuffBranch, path: Seq<bool>, bits: Seq<bool>) -> (Seq<u8>, Seq<
    bool,
>)
    decreases bits.len(),
{
    if bits.len() == 0 {
        (Seq::empty(), path)
    } else {
        let sp = step_path(root, path, bits[0]);
        let rest = decode_path(root, sp.0, bits.subrange(1, bits.len() as int));
        match sp.1 {
            Some(x) => (seq![x] + rest.0, rest.1),
            None => rest,
        }
    }
}

/// A valid path in a well-formed tree leads to a well-formed branch.
pub proof fn lemma_node_at_wf(b: HuffBranch, path: Seq<bool>)
    requires
        wf(b),
        valid_path(b, path),
    ensures
        wf(node_at(b, path)),
    decreases path.len(),
{
    if path.len() > 0 {
        lemma_node_at_wf(child(b, path[0]), path.subrange(1, path.len() as int));
    }
}

/// Extending a valid path by one bit moves the cursor to the corresponding
/// child.
pub proof fn lemma_node_at_push(b: HuffBranch, path: Seq<bool>, bit: bool)
    requires
        valid_path(b, path),
        node_at(b, path).children is Some,
    ensures
        valid_path(b, path.push(bit)),
        node_at(b, path.push(bit)) == child(node_at(b, path), bit),
    decreases path.len(),
{
    let p2 = path.push(bit);
    if path.len() == 0 {
        assert(p2.len() == 1);
        assert(p2[0] == bit);
        assert(p2.subrange(1, 1) =~= Seq::<bool>::empty());
        assert(node_at(b, p2) == node_at(child(b, bit), p2.subrange(1, 1)));
        assert(node_at(child(b, bit), p2.subrange(1, 1)) == child(b, bit));
        assert(node_at(b, path) == b);
        assert(valid_path(child(b, bit), p2.subrange(1, 1)));
        assert(valid_path(b, p2));
    } else {
        lemma_node_at_push(child(b, path[0]), path.subrange(1, path.len() as int), bit);
        assert(p2[0] == path[0]);
        assert(p2.subrange(1, p2.len() as int) =~= path.subrange(1, path.len() as int).push(
            bit,
        ));
        assert(node_at(b, p2) == node_at(child(b, p2[0]), p2.subrange(1, p2.len() as int)));
        assert(node_at(b, path) == node_at(
            child(b, path[0]),
            path.subrange(1, path.len() as int),
        ));
        assert(valid_path(b, p2));
    }
}

/// One decoding step keeps the cursor invariant.
pub proof fn lemma_step_inv(root: HuffBranch, path: Seq<bool>, bit: bool)
    requires
        wf(root),
        decoder_inv(root, path),
    ensures
        decoder_inv(root, (step_path(root, path, bit)).0),
{
    let node = node_at(root, path);
    if node.children is Some {
        lemma_node_at_push(root, path, bit);
    }
}

/// Decoding a concatenation decodes the first part, then the second from
/// where the cursor stopped.
pub proof fn lemma_decode_path_concat(root: HuffBranch, path: Seq<bool>, a: Seq<bool>, b: Seq<
    bool,
>)
    ensures
        decode_path(root, path, a + b) == (
            decode_path(root, path, a).0 + decode_path(root, decode_path(root, path, a).1, b).0,
            decode_path(root, decode_path(root, path, a).1, b).1,
        ),
    decreases a.len(),
{
    if a.len() == 0 {
        assert(a + b =~= b);
        assert(decode_path(root, path, a).0 + decode_path(root, path, b).0 =~= decode_path(
            root,
            path,
            b,
        ).0);
    } else {
        let sp = step_path(root, path, a[0]);
        lemma_decode_path_concat(root, sp.0, a.subrange(1, a.len() as int), b);
        assert((a + b)[0] == a[0]);
        assert((a + b).subrange(1, (a + b).len() as int) =~= a.subrange(1, a.len() as int) + b);
        match sp.1 {
            Some(x) => {
                let r1 = decode_path(root, sp.0, a.subrange(1, a.len() as int));
                let r2 = decode_path(root, r1.1, b);
                assert(seq![x] + (r1.0 + r2.0) =~= (seq![x] + r1.0) + r2.0);
            },
            None => {},
        }
    }
}

/// A code found in a joint branch starts with the bit of the child that
/// holds the letter, and continues with the letter's code there.
proof fn lemma_code_of_step(n: HuffBranch, x: u8)
    requires
        n.children is Some,
        code_of(n, x) is Some,
    ensures
        code_of(n, x)->0.len() >= 1,
        code_of(child(n, code_of(n, x)->0[0]), x) == Some(
            code_of(n, x)->0.subrange(1, code_of(n, x)->0.len() as int),
        ),
{
    let c = n.children->0;
    let p = code_of(n, x)->0;
    match code_of(*c.0, x) {
        Some(q) => {
            assert(p =~= seq![false] + q);
            assert(p[0] == false);
            assert(p.subrange(1, p.len() as int) =~= q);
        },
        None => {
            let q = code_of(*c.1, x)->0;
            assert(p =~= seq![true] + q);
            assert(p[0] == true);
            assert(p.subrange(1, p.len() as int) =~= q);
        },
    }
}

/// Only a leaf storing the letter has the empty code for it.
proof fn lemma_code_of_empty(n: HuffBranch, x: u8)
    requires
        code_of(n, x) is Some,
        code_of(n, x)->0.len() == 0,
    ensures
        n.children is None,
        n.leaf.letter == Some(x),
{
    if n.children is Some {
        lemma_code_of_step(n, x);
    }
}

/// Decoding the code of `x` from a cursor at a joint branch emits exactly
/// `x`, returns the cursor to the root, and then decodes the rest.
proof fn lemma_decode_code(
    root: HuffBranch,
    path: Seq<bool>,
    x: u8,
    c: Seq<bool>,
    rest: Seq<bool>,
)
    requires
        wf(root),
        valid_path(root, path),
        node_at(root, path).children is Some,
        code_of(node_at(root, path), x) == Some(c),
    ensures
        decode_path(root, path, c + rest) == (
            seq![x] + decode_path(root, Seq::<bool>::empty(), rest).0,
            decode_path(root, Seq::<bool>::empty(), rest).1,
        ),
    decreases c.len(),
{
    let n = node_at(root, path);
    lemma_node_at_wf(root, path);
    lemma_code_of_step(n, x);
    let bit = c[0];
    let n2 = child(n, bit);
    lemma_node_at_push(root, path, bit);
    assert((c + rest)[0] == bit);
    assert((c + rest).subrange(1, (c + rest).len() as int) =~= c.subrange(1, c.len() as int)
        + rest);
    if c.len() == 1 {
        lemma_code_of_empty(n2, x);
        assert(wf(n2));
        assert(n2.leaf.letter->0 == x);
        assert(c.subrange(1, 1) =~= Seq::<bool>::empty());
        assert(c.subrange(1, 1) + rest =~= rest);
    } else {
        assert(code_of(n2, x)->0.len() > 0);
        if n2.children is None {
            // a leaf's only code is the empty one
            assert(code_of(n2, x)->0 =~= Seq::<bool>::empty());
            assert(false);
        }
        lemma_decode_code(root, path.push(bit), x, c.subrange(1, c.len() as int), rest);
    }
}

/// Decoding the packed code stream of `s` from the root emits exactly `s`
/// and leaves the cursor at the root.
pub proof fn lemma_decode_encode(t: HuffTree, s: Seq<u8>)
    requires
        wf(t.root),
        all_coded(t, s),
    ensures
        decode_path(t.root, Seq::<bool>::empty(), code_bits(t, s)) == (
            s,
            Seq::<bool>::empty(),
        ),
    decreases s.len(),
{
    if s.len() == 0 {
    } else {
        let tail = s.subrange(1, s.len() as int);
        lemma_decode_encode(t, tail);
        let c = tree_code(t, s[0])->0;
        let rest = code_bits(t, tail);
        if t.root.children is Some {
            lemma_decode_code(t.root, Seq::<bool>::empty(), s[0], c, rest);
            assert(seq![s[0]] + tail =~= s);
        } else {
            assert(t.root.leaf.letter == Some(s[0]));
            assert(c =~= seq![false]);
            assert((c + rest)[0] == false);
            assert((c + rest).subrange(1, (c + rest).len() as int) =~= rest);
            assert(seq![s[0]] + tail =~= s);
        }
    }
}

/// A chunked encoder: packs successive chunks into one seamless bit stream,
/// carrying at most seven pending bits from one chunk to the next.
pub struct ChunkEncoder {
    pending: Vec<bool>,
}

impl ChunkEncoder {
    /// The bits emitted so far that do not yet fill a byte.
    pub closed spec fn spec_pending(&self) -> Seq<bool> {
        self.pending@
    }

    /// At most seven bits are pending.
    pub closed spec fn wf(&self) -> bool {
        self.pending@.len() < 8
    }

    /// A fresh encoder with no pending bits.
    pub fn new() -> (r: Self)
        ensures
            r.wf(),
            r.spec_pending() == Seq::<bool>::empty(),
    {
        ChunkEncoder { pending: Vec::new() }
    }

    /// Encode one chunk with the given code table and return the bytes it
    /// completes; up to seven trailing bits stay pending for the next chunk.
    /// A byte without a code is an error and leaves the encoder unchanged.
    pub fn push_chunk(&mut self, chunk: &[u8], table: &Vec<Option<HuffCode>>) -> (r: Result<
        Vec<u8>,
        CompressError,
    >)
        requires
            old(self).wf(),
            table@.len() == 256,
        ensures
            final(self).wf(),
            r is Ok <==> all_table_coded(table@, chunk@),
            r is Ok ==> bytes_bits(r->Ok_0@) + final(self).spec_pending() == old(
                self,
            ).spec_pending() + table_bits(table@, chunk@),
            r is Err ==> *final(self) == *old(self) && r->Err_0.spec_message()
                == missing_code_msg() && r->Err_0.spec_missing_byte() == chunk@[first_uncoded(
                table@,
                chunk@,
            )],
    {
        // first pass: find the first byte without a code, if any
        let n = chunk.len();
        let mut i: usize = 0;
        while i < n
            invariant
                0 <= i <= n == chunk@.len(),
                table@.len() == 256,
                *self == *old(self),
                self.wf(),
                forall|j: int| 0 <= j < i ==> table_code(table@, #[trigger] chunk@[j]) is Some,
            decreases n - i,
        {
            if table[chunk[i] as usize].is_none() {
                proof {
                    reveal_strlit("byte not found in codes");
                    lemma_first_uncoded_at(table@, chunk@, i as int);
                }
                let e = CompressError::new("byte not found in codes", chunk[i]);
                proof {
                    assert(e.spec_message() =~= missing_code_msg());
                }
                return Err(e);
            }
            i = i + 1;
        }
        proof {
            lemma_all_coded_prefix(table@, chunk@);
        }
        // second pass: append every code to the pending bits and flush the
        // completed bytes
        let mut bits: Vec<bool> = Vec::new();
        let mut k: usize = 0;
        while k < self.pending.len()
            invariant
                0 <= k <= self.pending@.len(),
                bits@ == self.pending@.subrange(0, k as int),
            decreases self.pending@.len() - k,
        {
            bits.push(self.pending[k]);
            proof {
                assert(bits@ =~= self.pending@.subrange(0, k + 1));
            }
            k = k + 1;
        }
        proof {
            assert(bits@ =~= self.pending@);
        }
        let ghost pend0 = self.pending@;
        let mut i: usize = 0;
        while i < n
            invariant
                0 <= i <= n == chunk@.len(),
                table@.len() == 256,
                all_table_coded(table@, chunk@),
                bits@ == pend0 + table_bits(table@, chunk@.subrange(0, i as int)),
            decreases n - i,
        {
            let b = chunk[i];
            match &table[b as usize] {
                Some(hc) => {
                    hc.push_bits_into(&mut bits);
                    proof {
                        lemma_table_bits_concat(
                            table@,
                            chunk@.subrange(0, i as int),
                            seq![chunk@[i as int]],
                        );
                        assert(chunk@.subrange(0, i + 1) =~= chunk@.subrange(0, i as int) + seq![
                            chunk@[i as int],
                        ]);
                        assert(table_bits(table@, seq![chunk@[i as int]]) =~= table_code(
                            table@,
                            chunk@[i as int],
                        )->0) by {
                            assert(seq![chunk@[i as int]].subrange(1, 1) =~= Seq::<u8>::empty());
                            assert(table_bits(table@, Seq::<u8>::empty()) =~= Seq::<
                                bool,
                            >::empty());
                            assert(table_code(table@, chunk@[i as int])->0 + Seq::<bool>::empty()
                                =~= table_code(table@, chunk@[i as int])->0);
                        }
                        assert(bits@ =~= pend0 + table_bits(table@, chunk@.subrange(0, i + 1)));
                    }
                },
                None => {
                    proof {
                        assert(table_code(table@, chunk@[i as int]) is Some);
                        assert(false);
                    }
                },
            }
            i = i + 1;
        }
        proof {
            assert(chunk@.subrange(0, n as int) =~= chunk@);
        }
        // flush whole bytes, keep the remainder pending
        let total = bits.len();
        let keep = total % 8;
        let flush = total - keep;
        let mut out: Vec<u8> = Vec::new();
        let mut j: usize = 0;
        while j < flush
            invariant
                0 <= j <= flush <= total == bits@.len(),
                flush % 8 == 0,
                flush == total - (total % 8),
                j % 8 == 0,
                8 * out@.len() == j,
                bytes_bits(out@) == bits@.subrange(0, j as int),
            decreases flush - j,
        {
            proof {
                assert((flush - j) % 8 == 0);
                assert(j + 8 <= flush);
            }
            let b = crate::bits::take_byte(&bits, j);
            proof {
                assert(bytes_bits(out@.push(b)) == bytes_bits(out@) + crate::bits::byte_bits(
                    b,
                )) by {
                    assert(out@.push(b).drop_last() =~= out@);
                }
                assert(bits@.subrange(0, j as int) + bits@.subrange(j as int, j + 8)
                    =~= bits@.subrange(0, j + 8));
            }
            out.push(b);
            j = j + 8;
        }
        let mut pending: Vec<bool> = Vec::new();
        let mut p: usize = flush;
        while p < total
            invariant
                flush <= p <= total == bits@.len(),
                pending@ == bits@.subrange(flush as int, p as int),
            decreases total - p,
        {
            pending.push(bits[p]);
            proof {
                assert(pending@ =~= bits@.subrange(flush as int, p + 1));
            }
            p = p + 1;
        }
        self.pending = pending;
        proof {
            assert(bytes_bits(out@) + self.pending@ =~= bits@);
        }
        Ok(out)
    }

    /// Zero-pad the pending bits to a whole byte and return it (or nothing
    /// when no bits are pending) together with the padding bit count, which
    /// is always at most 7.
    pub fn finish(self) -> (r: (Vec<u8>, u8))
        requires
            self.wf(),
        ensures
            r.1 as nat == spec_padding_bits(self.spec_pending().len()),
            r.1 <= 7,
            bytes_bits(r.0@) == self.spec_pending() + zeros(r.1 as nat),
            8 * r.0@.len() == self.spec_pending().len() + r.1 as nat,
    {
        bits_to_bytes(&self.pending)
    }
}

proof fn lemma_first_uncoded_at(table: Seq<Option<HuffCode>>, s: Seq<u8>, i: int)
    requires
        0 <= i < s.len(),
        table_code(table, s[i]) is None,
        forall|j: int| 0 <= j < i ==> table_code(table, #[trigger] s[j]) is Some,
    ensures
        first_uncoded(table, s) == i,
    decreases i,
{
    if i > 0 {
        let tail = s.subrange(1, s.len() as int);
        assert forall|j: int| 0 <= j < i - 1 implies table_code(
            table,
            #[trigger] tail[j],
        ) is Some by {
            assert(tail[j] == s[j + 1]);
        }
        assert(tail[i - 1] == s[i]);
        lemma_first_uncoded_at(table, tail, i - 1);
    }
}

proof fn lemma_all_coded_prefix(table: Seq<Option<HuffCode>>, s: Seq<u8>)
    requires
        forall|j: int| 0 <= j < s.len() ==> table_code(table, #[trigger] s[j]) is Some,
    ensures
        all_table_coded(table, s),
{
}

/// A chunked decoder: walks the tree across successive chunks, the cursor
/// surviving a chunk boundary so a code may straddle it.
pub struct ChunkDecoder {
    path: Vec<bool>,
}

impl ChunkDecoder {
    /// The cursor: the path from the root to the branch the walk stands at.
    pub closed spec fn spec_path(&self) -> Seq<bool> {
        self.path@
    }

    /// A fresh decoder with the cursor at the root.
    pub fn new() -> (r: Self)
        ensures
            r.spec_path() == Seq::<bool>::empty(),
    {
        ChunkDecoder { path: Vec::new() }
    }

    /// Decode one chunk of packed bytes with the given tree, ignoring the
    /// trailing `drop_bits` bits of the chunk's last byte; the cursor is
    /// left wherever the walk stops, ready for the next chunk.
    pub fn push_chunk(&mut self, tree: &HuffTree, bytes: &[u8], drop_bits: u8) -> (r: Vec<u8>)
        requires
            wf(tree.root),
            decoder_inv(tree.root, old(self).spec_path()),
            drop_bits <= 7,
            bytes@.len() == 0 ==> drop_bits == 0,
        ensures
            decoder_inv(tree.root, final(self).spec_path()),
            r@ == decode_path(
                tree.root,
                old(self).spec_path(),
                bytes_bits(bytes@).subrange(0, 8 * bytes@.len() - drop_bits as int),
            ).0,
            final(self).spec_path() == decode_path(
                tree.root,
                old(self).spec_path(),
                bytes_bits(bytes@).subrange(0, 8 * bytes@.len() - drop_bits as int),
            ).1,
    {
        let bits = bytes_to_bits(bytes);
        proof {
            crate::bits::lemma_bytes_bits_len(bytes@);
        }
        let until = bits.len() - drop_bits as usize;
        let ghost whole = bits@.subrange(0, until as int);
        let ghost path0 = self.path@;
        let mut out: Vec<u8> = Vec::new();
        let mut i: usize = 0;
        while i < until
            invariant
                0 <= i <= until <= bits@.len(),
                whole == bits@.subrange(0, until as int),
                wf(tree.root),
                decoder_inv(tree.root, self.path@),
                decode_path(tree.root, path0, whole).0 == out@ + decode_path(
                    tree.root,
                    self.path@,
                    bits@.subrange(i as int, until as int),
                ).0,
                decode_path(tree.root, path0, whole).1 == decode_path(
                    tree.root,
                    self.path@,
                    bits@.subrange(i as int, until as int),
                ).1,
            decreases until - i,
        {
            let bit = bits[i];
            let ghost pre_path = self.path@;
            let ghost seg = bits@.subrange(i as int, until as int);
            proof {
                assert(seg[0] == bit);
                assert(seg.subrange(1, seg.len() as int) =~= bits@.subrange(
                    i + 1,
                    until as int,
                ));
                lemma_step_inv(tree.root, pre_path, bit);
            }
            // descend from the root along the stored path
            let mut cur: &HuffBranch = &tree.root;
            let mut d: usize = 0;
            proof {
                assert(self.path@.subrange(0, 0) =~= Seq::<bool>::empty());
                assert(self.path@.subrange(0, self.path@.len() as int) =~= self.path@);
            }
            while d < self.path.len()
                invariant
                    0 <= d <= self.path@.len(),
                    valid_path(tree.root, self.path@),
                    valid_path(tree.root, self.path@.subrange(0, d as int)),
                    *cur == node_at(tree.root, self.path@.subrange(0, d as int)),
                    valid_path(*cur, self.path@.subrange(d as int, self.path@.len() as int)),
                decreases self.path@.len() - d,
            {
                proof {
                    let rest = self.path@.subrange(d as int, self.path@.len() as int);
                    assert(rest[0] == self.path@[d as int]);
                    assert(rest.subrange(1, rest.len() as int) =~= self.path@.subrange(
                        d + 1,
                        self.path@.len() as int,
                    ));
                    lemma_node_at_push(tree.root, self.path@.subrange(0, d as int), rest[0]);
                    assert(self.path@.subrange(0, d as int).push(rest[0]) =~= self.path@.subrange(
                        0,
                        d + 1,
                    ));
                }
                let step = self.path[d];
                match &cur.children {
                    Some(c) => {
                        cur = if step {
                            &c.1
                        } else {
                            &c.0
                        };
                    },
                    None => {
                        proof {
                            assert(false);
                        }
                    },
                }
                d = d + 1;
            }
            proof {
                assert(self.path@.subrange(0, self.path@.len() as int) =~= self.path@);
                lemma_node_at_wf(tree.root, self.path@);
            }
            // one walk step: descend on the bit, emit at a leaf
            match &cur.children {
                Some(c) => {
                    proof {
                        lemma_node_at_push(tree.root, self.path@, bit);
                    }
                    let next: &HuffBranch = if bit {
                        &c.1
                    } else {
                        &c.0
                    };
                    if next.has_children() {
                        self.path.push(bit);
                    } else {
                        proof {
                            lemma_node_at_push(tree.root, self.path@, bit);
                            assert(wf(*next)) by {
                                lemma_node_at_wf(tree.root, self.path@.push(bit));
                            }
                        }
                        let letter = match next.leaf.letter {
                            Some(l) => l,
                            None => {
                                proof {
                                    assert(false);
                                }
                                0
                            },
                        };
                        out.push(letter);
                        self.path.clear();
                    }
                },
                None => {
                    // single-leaf root: the cursor stands at the root
                    let letter = match cur.leaf.letter {
                        Some(l) => l,
                        None => {
                            proof {
                                assert(false);
                            }
                            0
                        },
                    };
                    out.push(letter);
                },
            }
            i = i + 1;
            proof {
                let sp = step_path(tree.root, pre_path, bit);
                assert(self.path@ == sp.0);
                match sp.1 {
                    Some(x) => {
                        assert(out@ =~= out@.subrange(0, out@.len() - 1) + seq![x]);
                        assert(out@.subrange(0, out@.len() - 1) + (seq![x] + decode_path(
                            tree.root,
                            self.path@,
                            bits@.subrange(i as int, until as int),
                        ).0) =~= out@ + decode_path(
                            tree.root,
                            self.path@,
                            bits@.subrange(i as int, until as int),
                        ).0);
                    },
                    None => {},
                }
            }
        }
        proof {
            assert(bits@.subrange(until as int, until as int) =~= Seq::<bool>::empty());
        }
        out
    }
}

} // verus!
