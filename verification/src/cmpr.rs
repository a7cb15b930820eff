//! Whole-buffer compression into the self-contained container format:
//! a padding byte, the serialized tree preceded by its byte length, and the
//! packed code bits.

use vstd::prelude::*;

use crate::bits::be32;
use crate::bits::bits_to_bytes;
use crate::bits::bytes_bits;
use crate::bits::extend_bytes;
use crate::bits::lemma_bytes_bits_concat;
use crate::bits::lemma_bytes_bits_len;
use crate::bits::lemma_bytes_bits_inj;
use crate::bits::lemma_spec_pack;
use crate::bits::push_be32;
use crate::bits::spec_pack;
use crate::bits::zeros;
use crate::code::HuffCode;
use crate::error::Error;
use crate::error::ErrorKind;
use crate::packer::all_coded;
use crate::packer::all_table_coded;
use crate::packer::code_bits;
use crate::packer::first_uncoded_tree;
use crate::packer::lemma_first_uncoded_eq;
use crate::packer::lemma_table_bits_code_bits;
use crate::packer::table_bits;
use crate::packer::table_code;
use crate::packer::ChunkEncoder;
use crate::tree::count_leaves;
use crate::tree::has_letter;
use crate::tree::lemma_ser_len;
use crate::tree::lemma_tree_code_some;
use crate::tree::num_leaves;
use crate::tree::ser;
use crate::tree::spec_build;
use crate::tree::tree_code;
use crate::tree::wf;
use crate::tree::HuffTree;
use crate::utils::spec_padding_bits;
use crate::weights::lemma_count_byte_pos;

verus! {

/// Error encountered while compressing: a byte of the data has no code in
/// the provided tree.
#[derive(Clone, Copy, Debug)]
pub struct CompressError {
    message: &'static str,
    missing_byte: u8,
}

/// The message of the error returned when a byte has no code.
pub open spec fn missing_code_msg() -> Seq<char> {
    "byte not found in codes"@
}

impl CompressError {
    /// Initialize a new `CompressError` with the given message and the byte
    /// that had no code.
    pub fn new(message: &'static str, missing_byte: u8) -> (r: Self)
        ensures
            r.spec_message() == message@,
            r.spec_missing_byte() == missing_byte,
    {
        CompressError { message, missing_byte }
    }

    /// Return the message.
    pub fn message(&self) -> (r: &str)
        ensures
            r@ == self.spec_message(),
    {
        self.message
    }

    /// Return the byte that had no code.
    pub fn missing_byte(&self) -> (r: u8)
        ensures
            r == self.spec_missing_byte(),
    {
        self.missing_byte
    }

    /// The stored message.
    pub closed spec fn spec_message(&self) -> Seq<char> {
        self.message@
    }

    /// The stored byte.
    pub closed spec fn spec_missing_byte(&self) -> u8 {
        self.missing_byte
    }
}

/// The whole container a tree and a data slice compress into: the two
/// padding counts in one byte, the big-endian byte length of the packed
/// tree shape, the packed tree shape, and the packed code stream.
pub open spec fn spec_compressed(t: HuffTree, data: Seq<u8>) -> Seq<u8> {
    let tb = ser(t.root);
    let tpad = spec_padding_bits(tb.len());
    let dbits = code_bits(t, data);
    let dpad = spec_padding_bits(dbits.len());
    seq![(tpad * 16 + dpad) as u8] + be32((tb.len() + tpad) / 8) + spec_pack(tb) + spec_pack(
        dbits,
    )
}

/// The deterministic tree `compress` builds for a byte slice.
pub open spec fn spec_tree(s: Seq<u8>) -> HuffTree {
    HuffTree { root: spec_build(count_leaves(s, 256)) }
}

/// What `compress` returns for a non-empty byte slice.
pub open spec fn spec_compress(s: Seq<u8>) -> Seq<u8> {
    spec_compressed(spec_tree(s), s)
}

/// Pack the code stream of `bytes` and append it to `compressed`, zero
/// padding the final byte; return the number of padding bits, always at
/// most 7. A byte without a code in the table is an error.
pub fn push_compressed_bytes(
    compressed: &mut Vec<u8>,
    bytes: &[u8],
    table: &Vec<Option<HuffCode>>,
) -> (r: Result<u8, CompressError>)
    requires
        table@.len() == 256,
    ensures
        r is Ok <==> all_table_coded(table@, bytes@),
        r is Ok ==> final(compressed)@ == old(compressed)@ + spec_pack(
            table_bits(table@, bytes@),
        ),
        r is Ok ==> r->Ok_0 as nat == spec_padding_bits(table_bits(table@, bytes@).len())
            && r->Ok_0 <= 7,
        r is Err ==> *final(compressed) == *old(compressed) && r->Err_0.spec_message()
            == missing_code_msg() && r->Err_0.spec_missing_byte() == bytes@[
            crate::packer::first_uncoded(table@, bytes@)
        ],
{
    let mut enc = ChunkEncoder::new();
    let body = match enc.push_chunk(bytes, table) {
        Ok(b) => b,
        Err(e) => {
            return Err(e);
        },
    };
    let ghost pend = enc.spec_pending();
    let (tail, dpad) = enc.finish();
    let ghost dbits = table_bits(table@, bytes@);
    proof {
        crate::bits::lemma_bytes_bits_len(body@);
        assert(bytes_bits(body@) + pend =~= dbits);
        assert(dbits.len() % 8 == pend.len() % 8);
        assert(dpad as nat == spec_padding_bits(dbits.len()));
        lemma_bytes_bits_concat(body@, tail@);
        assert(bytes_bits(body@ + tail@) =~= dbits + zeros(dpad as nat));
        lemma_spec_pack(dbits);
        lemma_bytes_bits_len(body@ + tail@);
        assert((body@ + tail@).len() == spec_pack(dbits).len());
        lemma_bytes_bits_inj(body@ + tail@, spec_pack(dbits));
    }
    extend_bytes(compressed, &body);
    extend_bytes(compressed, &tail);
    proof {
        assert(compressed@ =~= old(compressed)@ + (body@ + tail@));
    }
    Ok(dpad)
}

/// Pack only the code stream of `bytes` with the given tree: the packed
/// bytes and the number of zero padding bits in their final byte, always in
/// `[0, 7]`. Contains no tree and no header: only the data.
pub fn get_compressed_bytes(bytes: &[u8], huff_tree: &HuffTree) -> (r: Result<
    (Vec<u8>, u8),
    CompressError,
>)
    ensures
        r is Ok <==> all_coded(*huff_tree, bytes@),
        r is Ok ==> (r->Ok_0).0@ == spec_pack(code_bits(*huff_tree, bytes@)),
        r is Ok ==> (r->Ok_0).1 as nat == spec_padding_bits(code_bits(*huff_tree, bytes@).len())
            && (r->Ok_0).1 <= 7,
        r is Err ==> r->Err_0.spec_message() == missing_code_msg()
            && r->Err_0.spec_missing_byte() == bytes@[first_uncoded_tree(*huff_tree, bytes@)],
{
    let table = huff_tree.code_table();
    proof {
        assert forall|b: u8| table_code(table@, b) == tree_code(*huff_tree, b) by {
            assert((table@[b as int]) is Some <==> tree_code(*huff_tree, b) is Some);
        }
        lemma_table_bits_code_bits(table@, *huff_tree, bytes@);
        lemma_first_uncoded_eq(table@, *huff_tree, bytes@);
    }
    let mut out: Vec<u8> = Vec::new();
    match push_compressed_bytes(&mut out, bytes, &table) {
        Ok(dpad) => {
            proof {
                assert(out@ =~= spec_pack(code_bits(*huff_tree, bytes@)));
            }
            Ok((out, dpad))
        },
        Err(e) => Err(e),
    }
}

/// Compress `bytes` with the given tree into a self-contained container:
/// one byte holding the tree's and the data's padding bit counts, four
/// big-endian bytes of packed-tree byte length, the packed tree shape, and
/// the packed code stream.
pub fn compress_with_tree(bytes: &[u8], huff_tree: &HuffTree) -> (r: Result<
    Vec<u8>,
    CompressError,
>)
    requires
        wf(huff_tree.root),
        num_leaves(huff_tree.root) <= 256,
    ensures
        r is Ok <==> all_coded(*huff_tree, bytes@),
        r is Ok ==> r->Ok_0@ == spec_compressed(*huff_tree, bytes@),
        r is Err ==> r->Err_0.spec_message() == missing_code_msg()
            && r->Err_0.spec_missing_byte() == bytes@[first_uncoded_tree(*huff_tree, bytes@)],
{
    let tree_bin = huff_tree.as_bin();
    let (tree_bytes, tree_pad) = bits_to_bytes(&tree_bin);
    proof {
        lemma_ser_len(huff_tree.root);
        assert(ser(huff_tree.root).len() <= 2559);
        lemma_spec_pack(tree_bin@);
        lemma_bytes_bits_len(tree_bytes@);
        assert(tree_bytes@.len() == spec_pack(tree_bin@).len());
        lemma_bytes_bits_inj(tree_bytes@, spec_pack(tree_bin@));
        assert(tree_bytes@.len() <= 320);
    }
    let table = huff_tree.code_table();
    proof {
        assert forall|b: u8| table_code(table@, b) == tree_code(*huff_tree, b) by {
            assert((table@[b as int]) is Some <==> tree_code(*huff_tree, b) is Some);
        }
        lemma_table_bits_code_bits(table@, *huff_tree, bytes@);
        lemma_first_uncoded_eq(table@, *huff_tree, bytes@);
    }
    let mut data: Vec<u8> = Vec::new();
    let dpad = match push_compressed_bytes(&mut data, bytes, &table) {
        Ok(p) => p,
        Err(e) => {
            return Err(e);
        },
    };
    let mut out: Vec<u8> = Vec::new();
    out.push(tree_pad * 16 + dpad);
    push_be32(&mut out, tree_bytes.len() as u64);
    extend_bytes(&mut out, &tree_bytes);
    extend_bytes(&mut out, &data);
    proof {
        let tb = ser(huff_tree.root);
        let tpad = spec_padding_bits(tb.len());
        assert(8 * tree_bytes@.len() == tb.len() + tpad);
        assert(tree_bytes@.len() as nat == (tb.len() + tpad) / 8);
        assert(out@ =~= spec_compressed(*huff_tree, bytes@));
    }
    Ok(out)
}

/// Compress `bytes` into a self-contained container, building the tree from
/// the bytes' own occurrence counts; an empty slice is an error.
pub fn compress(bytes: &[u8]) -> (r: Result<Vec<u8>, Error>)
    ensures
        (bytes@.len() == 0) <==> r is Err,
        r is Err ==> r->Err_0.kind == ErrorKind::InvalidInput && r->Err_0.message@
            == "provided empty weights"@,
        r is Ok ==> r->Ok_0@ == spec_compress(bytes@),
{
    let tree = match HuffTree::from_bytes(bytes) {
        Ok(t) => t,
        Err(e) => {
            return Err(e);
        },
    };
    proof {
        assert forall|i: int| 0 <= i < bytes@.len() implies tree_code(
            tree,
            #[trigger] bytes@[i],
        ) is Some by {
            lemma_count_byte_pos(bytes@, i);
            lemma_tree_code_some(tree, bytes@[i]);
            assert(has_letter(tree.root, bytes@[i]));
        }
    }
    match compress_with_tree(bytes, &tree) {
        Ok(v) => Ok(v),
        Err(e) => {
            proof {
                assert(false);
            }
            Err(Error::new("provided empty weights", ErrorKind::InvalidInput))
        },
    }
}

} // verus!
