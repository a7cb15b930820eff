//! Whole-buffer decompression of the self-contained container format.
//!
//! Malformed input never panics: every defect of the container is reported
//! as a typed error value.

use vstd::prelude::*;

use crate::bits::be32_val;
use crate::bits::bytes_bits;
use crate::bits::bytes_to_bits;
use crate::bits::read_be32;
use crate::packer::decode_path;
use crate::packer::ChunkDecoder;
use crate::tree::spec_parse;
use crate::tree::HuffBranch;
use crate::tree::HuffTree;

verus! {

/// Error encountered while decompressing: the container is shorter than its
/// declared structure or holds invalid header information.
#[derive(Clone, Copy, Debug)]
pub struct DecompressError {
    message: &'static str,
}

/// Returned when the container holds no bytes at all.
pub open spec fn empty_slice_msg() -> Seq<char> {
    "slice is empty"@
}

/// Returned when the container is too short for the padding byte and the
/// four tree-length bytes.
pub open spec fn short_header_msg() -> Seq<char> {
    "slice too short to read tree length"@
}

/// Returned when a padding nibble exceeds 7.
pub open spec fn bad_padding_msg() -> Seq<char> {
    "invalid padding bits in slice"@
}

/// Returned when the declared tree length exceeds the remaining bytes.
pub open spec fn short_tree_msg() -> Seq<char> {
    "slice too short to read tree"@
}

/// Returned when the tree bytes do not parse as exactly one tree shape.
pub open spec fn invalid_tree_msg() -> Seq<char> {
    "invalid tree in slice"@
}

/// Returned when data padding is declared but there is no data byte to pad.
pub open spec fn bad_data_padding_msg() -> Seq<char> {
    "invalid data padding in slice"@
}

impl DecompressError {
    /// Initialize a new `DecompressError` with the given message.
    pub fn new(message: &'static str) -> (r: Self)
        ensures
            r.spec_message() == message@,
    {
        DecompressError { message }
    }

    /// Return the message.
    pub fn message(&self) -> (r: &str)
        ensures
            r@ == self.spec_message(),
    {
        self.message
    }

    /// The stored message.
    pub closed spec fn spec_message(&self) -> Seq<char> {
        self.message@
    }
}

/// The tree-padding nibble of a container.
pub open spec fn d_tpad(s: Seq<u8>) -> nat {
    (s[0] as nat) / 16
}

/// The data-padding nibble of a container.
pub open spec fn d_dpad(s: Seq<u8>) -> nat {
    (s[0] as nat) % 16
}

/// The declared byte length of the packed tree shape.
pub open spec fn d_tlen(s: Seq<u8>) -> nat {
    be32_val(s.subrange(1, 5))
}

/// The bytes holding the packed tree shape.
pub open spec fn d_tree_area(s: Seq<u8>) -> Seq<u8> {
    s.subrange(5, 5 + d_tlen(s) as int)
}

/// The tree shape bits: the tree bytes' bits less the tree padding.
pub open spec fn d_tree_bits(s: Seq<u8>) -> Seq<bool> {
    let full = bytes_bits(d_tree_area(s));
    if d_tpad(s) <= full.len() {
        full.subrange(0, full.len() - d_tpad(s))
    } else {
        full
    }
}

/// The tree bits parse as exactly one tree shape.
pub open spec fn d_tree_ok(s: Seq<u8>) -> bool {
    spec_parse(d_tree_bits(s), 0) is Some && (spec_parse(d_tree_bits(s), 0)->0).1 == d_tree_bits(
        s,
    ).len()
}

/// The root of the tree the container carries.
pub open spec fn d_root(s: Seq<u8>) -> HuffBranch {
    (spec_parse(d_tree_bits(s), 0)->0).0
}

/// The packed data bytes following the tree.
pub open spec fn d_data(s: Seq<u8>) -> Seq<u8> {
    s.subrange(5 + d_tlen(s) as int, s.len() as int)
}

/// The data bits to decode: the data bytes' bits less the data padding.
pub open spec fn d_data_bits(s: Seq<u8>) -> Seq<bool> {
    let full = bytes_bits(d_data(s));
    full.subrange(0, full.len() - d_dpad(s))
}

/// A well-formed container: long enough for its declared structure, padding
/// nibbles at most 7, a tree shape that parses exactly, and data padding
/// only where there is a data byte to pad.
pub open spec fn container_ok(s: Seq<u8>) -> bool {
    &&& s.len() >= 5
    &&& d_tpad(s) <= 7
    &&& d_dpad(s) <= 7
    &&& 5 + d_tlen(s) <= s.len()
    &&& d_tree_ok(s)
    &&& (d_data(s).len() > 0 || d_dpad(s) == 0)
}

/// What decompressing a well-formed container yields.
pub open spec fn spec_decompressed(s: Seq<u8>) -> Seq<u8> {
    decode_path(d_root(s), Seq::<bool>::empty(), d_data_bits(s)).0
}

pub proof fn lemma_decompress_msgs()
    ensures
        empty_slice_msg() != short_header_msg(),
        empty_slice_msg() != bad_padding_msg(),
        empty_slice_msg() != short_tree_msg(),
        empty_slice_msg() != invalid_tree_msg(),
        empty_slice_msg() != bad_data_padding_msg(),
        short_header_msg() != bad_padding_msg(),
        short_header_msg() != short_tree_msg(),
        short_header_msg() != invalid_tree_msg(),
        short_header_msg() != bad_data_padding_msg(),
        bad_padding_msg() != short_tree_msg(),
        bad_padding_msg() != invalid_tree_msg(),
        bad_padding_msg() != bad_data_padding_msg(),
        short_tree_msg() != invalid_tree_msg(),
        short_tree_msg() != bad_data_padding_msg(),
        invalid_tree_msg() != bad_data_padding_msg(),
{
    reveal_strlit("slice is empty");
    reveal_strlit("slice too short to read tree length");
    reveal_strlit("invalid padding bits in slice");
    reveal_strlit("slice too short to read tree");
    reveal_strlit("invalid tree in slice");
    reveal_strlit("invalid data padding in slice");
    assert(empty_slice_msg().len() == 14);
    assert(short_header_msg().len() == 35);
    assert(bad_padding_msg().len() == 29);
    assert(short_tree_msg().len() == 28);
    assert(invalid_tree_msg().len() == 21);
    assert(bad_data_padding_msg().len() == 29);
    assert(bad_padding_msg()[8] != bad_data_padding_msg()[8]);
}

/// Decompress a self-contained container: read the padding byte, the tree
/// length and the tree shape, rebuild the tree, and decode the remaining
/// bytes but for the declared padding bits. Malformed input is a typed
/// error, never a panic.
pub fn decompress(bytes: &[u8]) -> (r: Result<Vec<u8>, DecompressError>)
    ensures
        r is Ok <==> container_ok(bytes@),
        r is Ok ==> r->Ok_0@ == spec_decompressed(bytes@),
        (bytes@.len() == 0) <==> (r is Err && r->Err_0.spec_message() == empty_slice_msg()),
        (0 < bytes@.len() < 5) <==> (r is Err && r->Err_0.spec_message() == short_header_msg()),
        (bytes@.len() >= 5 && (d_tpad(bytes@) > 7 || d_dpad(bytes@) > 7)) <==> (r is Err
            && r->Err_0.spec_message() == bad_padding_msg()),
        (bytes@.len() >= 5 && d_tpad(bytes@) <= 7 && d_dpad(bytes@) <= 7 && 5 + d_tlen(bytes@)
            > bytes@.len()) <==> (r is Err && r->Err_0.spec_message() == short_tree_msg()),
        (bytes@.len() >= 5 && d_tpad(bytes@) <= 7 && d_dpad(bytes@) <= 7 && 5 + d_tlen(bytes@)
            <= bytes@.len() && !d_tree_ok(bytes@)) <==> (r is Err && r->Err_0.spec_message()
            == invalid_tree_msg()),
        (bytes@.len() >= 5 && d_tpad(bytes@) <= 7 && d_dpad(bytes@) <= 7 && 5 + d_tlen(bytes@)
            <= bytes@.len() && d_tree_ok(bytes@) && d_data(bytes@).len() == 0 && d_dpad(bytes@)
            > 0) <==> (r is Err && r->Err_0.spec_message() == bad_data_padding_msg()),
{
    proof {
        lemma_decompress_msgs();
        reveal_strlit("slice is empty");
        reveal_strlit("slice too short to read tree length");
        reveal_strlit("invalid padding bits in slice");
        reveal_strlit("slice too short to read tree");
        reveal_strlit("invalid tree in slice");
        reveal_strlit("invalid data padding in slice");
    }
    let n = bytes.len();
    if n == 0 {
        let e = DecompressError::new("slice is empty");
        proof {
            assert(e.spec_message() =~= empty_slice_msg());
        }
        return Err(e);
    }
    if n < 5 {
        let e = DecompressError::new("slice too short to read tree length");
        proof {
            assert(e.spec_message() =~= short_header_msg());
        }
        return Err(e);
    }
    let pad_byte = bytes[0];
    let tpad = pad_byte / 16;
    let dpad = pad_byte % 16;
    if tpad > 7 || dpad > 7 {
        let e = DecompressError::new("invalid padding bits in slice");
        proof {
            assert(e.spec_message() =~= bad_padding_msg());
        }
        return Err(e);
    }
    let tlen64 = read_be32(bytes, 1);
    proof {
        assert(tlen64 as nat == d_tlen(bytes@));
    }
    if tlen64 > (n as u64) - 5 {
        let e = DecompressError::new("slice too short to read tree");
        proof {
            assert(e.spec_message() =~= short_tree_msg());
        }
        return Err(e);
    }
    let tlen = tlen64 as usize;
    // copy the tree bytes and unpack their bits
    let mut tree_area: Vec<u8> = Vec::new();
    let mut i: usize = 0;
    while i < tlen
        invariant
            0 <= i <= tlen,
            5 + tlen <= n == bytes@.len(),
            tree_area@ == bytes@.subrange(5, 5 + i as int),
        decreases tlen - i,
    {
        tree_area.push(bytes[5 + i]);
        proof {
            assert(tree_area@ =~= bytes@.subrange(5, 5 + i + 1));
        }
        i = i + 1;
    }
    proof {
        assert(tree_area@ =~= d_tree_area(bytes@));
    }
    let mut tbits = bytes_to_bits(tree_area.as_slice());
    proof {
        crate::bits::lemma_bytes_bits_len(tree_area@);
    }
    if tlen == 0 {
        let e = DecompressError::new("invalid tree in slice");
        proof {
            assert(d_tree_bits(bytes@).len() == 0);
            assert(!d_tree_ok(bytes@));
            assert(e.spec_message() =~= invalid_tree_msg());
        }
        return Err(e);
    }
    let mut k: u8 = 0;
    while k < tpad
        invariant
            0 <= k <= tpad <= 7,
            tlen >= 1,
            tbits@.len() == 8 * tlen - k,
            tbits@ == bytes_bits(d_tree_area(bytes@)).subrange(0, 8 * tlen - k as int),
            8 * tlen == bytes_bits(d_tree_area(bytes@)).len(),
        decreases tpad - k,
    {
        tbits.pop();
        proof {
            assert(tbits@ =~= bytes_bits(d_tree_area(bytes@)).subrange(0, 8 * tlen - (k + 1)));
        }
        k = k + 1;
    }
    proof {
        assert(tbits@ =~= d_tree_bits(bytes@));
    }
    let tree = match HuffTree::try_from_bin(&tbits) {
        Ok(t) => t,
        Err(_) => {
            let e = DecompressError::new("invalid tree in slice");
            proof {
                assert(e.spec_message() =~= invalid_tree_msg());
            }
            return Err(e);
        },
    };
    // copy the data bytes
    let mut data: Vec<u8> = Vec::new();
    let mut j: usize = 0;
    while j < n - 5 - tlen
        invariant
            0 <= j <= n - 5 - tlen,
            5 + tlen <= n == bytes@.len(),
            data@ == bytes@.subrange(5 + tlen as int, 5 + tlen + j as int),
        decreases n - 5 - tlen - j,
    {
        data.push(bytes[5 + tlen + j]);
        proof {
            assert(data@ =~= bytes@.subrange(5 + tlen as int, 5 + tlen + j + 1));
        }
        j = j + 1;
    }
    proof {
        assert(data@ =~= d_data(bytes@));
    }
    if data.len() == 0 && dpad > 0 {
        let e = DecompressError::new("invalid data padding in slice");
        proof {
            assert(e.spec_message() =~= bad_data_padding_msg());
        }
        return Err(e);
    }
    let mut dec = ChunkDecoder::new();
    let out = dec.push_chunk(&tree, data.as_slice(), dpad);
    proof {
        crate::bits::lemma_bytes_bits_len(data@);
        assert(bytes_bits(data@).subrange(0, 8 * data@.len() - dpad as int) =~= d_data_bits(
            bytes@,
        ));
        assert(out@ == spec_decompressed(bytes@));
    }
    Ok(out)
}

/// Decode already-unwrapped packed data bytes with the given tree, ignoring
/// the trailing `padding_bits` bits of the final byte: the emitted letters,
/// walking from the root, left on `0`, right on `1`, emitting at a leaf and
/// returning to the root.
pub fn get_decompressed_bytes(bytes: &[u8], padding_bits: u8, huff_tree: &HuffTree) -> (r: Vec<
    u8,
>)
    requires
        crate::tree::wf(huff_tree.root),
        padding_bits <= 7,
        bytes@.len() == 0 ==> padding_bits == 0,
    ensures
        r@ == decode_path(
            huff_tree.root,
            Seq::<bool>::empty(),
            bytes_bits(bytes@).subrange(0, 8 * bytes@.len() - padding_bits as int),
        ).0,
{
    let mut dec = ChunkDecoder::new();
    dec.push_chunk(huff_tree, bytes, padding_bits)
}

} // verus!
