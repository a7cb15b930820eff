//! Chunked compression and decompression: process arbitrarily large buffers
//! in bounded chunks, producing output byte-identical to the whole-buffer
//! path.
//!
//! Compression reads the input twice, chunk by chunk: the first pass
//! accumulates the weight table, the second encodes with the shared tree,
//! the encoder carrying partial bytes across chunk boundaries instead of
//! rewriting already-emitted output. Decompression walks the tree across
//! chunk boundaries without resetting its cursor, since a code may straddle
//! a boundary.

use vstd::prelude::*;

use crate::bits::bits_to_bytes;
use crate::bits::bytes_bits;
use crate::bits::extend_bytes;
use crate::bits::lemma_bytes_bits_concat;
use crate::bits::lemma_bytes_bits_inj;
use crate::bits::lemma_bytes_bits_len;
use crate::bits::lemma_spec_pack;
use crate::bits::push_be32;
use crate::bits::read_be32;
use crate::bits::spec_pack;
use crate::bits::zeros;
use crate::cmpr::spec_compress;
use crate::cmpr::spec_compressed;
use crate::cmpr::spec_tree;
use crate::dcmpr::bad_data_padding_msg;
use crate::dcmpr::bad_padding_msg;
use crate::dcmpr::container_ok;
use crate::dcmpr::d_data;
use crate::dcmpr::d_data_bits;
use crate::dcmpr::d_dpad;
use crate::dcmpr::d_tlen;
use crate::dcmpr::d_tpad;
use crate::dcmpr::d_tree_area;
use crate::dcmpr::d_tree_bits;
use crate::dcmpr::d_tree_ok;
use crate::dcmpr::empty_slice_msg;
use crate::dcmpr::invalid_tree_msg;
use crate::dcmpr::short_header_msg;
use crate::dcmpr::short_tree_msg;
use crate::dcmpr::spec_decompressed;
use crate::dcmpr::DecompressError;
use crate::error::Error;
use crate::error::ErrorKind;
use crate::packer::decode_path;
use crate::packer::lemma_decode_path_concat;
use crate::packer::lemma_table_bits_code_bits;
use crate::packer::table_bits;
use crate::packer::table_code;
use crate::packer::ChunkDecoder;
use crate::packer::ChunkEncoder;
use crate::tree::has_letter;
use crate::tree::lemma_ser_len;
use crate::tree::lemma_tree_code_some;
use crate::tree::lemma_weight_count_leaves;
use crate::tree::ser;
use crate::tree::tree_code;
use crate::tree::HuffTree;
use crate::utils::spec_padding_bits;
use crate::weights::count_byte;
use crate::weights::lemma_count_byte_concat;
use crate::weights::lemma_count_byte_le_len;
use crate::weights::lemma_count_byte_pos;
use crate::weights::lemma_sum_counts_is_len;
use crate::weights::lemma_sum_weights_counts;
use crate::weights::ByteWeights;

verus! {

/// Copy `src[from .. until]` into a fresh vector.
fn copy_range(src: &[u8], from: usize, until: usize) -> (r: Vec<u8>)
    requires
        from <= until <= src@.len(),
    ensures
        r@ == src@.subrange(from as int, until as int),
{
    let mut out: Vec<u8> = Vec::new();
    let mut k: usize = from;
    while k < until
        invariant
            from <= k <= until <= src@.len(),
            out@ == src@.subrange(from as int, k as int),
        decreases until - k,
    {
        out.push(src[k]);
        proof {
            assert(out@ =~= src@.subrange(from as int, k + 1));
        }
        k = k + 1;
    }
    out
}

/// Compress `bytes` in chunks of at most `chunk_size` bytes: two passes,
/// the first counting weights chunk by chunk, the second encoding with the
/// shared tree, stitching partial bytes across chunk boundaries. The output
/// is byte-identical to the whole-buffer compressor's, whatever the chunk
/// size; an empty input is an error.
#[verifier::rlimit(80)]
pub fn compress_chunked(bytes: &[u8], chunk_size: usize) -> (r: Result<Vec<u8>, Error>)
    requires
        chunk_size >= 1,
    ensures
        (bytes@.len() == 0) <==> r is Err,
        r is Err ==> r->Err_0.kind == ErrorKind::InvalidInput && r->Err_0.message@
            == "provided empty weights"@,
        r is Ok ==> r->Ok_0@ == spec_compress(bytes@),
{
    let n = bytes.len();
    // first pass: accumulate the weight table chunk by chunk
    let mut weights = ByteWeights::new();
    let mut i: usize = 0;
    while i < n
        invariant
            0 <= i <= n == bytes@.len(),
            chunk_size >= 1,
            weights.wf(),
            forall|b: u8| weights.spec_weight(b) == count_byte(bytes@.subrange(0, i as int), b),
        decreases n - i,
    {
        let j = if n - i < chunk_size {
            n
        } else {
            i + chunk_size
        };
        let buf = copy_range(bytes, i, j);
        let cw = ByteWeights::from_bytes(buf.as_slice());
        proof {
            assert forall|b: u8|
                weights.spec_weight(b) + cw.spec_weight(b) <= usize::MAX by {
                lemma_count_byte_concat(
                    bytes@.subrange(0, i as int),
                    bytes@.subrange(i as int, j as int),
                    b,
                );
                assert(bytes@.subrange(0, i as int) + bytes@.subrange(i as int, j as int)
                    =~= bytes@.subrange(0, j as int));
                lemma_count_byte_le_len(bytes@.subrange(0, j as int), b);
            }
        }
        weights.add_byte_weights(&cw);
        proof {
            assert forall|b: u8|
                weights.spec_weight(b) == count_byte(bytes@.subrange(0, j as int), b) by {
                lemma_count_byte_concat(
                    bytes@.subrange(0, i as int),
                    bytes@.subrange(i as int, j as int),
                    b,
                );
                assert(bytes@.subrange(0, i as int) + bytes@.subrange(i as int, j as int)
                    =~= bytes@.subrange(0, j as int));
            }
        }
        i = j;
    }
    proof {
        assert(bytes@.subrange(0, n as int) =~= bytes@);
        lemma_sum_weights_counts(weights, bytes@, 256);
        lemma_sum_counts_is_len(bytes@);
        if bytes@.len() > 0 {
            lemma_count_byte_pos(bytes@, bytes@.len() - 1);
            assert(weights.spec_weight(bytes@.last()) != 0);
        } else {
            assert forall|b: u8| weights.spec_weight(b) == 0 by {
                assert(count_byte(bytes@, b) == 0);
            }
        }
        lemma_weight_count_leaves(weights, bytes@, 256);
    }
    // build the shared tree from the combined table
    let tree = match HuffTree::from_weights(weights) {
        Ok(t) => t,
        Err(e) => {
            return Err(e);
        },
    };
    proof {
        assert(tree == spec_tree(bytes@));
        assert forall|k: int| 0 <= k < bytes@.len() implies tree_code(
            tree,
            #[trigger] bytes@[k],
        ) is Some by {
            lemma_count_byte_pos(bytes@, k);
            lemma_tree_code_some(tree, bytes@[k]);
            assert(has_letter(tree.root, bytes@[k]));
        }
    }
    // the serialized tree and its padding
    let tree_bin = tree.as_bin();
    let (tree_bytes, tree_pad) = bits_to_bytes(&tree_bin);
    proof {
        lemma_ser_len(tree.root);
        assert(ser(tree.root).len() <= 2559);
        lemma_spec_pack(tree_bin@);
        lemma_bytes_bits_len(tree_bytes@);
        lemma_bytes_bits_inj(tree_bytes@, spec_pack(tree_bin@));
        assert(tree_bytes@.len() <= 320);
    }
    let table = tree.code_table();
    proof {
        assert forall|b: u8| table_code(table@, b) == tree_code(tree, b) by {
            assert((table@[b as int]) is Some <==> tree_code(tree, b) is Some);
        }
        lemma_table_bits_code_bits(table@, tree, bytes@);
    }
    // second pass: encode chunk by chunk, carrying pending bits across
    // chunk boundaries
    let mut enc = ChunkEncoder::new();
    let mut data: Vec<u8> = Vec::new();
    let mut i2: usize = 0;
    while i2 < n
        invariant
            0 <= i2 <= n == bytes@.len(),
            chunk_size >= 1,
            table@.len() == 256,
            enc.wf(),
            forall|b: u8| table_code(table@, b) == tree_code(tree, b),
            forall|k: int| 0 <= k < bytes@.len() ==> tree_code(tree, #[trigger] bytes@[k]) is Some,
            bytes_bits(data@) + enc.spec_pending() == table_bits(
                table@,
                bytes@.subrange(0, i2 as int),
            ),
        decreases n - i2,
    {
        let j = if n - i2 < chunk_size {
            n
        } else {
            i2 + chunk_size
        };
        let buf = copy_range(bytes, i2, j);
        proof {
            assert forall|k2: int| 0 <= k2 < buf@.len() implies crate::packer::table_code(
                table@,
                #[trigger] buf@[k2],
            ) is Some by {
                assert(buf@[k2] == bytes@[i2 + k2]);
                assert(tree_code(tree, bytes@[i2 + k2]) is Some);
            }
        }
        let ghost pend0 = enc.spec_pending();
        let ghost data0 = data@;
        let part = match enc.push_chunk(buf.as_slice(), &table) {
            Ok(p) => p,
            Err(e) => {
                proof {
                    assert(false);
                }
                return Err(Error::new("provided empty weights", ErrorKind::InvalidInput));
            },
        };
        extend_bytes(&mut data, &part);
        proof {
            crate::packer::lemma_table_bits_concat(
                table@,
                bytes@.subrange(0, i2 as int),
                buf@,
            );
            assert(bytes@.subrange(0, i2 as int) + buf@ =~= bytes@.subrange(0, j as int));
            assert(bytes_bits(part@) + enc.spec_pending() == pend0 + table_bits(table@, buf@));
            assert(bytes_bits(data0) + pend0 == table_bits(table@, bytes@.subrange(0, i2 as int)));
            lemma_bytes_bits_concat(data0, part@);
            assert(data@ =~= data0 + part@);
            assert(bytes_bits(data@) == bytes_bits(data0) + bytes_bits(part@));
            assert((bytes_bits(data0) + bytes_bits(part@)) + enc.spec_pending()
                =~= bytes_bits(data0) + (bytes_bits(part@) + enc.spec_pending()));
            assert(bytes_bits(data0) + (pend0 + table_bits(table@, buf@)) =~= (bytes_bits(
                data0,
            ) + pend0) + table_bits(table@, buf@));
            assert(table_bits(table@, bytes@.subrange(0, j as int)) == table_bits(
                table@,
                bytes@.subrange(0, i2 as int),
            ) + table_bits(table@, buf@));
            assert(bytes_bits(data@) + enc.spec_pending() =~= table_bits(
                table@,
                bytes@.subrange(0, j as int),
            ));
        }
        i2 = j;
    }
    let ghost pend = enc.spec_pending();
    let (tail, dpad) = enc.finish();
    let ghost dbits = table_bits(table@, bytes@);
    proof {
        assert(bytes@.subrange(0, n as int) =~= bytes@);
        lemma_bytes_bits_len(data@);
        assert(bytes_bits(data@) + pend =~= dbits);
        assert(dbits.len() % 8 == pend.len() % 8);
        assert(dpad as nat == spec_padding_bits(dbits.len()));
        lemma_bytes_bits_concat(data@, tail@);
        assert(bytes_bits(data@ + tail@) =~= dbits + zeros(dpad as nat));
        lemma_spec_pack(dbits);
        lemma_bytes_bits_len(data@ + tail@);
        lemma_bytes_bits_inj(data@ + tail@, spec_pack(dbits));
    }
    // assemble the container
    let mut out: Vec<u8> = Vec::new();
    out.push(tree_pad * 16 + dpad);
    push_be32(&mut out, tree_bytes.len() as u64);
    extend_bytes(&mut out, &tree_bytes);
    extend_bytes(&mut out, &data);
    extend_bytes(&mut out, &tail);
    proof {
        let tb = ser(tree.root);
        let tpad = spec_padding_bits(tb.len());
        assert(8 * tree_bytes@.len() == tb.len() + tpad);
        assert(tree_bytes@.len() as nat == (tb.len() + tpad) / 8);
        assert(out@ =~= spec_compressed(tree, bytes@));
    }
    Ok(out)
}

/// Decompress a container in chunks of at most `chunk_size` data bytes: the
/// header and tree are read once, then the packed data is decoded chunk by
/// chunk with the tree cursor surviving each boundary. The result equals
/// the whole-buffer decompressor's; malformed input is a typed error.
pub fn decompress_chunked(bytes: &[u8], chunk_size: usize) -> (r: Result<
    Vec<u8>,
    DecompressError,
>)
    requires
        chunk_size >= 1,
    ensures
        r is Ok <==> container_ok(bytes@),
        r is Ok ==> r->Ok_0@ == spec_decompressed(bytes@),
        (bytes@.len() == 0) <==> (r is Err && r->Err_0.spec_message() == empty_slice_msg()),
        (0 < bytes@.len() < 5) <==> (r is Err && r->Err_0.spec_message() == short_header_msg()),
        (bytes@.len() >= 5 && (d_tpad(bytes@) > 7 || d_dpad(bytes@) > 7)) <==> (r is Err
            && r->Err_0.spec_message() == bad_padding_msg()),
        (bytes@.len() >= 5 && d_tpad(bytes@) <= 7 && d_dpad(bytes@) <= 7 && 5 + d_tlen(bytes@)
            > bytes@.len()) <==> (r is Err && r->Err_0.spec_message() == short_tree_msg()),
        (bytes@.len() >= 5 && d_tpad(bytes@) <= 7 && d_dpad(bytes@) <= 7 && 5 + d_tlen(bytes@)
            <= bytes@.len() && !d_tree_ok(bytes@)) <==> (r is Err && r->Err_0.spec_message()
            == invalid_tree_msg()),
        (bytes@.len() >= 5 && d_tpad(bytes@) <= 7 && d_dpad(bytes@) <= 7 && 5 + d_tlen(bytes@)
            <= bytes@.len() && d_tree_ok(bytes@) && d_data(bytes@).len() == 0 && d_dpad(bytes@)
            > 0) <==> (r is Err && r->Err_0.spec_message() == bad_data_padding_msg()),
{
    proof {
        crate::dcmpr::lemma_decompress_msgs();
    }
    let n = bytes.len();
    if n == 0 {
        let e = DecompressError::new("slice is empty");
        proof {
            reveal_strlit("slice is empty");
            assert(e.spec_message() =~= empty_slice_msg());
        }
        return Err(e);
    }
    if n < 5 {
        let e = DecompressError::new("slice too short to read tree length");
        proof {
            reveal_strlit("slice too short to read tree length");
            assert(e.spec_message() =~= short_header_msg());
        }
        return Err(e);
    }
    let pad_byte = bytes[0];
    let tpad = pad_byte / 16;
    let dpad = pad_byte % 16;
    if tpad > 7 || dpad > 7 {
        let e = DecompressError::new("invalid padding bits in slice");
        proof {
            reveal_strlit("invalid padding bits in slice");
            assert(e.spec_message() =~= bad_padding_msg());
        }
        return Err(e);
    }
    let tlen64 = read_be32(bytes, 1);
    proof {
        assert(tlen64 as nat == d_tlen(bytes@));
    }
    if tlen64 > (n as u64) - 5 {
        let e = DecompressError::new("slice too short to read tree");
        proof {
            reveal_strlit("slice too short to read tree");
            assert(e.spec_message() =~= short_tree_msg());
        }
        return Err(e);
    }
    let tlen = tlen64 as usize;
    let tree_area = copy_range(bytes, 5, 5 + tlen);
    proof {
        assert(tree_area@ =~= d_tree_area(bytes@));
    }
    let mut tbits = crate::bits::bytes_to_bits(tree_area.as_slice());
    proof {
        lemma_bytes_bits_len(tree_area@);
    }
    if tlen == 0 {
        let e = DecompressError::new("invalid tree in slice");
        proof {
            reveal_strlit("invalid tree in slice");
            assert(d_tree_bits(bytes@).len() == 0);
            assert(!d_tree_ok(bytes@));
            assert(e.spec_message() =~= invalid_tree_msg());
        }
        return Err(e);
    }
    let mut k: u8 = 0;
    while k < tpad
        invariant
            0 <= k <= tpad <= 7,
            tlen >= 1,
            tbits@.len() == 8 * tlen - k,
            tbits@ == bytes_bits(d_tree_area(bytes@)).subrange(0, 8 * tlen - k as int),
            8 * tlen == bytes_bits(d_tree_area(bytes@)).len(),
        decreases tpad - k,
    {
        tbits.pop();
        proof {
            assert(tbits@ =~= bytes_bits(d_tree_area(bytes@)).subrange(0, 8 * tlen - (k + 1)));
        }
        k = k + 1;
    }
    proof {
        assert(tbits@ =~= d_tree_bits(bytes@));
    }
    let tree = match HuffTree::try_from_bin(&tbits) {
        Ok(t) => t,
        Err(_) => {
            let e = DecompressError::new("invalid tree in slice");
            proof {
                reveal_strlit("invalid tree in slice");
                assert(e.spec_message() =~= invalid_tree_msg());
            }
            return Err(e);
        },
    };
    let dn = n - 5 - tlen;
    if dn == 0 && dpad > 0 {
        let e = DecompressError::new("invalid data padding in slice");
        proof {
            reveal_strlit("invalid data padding in slice");
            assert(d_data(bytes@).len() == 0);
            assert(e.spec_message() =~= bad_data_padding_msg());
        }
        return Err(e);
    }
    // decode the data chunk by chunk; the cursor survives each boundary
    let mut dec = ChunkDecoder::new();
    let mut out: Vec<u8> = Vec::new();
    let ghost data = d_data(bytes@);
    let ghost root = tree.root;
    let mut i: usize = 0;
    proof {
        assert(data.len() == dn);
        assert(bytes_bits(data.subrange(0, 0)) =~= Seq::<bool>::empty());
        if dn == 0 {
            lemma_bytes_bits_len(data);
            assert(d_data_bits(bytes@) =~= Seq::<bool>::empty());
        }
    }
    while i < dn
        invariant
            0 <= i <= dn == d_data(bytes@).len(),
            chunk_size >= 1,
            5 + tlen + dn == n == bytes@.len(),
            tlen == d_tlen(bytes@),
            dpad == d_dpad(bytes@),
            dpad <= 7,
            data == d_data(bytes@),
            root == tree.root,
            crate::tree::wf(root),
            crate::packer::decoder_inv(root, dec.spec_path()),
            i < dn ==> (out@, dec.spec_path()) == decode_path(
                root,
                Seq::<bool>::empty(),
                bytes_bits(data.subrange(0, i as int)),
            ),
            i == dn ==> (out@, dec.spec_path()) == decode_path(
                root,
                Seq::<bool>::empty(),
                d_data_bits(bytes@),
            ),
        decreases dn - i,
    {
        let j = if dn - i < chunk_size {
            dn
        } else {
            i + chunk_size
        };
        let buf = copy_range(bytes, 5 + tlen + i, 5 + tlen + j);
        proof {
            assert(buf@ =~= data.subrange(i as int, j as int));
        }
        let drop_bits = if j == dn {
            dpad
        } else {
            0
        };
        let ghost path0 = dec.spec_path();
        let part = dec.push_chunk(&tree, buf.as_slice(), drop_bits);
        extend_bytes(&mut out, &part);
        proof {
            lemma_bytes_bits_len(buf@);
            let chunk_bits = bytes_bits(buf@).subrange(
                0,
                8 * buf@.len() - drop_bits as int,
            );
            let prefix_bits = bytes_bits(data.subrange(0, i as int));
            lemma_decode_path_concat(root, Seq::<bool>::empty(), prefix_bits, chunk_bits);
            lemma_bytes_bits_concat(data.subrange(0, i as int), buf@);
            assert(data.subrange(0, i as int) + buf@ =~= data.subrange(0, j as int));
            if j == dn {
                assert(data.subrange(0, j as int) =~= data);
                lemma_bytes_bits_len(data);
                assert(prefix_bits + chunk_bits =~= d_data_bits(bytes@)) by {
                    lemma_bytes_bits_len(data.subrange(0, i as int));
                    assert(bytes_bits(data) =~= prefix_bits + bytes_bits(buf@));
                }
            } else {
                assert(chunk_bits =~= bytes_bits(buf@));
                assert(prefix_bits + chunk_bits =~= bytes_bits(data.subrange(0, j as int)));
            }
            assert(out@ =~= out@.subrange(0, out@.len() - part@.len()) + part@);
        }
        i = j;
    }
    proof {
        if dn == 0 {
            assert((out@, dec.spec_path()) == decode_path(
                root,
                Seq::<bool>::empty(),
                d_data_bits(bytes@),
            ));
        }
        assert(out@ == spec_decompressed(bytes@));
    }
    Ok(out)
}

} // verus!
