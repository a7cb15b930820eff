//! The laws the library guarantees, stated and proved over the same
//! specification functions its executable contracts use.

use vstd::prelude::*;

use crate::bits::be32;
use crate::bits::bytes_bits;
use crate::bits::lemma_be32_val;
use crate::bits::lemma_spec_pack;
use crate::bits::spec_pack;
use crate::bits::zeros;
use crate::cmpr::spec_compress;
use crate::cmpr::spec_tree;
use crate::dcmpr::container_ok;
use crate::dcmpr::d_data;
use crate::dcmpr::d_data_bits;
use crate::dcmpr::d_dpad;
use crate::dcmpr::d_root;
use crate::dcmpr::d_tlen;
use crate::dcmpr::d_tpad;
use crate::dcmpr::d_tree_area;
use crate::dcmpr::d_tree_bits;
use crate::dcmpr::d_tree_ok;
use crate::dcmpr::spec_decompressed;
use crate::packer::all_coded;
use crate::packer::code_bits;
use crate::packer::decode_path;
use crate::packer::lemma_code_bits_congruent;
use crate::packer::lemma_decode_encode;
use crate::tree::count_leaves;
use crate::tree::has_letter;
use crate::tree::lemma_count_leaves_facts;
use crate::tree::lemma_parse_ser;
use crate::tree::lemma_ser_len;
use crate::tree::lemma_spec_build_facts;
use crate::tree::lemma_tree_code_len;
use crate::tree::lemma_tree_code_some;
use crate::tree::lemma_tree_code_zeroed;
use crate::tree::lemma_zeroed_facts;
use crate::tree::letter_count;
use crate::tree::num_leaves;
use crate::tree::seq_letter_count;
use crate::tree::seq_num_leaves;
use crate::tree::ser;
use crate::tree::spec_parse;
use crate::tree::tree_code;
use crate::tree::wf;
use crate::tree::zeroed;
use crate::tree::HuffTree;
use crate::utils::spec_padding_bits;
use crate::weights::count_byte;
use crate::weights::lemma_count_byte_concat;
use crate::weights::lemma_count_byte_pos;
use crate::weights::lemma_sum_counts_is_len;

verus! {

/// The tree `compress` builds for a non-empty input is well formed, has one
/// leaf per distinct byte, and assigns a code to every byte of the input.
pub proof fn lemma_spec_tree_facts(s: Seq<u8>)
    requires
        0 < s.len() <= usize::MAX,
    ensures
        wf(spec_tree(s).root),
        num_leaves(spec_tree(s).root) <= 256,
        forall|x: u8|
            letter_count(spec_tree(s).root, x) == if count_byte(s, x) > 0 {
                1nat
            } else {
                0nat
            },
        all_coded(spec_tree(s), s),
{
    let cl = count_leaves(s, 256);
    lemma_count_leaves_facts(s, 256);
    lemma_sum_counts_is_len(s);
    lemma_count_byte_pos(s, 0);
    assert(cl.len() >= 1) by {
        if cl.len() == 0 {
            assert(seq_letter_count(cl, s[0]) == 0);
        }
    }
    lemma_spec_build_facts(cl);
    let t = spec_tree(s);
    assert(t.root == crate::tree::spec_build(cl));
    assert forall|x: u8|
        letter_count(t.root, x) == if count_byte(s, x) > 0 {
            1nat
        } else {
            0nat
        } by {
        assert((x as int) < 256);
        assert(letter_count(crate::tree::spec_build(cl), x) == seq_letter_count(cl, x));
        assert(seq_letter_count(cl, x) == if (x as int) < 256 && count_byte(s, x) > 0 {
            1nat
        } else {
            0nat
        });
    }
    assert(num_leaves(crate::tree::spec_build(cl)) == seq_num_leaves(cl));
    assert(num_leaves(t.root) == cl.len());
    assert forall|i: int| 0 <= i < s.len() implies tree_code(t, #[trigger] s[i]) is Some by {
        lemma_count_byte_pos(s, i);
        lemma_tree_code_some(t, s[i]);
        assert(has_letter(t.root, s[i]));
    }
}

/// Round-trip: the container `compress` produces for any non-empty input is
/// well formed, and decompressing it yields exactly the input, whether the
/// container was produced by the whole-buffer or the chunked compressor
/// (both produce these very bytes).
pub proof fn lemma_compress_round_trip(s: Seq<u8>)
    requires
        0 < s.len() <= usize::MAX,
    ensures
        container_ok(spec_compress(s)),
        spec_decompressed(spec_compress(s)) == s,
{
    lemma_spec_tree_facts(s);
    let t = spec_tree(s);
    let tb = ser(t.root);
    let tpad = spec_padding_bits(tb.len());
    let dbits = code_bits(t, s);
    let dpad = spec_padding_bits(dbits.len());
    let tl = (tb.len() + tpad) / 8;
    let pt = spec_pack(tb);
    let pd = spec_pack(dbits);
    let p: u8 = (tpad * 16 + dpad) as u8;
    let out = spec_compress(s);
    lemma_ser_len(t.root);
    assert(9 <= tb.len() <= 2559);
    lemma_spec_pack(tb);
    lemma_spec_pack(dbits);
    assert((tb.len() + tpad) % 8 == 0);
    assert(8 * pt.len() == tb.len() + tpad);
    assert(pt.len() == tl) by {
        vstd::arithmetic::div_mod::lemma_fundamental_div_mod((tb.len() + tpad) as int, 8);
    }
    assert(tl < 0x1_0000_0000);
    lemma_be32_val(tl);
    assert(out =~= seq![p] + be32(tl) + pt + pd);
    assert(out.len() == 5 + pt.len() + pd.len());
    // the padding byte
    assert(out[0] == p);
    assert(tpad <= 7 && dpad <= 7);
    assert(p as nat == 16 * tpad + dpad);
    assert(d_tpad(out) == tpad) by {
        assert((16 * tpad + dpad) / 16 == tpad) by (nonlinear_arith)
            requires
                dpad < 16,
        ;
    }
    assert(d_dpad(out) == dpad) by {
        assert((16 * tpad + dpad) % 16 == dpad) by (nonlinear_arith)
            requires
                dpad < 16,
        ;
    }
    // the declared tree length
    assert(out.subrange(1, 5) =~= be32(tl)) by {
        assert forall|q: int| 0 <= q < 4 implies out[1 + q] == be32(tl)[q] by {
            assert(out[1 + q] == (seq![p] + be32(tl))[1 + q]);
        }
    }
    assert(d_tlen(out) == tl);
    // the packed tree shape
    assert(d_tree_area(out) =~= pt) by {
        assert forall|q: int| 0 <= q < pt.len() implies out[5 + q] == pt[q] by {
            assert(out[5 + q] == ((seq![p] + be32(tl)) + pt)[5 + q]);
        }
    }
    assert(bytes_bits(pt) == tb + zeros(tpad));
    assert(d_tree_bits(out) =~= tb) by {
        assert(tpad <= bytes_bits(pt).len());
        assert forall|q: int| 0 <= q < tb.len() implies bytes_bits(pt).subrange(
            0,
            bytes_bits(pt).len() - tpad as int,
        )[q] == tb[q] by {
            assert((tb + zeros(tpad))[q] == tb[q]);
        }
    }
    // the tree parses back exactly, weights zeroed
    assert(tb.subrange(0, tb.len() as int) =~= tb);
    lemma_parse_ser(t.root, tb, 0);
    assert(d_tree_ok(out));
    assert(d_root(out) == zeroed(t.root));
    // the packed data
    assert(d_data(out) =~= pd) by {
        assert forall|q: int| 0 <= q < pd.len() implies out[5 + pt.len() + q] == pd[q] by {
            assert(out[5 + pt.len() + q] == (((seq![p] + be32(tl)) + pt) + pd)[5 + pt.len()
                + q]);
        }
    }
    assert(bytes_bits(pd) == dbits + zeros(dpad));
    assert(d_data_bits(out) =~= dbits) by {
        assert forall|q: int| 0 <= q < dbits.len() implies bytes_bits(pd).subrange(
            0,
            bytes_bits(pd).len() - dpad as int,
        )[q] == dbits[q] by {
            assert((dbits + zeros(dpad))[q] == dbits[q]);
        }
    }
    // the data is never empty while padding is declared
    lemma_tree_code_len(t, s[0]);
    assert(dbits.len() >= 1) by {
        assert(dbits == tree_code(t, s[0])->0 + code_bits(t, s.subrange(1, s.len() as int)));
    }
    assert(pd.len() >= 1);
    assert(container_ok(out));
    // decoding the data bits with the rebuilt tree yields the input
    let zt = HuffTree { root: zeroed(t.root) };
    lemma_zeroed_facts(t.root);
    lemma_tree_code_zeroed(t);
    lemma_code_bits_congruent(zt, t, s);
    lemma_decode_encode(zt, s);
    assert(decode_path(zt.root, Seq::<bool>::empty(), dbits).0 == s);
    assert(spec_decompressed(out) == s);
}

/// Sum of the per-chunk occurrence counts of `x`.
pub open spec fn chunk_counts_sum(chunks: Seq<Seq<u8>>, x: u8) -> nat
    decreases chunks.len(),
{
    if chunks.len() == 0 {
        0
    } else {
        count_byte(chunks.first(), x) + chunk_counts_sum(chunks.drop_first(), x)
    }
}

/// Counting equivalence: however a buffer is split into chunks and the
/// chunks counted independently, the summed counts equal the counts of a
/// single sequential pass over the whole buffer.
pub proof fn lemma_counting_equivalence(chunks: Seq<Seq<u8>>, x: u8)
    ensures
        count_byte(chunks.flatten(), x) == chunk_counts_sum(chunks, x),
    decreases chunks.len(),
{
    if chunks.len() == 0 {
        assert(count_byte(chunks.flatten(), x) == 0);
    } else {
        lemma_counting_equivalence(chunks.drop_first(), x);
        lemma_count_byte_concat(chunks.first(), chunks.drop_first().flatten(), x);
    }
}

/// Tree round-trip: parsing the serialized shape of any well-formed tree
/// consumes every bit and rebuilds the tree with its weights zeroed, and
/// the rebuilt tree assigns every byte exactly the code it had before.
pub proof fn lemma_tree_round_trip(t: HuffTree)
    requires
        wf(t.root),
    ensures
        spec_parse(ser(t.root), 0) == Some((zeroed(t.root), ser(t.root).len() as int)),
        forall|x: u8| tree_code(HuffTree { root: zeroed(t.root) }, x) == tree_code(t, x),
{
    assert(ser(t.root).subrange(0, ser(t.root).len() as int) =~= ser(t.root));
    lemma_parse_ser(t.root, ser(t.root), 0);
    lemma_tree_code_zeroed(t);
}

} // verus!
