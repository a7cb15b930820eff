//! Small helpers shared by the compressor and decompressor: padding
//! arithmetic, partitioning a buffer into per-worker rations, and shifting a
//! byte buffer right by a number of bits.

use vstd::prelude::*;

verus! {

/// Number of padding bits a bit stream of length `bit_count` needs to fill
/// its final byte: `(8 - bit_count % 8) % 8`.
pub open spec fn spec_padding_bits(bit_count: nat) -> nat {
    ((8 - bit_count % 8) % 8) as nat
}

/// Return how many bits will be used as padding for a stream of
/// `bit_count` bits packed into whole bytes.
pub fn calc_padding_bits(bit_count: usize) -> (r: u8)
    ensures
        r as nat == spec_padding_bits(bit_count as nat),
        r <= 7,
        (bit_count + r) % 8 == 0,
{
    let n: u8 = (8 - (bit_count % 8) as u8) % 8;
    n
}

/// Split a byte vector into `ration_count` contiguous rations: each ration
/// holds `len / ration_count` bytes and the last absorbs the remainder; a
/// vector too small to split is returned as a single ration.
pub fn ration_vec(vec: &Vec<u8>, ration_count: usize) -> (r: Vec<Vec<u8>>)
    requires
        ration_count >= 1,
    ensures
        vec@.len() / (ration_count as nat) == 0 ==> r@.len() == 1 && r@[0]@ == vec@,
        vec@.len() / (ration_count as nat) > 0 ==> {
            let m = vec@.len() as int / ration_count as int;
            &&& r@.len() == ration_count
            &&& forall|i: int|
                0 <= i < ration_count - 1 ==> (#[trigger] r@[i])@ == vec@.subrange(
                    i * m,
                    (i + 1) * m,
                )
            &&& r@[ration_count - 1]@ == vec@.subrange((ration_count - 1) * m, vec@.len() as int)
        },
{
    let n = vec.len();
    let m = n / ration_count;
    let mut rations: Vec<Vec<u8>> = Vec::new();
    if m == 0 {
        let mut whole: Vec<u8> = Vec::new();
        let mut i: usize = 0;
        while i < n
            invariant
                0 <= i <= n == vec@.len(),
                whole@ == vec@.subrange(0, i as int),
            decreases n - i,
        {
            whole.push(vec[i]);
            proof {
                assert(whole@ =~= vec@.subrange(0, i + 1));
            }
            i = i + 1;
        }
        proof {
            assert(whole@ =~= vec@);
        }
        rations.push(whole);
        return rations;
    }
    proof {
        vstd::arithmetic::div_mod::lemma_fundamental_div_mod(n as int, ration_count as int);
    }
    let mut i: usize = 0;
    while i < ration_count - 1
        invariant
            0 <= i <= ration_count - 1,
            m == vec@.len() as int / ration_count as int,
            1 <= m,
            ration_count * m <= vec@.len(),
            n == vec@.len(),
            rations@.len() == i,
            forall|k: int|
                0 <= k < i ==> (#[trigger] rations@[k])@ == vec@.subrange(k * m, (k + 1) * m),
        decreases ration_count - 1 - i,
    {
        proof {
            assert((i + 1) * m <= ration_count * m) by (nonlinear_arith)
                requires
                    i + 1 <= ration_count && m >= 0,
            ;
            assert(i * m >= 0) by (nonlinear_arith)
                requires
                    i >= 0 && m >= 0,
            ;
            assert((i + 1) * m == i * m + m) by (nonlinear_arith);
        }
        let mut ration: Vec<u8> = Vec::new();
        let start = i * m;
        let mut j: usize = 0;
        while j < m
            invariant
                0 <= j <= m,
                start + m <= n == vec@.len(),
                start == i * m,
                ration@ == vec@.subrange(start as int, start + j as int),
            decreases m - j,
        {
            ration.push(vec[start + j]);
            proof {
                assert(ration@ =~= vec@.subrange(start as int, start + j + 1));
            }
            j = j + 1;
        }
        rations.push(ration);
        i = i + 1;
    }
    proof {
        assert((ration_count - 1) * m <= ration_count * m) by (nonlinear_arith)
            requires
                m >= 0 && ration_count >= 1,
        ;
        assert((ration_count - 1) * m >= 0) by (nonlinear_arith)
            requires
                m >= 0 && ration_count >= 1,
        ;
    }
    let mut last: Vec<u8> = Vec::new();
    let start = (ration_count - 1) * m;
    let mut j: usize = 0;
    while j < n - start
        invariant
            0 <= j <= n - start,
            0 <= start <= n == vec@.len(),
            last@ == vec@.subrange(start as int, start + j as int),
        decreases n - start - j,
    {
        last.push(vec[start + j]);
        proof {
            assert(last@ =~= vec@.subrange(start as int, start + j + 1));
        }
        j = j + 1;
    }
    rations.push(last);
    rations
}

/// Shift the bits of `bytes` right by `n` bit positions: the result's bits
/// are `n` zeros, then every bit of `bytes`, zero-padded to a whole byte.
pub fn offset_bytes(bytes: &[u8], n: usize) -> (r: Vec<u8>)
    requires
        n + 8 * bytes@.len() <= usize::MAX,
    ensures
        r@ == crate::bits::spec_pack(
            crate::bits::zeros(n as nat) + crate::bits::bytes_bits(bytes@),
        ),
{
    let mut bits: Vec<bool> = Vec::new();
    let mut k: usize = 0;
    while k < n
        invariant
            0 <= k <= n,
            bits@ =~= crate::bits::zeros(k as nat),
        decreases n - k,
    {
        bits.push(false);
        k = k + 1;
        proof {
            assert(bits@ =~= crate::bits::zeros(k as nat));
        }
    }
    let mut i: usize = 0;
    while i < bytes.len()
        invariant
            0 <= i <= bytes@.len(),
            bits@ == crate::bits::zeros(n as nat) + crate::bits::bytes_bits(
                bytes@.subrange(0, i as int),
            ),
        decreases bytes@.len() - i,
    {
        proof {
            assert(bytes@.subrange(0, i + 1).drop_last() =~= bytes@.subrange(0, i as int));
        }
        crate::bits::push_byte_bits(&mut bits, bytes[i]);
        proof {
            assert(bits@ =~= crate::bits::zeros(n as nat) + crate::bits::bytes_bits(
                bytes@.subrange(0, i + 1),
            ));
        }
        i = i + 1;
    }
    proof {
        assert(bytes@.subrange(0, bytes@.len() as int) =~= bytes@);
    }
    let (out, _pad) = crate::bits::bits_to_bytes(&bits);
    proof {
        crate::bits::lemma_spec_pack(bits@);
        crate::bits::lemma_bytes_bits_len(out@);
        crate::bits::lemma_bytes_bits_inj(out@, crate::bits::spec_pack(bits@));
    }
    out
}

} // verus!
