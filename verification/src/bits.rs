//! Bit-level model and executable packing primitives.
//!
//! Bit streams are `Vec<bool>` in executable code and `Seq<bool>` in
//! specifications, most significant bit first. A byte corresponds to exactly
//! eight bits; packing a stream into bytes appends `(8 - len % 8) % 8` zero
//! padding bits to fill the final byte.

use vstd::prelude::*;

use crate::utils::spec_padding_bits;
use vstd::arithmetic::div_mod::lemma_div_denominator;
use vstd::arithmetic::div_mod::lemma_fundamental_div_mod;

verus! {

/// 2 to the power `e`.
pub open spec fn pow2(e: nat) -> nat
    decreases e,
{
    if e == 0 {
        1
    } else {
        2 * pow2((e - 1) as nat)
    }
}

/// The value of a bit string read most significant bit first.
pub open spec fn bits_val(s: Seq<bool>) -> nat
    decreases s.len(),
{
    if s.len() == 0 {
        0
    } else {
        2 * bits_val(s.drop_last()) + if s.last() {
            1nat
        } else {
            0nat
        }
    }
}

/// The `width`-bit big-endian bit string of value `v % pow2(width)`.
pub open spec fn val_bits(v: nat, width: nat) -> Seq<bool>
    decreases width,
{
    if width == 0 {
        Seq::empty()
    } else {
        val_bits(v / 2, (width - 1) as nat).push(v % 2 == 1)
    }
}

/// The eight bits of a byte, most significant first.
pub open spec fn byte_bits(b: u8) -> Seq<bool> {
    val_bits(b as nat, 8)
}

/// The bits of a byte string, each byte most significant bit first.
pub open spec fn bytes_bits(s: Seq<u8>) -> Seq<bool>
    decreases s.len(),
{
    if s.len() == 0 {
        Seq::empty()
    } else {
        bytes_bits(s.drop_last()) + byte_bits(s.last())
    }
}

/// `n` zero bits.
pub open spec fn zeros(n: nat) -> Seq<bool> {
    Seq::new(n, |i: int| false)
}

pub proof fn lemma_val_bits_len(v: nat, width: nat)
    ensures
        val_bits(v, width).len() == width,
    decreases width,
{
    if width > 0 {
        lemma_val_bits_len(v / 2, (width - 1) as nat);
    }
}

pub proof fn lemma_pow2_mono(a: nat, b: nat)
    requires
        a <= b,
    ensures
        pow2(a) <= pow2(b),
    decreases b,
{
    if a < b {
        lemma_pow2_mono(a, (b - 1) as nat);
    }
}

pub proof fn lemma_bits_val_bound(s: Seq<bool>)
    ensures
        bits_val(s) < pow2(s.len()),
    decreases s.len(),
{
    if s.len() > 0 {
        lemma_bits_val_bound(s.drop_last());
    }
}

/// Reading the value of the bits of `v` gives back `v`.
pub proof fn lemma_bits_val_val_bits(v: nat, width: nat)
    requires
        v < pow2(width),
    ensures
        bits_val(val_bits(v, width)) == v,
    decreases width,
{
    if width > 0 {
        lemma_val_bits_len(v / 2, (width - 1) as nat);
        lemma_bits_val_val_bits(v / 2, (width - 1) as nat);
        let s = val_bits(v, width);
        assert(s.drop_last() =~= val_bits(v / 2, (width - 1) as nat));
    }
}

/// Writing out the value of a bit string gives back the bit string.
pub proof fn lemma_val_bits_bits_val(s: Seq<bool>)
    ensures
        val_bits(bits_val(s), s.len()) == s,
    decreases s.len(),
{
    if s.len() > 0 {
        lemma_val_bits_bits_val(s.drop_last());
        let v = bits_val(s);
        let bit: nat = if s.last() {
            1
        } else {
            0
        };
        assert(v == 2 * bits_val(s.drop_last()) + bit);
        assert(v / 2 == bits_val(s.drop_last()));
        assert(v % 2 == bit);
        assert(val_bits(v, s.len()) =~= s);
    }
}

pub proof fn lemma_bytes_bits_len(s: Seq<u8>)
    ensures
        bytes_bits(s).len() == 8 * s.len(),
    decreases s.len(),
{
    if s.len() > 0 {
        lemma_bytes_bits_len(s.drop_last());
        lemma_val_bits_len(s.last() as nat, 8);
    }
}

/// `bytes_bits` distributes over concatenation.
pub proof fn lemma_bytes_bits_concat(a: Seq<u8>, b: Seq<u8>)
    ensures
        bytes_bits(a + b) == bytes_bits(a) + bytes_bits(b),
    decreases b.len(),
{
    if b.len() == 0 {
        assert(a + b =~= a);
        assert(bytes_bits(a) + bytes_bits(b) =~= bytes_bits(a));
    } else {
        lemma_bytes_bits_concat(a, b.drop_last());
        assert((a + b).drop_last() =~= a + b.drop_last());
        assert((a + b).last() == b.last());
        assert(bytes_bits(a) + bytes_bits(b) =~= (bytes_bits(a) + bytes_bits(b.drop_last()))
            + byte_bits(b.last()));
    }
}

/// Append the bits of `v`'s low `width` bits to `bits`, most significant
/// first.
pub fn push_val_bits(bits: &mut Vec<bool>, v: u8, width: u8)
    ensures
        final(bits)@ == old(bits)@ + val_bits(v as nat, width as nat),
    decreases width,
{
    if width == 0 {
        assert(bits@ =~= bits@ + val_bits(v as nat, 0));
    } else {
        push_val_bits(bits, v / 2, width - 1);
        bits.push(v % 2 == 1);
        assert(bits@ =~= old(bits)@ + val_bits(v as nat, width as nat));
    }
}

/// Append the eight bits of a byte to `bits`, most significant first.
pub fn push_byte_bits(bits: &mut Vec<bool>, b: u8)
    ensures
        final(bits)@ == old(bits)@ + byte_bits(b),
{
    push_val_bits(bits, b, 8);
}

/// Read the byte whose bits are `bits[i .. i + 8]`.
pub fn take_byte(bits: &Vec<bool>, i: usize) -> (r: u8)
    requires
        i + 8 <= bits@.len(),
    ensures
        byte_bits(r) == bits@.subrange(i as int, i + 8),
{
    let n = bits.len();
    let mut acc: u16 = 0;
    let mut j: usize = 0;
    while j < 8
        invariant
            0 <= j <= 8,
            i + 8 <= n == bits@.len(),
            acc as nat == bits_val(bits@.subrange(i as int, i + j)),
            (acc as nat) < pow2(j as nat),
        decreases 8 - j,
    {
        proof {
            reveal_with_fuel(pow2, 9);
            lemma_pow2_mono(j as nat, 7);
            assert(bits@.subrange(i as int, i + j + 1).drop_last() =~= bits@.subrange(
                i as int,
                i + j,
            ));
        }
        acc = 2 * acc + if bits[i + j] {
            1
        } else {
            0
        };
        j = j + 1;
    }
    proof {
        reveal_with_fuel(pow2, 9);
        lemma_val_bits_bits_val(bits@.subrange(i as int, i + 8));
    }
    acc as u8
}

/// Pack a bit stream into bytes, zero-padding the final byte; return the
/// bytes and the number of padding bits, which is always at most 7.
pub fn bits_to_bytes(bits: &Vec<bool>) -> (r: (Vec<u8>, u8))
    ensures
        r.1 as nat == spec_padding_bits(bits@.len()),
        bytes_bits(r.0@) == bits@ + zeros(r.1 as nat),
        8 * r.0@.len() == bits@.len() + r.1 as nat,
{
    let pad = crate::utils::calc_padding_bits(bits.len());
    let mut padded: Vec<bool> = Vec::new();
    let mut i: usize = 0;
    while i < bits.len()
        invariant
            0 <= i <= bits@.len(),
            padded@ =~= bits@.subrange(0, i as int),
        decreases bits@.len() - i,
    {
        padded.push(bits[i]);
        i = i + 1;
    }
    assert(padded@ =~= bits@);
    let mut k: u8 = 0;
    while k < pad
        invariant
            0 <= k <= pad,
            padded@ =~= bits@ + zeros(k as nat),
        decreases pad - k,
    {
        padded.push(false);
        k = k + 1;
        assert(padded@ =~= bits@ + zeros(k as nat));
    }
    assert(padded@.len() % 8 == 0);
    let mut out: Vec<u8> = Vec::new();
    let mut j: usize = 0;
    while j < padded.len()
        invariant
            0 <= j <= padded@.len(),
            j % 8 == 0,
            padded@.len() % 8 == 0,
            padded@ == bits@ + zeros(pad as nat),
            8 * out@.len() == j,
            bytes_bits(out@) == padded@.subrange(0, j as int),
        decreases padded@.len() - j,
    {
        proof {
            assert((padded@.len() - j) % 8 == 0);
            assert(j + 8 <= padded@.len());
        }
        let b = take_byte(&padded, j);
        proof {
            let prefix = padded@.subrange(0, j as int);
            let ext = padded@.subrange(0, j + 8);
            assert(ext.drop_last() =~= padded@.subrange(0, j + 7));
            assert(bytes_bits(out@.push(b)) == bytes_bits(out@) + byte_bits(b)) by {
                assert(out@.push(b).drop_last() =~= out@);
            }
            assert(prefix + padded@.subrange(j as int, j + 8) =~= ext);
        }
        out.push(b);
        j = j + 8;
    }
    assert(j == padded@.len());
    assert(bytes_bits(out@) =~= padded@);
    (out, pad)
}

/// Append every byte of `src` to `dst`.
pub fn extend_bytes(dst: &mut Vec<u8>, src: &Vec<u8>)
    ensures
        final(dst)@ == old(dst)@ + src@,
{
    let mut i: usize = 0;
    while i < src.len()
        invariant
            0 <= i <= src@.len(),
            dst@ == old(dst)@ + src@.subrange(0, i as int),
        decreases src@.len() - i,
    {
        dst.push(src[i]);
        proof {
            assert(dst@ =~= old(dst)@ + src@.subrange(0, i + 1));
        }
        i = i + 1;
    }
    proof {
        assert(old(dst)@ + src@.subrange(0, src@.len() as int) =~= old(dst)@ + src@);
    }
}

/// Unpack a byte string into its bit stream.
pub fn bytes_to_bits(bytes: &[u8]) -> (r: Vec<bool>)
    ensures
        r@ == bytes_bits(bytes@),
{
    let mut out: Vec<bool> = Vec::new();
    let mut i: usize = 0;
    while i < bytes.len()
        invariant
            0 <= i <= bytes@.len(),
            out@ == bytes_bits(bytes@.subrange(0, i as int)),
        decreases bytes@.len() - i,
    {
        proof {
            assert(bytes@.subrange(0, i + 1).drop_last() =~= bytes@.subrange(0, i as int));
        }
        push_byte_bits(&mut out, bytes[i]);
        i = i + 1;
    }
    assert(bytes@.subrange(0, bytes@.len() as int) =~= bytes@);
    out
}

/// The bit stream of a byte string determines the byte string.
pub proof fn lemma_bytes_bits_inj(a: Seq<u8>, b: Seq<u8>)
    requires
        a.len() == b.len(),
        bytes_bits(a) == bytes_bits(b),
    ensures
        a == b,
    decreases a.len(),
{
    if a.len() > 0 {
        lemma_bytes_bits_len(a.drop_last());
        lemma_bytes_bits_len(b.drop_last());
        lemma_val_bits_len(a.last() as nat, 8);
        lemma_val_bits_len(b.last() as nat, 8);
        assert(bytes_bits(a.drop_last()) =~= bytes_bits(b.drop_last())) by {
            assert forall|q: int| 0 <= q < bytes_bits(a.drop_last()).len() implies bytes_bits(
                a.drop_last(),
            )[q] == bytes_bits(b.drop_last())[q] by {
                assert(bytes_bits(a)[q] == bytes_bits(a.drop_last())[q]);
                assert(bytes_bits(b)[q] == bytes_bits(b.drop_last())[q]);
            }
        }
        lemma_bytes_bits_inj(a.drop_last(), b.drop_last());
        assert(byte_bits(a.last()) =~= byte_bits(b.last())) by {
            let off = bytes_bits(a.drop_last()).len();
            assert forall|q: int| 0 <= q < 8 implies byte_bits(a.last())[q] == byte_bits(
                b.last(),
            )[q] by {
                assert(bytes_bits(a)[off + q] == byte_bits(a.last())[q]);
                assert(bytes_bits(b)[off + q] == byte_bits(b.last())[q]);
            }
        }
        assert(pow2(8) == 256) by {
            reveal_with_fuel(pow2, 9);
        }
        lemma_bits_val_val_bits(a.last() as nat, 8);
        lemma_bits_val_val_bits(b.last() as nat, 8);
        assert(bits_val(byte_bits(a.last())) == a.last() as nat);
        assert(bits_val(byte_bits(b.last())) == b.last() as nat);
        assert(a.last() == b.last());
        assert forall|i: int| 0 <= i < a.len() implies a[i] == b[i] by {
            if i < a.len() - 1 {
                assert(a[i] == a.drop_last()[i]);
                assert(b[i] == b.drop_last()[i]);
            }
        }
        assert(a =~= b);
    } else {
        assert(a =~= b);
    }
}

/// The byte string a bit stream packs into: the padded bits cut into bytes.
pub open spec fn spec_pack(bits: Seq<bool>) -> Seq<u8> {
    let padded = bits + zeros(spec_padding_bits(bits.len()));
    Seq::new(padded.len() / 8, |k: int| bits_val(padded.subrange(8 * k, 8 * k + 8)) as u8)
}

proof fn lemma_bytes_bits_pointwise(a: Seq<u8>, p: Seq<bool>)
    requires
        p.len() == 8 * a.len(),
        forall|k: int| 0 <= k < a.len() ==> byte_bits(#[trigger] a[k]) == p.subrange(
            8 * k,
            8 * k + 8,
        ),
    ensures
        bytes_bits(a) == p,
    decreases a.len(),
{
    if a.len() == 0 {
        assert(bytes_bits(a) =~= p);
    } else {
        let q = p.subrange(0, 8 * (a.len() - 1));
        assert forall|k: int| 0 <= k < a.drop_last().len() implies byte_bits(
            #[trigger] a.drop_last()[k],
        ) == q.subrange(8 * k, 8 * k + 8) by {
            assert(a.drop_last()[k] == a[k]);
            assert(q.subrange(8 * k, 8 * k + 8) =~= p.subrange(8 * k, 8 * k + 8));
        }
        lemma_bytes_bits_pointwise(a.drop_last(), q);
        assert(byte_bits(a.last()) == p.subrange(8 * (a.len() - 1), (8 * a.len()) as int));
        assert(bytes_bits(a) =~= p) by {
            lemma_val_bits_len(a.last() as nat, 8);
            assert(bytes_bits(a) == q + byte_bits(a.last()));
            assert(q + p.subrange(8 * (a.len() - 1), (8 * a.len()) as int) =~= p);
        }
    }
}

/// `spec_pack` packs: its bytes' bits are the input plus its zero padding.
pub proof fn lemma_spec_pack(bits: Seq<bool>)
    ensures
        8 * spec_pack(bits).len() == bits.len() + spec_padding_bits(bits.len()),
        bytes_bits(spec_pack(bits)) == bits + zeros(spec_padding_bits(bits.len())),
{
    let padded = bits + zeros(spec_padding_bits(bits.len()));
    let a = spec_pack(bits);
    assert(padded.len() % 8 == 0);
    assert(8 * a.len() == padded.len());
    assert forall|k: int| 0 <= k < a.len() implies byte_bits(#[trigger] a[k]) == padded.subrange(
        8 * k,
        8 * k + 8,
    ) by {
        let sub = padded.subrange(8 * k, 8 * k + 8);
        lemma_bits_val_bound(sub);
        assert(pow2(8) == 256) by {
            reveal_with_fuel(pow2, 9);
        }
        lemma_val_bits_bits_val(sub);
        assert(a[k] == bits_val(sub) as u8);
    }
    lemma_bytes_bits_pointwise(a, padded);
}

/// The four big-endian bytes of a 32-bit value.
pub open spec fn be32(n: nat) -> Seq<u8> {
    let d = n % 256;
    let r1 = n / 256;
    let c = r1 % 256;
    let r2 = r1 / 256;
    let b = r2 % 256;
    let r3 = r2 / 256;
    seq![(r3 % 256) as u8, b as u8, c as u8, d as u8]
}

/// The value of four big-endian bytes.
pub open spec fn be32_val(s: Seq<u8>) -> nat {
    (((s[0] as nat) * 256 + (s[1] as nat)) * 256 + (s[2] as nat)) * 256 + (s[3] as nat)
}

/// Reading back the four big-endian bytes of a 32-bit value gives the value.
pub proof fn lemma_be32_val(n: nat)
    requires
        n < 0x1_0000_0000,
    ensures
        be32(n).len() == 4,
        be32_val(be32(n)) == n,
{
    let d = n % 256;
    let r1 = n / 256;
    let c = r1 % 256;
    let r2 = r1 / 256;
    let b = r2 % 256;
    let r3 = r2 / 256;
    lemma_fundamental_div_mod(n as int, 256);
    lemma_fundamental_div_mod(r1 as int, 256);
    lemma_fundamental_div_mod(r2 as int, 256);
    assert(n == 256 * r1 + d);
    assert(r1 == 256 * r2 + c);
    assert(r2 == 256 * r3 + b);
    assert(r1 < 0x100_0000);
    assert(r2 < 0x1_0000);
    assert(r3 < 0x100);
    assert(r3 % 256 == r3);
    assert(be32_val(be32(n)) == ((r3 * 256 + b) * 256 + c) * 256 + d);
}

/// Append the four big-endian bytes of `n` to `out`.
pub fn push_be32(out: &mut Vec<u8>, n: u64)
    requires
        n < 0x1_0000_0000,
    ensures
        final(out)@ == old(out)@ + be32(n as nat),
{
    proof {
        lemma_be32_val(n as nat);
    }
    out.push(((n / 0x100_0000) % 256) as u8);
    out.push(((n / 0x1_0000) % 256) as u8);
    out.push(((n / 256) % 256) as u8);
    out.push((n % 256) as u8);
    proof {
        let m = n as int;
        lemma_div_denominator(m, 256, 256);
        lemma_div_denominator(m, 65536int, 256);
        assert((n / 0x1_0000) as int == m / 256 / 256);
        assert((n / 0x100_0000) as int == (m / 0x1_0000) / 256);
        assert(out@ =~= old(out)@ + be32(n as nat));
    }
}

/// Read the 32-bit value stored big-endian at `bytes[i .. i + 4]`.
pub fn read_be32(bytes: &[u8], i: usize) -> (r: u64)
    requires
        i + 4 <= bytes@.len(),
    ensures
        r as nat == be32_val(bytes@.subrange(i as int, i + 4)),
        r < 0x1_0000_0000,
{
    let b0 = bytes[i] as u64;
    let b1 = bytes[i + 1] as u64;
    let b2 = bytes[i + 2] as u64;
    let b3 = bytes[i + 3] as u64;
    ((b0 * 256 + b1) * 256 + b2) * 256 + b3
}

} // verus!
