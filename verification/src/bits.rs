//! The bit-level model shared by the packer and the block codec.
//!
//! A packed stream is a `Seq<bool>`; a field is the little-endian binary
//! expansion of a number; a byte holds eight stream bits, least significant
//! bit first. Everything here is ghost code.

use vstd::arithmetic::div_mod::*;
use vstd::arithmetic::mul::*;
use vstd::arithmetic::power2::*;
use vstd::math::min;
use vstd::prelude::*;

verus! {

/// Bit `i` of `v`, where bit 0 is the least significant one.
pub open spec fn bit_at(v: nat, i: nat) -> bool {
    (v / pow2(i)) % 2 == 1
}

/// The `width` low-order bits of `v`, least significant bit first.
pub open spec fn value_bits(v: nat, width: nat) -> Seq<bool> {
    Seq::new(width, |i: int| bit_at(v, i as nat))
}

/// The number whose binary digits, least significant first, are `bits`.
pub open spec fn bits_value(bits: Seq<bool>) -> nat
    decreases bits.len(),
{
    if bits.len() == 0 {
        0
    } else {
        (if bits[0] { 1nat } else { 0nat }) + 2 * bits_value(bits.skip(1))
    }
}

/// `n` zero bits.
pub open spec fn zero_bits(n: nat) -> Seq<bool> {
    Seq::new(n, |i: int| false)
}

/// The bit stream that a byte sequence holds: eight bits per byte, each
/// byte least significant bit first.
pub open spec fn bits_of_bytes(bytes: Seq<u8>) -> Seq<bool> {
    Seq::new(8 * bytes.len(), |i: int| bit_at(bytes[i / 8] as nat, (i % 8) as nat))
}

/// How many zero bits complete a stream of `len` bits to whole bytes.
pub open spec fn padding_len(len: nat) -> nat {
    ((8 - len % 8) % 8) as nat
}

/// The bytes that hold `bits`: byte `j` is the value of bits `8j .. 8j + 8`,
/// and the last byte is completed with zero bits at its high end.
pub open spec fn bytes_of_bits(bits: Seq<bool>) -> Seq<u8> {
    Seq::new(
        (bits.len() + 7) / 8,
        |j: int| bits_value(bits.subrange(8 * j, min(8 * j + 8, bits.len() as int))) as u8,
    )
}

/// Bit `i + 1` of `v` is bit `i` of `v / 2`.
pub proof fn lemma_bit_at_half(v: nat, i: nat)
    ensures
        bit_at(v, i + 1) == bit_at(v / 2, i),
{
    lemma_pow2_unfold(i + 1);
    lemma_pow2_pos(i);
    lemma_div_denominator(v as int, 2, pow2(i) as int);
}

/// Bit `a + i` of `v` is bit `i` of `v / 2^a`.
pub proof fn lemma_bit_at_shifted(v: nat, a: nat, i: nat)
    ensures
        bit_at(v, a + i) == bit_at(v / pow2(a), i),
{
    lemma_pow2_adds(a, i);
    lemma_pow2_pos(a);
    lemma_pow2_pos(i);
    lemma_div_denominator(v as int, pow2(a) as int, pow2(i) as int);
}

/// A number below `2^k` has no bit set at position `k` or above.
pub proof fn lemma_bit_at_high(v: nat, k: nat, i: nat)
    requires
        v < pow2(k),
        k <= i,
    ensures
        !bit_at(v, i),
{
    if k < i {
        lemma_pow2_strictly_increases(k, i);
    }
    lemma_basic_div(v as int, pow2(i) as int);
}

/// Dropping the lowest bit of a field halves its value.
pub proof fn lemma_value_bits_skip(v: nat, width: nat)
    requires
        width >= 1,
    ensures
        value_bits(v, width).skip(1) == value_bits(v / 2, (width - 1) as nat),
{
    assert forall|i: int| 0 <= i < width - 1 implies value_bits(v, width).skip(1)[i] == value_bits(
        v / 2,
        (width - 1) as nat,
    )[i] by {
        lemma_bit_at_half(v, i as nat);
    }
    assert(value_bits(v, width).skip(1) =~= value_bits(v / 2, (width - 1) as nat));
}

/// Reading a field back gives the number reduced modulo `2^width`.
pub proof fn lemma_bits_value_of_value_bits(v: nat, width: nat)
    ensures
        bits_value(value_bits(v, width)) == v % pow2(width),
    decreases width,
{
    if width == 0 {
        assert(pow2(0) == 1) by {
            lemma2_to64();
        }
    } else {
        let w1 = (width - 1) as nat;
        lemma_value_bits_skip(v, width);
        lemma_bits_value_of_value_bits(v / 2, w1);
        assert(pow2(0) == 1) by {
            lemma2_to64();
        }
        assert(value_bits(v, width)[0] == (v % 2 == 1));
        lemma_pow2_unfold(width);
        lemma_pow2_pos(w1);
        lemma_mod_breakdown(v as int, 2, pow2(w1) as int);
    }
}

/// A number that fits its field is read back unchanged.
pub proof fn lemma_bits_value_roundtrip(v: nat, width: nat)
    requires
        v < pow2(width),
    ensures
        bits_value(value_bits(v, width)) == v,
{
    lemma_bits_value_of_value_bits(v, width);
    lemma_small_mod(v, pow2(width));
}

/// The value of `n` bits is below `2^n`, and its `n` low bits are those bits.
pub proof fn lemma_value_bits_of_bits_value(bits: Seq<bool>)
    ensures
        bits_value(bits) < pow2(bits.len()),
        value_bits(bits_value(bits), bits.len()) == bits,
    decreases bits.len(),
{
    if bits.len() == 0 {
        assert(pow2(0) == 1) by {
            lemma2_to64();
        }
        assert(value_bits(bits_value(bits), bits.len()) =~= bits);
    } else {
        let rest = bits.skip(1);
        let x = bits_value(bits);
        let r = bits_value(rest);
        lemma_value_bits_of_bits_value(rest);
        lemma_pow2_unfold(bits.len());
        assert(x / 2 == r);
        assert forall|i: int| 0 <= i < bits.len() implies value_bits(x, bits.len())[i]
            == bits[i] by {
            if i == 0 {
                assert(pow2(0) == 1) by {
                    lemma2_to64();
                }
            } else {
                lemma_bit_at_half(x, (i - 1) as nat);
                assert(value_bits(r, rest.len())[i - 1] == rest[i - 1]);
            }
        }
        assert(value_bits(x, bits.len()) =~= bits);
    }
}

/// The value of a concatenation: the second part is weighted by `2^len` of
/// the first.
pub proof fn lemma_bits_value_concat(a: Seq<bool>, b: Seq<bool>)
    ensures
        bits_value(a + b) == bits_value(a) + pow2(a.len()) * bits_value(b),
    decreases a.len(),
{
    if a.len() == 0 {
        assert(a + b =~= b);
        assert(pow2(0) == 1) by {
            lemma2_to64();
        }
    } else {
        let n1 = (a.len() - 1) as nat;
        assert((a + b).skip(1) =~= a.skip(1) + b);
        lemma_bits_value_concat(a.skip(1), b);
        lemma_pow2_unfold(a.len());
        let p = pow2(n1);
        let q = bits_value(b);
        assert(2 * (p * q) == (2 * p) * q) by (nonlinear_arith);
    }
}

/// The bits `a .. a + c` of a field are the `c` low bits of `v / 2^a`.
pub proof fn lemma_value_bits_subrange(v: nat, width: nat, a: nat, c: nat)
    requires
        a + c <= width,
    ensures
        value_bits(v, width).subrange(a as int, (a + c) as int) == value_bits(v / pow2(a), c),
{
    let part = value_bits(v, width).subrange(a as int, (a + c) as int);
    let shifted = value_bits(v / pow2(a), c);
    assert forall|i: int| 0 <= i < c implies part[i] == shifted[i] by {
        lemma_bit_at_shifted(v, a, i as nat);
    }
    assert(part =~= shifted);
}

/// Two fields side by side are one field of the combined number.
pub proof fn lemma_value_bits_concat(lo: nat, k: nat, hi: nat, m: nat)
    requires
        lo < pow2(k),
        hi < pow2(m),
    ensures
        lo + pow2(k) * hi < pow2(k + m),
        value_bits(lo + pow2(k) * hi, k + m) == value_bits(lo, k) + value_bits(hi, m),
{
    let both = value_bits(lo, k) + value_bits(hi, m);
    lemma_bits_value_concat(value_bits(lo, k), value_bits(hi, m));
    lemma_bits_value_roundtrip(lo, k);
    lemma_bits_value_roundtrip(hi, m);
    lemma_value_bits_of_bits_value(both);
}

/// A field wider than its number needs is that number's field followed by
/// zero bits.
pub proof fn lemma_value_bits_zero_extend(v: nat, k: nat, width: nat)
    requires
        v < pow2(k),
        k <= width,
    ensures
        value_bits(v, width) == value_bits(v, k) + zero_bits((width - k) as nat),
{
    assert forall|i: int| k <= i < width implies !value_bits(v, width)[i] by {
        lemma_bit_at_high(v, k, i as nat);
    }
    assert(value_bits(v, width) =~= value_bits(v, k) + zero_bits((width - k) as nat));
}

/// Appending a byte appends its eight bits.
pub proof fn lemma_bits_of_bytes_push(bytes: Seq<u8>, b: u8)
    ensures
        bits_of_bytes(bytes.push(b)) == bits_of_bytes(bytes) + value_bits(b as nat, 8),
{
    assert(bits_of_bytes(bytes.push(b)) =~= bits_of_bytes(bytes) + value_bits(b as nat, 8));
}

/// The bytes that hold a bit stream hold exactly that stream, followed by
/// the zero bits that complete the last byte.
pub proof fn lemma_bits_of_bytes_of_bits(bits: Seq<bool>)
    ensures
        bytes_of_bits(bits).len() * 8 == bits.len() + padding_len(bits.len()),
        bits_of_bytes(bytes_of_bits(bits)) == bits + zero_bits(padding_len(bits.len())),
{
    let bytes = bytes_of_bits(bits);
    let padded = bits + zero_bits(padding_len(bits.len()));
    assert(pow2(8) == 256) by {
        lemma2_to64();
    }
    assert forall|i: int| 0 <= i < 8 * bytes.len() implies bits_of_bytes(bytes)[i] == padded[i] by {
        let j = i / 8;
        let hi = min(8 * j + 8, bits.len() as int);
        let chunk = bits.subrange(8 * j, hi);
        lemma_value_bits_of_bits_value(chunk);
        if chunk.len() < 8 {
            lemma_pow2_strictly_increases(chunk.len(), 8);
        }
        let x = bits_value(chunk);
        assert(bytes[j] as nat == x);
        if i % 8 < chunk.len() {
            assert(value_bits(x, chunk.len())[i % 8] == chunk[i % 8]);
        } else {
            lemma_bit_at_high(x, chunk.len(), (i % 8) as nat);
        }
    }
    assert(bits_of_bytes(bytes) =~= padded);
}

/// Packing the bits of whole bytes gives the bytes back.
pub proof fn lemma_bytes_of_bits_of_bytes(bytes: Seq<u8>)
    ensures
        bytes_of_bits(bits_of_bytes(bytes)) == bytes,
{
    let bits = bits_of_bytes(bytes);
    assert(pow2(8) == 256) by {
        lemma2_to64();
    }
    assert forall|j: int| 0 <= j < bytes.len() implies bytes_of_bits(bits)[j] == bytes[j] by {
        let chunk = bits.subrange(8 * j, 8 * j + 8);
        assert(chunk =~= value_bits(bytes[j] as nat, 8));
        lemma_bits_value_roundtrip(bytes[j] as nat, 8);
    }
    assert(bytes_of_bits(bits) =~= bytes);
}

/// A field that fits its width can be read back from the bytes that hold
/// it, whatever bits stand before and after it in the stream.
pub proof fn lemma_field_in_bytes(before: Seq<bool>, v: nat, width: nat, after: Seq<bool>)
    requires
        v < pow2(width),
    ensures
        ({
            let stream = bits_of_bytes(bytes_of_bits(before + value_bits(v, width) + after));
            let field = stream.subrange(before.len() as int, (before.len() + width) as int);
            &&& before.len() + width <= stream.len()
            &&& field == value_bits(v, width)
            &&& bits_value(field) == v
        }),
{
    let bits = before + value_bits(v, width) + after;
    let stream = bits_of_bytes(bytes_of_bits(bits));
    let field = stream.subrange(before.len() as int, (before.len() + width) as int);
    lemma_bits_of_bytes_of_bits(bits);
    assert(field =~= value_bits(v, width));
    lemma_bits_value_roundtrip(v, width);
}

} // verus!
