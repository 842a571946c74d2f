//! The delta filter for streams of 64-bit unsigned integers, and the
//! conversion between such integers and little-endian bytes.
//!
//! A delta sequence keeps the first integer and replaces every other one by
//! its difference from the one before it, modulo `2^64`.

use vstd::arithmetic::div_mod::*;
use vstd::math::min;
use vstd::prelude::*;

verus! {

/// `2^64`, the modulus of the filter's arithmetic.
pub open spec fn modulus() -> int {
    0x1_0000_0000_0000_0000
}

/// `a - b` modulo `2^64`.
pub open spec fn wrapping_diff(a: u64, b: u64) -> u64 {
    ((a - b) % modulus()) as u64
}

/// `a + b` modulo `2^64`.
pub open spec fn wrapping_sum(a: u64, b: u64) -> u64 {
    ((a + b) % modulus()) as u64
}

/// The delta sequence of `xs`: as long as `xs`, the first element kept, each
/// other one the difference from its predecessor.
pub open spec fn deltas(xs: Seq<u64>) -> Seq<u64> {
    Seq::new(
        xs.len(),
        |i: int|
            if i == 0 {
                xs[0]
            } else {
                wrapping_diff(xs[i], xs[i - 1])
            },
    )
}

/// Element `i` of the sequence whose deltas are `ds`: the first delta, and
/// from there on the element before plus the delta.
pub open spec fn undelta_at(ds: Seq<u64>, i: int) -> u64
    decreases i,
{
    if i <= 0 {
        ds[0]
    } else {
        wrapping_sum(undelta_at(ds, i - 1), ds[i])
    }
}

/// The sequence whose deltas are `ds`.
pub open spec fn undeltas(ds: Seq<u64>) -> Seq<u64> {
    Seq::new(ds.len(), |i: int| undelta_at(ds, i))
}

/// Adding back a difference gives the minuend.
pub proof fn lemma_wrapping_sum_of_diff(a: u64, b: u64)
    ensures
        wrapping_sum(b, wrapping_diff(a, b)) == a,
        wrapping_diff(wrapping_sum(b, a), b) == a,
{
    let m = modulus();
    let d = (a - b) % m;
    assert(d == if a >= b { a - b } else { a - b + m });
    let s = (b + a) % m;
    assert(s == if b + a < m { b + a } else { b + a - m });
}

/// Undoing the delta filter gives the integers back.
pub proof fn lemma_undeltas_of_deltas(xs: Seq<u64>)
    ensures
        undeltas(deltas(xs)) == xs,
{
    let ds = deltas(xs);
    assert forall|i: int| 0 <= i < xs.len() implies undelta_at(ds, i) == xs[i] by {
        lemma_undelta_at_of_deltas(xs, i);
    }
    assert(undeltas(ds) =~= xs);
}

proof fn lemma_undelta_at_of_deltas(xs: Seq<u64>, i: int)
    requires
        0 <= i < xs.len(),
    ensures
        undelta_at(deltas(xs), i) == xs[i],
    decreases i,
{
    if i > 0 {
        lemma_undelta_at_of_deltas(xs, i - 1);
        lemma_wrapping_sum_of_diff(xs[i], xs[i - 1]);
    }
}

/// Applying the delta filter to what its inverse gave returns the deltas.
pub proof fn lemma_deltas_of_undeltas(ds: Seq<u64>)
    ensures
        deltas(undeltas(ds)) == ds,
{
    let xs = undeltas(ds);
    assert forall|i: int| 0 <= i < ds.len() implies deltas(xs)[i] == ds[i] by {
        if i > 0 {
            lemma_wrapping_sum_of_diff(ds[i], xs[i - 1]);
        }
    }
    assert(deltas(xs) =~= ds);
}

/// Delta encodes integers. The first value remains the same, the following
/// values are the differences between consecutive elements, modulo `2^64`.
pub fn to_deltas(input: &[u64]) -> (res: Vec<u64>)
    ensures
        res@ == deltas(input@),
{
    let mut res: Vec<u64> = Vec::new();
    if input.len() == 0 {
        assert(res@ =~= deltas(input@));
        return res;
    }
    res.push(input[0]);
    let mut i: usize = 1;
    while i < input.len()
        invariant
            1 <= i <= input.len(),
            res@ == deltas(input@).take(i as int),
        decreases input.len() - i,
    {
        let prev = input[i - 1];
        let value = input[i];
        let delta = value.wrapping_sub(prev);
        res.push(delta);
        i += 1;
        assert(res@ =~= deltas(input@).take(i as int));
    }
    assert(deltas(input@).take(i as int) =~= deltas(input@));
    res
}

/// Decodes delta encoded integers: each element is the one before it plus
/// the delta, modulo `2^64`.
pub fn from_deltas(input: &[u64]) -> (res: Vec<u64>)
    ensures
        res@ == undeltas(input@),
{
    let mut res: Vec<u64> = Vec::new();
    if input.len() == 0 {
        assert(res@ =~= undeltas(input@));
        return res;
    }
    res.push(input[0]);
    let mut i: usize = 1;
    while i < input.len()
        invariant
            1 <= i <= input.len(),
            res@ == undeltas(input@).take(i as int),
        decreases input.len() - i,
    {
        let prev = res[i - 1];
        let delta = input[i];
        res.push(prev.wrapping_add(delta));
        i += 1;
        assert(res@ =~= undeltas(input@).take(i as int));
    }
    assert(undeltas(input@).take(i as int) =~= undeltas(input@));
    res
}

/// The number that `bytes` spell in base 256, least significant byte first.
pub open spec fn le_value(bytes: Seq<u8>) -> nat
    decreases bytes.len(),
{
    if bytes.len() == 0 {
        0
    } else {
        bytes[0] as nat + 256 * le_value(bytes.skip(1))
    }
}

/// Digit `k` of `x` in base 256, where digit 0 is the least significant one.
pub open spec fn le_byte(x: nat, k: nat) -> u8
    decreases k,
{
    if k == 0 {
        (x % 256) as u8
    } else {
        le_byte(x / 256, (k - 1) as nat)
    }
}

/// `256^n`.
pub open spec fn radix(n: nat) -> nat
    decreases n,
{
    if n == 0 {
        1
    } else {
        256 * radix((n - 1) as nat)
    }
}

/// The `i`-th group of eight bytes of `bytes`; the last group may be
/// shorter.
pub open spec fn group(bytes: Seq<u8>, i: int) -> Seq<u8> {
    bytes.subrange(8 * i, min(8 * i + 8, bytes.len() as int))
}

/// The integers that `bytes` hold: one for each group of eight bytes, little
/// endian. A last group of fewer than eight bytes counts as if zero bytes
/// completed it at its high end.
pub open spec fn u64s_of_le_bytes(bytes: Seq<u8>) -> Seq<u64> {
    Seq::new((bytes.len() + 7) / 8, |i: int| le_value(group(bytes, i)) as u64)
}

/// The eight little-endian bytes of each integer, in order.
pub open spec fn le_bytes_of_u64s(ints: Seq<u64>) -> Seq<u8> {
    Seq::new(8 * ints.len(), |j: int| le_byte(ints[j / 8] as nat, (j % 8) as nat))
}

/// `n` bytes spell a number below `256^n`.
pub proof fn lemma_le_value_bound(bytes: Seq<u8>)
    ensures
        le_value(bytes) < radix(bytes.len()),
    decreases bytes.len(),
{
    if bytes.len() > 0 {
        lemma_le_value_bound(bytes.skip(1));
    }
}

/// `256^8` is `2^64`, so up to eight bytes spell a 64-bit number.
pub proof fn lemma_radix_values()
    ensures
        radix(0) == 1,
        radix(1) == 0x100,
        radix(2) == 0x1_0000,
        radix(3) == 0x100_0000,
        radix(4) == 0x1_0000_0000,
        radix(5) == 0x100_0000_0000,
        radix(6) == 0x1_0000_0000_0000,
        radix(7) == 0x100_0000_0000_0000,
        radix(8) == 0x1_0000_0000_0000_0000,
{
    reveal_with_fuel(radix, 9);
}

/// Digit `k` of the number that `bytes` spell is byte `k`.
pub proof fn lemma_le_byte_of_le_value(bytes: Seq<u8>, k: nat)
    requires
        k < bytes.len(),
    ensures
        le_byte(le_value(bytes), k) == bytes[k as int],
    decreases k,
{
    let x = le_value(bytes);
    let rest = le_value(bytes.skip(1));
    assert(x / 256 == rest);
    assert(x % 256 == bytes[0]);
    if k > 0 {
        lemma_le_byte_of_le_value(bytes.skip(1), (k - 1) as nat);
    }
}

/// The `n` low digits of `x` spell `x` modulo `256^n`.
pub proof fn lemma_le_value_of_le_bytes(x: nat, n: nat)
    ensures
        le_value(Seq::new(n, |k: int| le_byte(x, k as nat))) == x % radix(n),
    decreases n,
{
    let digits = Seq::new(n, |k: int| le_byte(x, k as nat));
    if n > 0 {
        let n1 = (n - 1) as nat;
        let higher = Seq::new(n1, |k: int| le_byte(x / 256, k as nat));
        assert(digits.skip(1) =~= higher);
        lemma_le_value_of_le_bytes(x / 256, n1);
        lemma_radix_positive(n1);
        lemma_mod_breakdown(x as int, 256, radix(n1) as int);
    }
}

proof fn lemma_radix_positive(n: nat)
    ensures
        radix(n) > 0,
    decreases n,
{
    if n > 0 {
        lemma_radix_positive((n - 1) as nat);
    }
}

/// Digit `k` of `x` is what is left of `x / 256^k` modulo 256.
pub proof fn lemma_le_byte_is_digit(x: nat, k: nat)
    ensures
        le_byte(x, k) == (x / radix(k)) % 256,
    decreases k,
{
    if k > 0 {
        let k1 = (k - 1) as nat;
        lemma_le_byte_is_digit(x / 256, k1);
        lemma_radix_positive(k1);
        lemma_div_denominator(x as int, 256, radix(k1) as int);
        assert(radix(k) == 256 * radix(k1));
    } else {
        assert(radix(0) == 1);
        assert(x / 1 == x);
    }
}

/// `n` zero bytes.
pub open spec fn zero_bytes(n: nat) -> Seq<u8> {
    Seq::new(n, |i: int| 0u8)
}

/// How many bytes a last group of `len % 8` bytes lacks.
pub open spec fn group_padding(len: nat) -> nat {
    ((8 - len % 8) % 8) as nat
}

proof fn lemma_radix_increases(a: nat, b: nat)
    requires
        a <= b,
    ensures
        radix(a) <= radix(b),
    decreases b,
{
    if a < b {
        lemma_radix_increases(a, (b - 1) as nat);
    }
}

/// A number below `256^n` has no digit but zero at position `n` or above.
pub proof fn lemma_le_byte_high(x: nat, n: nat, k: nat)
    requires
        x < radix(n),
        n <= k,
    ensures
        le_byte(x, k) == 0,
{
    lemma_le_byte_is_digit(x, k);
    lemma_radix_increases(n, k);
    lemma_basic_div(x as int, radix(k) as int);
}

/// Bytes that went to integers come back followed by the zero bytes that
/// completed their last group.
pub proof fn lemma_le_bytes_of_u64s_of_le_bytes_padded(bytes: Seq<u8>)
    ensures
        le_bytes_of_u64s(u64s_of_le_bytes(bytes)) == bytes + zero_bytes(
            group_padding(bytes.len()),
        ),
{
    let ints = u64s_of_le_bytes(bytes);
    let padded = bytes + zero_bytes(group_padding(bytes.len()));
    lemma_radix_values();
    assert forall|j: int| 0 <= j < 8 * ints.len() implies le_bytes_of_u64s(ints)[j]
        == padded[j] by {
        let g = group(bytes, j / 8);
        lemma_le_value_bound(g);
        lemma_radix_increases(g.len(), 8);
        if j % 8 < g.len() {
            lemma_le_byte_of_le_value(g, (j % 8) as nat);
        } else {
            lemma_le_byte_high(le_value(g), g.len(), (j % 8) as nat);
        }
    }
    assert(le_bytes_of_u64s(ints) =~= padded);
}

/// Whole groups of eight bytes survive the conversion to integers and back.
pub proof fn lemma_le_bytes_of_u64s_of_le_bytes(bytes: Seq<u8>)
    requires
        bytes.len() % 8 == 0,
    ensures
        le_bytes_of_u64s(u64s_of_le_bytes(bytes)) == bytes,
{
    lemma_le_bytes_of_u64s_of_le_bytes_padded(bytes);
    assert(bytes + zero_bytes(0) =~= bytes);
}

/// Integers survive the conversion to bytes and back.
pub proof fn lemma_u64s_of_le_bytes_of_u64s(ints: Seq<u64>)
    ensures
        u64s_of_le_bytes(le_bytes_of_u64s(ints)) == ints,
{
    let bytes = le_bytes_of_u64s(ints);
    lemma_radix_values();
    assert forall|i: int| 0 <= i < ints.len() implies u64s_of_le_bytes(bytes)[i] == ints[i] by {
        let x = ints[i] as nat;
        assert(group(bytes, i) =~= Seq::new(8, |k: int| le_byte(x, k as nat)));
        lemma_le_value_of_le_bytes(x, 8);
        lemma_small_mod(x, radix(8));
    }
    assert(u64s_of_le_bytes(bytes) =~= ints);
}

/// The little-endian value of the `len` bytes of `bytes` from `start` on.
fn le_group_value(bytes: &[u8], start: usize, len: usize) -> (value: u64)
    requires
        len <= 8,
        start + len <= bytes@.len(),
    ensures
        value == le_value(bytes@.subrange(start as int, start + len)),
{
    let ghost g = bytes@.subrange(start as int, start + len);
    assert(bytes@.len() == bytes.len());
    let mut value: u64 = 0;
    let mut k: usize = len;
    assert(g.skip(len as int) =~= Seq::<u8>::empty());
    while k > 0
        invariant
            k <= len <= 8,
            start + len <= bytes@.len() <= usize::MAX,
            g == bytes@.subrange(start as int, start + len),
            value == le_value(g.skip(k as int)),
        decreases k,
    {
        proof {
            lemma_le_value_bound(g.skip(k as int));
            lemma_radix_values();
            assert(g.skip(k - 1).skip(1) =~= g.skip(k as int));
        }
        k -= 1;
        value = value * 256 + bytes[start + k] as u64;
    }
    assert(g.skip(0) =~= g);
    value
}

/// Convert bytes that encode integers to integers (little endian). Each
/// group of eight bytes gives one integer; a last group of one to seven
/// bytes gives one more, as if zero bytes completed it.
pub fn le_bytes_to_u64s(bytes: &[u8]) -> (res: Vec<u64>)
    ensures
        res@ == u64s_of_le_bytes(bytes@),
{
    let mut res: Vec<u64> = Vec::new();
    let full_ints = bytes.len() / 8;
    let mut i: usize = 0;
    while i < full_ints
        invariant
            i <= full_ints == bytes@.len() / 8,
            bytes@.len() <= usize::MAX,
            res@ == u64s_of_le_bytes(bytes@).take(i as int),
        decreases full_ints - i,
    {
        let value = le_group_value(bytes, i * 8, 8);
        res.push(value);
        i += 1;
        assert(res@ =~= u64s_of_le_bytes(bytes@).take(i as int));
    }
    let remaining_bytes = bytes.len() % 8;
    if remaining_bytes > 0 {
        let value = le_group_value(bytes, full_ints * 8, remaining_bytes);
        res.push(value);
    }
    assert(res@ =~= u64s_of_le_bytes(bytes@));
    res
}

/// Convert a slice of integers to bytes (little endian), eight for each.
pub fn u64s_to_le_bytes(ints: &[u64]) -> (res: Vec<u8>)
    ensures
        res@ == le_bytes_of_u64s(ints@),
{
    let mut res: Vec<u8> = Vec::new();
    let mut i: usize = 0;
    while i < ints.len()
        invariant
            i <= ints.len(),
            res@ == le_bytes_of_u64s(ints@).take(8 * i),
        decreases ints.len() - i,
    {
        let mut rest = ints[i];
        let mut k: usize = 0;
        proof {
            assert(radix(0) == 1);
            assert((rest as nat) / 1 == rest);
        }
        while k < 8
            invariant
                k <= 8,
                i < ints.len(),
                res@ == le_bytes_of_u64s(ints@).take(8 * i + k),
                rest as nat == (ints@[i as int] as nat) / radix(k as nat),
            decreases 8 - k,
        {
            proof {
                let x = ints@[i as int] as nat;
                lemma_le_byte_is_digit(x, k as nat);
                lemma_radix_positive(k as nat);
                lemma_div_denominator(x as int, radix(k as nat) as int, 256);
                assert(radix(k as nat) * 256 == radix((k + 1) as nat));
            }
            res.push((rest % 256) as u8);
            rest = rest / 256;
            k += 1;
            assert(res@ =~= le_bytes_of_u64s(ints@).take(8 * i + k));
        }
        i += 1;
    }
    assert(le_bytes_of_u64s(ints@).take(8 * i) =~= le_bytes_of_u64s(ints@));
    res
}

} // verus!
