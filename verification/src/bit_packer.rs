//! Packing fixed-width unsigned fields into bytes and reading them back.
//!
//! Fields are written least significant bit first and follow each other
//! without padding, across byte boundaries. The stream does not describe
//! itself: a reader has to know the width of every field.

use crate::bits::{
    lemma_field_in_bytes, bits_of_bytes, bits_value, bytes_of_bits, lemma_bits_of_bytes_of_bits,
    lemma_bits_of_bytes_push, lemma_bits_value_concat, lemma_bits_value_of_value_bits,
    lemma_bytes_of_bits_of_bytes, lemma_value_bits_concat, lemma_value_bits_of_bits_value,
    lemma_value_bits_subrange, lemma_value_bits_zero_extend, padding_len, value_bits, zero_bits,
};
use vstd::arithmetic::div_mod::*;
use vstd::arithmetic::mul::*;
use vstd::arithmetic::power2::*;
use vstd::bits::*;
use vstd::prelude::*;

verus! {

/// Whether `value` can be written in `bit_width` bits.
pub open spec fn fits(value: u64, bit_width: nat) -> bool {
    (value as nat) < pow2(bit_width)
}

/// Every 64-bit number fits a field of 64 bits or more.
pub proof fn lemma_fits_wide(value: u64, bit_width: nat)
    requires
        bit_width >= 64,
    ensures
        fits(value, bit_width),
{
    lemma2_to64_rest();
    if bit_width > 64 {
        lemma_pow2_strictly_increases(64, bit_width);
    }
}

proof fn lemma_shr_value(x: u64, k: u64)
    requires
        k < 64,
    ensures
        (x >> k) as nat == (x as nat) / pow2(k as nat),
{
    lemma_u64_shr_is_div(x, k);
}

proof fn lemma_mask_value(x: u64, c: u64)
    requires
        c < 64,
    ensures
        1u64 << c == pow2(c as nat),
        (x & (((1u64 << c) - 1) as u64)) as nat == (x as nat) % pow2(c as nat),
{
    lemma_u64_pow2_no_overflow(c as nat);
    lemma_u64_shl_is_mul(1, c);
    lemma_u64_low_bits_mask_is_mod(x, c as nat);
}

proof fn lemma_or_is_add(lo: u64, hi: u64, k: u64)
    requires
        k < 64,
        (lo as nat) < pow2(k as nat),
        hi * pow2(k as nat) <= u64::MAX,
    ensures
        lo | (hi << k) == lo + hi * pow2(k as nat),
{
    let shifted = hi << k;
    lemma_u64_shl_is_mul(hi, k);
    lemma_u64_shr_is_div(lo, k);
    lemma_basic_div(lo as int, pow2(k as nat) as int);
    lemma_u64_shr_is_div(shifted, k);
    lemma_pow2_pos(k as nat);
    lemma_div_by_multiple(hi as int, pow2(k as nat) as int);
    assert(lo | (hi << k) == lo + (hi << k)) by (bit_vector)
        requires
            k < 64,
            lo >> k == 0,
            (hi << k) >> k == hi,
    ;
}

/// The product of a `c`-bit number and `2^k` stays below `2^(c + k)`.
proof fn lemma_shifted_bound(hi: nat, c: nat, k: nat)
    requires
        hi < pow2(c),
    ensures
        hi * pow2(k) < pow2(c + k),
        hi * pow2(k) <= pow2(c + k) - pow2(k),
{
    lemma_pow2_adds(c, k);
    lemma_pow2_pos(k);
    let p = pow2(k);
    let q = pow2(c);
    assert(hi * p <= (q - 1) * p) by (nonlinear_arith)
        requires
            hi <= q - 1,
            p > 0,
    ;
    assert((q - 1) * p == q * p - p) by (nonlinear_arith);
}

/// Reducing a number modulo `2^c` keeps its `c` low bits.
proof fn lemma_value_bits_mod(x: nat, c: nat)
    ensures
        value_bits(x % pow2(c), c) == value_bits(x, c),
{
    lemma_bits_value_of_value_bits(x, c);
    lemma_value_bits_of_bits_value(value_bits(x, c));
}

/// Writes unsigned fields of any width into a growing byte buffer.
pub struct BitPacker {
    data: Vec<u8>,
    bit_offset: usize,
    buffer: u8,
}

impl View for BitPacker {
    type V = Seq<bool>;

    /// The bits written so far, in the order in which they were written.
    closed spec fn view(&self) -> Seq<bool> {
        bits_of_bytes(self.data@) + value_bits(self.buffer as nat, self.bit_offset as nat)
    }
}

impl BitPacker {
    /// The pending byte holds fewer than eight bits and nothing above them.
    pub closed spec fn wf(&self) -> bool {
        &&& self.bit_offset < 8
        &&& (self.buffer as nat) < pow2(self.bit_offset as nat)
    }

    /// A packer that holds no bits.
    pub fn new() -> (packer: BitPacker)
        ensures
            packer.wf(),
            packer@ == Seq::<bool>::empty(),
    {
        proof {
            lemma2_to64();
        }
        let packer = BitPacker { data: Vec::new(), bit_offset: 0, buffer: 0 };
        assert(packer@ =~= Seq::<bool>::empty());
        packer
    }

    /// Appends the `bit_width` low-order bits of `value`, least significant
    /// bit first. A value that needs more than `bit_width` bits is refused
    /// and leaves the packer as it was.
    #[must_use]
    pub fn pack(&mut self, value: u64, bit_width: usize) -> (r: Option<()>)
        requires
            old(self).wf(),
        ensures
            final(self).wf(),
            r is Some <==> fits(value, bit_width as nat),
            r is Some ==> final(self)@ == old(self)@ + value_bits(value as nat, bit_width as nat),
            r is None ==> *final(self) == *old(self),
    {
        if bit_width < 64 {
            proof {
                lemma_shr_value(value, bit_width as u64);
                lemma_pow2_pos(bit_width as nat);
                if (value as nat) / pow2(bit_width as nat) == 0 {
                    lemma_small_div_converse(value as int, pow2(bit_width as nat) as int);
                } else {
                    if (value as nat) < pow2(bit_width as nat) {
                        lemma_basic_div(value as int, pow2(bit_width as nat) as int);
                    }
                }
            }
            if (value >> (bit_width as u64)) != 0 {
                return None;
            }
        } else {
            proof {
                lemma_fits_wide(value, bit_width as nat);
            }
        }
        let ghost field = value_bits(value as nat, bit_width as nat);
        let mut done: usize = 0;
        assert(self@ =~= old(self)@ + field.take(0));
        while done < bit_width
            invariant
                done <= bit_width,
                self.wf(),
                field == value_bits(value as nat, bit_width as nat),
                self@ == old(self)@ + field.take(done as int),
            decreases bit_width - done,
        {
            let room: usize = 8 - self.bit_offset;
            let chunk: usize = if bit_width - done < room {
                bit_width - done
            } else {
                room
            };
            let ghost before = self@;
            let ghost shift = self.bit_offset as nat;
            let ghost held = self.buffer as nat;
            let ghost rest = (value as nat) / pow2(done as nat);
            proof {
                lemma_mask_value(0, chunk as u64);
                lemma_pow2_pos(chunk as nat);
                lemma_pow2_pos(done as nat);
            }
            let piece: u64 = if done < 64 {
                proof {
                    lemma_shr_value(value, done as u64);
                    lemma_mask_value(value >> (done as u64), chunk as u64);
                }
                (value >> (done as u64)) & ((1u64 << (chunk as u64)) - 1)
            } else {
                proof {
                    lemma_fits_wide(value, done as nat);
                    lemma_basic_div(value as int, pow2(done as nat) as int);
                    lemma_small_mod(0, pow2(chunk as nat));
                }
                0
            };
            assert(piece as nat == rest % pow2(chunk as nat));
            proof {
                lemma_mod_bound(rest as int, pow2(chunk as nat) as int);
                lemma_shifted_bound(piece as nat, chunk as nat, shift);
                if shift + chunk < 8 {
                    lemma_pow2_strictly_increases(shift + chunk as nat, 8);
                }
                lemma2_to64();
                lemma_or_is_add(self.buffer as u64, piece, self.bit_offset as u64);
                lemma_mul_is_commutative(piece as int, pow2(shift) as int);
                lemma_value_bits_concat(held, shift, piece as nat, chunk as nat);
                lemma_value_bits_subrange(
                    value as nat,
                    bit_width as nat,
                    done as nat,
                    chunk as nat,
                );
                lemma_value_bits_mod(rest, chunk as nat);
            }
            let merged: u64 = (self.buffer as u64) | (piece << (self.bit_offset as u64));
            assert(merged as nat == held + pow2(shift) * (piece as nat));
            assert(value_bits(merged as nat, shift + chunk as nat) == value_bits(held, shift)
                + field.subrange(done as int, done + chunk));
            assert(field.take(done + chunk) =~= field.take(done as int) + field.subrange(
                done as int,
                done + chunk,
            ));
            self.buffer = merged as u8;
            self.bit_offset += chunk;
            done += chunk;
            if self.bit_offset == 8 {
                proof {
                    lemma_bits_of_bytes_push(self.data@, self.buffer);
                }
                self.data.push(self.buffer);
                self.buffer = 0;
                self.bit_offset = 0;
                assert(self@ =~= before + field.subrange(done - chunk, done as int));
            } else {
                assert(self@ =~= before + field.subrange(done - chunk, done as int));
            }
        }
        assert(field.take(done as int) =~= field);
        Some(())
    }

    /// Ends the stream: the bytes that hold the packed bits, the last one
    /// completed with zero bits. A packer that holds no bits gives no bytes.
    pub fn get_bytes(self) -> (bytes: Vec<u8>)
        requires
            self.wf(),
        ensures
            bytes@ == bytes_of_bits(self@),
    {
        let ghost bits = self@;
        let mut data = self.data;
        if self.bit_offset > 0 {
            proof {
                lemma2_to64();
                lemma_pow2_strictly_increases(self.bit_offset as nat, 8);
                lemma_bits_of_bytes_push(data@, self.buffer);
                lemma_value_bits_zero_extend(self.buffer as nat, self.bit_offset as nat, 8);
            }
            data.push(self.buffer);
        }
        proof {
            assert(bits_of_bytes(data@) =~= bits + zero_bits(padding_len(bits.len())));
            lemma_bits_of_bytes_of_bits(bits);
            lemma_bytes_of_bits_of_bytes(data@);
            lemma_bytes_of_bits_of_bytes(bytes_of_bits(bits));
        }
        data
    }
}

/// Reads unsigned fields of any width from a borrowed byte buffer, front to
/// back.
pub struct BitUnpacker<'a> {
    data: &'a [u8],
    byte_offset: usize,
    bit_offset: usize,
}

impl<'a> BitUnpacker<'a> {
    /// The cursor lies inside the buffer or at its end.
    pub closed spec fn wf(&self) -> bool {
        &&& self.bit_offset < 8
        &&& self.byte_offset <= self.data@.len()
        &&& self.bit_offset > 0 ==> self.byte_offset < self.data@.len()
    }

    /// The bytes that are being read.
    pub closed spec fn bytes(&self) -> Seq<u8> {
        self.data@
    }

    /// The number of bits read so far.
    pub closed spec fn position(&self) -> nat {
        (8 * self.byte_offset + self.bit_offset) as nat
    }

    /// The whole bit stream, read or not.
    pub open spec fn stream(&self) -> Seq<bool> {
        bits_of_bytes(self.bytes())
    }

    /// The `width` bits that come next in the stream.
    pub open spec fn next_bits(&self, width: nat) -> Seq<bool> {
        self.stream().subrange(self.position() as int, (self.position() + width) as int)
    }

    /// An unpacker at the first bit of `data`.
    pub fn new(data: &'a [u8]) -> (unpacker: BitUnpacker<'a>)
        ensures
            unpacker.wf(),
            unpacker.bytes() == data@,
            unpacker.position() == 0,
    {
        BitUnpacker { data, byte_offset: 0, bit_offset: 0 }
    }

    /// Reads the next `bit_width` bits, least significant bit first, as one
    /// number. There is no value for a width above 64, which leaves the
    /// cursor in place, and none where fewer than `bit_width` bits are left,
    /// which moves the cursor to the end of the stream.
    pub fn unpack(&mut self, bit_width: usize) -> (r: Option<u64>)
        requires
            old(self).wf(),
        ensures
            final(self).wf(),
            final(self).bytes() == old(self).bytes(),
            r is Some <==> {
                &&& bit_width <= 64
                &&& old(self).position() + bit_width <= old(self).stream().len()
            },
            r matches Some(value) ==> {
                &&& value as nat == bits_value(old(self).next_bits(bit_width as nat))
                &&& final(self).position() == old(self).position() + bit_width
            },
            r is None && bit_width > 64 ==> final(self).position() == old(self).position(),
            r is None && bit_width <= 64 ==> final(self).position() == old(self).stream().len(),
    {
        if bit_width > 64 {
            return None;
        }
        let ghost stream = self.stream();
        let ghost start = self.position() as int;
        let mut res: u64 = 0;
        let mut done: usize = 0;
        assert(stream.subrange(start, start) =~= Seq::<bool>::empty());
        while done < bit_width
            invariant
                done <= bit_width <= 64,
                self.wf(),
                self.bytes() == old(self).bytes(),
                stream == old(self).stream(),
                start == old(self).position(),
                self.position() == start + done,
                res as nat == bits_value(stream.subrange(start, start + done)),
            decreases bit_width - done,
        {
            if self.byte_offset >= self.data.len() {
                return None;
            }
            let room: usize = 8 - self.bit_offset;
            let chunk: usize = if bit_width - done < room {
                bit_width - done
            } else {
                room
            };
            let byte: u64 = self.data[self.byte_offset] as u64;
            let ghost shift = self.bit_offset as nat;
            let ghost here = start + done;
            let ghost read = stream.subrange(start, here);
            let ghost next = stream.subrange(here, here + chunk);
            proof {
                lemma_shr_value(byte, self.bit_offset as u64);
                lemma_mask_value(byte >> (self.bit_offset as u64), chunk as u64);
                lemma_pow2_pos(chunk as nat);
            }
            let piece: u64 = (byte >> (self.bit_offset as u64)) & ((1u64 << (chunk as u64)) - 1);
            proof {
                let rest = (byte as nat) / pow2(shift);
                lemma_mod_bound(rest as int, pow2(chunk as nat) as int);
                lemma_value_bits_subrange(byte as nat, 8, shift, chunk as nat);
                assert(next =~= value_bits(byte as nat, 8).subrange(
                    shift as int,
                    (shift + chunk) as int,
                ));
                lemma_bits_value_of_value_bits(rest, chunk as nat);
                assert(piece as nat == bits_value(next));
                lemma_value_bits_of_bits_value(read);
                lemma_shifted_bound(piece as nat, chunk as nat, done as nat);
                if done + chunk < 64 {
                    lemma_pow2_strictly_increases((chunk + done) as nat, 64);
                }
                lemma2_to64_rest();
                lemma_or_is_add(res, piece, done as u64);
                lemma_bits_value_concat(read, next);
                lemma_mul_is_commutative(piece as int, pow2(done as nat) as int);
                assert(stream.subrange(start, here + chunk) =~= read + next);
            }
            res = res | (piece << (done as u64));
            done += chunk;
            self.bit_offset += chunk;
            if self.bit_offset == 8 {
                self.bit_offset = 0;
                self.byte_offset += 1;
            }
        }
        Some(res)
    }
}

/// The stream that holds `values`, each as a field of `width` bits, in
/// order.
pub open spec fn packed_values(values: Seq<u64>, width: nat) -> Seq<bool>
    decreases values.len(),
{
    if values.len() == 0 {
        Seq::empty()
    } else {
        packed_values(values.drop_last(), width) + value_bits(values.last() as nat, width)
    }
}

/// `n` fields of `width` bits take `n * width` bits.
pub proof fn lemma_packed_values_len(values: Seq<u64>, width: nat)
    ensures
        packed_values(values, width).len() == values.len() * width,
    decreases values.len(),
{
    if values.len() > 0 {
        lemma_packed_values_len(values.drop_last(), width);
        let n = values.len();
        assert((n - 1) * width + width == n * width) by (nonlinear_arith);
    }
}

/// Packing one run of values after another packs their concatenation.
pub proof fn lemma_packed_values_concat(a: Seq<u64>, b: Seq<u64>, width: nat)
    ensures
        packed_values(a + b, width) == packed_values(a, width) + packed_values(b, width),
    decreases b.len(),
{
    if b.len() == 0 {
        assert(a + b =~= a);
        assert(packed_values(a, width) + packed_values(b, width) =~= packed_values(a, width));
    } else {
        assert((a + b).drop_last() =~= a + b.drop_last());
        lemma_packed_values_concat(a, b.drop_last(), width);
        assert(packed_values(a + b, width) =~= packed_values(a, width) + packed_values(b, width));
    }
}

/// Packing then unpacking gives the values back: where every value fits
/// `width` bits, the bytes of the packed stream hold, at bit `i * width`, a
/// field of `width` bits whose value is the `i`-th value.
pub proof fn lemma_pack_then_unpack(values: Seq<u64>, width: nat, i: int)
    requires
        forall|k: int| 0 <= k < values.len() ==> fits(#[trigger] values[k], width),
        0 <= i < values.len(),
    ensures
        ({
            let stream = bits_of_bytes(bytes_of_bits(packed_values(values, width)));
            &&& (i + 1) * width <= stream.len()
            &&& bits_value(stream.subrange(i * width, (i + 1) * width)) == values[i]
        }),
{
    let head = values.take(i);
    let tail = values.skip(i + 1);
    let one = seq![values[i]];
    assert(values =~= head + one + tail);
    lemma_packed_values_concat(head + one, tail, width);
    lemma_packed_values_concat(head, one, width);
    lemma_packed_values_len(head, width);
    assert(packed_values(one, width) =~= value_bits(values[i] as nat, width)) by {
        reveal_with_fuel(packed_values, 2);
        assert(one.drop_last() =~= Seq::<u64>::empty());
    }
    assert((i + 1) * width == i * width + width) by (nonlinear_arith);
    lemma_field_in_bytes(
        packed_values(head, width),
        values[i] as nat,
        width,
        packed_values(tail, width),
    );
}

} // verus!
