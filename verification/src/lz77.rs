//! The LZ77 engine and its block codec.
//!
//! The encoder walks the input once and, at each position, takes the longest
//! match that the window behind it offers; the decoder replays the blocks.
//! The codec writes each block as three fixed-width fields.

use crate::bit_packer::{fits, BitPacker, BitUnpacker};
use crate::bits::{
    bits_of_bytes, bits_value, bytes_of_bits, lemma_bits_of_bytes_of_bits, lemma_field_in_bytes,
    lemma_value_bits_of_bits_value, padding_len, value_bits,
};
use vstd::arithmetic::div_mod::*;
use vstd::arithmetic::power2::*;
use vstd::bits::*;
use vstd::prelude::*;

verus! {

/// A back-reference of `length` bytes that start `distance` bytes behind the
/// write position, followed by one literal byte.
#[derive(Debug, PartialEq, Eq, Structural)]
pub struct Block {
    pub distance: usize,
    pub length: usize,
    pub literal: u8,
}

/// The length of the longest common prefix of `a` and `b`.
pub open spec fn common_prefix_len(a: Seq<u8>, b: Seq<u8>) -> nat
    decreases a.len(),
{
    if a.len() > 0 && b.len() > 0 && a[0] == b[0] {
        1 + common_prefix_len(a.skip(1), b.skip(1))
    } else {
        0
    }
}

/// `a` and `b` agree on their first `n` bytes.
pub open spec fn agree_on(a: Seq<u8>, b: Seq<u8>, n: nat) -> bool {
    &&& n <= a.len()
    &&& n <= b.len()
    &&& forall|j: int| 0 <= j < n ==> a[j] == b[j]
}

/// `a` and `b` agree on their first `n` bytes and no further.
pub open spec fn is_common_prefix_len(a: Seq<u8>, b: Seq<u8>, n: nat) -> bool {
    &&& agree_on(a, b, n)
    &&& n < a.len() && n < b.len() ==> a[n as int] != b[n as int]
}

/// The common prefix length is the one length up to which the two sequences
/// agree and at which they stop agreeing.
pub proof fn lemma_common_prefix_len(a: Seq<u8>, b: Seq<u8>, n: nat)
    ensures
        is_common_prefix_len(a, b, common_prefix_len(a, b)),
        is_common_prefix_len(a, b, n) ==> n == common_prefix_len(a, b),
    decreases a.len(),
{
    if a.len() > 0 && b.len() > 0 && a[0] == b[0] {
        let a1 = a.skip(1);
        let b1 = b.skip(1);
        let m = common_prefix_len(a1, b1);
        lemma_common_prefix_len(a1, b1, if n > 0 { (n - 1) as nat } else { 0 });
        assert forall|j: int| 0 <= j < m + 1 implies a[j] == b[j] by {
            if j > 0 {
                assert(a1[j - 1] == b1[j - 1]);
            }
        }
        if m < a1.len() && m < b1.len() {
            assert(a1[m as int] != b1[m as int]);
        }
        if is_common_prefix_len(a, b, n) {
            assert(n > 0);
            let n1 = (n - 1) as nat;
            assert forall|j: int| 0 <= j < n1 implies a1[j] == b1[j] by {
                assert(a[j + 1] == b[j + 1]);
            }
            assert(is_common_prefix_len(a1, b1, n1));
        }
    } else {
        if is_common_prefix_len(a, b, n) && n > 0 {
            assert(a[0] == b[0]);
        }
    }
}

/// The number of leading bytes on which `left` and `right` agree.
pub fn longest_common_prefix(left: &[u8], right: &[u8]) -> (n: usize)
    ensures
        n == common_prefix_len(left@, right@),
        is_common_prefix_len(left@, right@, n as nat),
{
    let mut i: usize = 0;
    while i < left.len() && i < right.len() && left[i] == right[i]
        invariant
            agree_on(left@, right@, i as nat),
        decreases left.len() - i,
    {
        i += 1;
    }
    proof {
        lemma_common_prefix_len(left@, right@, i as nat);
    }
    i
}

/// How far the bytes of `window` from offset `i` on agree with `input`.
pub open spec fn match_len(window: Seq<u8>, input: Seq<u8>, i: int) -> nat {
    common_prefix_len(window.skip(i), input)
}

/// `(distance, length)` names the longest match that `window` offers for
/// `input`: the first offset, counted from the front of the window, whose
/// match is as long as any. Where nothing matches, both are zero.
pub open spec fn is_longest_match(
    window: Seq<u8>,
    input: Seq<u8>,
    distance: nat,
    length: nat,
) -> bool {
    if length == 0 {
        &&& distance == 0
        &&& forall|i: int| 0 <= i < window.len() ==> match_len(window, input, i) == 0
    } else {
        &&& 1 <= distance <= window.len()
        &&& match_len(window, input, window.len() - distance) == length
        &&& forall|i: int|
            0 <= i < window.len() - distance ==> match_len(window, input, i) < length
        &&& forall|i: int|
            window.len() - distance < i < window.len() ==> match_len(window, input, i) <= length
    }
}

/// The first longest match among the offsets below `k`, as offset and
/// length.
pub open spec fn best_candidate(window: Seq<u8>, input: Seq<u8>, k: nat) -> (int, nat)
    decreases k,
{
    if k == 0 {
        (0, 0)
    } else {
        let earlier = best_candidate(window, input, (k - 1) as nat);
        let here = match_len(window, input, k - 1);
        if here > earlier.1 {
            (k - 1, here)
        } else {
            earlier
        }
    }
}

/// The longest match that `window` offers for `input`, as distance and
/// length.
pub open spec fn longest_match_of(window: Seq<u8>, input: Seq<u8>) -> (nat, nat) {
    let best = best_candidate(window, input, window.len());
    if best.1 == 0 {
        (0, 0)
    } else {
        ((window.len() - best.0) as nat, best.1)
    }
}

proof fn lemma_best_candidate(window: Seq<u8>, input: Seq<u8>, k: nat)
    ensures
        ({
            let best = best_candidate(window, input, k);
            &&& forall|i: int| 0 <= i < k ==> match_len(window, input, i) <= best.1
            &&& best.1 > 0 ==> {
                &&& 0 <= best.0 < k
                &&& match_len(window, input, best.0) == best.1
                &&& forall|i: int| 0 <= i < best.0 ==> match_len(window, input, i) < best.1
            }
        }),
    decreases k,
{
    if k > 0 {
        lemma_best_candidate(window, input, (k - 1) as nat);
    }
}

/// What `longest_match_of` gives is the longest match, and there is no
/// other.
pub proof fn lemma_longest_match_of(window: Seq<u8>, input: Seq<u8>, distance: nat, length: nat)
    ensures
        is_longest_match(
            window,
            input,
            longest_match_of(window, input).0,
            longest_match_of(window, input).1,
        ),
        is_longest_match(window, input, distance, length) ==> (distance, length)
            == longest_match_of(window, input),
{
    lemma_best_candidate(window, input, window.len());
    let found = longest_match_of(window, input);
    if is_longest_match(window, input, distance, length) {
        if length > 0 {
            let at = window.len() - distance;
            assert(match_len(window, input, at) <= found.1);
            if found.1 > 0 {
                let best = window.len() - found.0;
                assert(match_len(window, input, best) == found.1);
            }
        } else if found.1 > 0 {
            assert(match_len(window, input, window.len() - found.0) == 0);
        }
    }
}

/// A match never runs past the end of the window or of the input, and the
/// bytes it names are the bytes of the input.
pub proof fn lemma_longest_match_copies(window: Seq<u8>, input: Seq<u8>)
    ensures
        ({
            let found = longest_match_of(window, input);
            &&& found.0 <= window.len()
            &&& found.1 <= found.0
            &&& found.1 <= input.len()
            &&& forall|j: int|
                0 <= j < found.1 ==> window[window.len() - found.0 + j] == input[j]
        }),
{
    lemma_longest_match_of(window, input, 0, 0);
    let found = longest_match_of(window, input);
    if found.1 > 0 {
        let at = window.len() - found.0;
        lemma_common_prefix_len(window.skip(at), input, 0);
        assert forall|j: int| 0 <= j < found.1 implies window[at + j] == input[j] by {
            assert(window.skip(at)[j] == input[j]);
        }
    }
}

/// The longest match that `readback_buffer` offers for the start of `input`:
/// its distance from the end of the buffer and its length, both zero where
/// no byte matches. Among equally long matches the farthest one is taken.
pub fn longest_match(readback_buffer: &[u8], input: &[u8]) -> (found: (usize, usize))
    ensures
        (found.0 as nat, found.1 as nat) == longest_match_of(readback_buffer@, input@),
        is_longest_match(readback_buffer@, input@, found.0 as nat, found.1 as nat),
{
    let mut index: usize = 0;
    let mut length: usize = 0;
    let mut i: usize = 0;
    while i < readback_buffer.len()
        invariant
            i <= readback_buffer.len(),
            (index as int, length as nat) == best_candidate(readback_buffer@, input@, i as nat),
        decreases readback_buffer.len() - i,
    {
        let here = longest_common_prefix(&readback_buffer[i..readback_buffer.len()], input);
        assert(readback_buffer@.subrange(i as int, readback_buffer.len() as int)
            =~= readback_buffer@.skip(i as int));
        if here > length {
            index = i;
            length = here;
        }
        i += 1;
    }
    proof {
        lemma_best_candidate(readback_buffer@, input@, readback_buffer@.len());
        lemma_longest_match_of(readback_buffer@, input@, 0, 0);
    }
    let distance = if length == 0 {
        0
    } else {
        readback_buffer.len() - index
    };
    (distance, length)
}

/// The largest number that a field of `bits` bits can hold: the size of the
/// window for the distance field, the longest match for the length field.
pub open spec fn field_max(bits: nat) -> nat {
    (pow2(bits) - 1) as nat
}

/// `field_max(bits)`, or the largest `usize` where that is smaller.
fn field_max_capped(bits: usize) -> (m: usize)
    ensures
        m as nat == if field_max(bits as nat) <= usize::MAX {
            field_max(bits as nat)
        } else {
            usize::MAX as nat
        },
{
    if bits >= usize::BITS as usize {
        proof {
            lemma2_to64();
            lemma2_to64_rest();
            if bits > usize::BITS {
                lemma_pow2_strictly_increases(usize::BITS as nat, bits as nat);
            }
        }
        usize::MAX
    } else {
        proof {
            lemma_usize_pow2_no_overflow(bits as nat);
            lemma_usize_shl_is_mul(1, bits);
        }
        (1usize << bits) - 1
    }
}

/// Where the window behind `index` begins.
pub open spec fn window_start(index: int, window: nat) -> int {
    if index <= window {
        0
    } else {
        index - window
    }
}

/// The block that the encoder emits at `index`: the longest match in the
/// window, cut to `max_len`, and cut by one more where it would reach the
/// end of the input, so that a literal always follows.
pub open spec fn block_at(bytes: Seq<u8>, index: int, window: nat, max_len: nat) -> Block {
    let found = longest_match_of(
        bytes.subrange(window_start(index, window), index),
        bytes.subrange(index, bytes.len() as int),
    );
    let capped = if found.1 <= max_len {
        found.1
    } else {
        max_len
    };
    let length = if index + capped >= bytes.len() {
        capped - 1
    } else {
        capped as int
    };
    Block { distance: found.0 as usize, length: length as usize, literal: bytes[index + length] }
}

/// How many bytes of `bytes` lie at or after `index`.
pub open spec fn bytes_left(bytes: Seq<u8>, index: int) -> nat {
    if index < bytes.len() {
        (bytes.len() - index) as nat
    } else {
        0
    }
}

/// The blocks that the encoder emits from `index` to the end of the input.
pub open spec fn blocks_from(bytes: Seq<u8>, index: int, window: nat, max_len: nat) -> Seq<Block>
    decreases bytes_left(bytes, index),
{
    if 0 <= index < bytes.len() {
        let block = block_at(bytes, index, window, max_len);
        seq![block] + blocks_from(bytes, index + block.length + 1, window, max_len)
    } else {
        Seq::empty()
    }
}

/// The blocks that encode `bytes` with a window of `2^distance_bits - 1`
/// bytes and matches of at most `2^length_bits - 1` bytes.
pub open spec fn encoded_blocks(
    bytes: Seq<u8>,
    distance_bits: nat,
    length_bits: nat,
) -> Seq<Block> {
    blocks_from(bytes, 0, field_max(distance_bits), field_max(length_bits))
}

/// Encodes `bytes` as blocks, greedily from left to right.
pub fn lz77_encode_to_blocks(
    bytes: &[u8],
    distance_bits: usize,
    length_bits: usize,
) -> (blocks: Vec<Block>)
    ensures
        blocks@ == encoded_blocks(bytes@, distance_bits as nat, length_bits as nat),
{
    let readback_size = field_max_capped(distance_bits);
    let max_length = field_max_capped(length_bits);
    let ghost window = field_max(distance_bits as nat);
    let ghost max_len = field_max(length_bits as nat);

    let mut res: Vec<Block> = Vec::new();
    let mut index: usize = 0;
    assert(res@ + blocks_from(bytes@, 0, window, max_len) =~= blocks_from(
        bytes@,
        0,
        window,
        max_len,
    ));
    while index < bytes.len()
        invariant
            index <= bytes.len(),
            window == field_max(distance_bits as nat),
            max_len == field_max(length_bits as nat),
            readback_size as nat == if window <= usize::MAX {
                window
            } else {
                usize::MAX as nat
            },
            max_length as nat == if max_len <= usize::MAX {
                max_len
            } else {
                usize::MAX as nat
            },
            res@ + blocks_from(bytes@, index as int, window, max_len) == encoded_blocks(
                bytes@,
                distance_bits as nat,
                length_bits as nat,
            ),
        decreases bytes.len() - index,
    {
        let buffer_start = if index <= readback_size {
            0
        } else {
            index - readback_size
        };
        let (distance, found) = longest_match(
            &bytes[buffer_start..index],
            &bytes[index..bytes.len()],
        );
        proof {
            lemma_longest_match_copies(
                bytes@.subrange(buffer_start as int, index as int),
                bytes@.subrange(index as int, bytes.len() as int),
            );
        }
        let mut length = if found <= max_length {
            found
        } else {
            max_length
        };
        // A literal has to follow the match, so a match never takes the last byte.
        if index + length >= bytes.len() {
            length -= 1;
        }
        let literal = bytes[index + length];
        let ghost rest = blocks_from(bytes@, index as int, window, max_len);
        let block = Block { distance, length, literal };
        assert(block == block_at(bytes@, index as int, window, max_len));
        res.push(block);
        index += length + 1;
        assert(res@ + blocks_from(bytes@, index as int, window, max_len) =~= res@.drop_last()
            + rest);
    }
    assert(res@ + blocks_from(bytes@, index as int, window, max_len) =~= res@);
    res
}

/// `out` followed by `n` more bytes, each a copy of the byte that stands
/// `distance` bytes behind the end at the time it is written. With
/// `distance < n` the copy runs into the bytes it has just written.
pub open spec fn copy_back(out: Seq<u8>, distance: nat, n: nat) -> Seq<u8>
    decreases n,
{
    if n == 0 {
        out
    } else {
        copy_back(out.push(out[out.len() - distance]), distance, (n - 1) as nat)
    }
}

/// `out` after `block` has been replayed onto it.
pub open spec fn replay(out: Seq<u8>, block: Block) -> Seq<u8> {
    copy_back(out, block.distance as nat, block.length as nat).push(block.literal)
}

/// Whether `block` can be replayed when `produced` bytes have been decoded:
/// its distance reaches no further back than the first of them, and a copy
/// has a source behind the write position.
pub open spec fn block_replays(produced: nat, block: Block) -> bool {
    &&& block.distance <= produced
    &&& block.length > 0 ==> block.distance >= 1
}

/// The number of bytes that the first `k` blocks decode to.
pub open spec fn produced_before(blocks: Seq<Block>, k: int) -> nat
    decreases k,
{
    if k <= 0 {
        0
    } else {
        produced_before(blocks, k - 1) + blocks[k - 1].length as nat + 1
    }
}

/// Whether each of `blocks` can be replayed onto the bytes that the blocks
/// before it decode to.
pub open spec fn all_blocks_replay(blocks: Seq<Block>) -> bool {
    forall|k: int|
        0 <= k < blocks.len() ==> block_replays(produced_before(blocks, k), #[trigger] blocks[k])
}

/// What `blocks` decode to when `out` has been decoded before them, or
/// `None` where one of them cannot be replayed.
pub open spec fn decoded_from(out: Seq<u8>, blocks: Seq<Block>) -> Option<Seq<u8>>
    decreases blocks.len(),
{
    if blocks.len() == 0 {
        Some(out)
    } else if !block_replays(out.len(), blocks[0]) {
        None
    } else {
        decoded_from(replay(out, blocks[0]), blocks.skip(1))
    }
}

/// The bytes that `blocks` decode to, or `None` where one of them refers
/// back to before the first byte.
pub open spec fn decoded_bytes(blocks: Seq<Block>) -> Option<Seq<u8>> {
    decoded_from(Seq::empty(), blocks)
}

/// A copy lengthens the output by its length.
pub proof fn lemma_copy_back_len(out: Seq<u8>, distance: nat, n: nat)
    ensures
        copy_back(out, distance, n).len() == out.len() + n,
    decreases n,
{
    if n > 0 {
        lemma_copy_back_len(out.push(out[out.len() - distance]), distance, (n - 1) as nat);
    }
}

proof fn lemma_produced_before_skip(blocks: Seq<Block>, k: int)
    requires
        0 <= k < blocks.len(),
    ensures
        produced_before(blocks, k + 1) == blocks[0].length + 1 + produced_before(blocks.skip(1), k),
    decreases k,
{
    if k > 0 {
        lemma_produced_before_skip(blocks, k - 1);
        assert(blocks.skip(1)[k - 1] == blocks[k]);
    } else {
        assert(produced_before(blocks, 0) == 0);
        assert(produced_before(blocks.skip(1), 0) == 0);
    }
}

proof fn lemma_decoded_from(out: Seq<u8>, blocks: Seq<Block>)
    ensures
        decoded_from(out, blocks) is Some <==> forall|k: int|
            0 <= k < blocks.len() ==> block_replays(
                out.len() + produced_before(blocks, k),
                #[trigger] blocks[k],
            ),
        decoded_from(out, blocks) matches Some(bytes) ==> bytes.len() == out.len()
            + produced_before(blocks, blocks.len() as int),
    decreases blocks.len(),
{
    if blocks.len() > 0 {
        let rest = blocks.skip(1);
        let next = replay(out, blocks[0]);
        lemma_copy_back_len(out, blocks[0].distance as nat, blocks[0].length as nat);
        lemma_decoded_from(next, rest);
        assert forall|k: int| 0 <= k < rest.len() implies next.len() + produced_before(rest, k)
            == out.len() + produced_before(blocks, k + 1) by {
            lemma_produced_before_skip(blocks, k);
        }
        if block_replays(out.len(), blocks[0]) {
            if decoded_from(out, blocks) is Some {
                assert forall|k: int| 0 <= k < blocks.len() implies block_replays(
                    out.len() + produced_before(blocks, k),
                    #[trigger] blocks[k],
                ) by {
                    if k > 0 {
                        assert(rest[k - 1] == blocks[k]);
                    }
                }
                if rest.len() > 0 {
                    lemma_produced_before_skip(blocks, rest.len() - 1);
                }
            } else {
                let k = choose|k: int|
                    0 <= k < rest.len() && !block_replays(
                        next.len() + produced_before(rest, k),
                        #[trigger] rest[k],
                    );
                assert(rest[k] == blocks[k + 1]);
            }
        }
    }
}

/// Blocks decode if and only if each of them can be replayed onto the bytes
/// that the blocks before it decode to, and then to as many bytes as the
/// blocks' lengths and literals make up.
pub proof fn lemma_decoded_bytes(blocks: Seq<Block>)
    ensures
        decoded_bytes(blocks) is Some <==> all_blocks_replay(blocks),
        decoded_bytes(blocks) matches Some(bytes) ==> bytes.len() == produced_before(
            blocks,
            blocks.len() as int,
        ),
{
    lemma_decoded_from(Seq::empty(), blocks);
}

/// A block whose distance exceeds the number of bytes decoded before it
/// makes the whole decoding fail.
pub proof fn lemma_bad_reference_fails(blocks: Seq<Block>, k: int)
    requires
        0 <= k < blocks.len(),
        blocks[k].distance > produced_before(blocks, k),
    ensures
        decoded_bytes(blocks) is None,
{
    lemma_decoded_bytes(blocks);
}

/// Appends to `out` the `length` bytes that start `distance` bytes behind
/// its end, one at a time.
fn copy_from_back(out: &mut Vec<u8>, distance: usize, length: usize)
    requires
        distance <= old(out)@.len(),
        length > 0 ==> distance >= 1,
    ensures
        final(out)@ == copy_back(old(out)@, distance as nat, length as nat),
{
    let mut copied: usize = 0;
    while copied < length
        invariant
            copied <= length,
            distance <= out@.len(),
            length > 0 ==> distance >= 1,
            copy_back(out@, distance as nat, (length - copied) as nat) == copy_back(
                old(out)@,
                distance as nat,
                length as nat,
            ),
        decreases length - copied,
    {
        let index = out.len() - distance;
        let byte = out[index];
        out.push(byte);
        copied += 1;
    }
}

/// Replays the blocks: for each, `length` bytes copied one at a time from
/// `distance` bytes behind the write position, then the literal. There is no
/// result where a block's distance exceeds the number of bytes decoded before
/// it, or where a block copies from distance zero.
#[must_use]
pub fn lz77_decode_blocks(blocks: &[Block]) -> (r: Option<Vec<u8>>)
    ensures
        r is Some <==> all_blocks_replay(blocks@),
        r matches Some(bytes) ==> decoded_bytes(blocks@) == Some(bytes@),
        r is None ==> decoded_bytes(blocks@) is None,
{
    let mut res: Vec<u8> = Vec::new();
    let mut k: usize = 0;
    proof {
        lemma_decoded_bytes(blocks@);
        assert(blocks@.skip(0) =~= blocks@);
    }
    while k < blocks.len()
        invariant
            k <= blocks.len(),
            decoded_bytes(blocks@) is Some <==> all_blocks_replay(blocks@),
            decoded_from(res@, blocks@.skip(k as int)) == decoded_bytes(blocks@),
        decreases blocks.len() - k,
    {
        let distance = blocks[k].distance;
        let length = blocks[k].length;
        let literal = blocks[k].literal;
        let ghost rest = blocks@.skip(k as int);
        proof {
            assert(rest[0] == blocks@[k as int]);
            assert(rest.skip(1) =~= blocks@.skip(k + 1));
        }
        if distance > res.len() || (length > 0 && distance == 0) {
            return None;
        }
        copy_from_back(&mut res, distance, length);
        res.push(literal);
        k += 1;
    }
    Some(res)
}

/// Copying bytes that repeat what stands `distance` bytes before them
/// rebuilds the input: where `bytes[i] == bytes[i - distance]` for the `n`
/// bytes from `index` on, the copy extends the first `index` bytes to the
/// first `index + n`.
pub proof fn lemma_copy_back_rebuilds(bytes: Seq<u8>, index: int, distance: nat, n: nat)
    requires
        0 <= index,
        index + n <= bytes.len(),
        n > 0 ==> 1 <= distance <= index,
        forall|i: int| index <= i < index + n ==> #[trigger] bytes[i] == bytes[i - distance],
    ensures
        copy_back(bytes.take(index), distance, n) == bytes.take(index + n),
    decreases n,
{
    if n > 0 {
        let out = bytes.take(index);
        assert(bytes[index] == bytes[index - distance]);
        assert(out.push(out[out.len() - distance]) =~= bytes.take(index + 1));
        lemma_copy_back_rebuilds(bytes, index + 1, distance, (n - 1) as nat);
    }
}

/// The block that the encoder emits at `index` stays inside the window and
/// under the longest match allowed, and replaying it onto the first `index`
/// bytes of the input gives the input up to the next block.
pub proof fn lemma_block_at(bytes: Seq<u8>, index: int, window: nat, max_len: nat)
    requires
        0 <= index < bytes.len() <= usize::MAX,
    ensures
        ({
            let block = block_at(bytes, index, window, max_len);
            &&& block.distance <= window
            &&& block.distance <= index
            &&& block.length <= max_len
            &&& block.length <= block.distance
            &&& index + block.length < bytes.len()
            &&& block_replays(index as nat, block)
            &&& replay(bytes.take(index), block) == bytes.take(index + block.length + 1)
        }),
{
    let start = window_start(index, window);
    let behind = bytes.subrange(start, index);
    let ahead = bytes.subrange(index, bytes.len() as int);
    let found = longest_match_of(behind, ahead);
    let block = block_at(bytes, index, window, max_len);
    lemma_longest_match_copies(behind, ahead);
    assert forall|i: int| index <= i < index + block.length implies #[trigger] bytes[i] == bytes[i
        - block.distance] by {
        let j = i - index;
        assert(behind[behind.len() - found.0 + j] == ahead[j]);
    }
    lemma_copy_back_rebuilds(bytes, index, block.distance as nat, block.length as nat);
    assert(bytes.take(index + block.length).push(block.literal) =~= bytes.take(
        index + block.length + 1,
    ));
}

/// Every block of an encoding stays inside the window and under the longest
/// match allowed.
pub proof fn lemma_blocks_from_bounds(bytes: Seq<u8>, index: int, window: nat, max_len: nat)
    requires
        0 <= index,
        bytes.len() <= usize::MAX,
    ensures
        forall|k: int|
            0 <= k < blocks_from(bytes, index, window, max_len).len() ==> {
                let block = #[trigger] blocks_from(bytes, index, window, max_len)[k];
                &&& block.distance <= window
                &&& block.distance <= bytes.len()
                &&& block.length <= max_len
                &&& block.length <= block.distance
            },
    decreases bytes_left(bytes, index),
{
    let blocks = blocks_from(bytes, index, window, max_len);
    if index < bytes.len() {
        let block = block_at(bytes, index, window, max_len);
        let rest = blocks_from(bytes, index + block.length + 1, window, max_len);
        lemma_block_at(bytes, index, window, max_len);
        lemma_blocks_from_bounds(bytes, index + block.length + 1, window, max_len);
        assert forall|k: int| 0 <= k < blocks.len() implies {
            let b = #[trigger] blocks[k];
            &&& b.distance <= window
            &&& b.distance <= bytes.len()
            &&& b.length <= max_len
            &&& b.length <= b.distance
        } by {
            if k > 0 {
                assert(blocks[k] == rest[k - 1]);
            }
        }
    }
}

proof fn lemma_decoded_from_blocks_from(bytes: Seq<u8>, index: int, window: nat, max_len: nat)
    requires
        0 <= index <= bytes.len() <= usize::MAX,
    ensures
        decoded_from(bytes.take(index), blocks_from(bytes, index, window, max_len)) == Some(bytes),
    decreases bytes_left(bytes, index),
{
    let blocks = blocks_from(bytes, index, window, max_len);
    if index < bytes.len() {
        let block = block_at(bytes, index, window, max_len);
        let next = index + block.length + 1;
        lemma_block_at(bytes, index, window, max_len);
        lemma_decoded_from_blocks_from(bytes, next, window, max_len);
        assert(blocks[0] == block);
        assert(blocks.skip(1) =~= blocks_from(bytes, next, window, max_len));
    } else {
        assert(bytes.take(index) =~= bytes);
    }
}

/// Decoding the blocks of an encoding gives the input back, whatever the
/// two widths are.
pub proof fn lemma_decode_blocks_inverts_encode(
    bytes: Seq<u8>,
    distance_bits: nat,
    length_bits: nat,
)
    requires
        bytes.len() <= usize::MAX,
    ensures
        decoded_bytes(encoded_blocks(bytes, distance_bits, length_bits)) == Some(bytes),
{
    lemma_decoded_from_blocks_from(bytes, 0, field_max(distance_bits), field_max(length_bits));
    assert(bytes.take(0) =~= Seq::<u8>::empty());
}

/// Whether the distance and the length of `block` can be written in
/// `distance_bits` and `length_bits` bits.
pub open spec fn block_fits(block: Block, distance_bits: nat, length_bits: nat) -> bool {
    &&& fits(block.distance as u64, distance_bits)
    &&& fits(block.length as u64, length_bits)
}

/// The number of bits that one packed block takes.
pub open spec fn block_width(distance_bits: nat, length_bits: nat) -> nat {
    distance_bits + length_bits + 8
}

/// The three fields of a packed block: distance, length, then the literal
/// in eight bits.
pub open spec fn block_bits(block: Block, distance_bits: nat, length_bits: nat) -> Seq<bool> {
    value_bits(block.distance as nat, distance_bits) + value_bits(block.length as nat, length_bits)
        + value_bits(block.literal as nat, 8)
}

/// The packed blocks, one after the other.
pub open spec fn blocks_bits(blocks: Seq<Block>, distance_bits: nat, length_bits: nat) -> Seq<bool>
    decreases blocks.len(),
{
    if blocks.len() == 0 {
        Seq::empty()
    } else {
        blocks_bits(blocks.drop_last(), distance_bits, length_bits) + block_bits(
            blocks.last(),
            distance_bits,
            length_bits,
        )
    }
}

/// The bytes that hold the packed blocks, or `None` where a field of some
/// block does not fit its width.
pub open spec fn packed_blocks(
    blocks: Seq<Block>,
    distance_bits: nat,
    length_bits: nat,
) -> Option<Seq<u8>> {
    if forall|k: int|
        0 <= k < blocks.len() ==> block_fits(#[trigger] blocks[k], distance_bits, length_bits) {
        Some(bytes_of_bits(blocks_bits(blocks, distance_bits, length_bits)))
    } else {
        None
    }
}

/// Packs each block as three fields: the distance in `distance_bits` bits,
/// the length in `length_bits` bits, the literal in eight. There is no
/// result where a distance or a length does not fit its width.
#[must_use]
pub fn pack_blocks(
    blocks: &[Block],
    distance_bits: usize,
    length_bits: usize,
) -> (r: Option<Vec<u8>>)
    ensures
        r is Some <==> forall|k: int|
            0 <= k < blocks@.len() ==> block_fits(
                #[trigger] blocks@[k],
                distance_bits as nat,
                length_bits as nat,
            ),
        r matches Some(bytes) ==> bytes@ == bytes_of_bits(
            blocks_bits(blocks@, distance_bits as nat, length_bits as nat),
        ),
        r matches Some(bytes) ==> packed_blocks(blocks@, distance_bits as nat, length_bits as nat)
            == Some(bytes@),
        r is None ==> packed_blocks(blocks@, distance_bits as nat, length_bits as nat) is None,
{
    let mut packer = BitPacker::new();
    let mut k: usize = 0;
    assert(blocks@.take(0) =~= Seq::<Block>::empty());
    while k < blocks.len()
        invariant
            k <= blocks.len(),
            packer.wf(),
            packer@ == blocks_bits(
                blocks@.take(k as int),
                distance_bits as nat,
                length_bits as nat,
            ),
            forall|j: int|
                0 <= j < k ==> block_fits(
                    #[trigger] blocks@[j],
                    distance_bits as nat,
                    length_bits as nat,
                ),
        decreases blocks.len() - k,
    {
        let distance = blocks[k].distance as u64;
        let length = blocks[k].length as u64;
        let literal = blocks[k].literal as u64;
        proof {
            lemma2_to64();
            assert(blocks@.take(k + 1).drop_last() =~= blocks@.take(k as int));
        }
        if packer.pack(distance, distance_bits).is_none() {
            return None;
        }
        if packer.pack(length, length_bits).is_none() {
            return None;
        }
        if packer.pack(literal, 8).is_none() {
            return None;
        }
        k += 1;
    }
    assert(blocks@.take(k as int) =~= blocks@);
    Some(packer.get_bytes())
}

/// The number of whole blocks that `byte_len` bytes hold.
pub open spec fn block_count(byte_len: nat, distance_bits: nat, length_bits: nat) -> nat {
    (8 * byte_len) / block_width(distance_bits, length_bits)
}

/// The value of the `width` bits of `stream` from bit `at` on.
pub open spec fn field_at(stream: Seq<bool>, at: int, width: nat) -> nat {
    bits_value(stream.subrange(at, at + width))
}

/// The `k`-th block of a packed stream. A distance or a length that is too
/// large for `usize` is cut to its low bits.
pub open spec fn stream_block(
    stream: Seq<bool>,
    k: int,
    distance_bits: nat,
    length_bits: nat,
) -> Block {
    let at = k * block_width(distance_bits, length_bits);
    Block {
        distance: (field_at(stream, at, distance_bits) as u64) as usize,
        length: (field_at(stream, at + distance_bits, length_bits) as u64) as usize,
        literal: field_at(stream, at + distance_bits + length_bits, 8) as u8,
    }
}

/// The blocks that `bytes` hold: as many as fit in whole, what is left over
/// at the end is ignored. There are none to be had where a block is to be
/// read and a width is above 64.
pub open spec fn unpacked_blocks(
    bytes: Seq<u8>,
    distance_bits: nat,
    length_bits: nat,
) -> Option<Seq<Block>> {
    let count = block_count(bytes.len(), distance_bits, length_bits);
    if count == 0 || (distance_bits <= 64 && length_bits <= 64) {
        Some(
            Seq::new(
                count,
                |k: int| stream_block(bits_of_bytes(bytes), k, distance_bits, length_bits),
            ),
        )
    } else {
        None
    }
}

proof fn lemma_block_count(byte_len: nat, distance_bits: nat, length_bits: nat)
    ensures
        block_count(byte_len, distance_bits, length_bits) <= byte_len,
        block_count(byte_len, distance_bits, length_bits) * block_width(distance_bits, length_bits)
            <= 8 * byte_len,
{
    let width = block_width(distance_bits, length_bits) as int;
    let total = (8 * byte_len) as int;
    lemma_div_is_ordered_by_denominator(total, 8, width);
    lemma_fundamental_div_mod(total, width);
    lemma_mod_bound(total, width);
    assert((total / width) * width == width * (total / width)) by (nonlinear_arith);
}

/// Reads `floor(8 * len / (distance_bits + length_bits + 8))` blocks from
/// `bytes`, each as three fields. There is no result where a block is to be
/// read and `distance_bits` or `length_bits` is above 64.
#[must_use]
pub fn unpack_blocks(
    bytes: &[u8],
    distance_bits: usize,
    length_bits: usize,
) -> (r: Option<Vec<Block>>)
    ensures
        r is Some <==> {
            ||| block_count(bytes@.len(), distance_bits as nat, length_bits as nat) == 0
            ||| (distance_bits <= 64 && length_bits <= 64)
        },
        r matches Some(blocks) ==> unpacked_blocks(bytes@, distance_bits as nat, length_bits as nat)
            == Some(blocks@),
        r is None ==> unpacked_blocks(bytes@, distance_bits as nat, length_bits as nat) is None,
{
    let ghost width = block_width(distance_bits as nat, length_bits as nat);
    let ghost count = block_count(bytes@.len(), distance_bits as nat, length_bits as nat);
    let ghost stream = bits_of_bytes(bytes@);
    proof {
        lemma_block_count(bytes@.len(), distance_bits as nat, length_bits as nat);
    }
    let block_length: u128 = distance_bits as u128 + length_bits as u128 + 8;
    let no_of_blocks = ((bytes.len() as u128 * 8) / block_length) as usize;

    let mut unpacker = BitUnpacker::new(bytes);
    let mut blocks: Vec<Block> = Vec::new();
    let mut k: usize = 0;
    assert(0 * width == 0) by (nonlinear_arith);
    while k < no_of_blocks
        invariant
            k <= no_of_blocks == count,
            count == block_count(bytes@.len(), distance_bits as nat, length_bits as nat),
            width == block_width(distance_bits as nat, length_bits as nat),
            count * width <= 8 * bytes@.len(),
            stream == bits_of_bytes(bytes@),
            unpacker.wf(),
            unpacker.bytes() == bytes@,
            unpacker.position() == k * width,
            k > 0 ==> distance_bits <= 64 && length_bits <= 64,
            blocks@.len() == k,
            forall|j: int|
                0 <= j < k ==> blocks@[j] == stream_block(
                    stream,
                    j,
                    distance_bits as nat,
                    length_bits as nat,
                ),
        decreases no_of_blocks - k,
    {
        proof {
            assert((k + 1) * width <= count * width) by (nonlinear_arith)
                requires
                    k + 1 <= count,
            ;
            assert((k + 1) * width == k * width + width) by (nonlinear_arith);
        }
        let ghost at = (k * width) as int;
        let ghost literal_at = at + distance_bits + length_bits;
        assert(stream.len() == 8 * bytes@.len());
        assert(unpacker.stream() == stream);
        let distance = match unpacker.unpack(distance_bits) {
            Some(value) => value,
            None => {
                return None;
            },
        };
        let length = match unpacker.unpack(length_bits) {
            Some(value) => value,
            None => {
                return None;
            },
        };
        let literal = match unpacker.unpack(8) {
            Some(value) => value,
            None => {
                return None;
            },
        };
        proof {
            lemma2_to64();
            lemma_value_bits_of_bits_value(stream.subrange(literal_at, literal_at + 8));
        }
        let block = Block {
            distance: #[verifier::truncate]
            (distance as usize),
            length: #[verifier::truncate]
            (length as usize),
            literal: literal as u8,
        };
        assert(block == stream_block(stream, k as int, distance_bits as nat, length_bits as nat));
        blocks.push(block);
        k += 1;
    }
    assert(blocks@ =~= Seq::new(
        count,
        |k: int| stream_block(stream, k, distance_bits as nat, length_bits as nat),
    ));
    Some(blocks)
}

/// The compressed form of `bytes`: its blocks, packed.
pub open spec fn encoded(bytes: Seq<u8>, distance_bits: nat, length_bits: nat) -> Seq<u8> {
    bytes_of_bits(
        blocks_bits(encoded_blocks(bytes, distance_bits, length_bits), distance_bits, length_bits),
    )
}

/// What compressed `bytes` decode to, or `None` where no blocks can be read
/// from them or the blocks cannot be replayed.
pub open spec fn decoded(bytes: Seq<u8>, distance_bits: nat, length_bits: nat) -> Option<Seq<u8>> {
    match unpacked_blocks(bytes, distance_bits, length_bits) {
        Some(blocks) => decoded_bytes(blocks),
        None => None,
    }
}

/// The blocks of an encoding fit the widths that they were made for.
pub proof fn lemma_encoded_blocks_fit(bytes: Seq<u8>, distance_bits: nat, length_bits: nat)
    requires
        bytes.len() <= usize::MAX,
    ensures
        forall|k: int|
            0 <= k < encoded_blocks(bytes, distance_bits, length_bits).len() ==> block_fits(
                #[trigger] encoded_blocks(bytes, distance_bits, length_bits)[k],
                distance_bits,
                length_bits,
            ),
        packed_blocks(
            encoded_blocks(bytes, distance_bits, length_bits),
            distance_bits,
            length_bits,
        ) == Some(encoded(bytes, distance_bits, length_bits)),
{
    lemma_blocks_from_bounds(bytes, 0, field_max(distance_bits), field_max(length_bits));
    lemma_pow2_pos(distance_bits);
    lemma_pow2_pos(length_bits);
}

/// Compresses `plain`: encodes it to blocks and packs them.
pub fn lz77_encode(plain: &[u8], distance_bits: usize, length_bits: usize) -> (packed: Vec<u8>)
    ensures
        packed@ == encoded(plain@, distance_bits as nat, length_bits as nat),
{
    let blocks = lz77_encode_to_blocks(plain, distance_bits, length_bits);
    proof {
        assert(plain@.len() == plain.len());
        lemma_encoded_blocks_fit(plain@, distance_bits as nat, length_bits as nat);
    }
    // Every distance stays inside the window and every length under the
    // longest match, so the fields fit.
    pack_blocks(blocks.as_slice(), distance_bits, length_bits).unwrap()
}

/// Decompresses `encoded`: unpacks its blocks and replays them. There is no
/// result where a width is above 64 and a block is to be read, or where a
/// block refers back to before the first byte.
#[must_use]
pub fn lz77_decode(
    encoded: &[u8],
    distance_bits: usize,
    length_bits: usize,
) -> (r: Option<Vec<u8>>)
    ensures
        r is Some <==> {
            &&& unpacked_blocks(encoded@, distance_bits as nat, length_bits as nat) matches Some(
                blocks,
            )
            &&& all_blocks_replay(blocks)
        },
        r matches Some(bytes) ==> decoded(encoded@, distance_bits as nat, length_bits as nat)
            == Some(bytes@),
        r is None ==> decoded(encoded@, distance_bits as nat, length_bits as nat) is None,
{
    match unpack_blocks(encoded, distance_bits, length_bits) {
        Some(blocks) => lz77_decode_blocks(blocks.as_slice()),
        None => None,
    }
}

/// `n` packed blocks take `n` times the width of one.
pub proof fn lemma_blocks_bits_len(blocks: Seq<Block>, distance_bits: nat, length_bits: nat)
    ensures
        blocks_bits(blocks, distance_bits, length_bits).len() == blocks.len() * block_width(
            distance_bits,
            length_bits,
        ),
    decreases blocks.len(),
{
    if blocks.len() > 0 {
        lemma_blocks_bits_len(blocks.drop_last(), distance_bits, length_bits);
        let n = blocks.len();
        let width = block_width(distance_bits, length_bits);
        assert((n - 1) * width + width == n * width) by (nonlinear_arith);
    }
}

/// Packing one run of blocks after another packs their concatenation.
pub proof fn lemma_blocks_bits_concat(
    a: Seq<Block>,
    b: Seq<Block>,
    distance_bits: nat,
    length_bits: nat,
)
    ensures
        blocks_bits(a + b, distance_bits, length_bits) == blocks_bits(a, distance_bits, length_bits)
            + blocks_bits(b, distance_bits, length_bits),
    decreases b.len(),
{
    let left = blocks_bits(a, distance_bits, length_bits);
    if b.len() == 0 {
        assert(a + b =~= a);
        assert(left + blocks_bits(b, distance_bits, length_bits) =~= left);
    } else {
        assert((a + b).drop_last() =~= a + b.drop_last());
        lemma_blocks_bits_concat(a, b.drop_last(), distance_bits, length_bits);
        assert(blocks_bits(a + b, distance_bits, length_bits) =~= left + blocks_bits(
            b,
            distance_bits,
            length_bits,
        ));
    }
}

/// A field that fits its width is read back from the bytes of the stream
/// that holds it between `before` and `after`.
proof fn lemma_field_at(all: Seq<bool>, before: Seq<bool>, v: nat, width: nat, after: Seq<bool>)
    requires
        v < pow2(width),
        all == before + value_bits(v, width) + after,
    ensures
        field_at(bits_of_bytes(bytes_of_bits(all)), before.len() as int, width) == v,
{
    lemma_field_in_bytes(before, v, width, after);
}

/// One packed block between the blocks before and after it.
proof fn lemma_blocks_bits_split(blocks: Seq<Block>, distance_bits: nat, length_bits: nat, k: int)
    requires
        0 <= k < blocks.len(),
    ensures
        blocks_bits(blocks, distance_bits, length_bits) == blocks_bits(
            blocks.take(k),
            distance_bits,
            length_bits,
        ) + block_bits(blocks[k], distance_bits, length_bits) + blocks_bits(
            blocks.skip(k + 1),
            distance_bits,
            length_bits,
        ),
        blocks_bits(blocks.take(k), distance_bits, length_bits).len() == k * block_width(
            distance_bits,
            length_bits,
        ),
{
    let one = seq![blocks[k]];
    assert(blocks =~= blocks.take(k) + one + blocks.skip(k + 1));
    lemma_blocks_bits_concat(blocks.take(k) + one, blocks.skip(k + 1), distance_bits, length_bits);
    lemma_blocks_bits_concat(blocks.take(k), one, distance_bits, length_bits);
    lemma_blocks_bits_len(blocks.take(k), distance_bits, length_bits);
    assert(blocks_bits(one, distance_bits, length_bits) =~= block_bits(
        blocks[k],
        distance_bits,
        length_bits,
    )) by {
        reveal_with_fuel(blocks_bits, 2);
        assert(one.drop_last() =~= Seq::<Block>::empty());
    }
}

proof fn lemma_stream_block(blocks: Seq<Block>, distance_bits: nat, length_bits: nat, k: int)
    requires
        0 <= k < blocks.len(),
        block_fits(blocks[k], distance_bits, length_bits),
    ensures
        stream_block(
            bits_of_bytes(bytes_of_bits(blocks_bits(blocks, distance_bits, length_bits))),
            k,
            distance_bits,
            length_bits,
        ) == blocks[k],
{
    let head = blocks_bits(blocks.take(k), distance_bits, length_bits);
    let tail = blocks_bits(blocks.skip(k + 1), distance_bits, length_bits);
    let block = blocks[k];
    let distance = value_bits(block.distance as nat, distance_bits);
    let length = value_bits(block.length as nat, length_bits);
    let literal = value_bits(block.literal as nat, 8);
    let all = blocks_bits(blocks, distance_bits, length_bits);
    let stream = bits_of_bytes(bytes_of_bits(all));
    let at = k * block_width(distance_bits, length_bits);

    lemma_blocks_bits_split(blocks, distance_bits, length_bits, k);
    assert(field_at(stream, at, distance_bits) == block.distance) by {
        assert(all =~= head + distance + (length + literal + tail));
        lemma_field_at(all, head, block.distance as nat, distance_bits, length + literal + tail);
    }
    assert(field_at(stream, at + distance_bits, length_bits) == block.length) by {
        assert(all =~= (head + distance) + length + (literal + tail));
        lemma_field_at(all, head + distance, block.length as nat, length_bits, literal + tail);
    }
    assert(field_at(stream, at + distance_bits + length_bits, 8) == block.literal) by {
        lemma2_to64();
        assert(all =~= (head + distance + length) + literal + tail);
        lemma_field_at(all, head + distance + length, block.literal as nat, 8, tail);
    }
}

/// Unpacking what was packed gives the blocks back: where the two widths
/// are at most 64 and every distance and length fits its width.
pub proof fn lemma_unpack_inverts_pack(blocks: Seq<Block>, distance_bits: nat, length_bits: nat)
    requires
        distance_bits <= 64,
        length_bits <= 64,
        forall|k: int|
            0 <= k < blocks.len() ==> block_fits(#[trigger] blocks[k], distance_bits, length_bits),
    ensures
        packed_blocks(blocks, distance_bits, length_bits) is Some,
        unpacked_blocks(
            packed_blocks(blocks, distance_bits, length_bits).unwrap(),
            distance_bits,
            length_bits,
        ) == Some(blocks),
{
    let width = block_width(distance_bits, length_bits);
    let all = blocks_bits(blocks, distance_bits, length_bits);
    let bytes = bytes_of_bits(all);
    lemma_blocks_bits_len(blocks, distance_bits, length_bits);
    lemma_bits_of_bytes_of_bits(all);
    let n = blocks.len();
    let pad = padding_len(all.len());
    assert(8 * bytes.len() == n * width + pad);
    lemma_fundamental_div_mod_converse(
        (8 * bytes.len()) as int,
        width as int,
        n as int,
        pad as int,
    );
    assert(block_count(bytes.len(), distance_bits, length_bits) == n);
    let unpacked = unpacked_blocks(bytes, distance_bits, length_bits).unwrap();
    assert forall|k: int| 0 <= k < n implies unpacked[k] == blocks[k] by {
        lemma_stream_block(blocks, distance_bits, length_bits, k);
    }
    assert(unpacked =~= blocks);
}

/// Decompressing what was compressed gives the input back, for widths of
/// at most 64 bits. The empty input has no blocks and comes back empty.
pub proof fn lemma_decode_inverts_encode(bytes: Seq<u8>, distance_bits: nat, length_bits: nat)
    requires
        bytes.len() <= usize::MAX,
        distance_bits <= 64,
        length_bits <= 64,
    ensures
        decoded(encoded(bytes, distance_bits, length_bits), distance_bits, length_bits) == Some(
            bytes,
        ),
{
    lemma_encoded_blocks_fit(bytes, distance_bits, length_bits);
    lemma_unpack_inverts_pack(
        encoded_blocks(bytes, distance_bits, length_bits),
        distance_bits,
        length_bits,
    );
    lemma_decode_blocks_inverts_encode(bytes, distance_bits, length_bits);
}

} // verus!
