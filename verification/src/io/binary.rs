//! Little-endian byte encoding. All page-format reading and writing goes through these functions.

use vstd::prelude::*;
use vstd::slice::slice_subrange;


verus! {

// ---------------------------------------------------------------------------------------------
// Byte strings inside buffers

/// `buf` with the bytes from `pos` on replaced by `bytes`.
#[verifier::opaque]
pub open spec fn overwrite(buf: Seq<u8>, pos: int, bytes: Seq<u8>) -> Seq<u8> {
    Seq::new(
        buf.len(),
        |i: int|
            if pos <= i < pos + bytes.len() {
                bytes[i - pos]
            } else {
                buf[i]
            },
    )
}

/// `bytes` stands in `buf` from `pos` on.
#[verifier::opaque]
pub open spec fn holds_at(buf: Seq<u8>, pos: int, bytes: Seq<u8>) -> bool {
    &&& 0 <= pos
    &&& pos + bytes.len() <= buf.len()
    &&& forall|i: int| 0 <= i < bytes.len() ==> #[trigger] bytes[i] == buf[pos + i]
}

pub proof fn lemma_overwrite_append(buf: Seq<u8>, pos: int, a: Seq<u8>, b: Seq<u8>)
    requires
        0 <= pos,
        pos + a.len() + b.len() <= buf.len(),
    ensures
        overwrite(overwrite(buf, pos, a), pos + a.len(), b) == overwrite(buf, pos, a + b),
        overwrite(buf, pos, a + b).len() == buf.len(),
{
    reveal(overwrite);
    assert(overwrite(overwrite(buf, pos, a), pos + a.len(), b) =~= overwrite(buf, pos, a + b));
}

pub proof fn lemma_overwrite_holds(buf: Seq<u8>, pos: int, a: Seq<u8>)
    requires
        0 <= pos,
        pos + a.len() <= buf.len(),
    ensures
        holds_at(overwrite(buf, pos, a), pos, a),
        overwrite(buf, pos, a).len() == buf.len(),
{
    reveal(overwrite);
    reveal(holds_at);
}

pub proof fn lemma_overwrite_empty(buf: Seq<u8>, pos: int)
    ensures
        overwrite(buf, pos, Seq::empty()) == buf,
{
    reveal(overwrite);
    assert(overwrite(buf, pos, Seq::empty()) =~= buf);
}

/// Overwriting a whole buffer leaves nothing of what it held.
pub proof fn lemma_overwrite_all(buf: Seq<u8>, a: Seq<u8>)
    requires
        buf.len() == a.len(),
    ensures
        overwrite(buf, 0, a) == a,
{
    reveal(overwrite);
    assert(overwrite(buf, 0, a) =~= a);
}

pub proof fn lemma_holds_append(buf: Seq<u8>, pos: int, a: Seq<u8>, b: Seq<u8>)
    ensures
        holds_at(buf, pos, a + b) <==> holds_at(buf, pos, a) && holds_at(buf, pos + a.len(), b),
        holds_at(buf, pos, a + b) ==> 0 <= pos && pos + a.len() + b.len() <= buf.len(),
{
    reveal(holds_at);
    if holds_at(buf, pos, a + b) {
        assert forall|i: int| 0 <= i < a.len() implies #[trigger] a[i] == buf[pos + i] by {
            assert((a + b)[i] == a[i]);
        }
        assert forall|i: int| 0 <= i < b.len() implies #[trigger] b[i] == buf[pos + a.len() + i] by {
            assert((a + b)[a.len() + i] == b[i]);
        }
    }
    if holds_at(buf, pos, a) && holds_at(buf, pos + a.len(), b) {
        assert forall|i: int| 0 <= i < (a + b).len() implies #[trigger] (a + b)[i] == buf[pos + i] by {
            if i < a.len() {
                assert(a[i] == buf[pos + i]);
            } else {
                assert(b[i - a.len()] == buf[pos + a.len() + (i - a.len())]);
            }
        }
    }
}

pub proof fn lemma_holds_subrange(buf: Seq<u8>, pos: int, a: Seq<u8>)
    requires
        holds_at(buf, pos, a),
    ensures
        buf.subrange(pos, pos + a.len()) == a,
        0 <= pos,
        pos + a.len() <= buf.len(),
{
    reveal(holds_at);
    assert(buf.subrange(pos, pos + a.len()) =~= a) by {
        assert forall|i: int| 0 <= i < a.len() implies buf.subrange(pos, pos + a.len())[i] == a[i] by {
            assert(a[i] == buf[pos + i]);
        }
    }
}

/// What stands in a buffer stands in a part of it that reaches far enough.
pub proof fn lemma_holds_part(buf: Seq<u8>, start: int, end: int, a: Seq<u8>)
    requires
        holds_at(buf, start, a),
        start + a.len() <= end <= buf.len(),
    ensures
        holds_at(buf.subrange(start, end), 0, a),
{
    reveal(holds_at);
    let part = buf.subrange(start, end);
    assert forall|i: int| 0 <= i < a.len() implies #[trigger] a[i] == part[0 + i] by {
        assert(a[i] == buf[start + i]);
    }
}

pub proof fn lemma_holds_self(a: Seq<u8>, b: Seq<u8>)
    ensures
        holds_at(a + b, 0, a),
        holds_at(a, 0, a),
{
    reveal(holds_at);
    assert forall|i: int| 0 <= i < a.len() implies #[trigger] a[i] == (a + b)[0 + i] by {}
}

// ---------------------------------------------------------------------------------------------
// Numbers as bytes

#[verifier::opaque]
pub open spec fn u16_le(v: u16) -> Seq<u8> {
    seq![(v % 0x100) as u8, (v / 0x100) as u8]
}

#[verifier::opaque]
pub open spec fn u32_le(v: u32) -> Seq<u8> {
    seq![
        (v % 0x100) as u8,
        (v / 0x100 % 0x100) as u8,
        (v / 0x1_0000 % 0x100) as u8,
        (v / 0x100_0000) as u8,
    ]
}

#[verifier::opaque]
pub open spec fn u64_le(v: u64) -> Seq<u8> {
    u32_le((v % 0x1_0000_0000) as u32) + u32_le((v / 0x1_0000_0000) as u32)
}

pub open spec fn u16_at(buf: Seq<u8>, pos: int) -> u16 {
    (buf[pos] + 0x100 * buf[pos + 1]) as u16
}

pub open spec fn u32_at(buf: Seq<u8>, pos: int) -> u32 {
    (buf[pos] + 0x100 * buf[pos + 1] + 0x1_0000 * buf[pos + 2] + 0x100_0000 * buf[pos + 3]) as u32
}

pub open spec fn u64_at(buf: Seq<u8>, pos: int) -> u64 {
    (u32_at(buf, pos) + 0x1_0000_0000 * u32_at(buf, pos + 4)) as u64
}

pub broadcast proof fn lemma_u16_len(v: u16)
    ensures
        (#[trigger] u16_le(v)).len() == 2,
{
    reveal(u16_le);
}

pub broadcast proof fn lemma_u32_len(v: u32)
    ensures
        (#[trigger] u32_le(v)).len() == 4,
{
    reveal(u32_le);
}

pub broadcast proof fn lemma_u64_len(v: u64)
    ensures
        (#[trigger] u64_le(v)).len() == 8,
{
    reveal(u64_le);
    reveal(u32_le);
}

pub broadcast proof fn lemma_bitmask_len(bits: Seq<bool>)
    ensures
        (#[trigger] bitmask(bits)).len() == mask_len(bits.len()),
{
    reveal(bitmask);
}

pub broadcast proof fn lemma_words_len(words: Seq<u64>)
    ensures
        (#[trigger] words_le(words)).len() == 8 * words.len(),
{
    reveal(words_le);
}

pub broadcast proof fn lemma_ints_len(ints: Seq<u32>)
    ensures
        (#[trigger] ints_le(ints)).len() == 4 * ints.len(),
{
    reveal(ints_le);
}

/// How many bytes each encoding takes.
pub broadcast group group_lengths {
    lemma_u16_len,
    lemma_u32_len,
    lemma_u64_len,
    lemma_bitmask_len,
    lemma_words_len,
    lemma_ints_len,
}

/// The two's complement bit pattern of a signed number.
pub open spec fn i64_bits(v: i64) -> u64 {
    if v >= 0 {
        v as u64
    } else {
        (v + 0x1_0000_0000_0000_0000) as u64
    }
}

/// The signed number of a two's complement bit pattern.
pub open spec fn i64_of_bits(b: u64) -> i64 {
    if b < 0x8000_0000_0000_0000 {
        b as i64
    } else {
        (b - 0x1_0000_0000_0000_0000) as i64
    }
}

/// The low 32 bits of a number.
pub open spec fn low_u32(n: int) -> u32 {
    (n % 0x1_0000_0000) as u32
}

/// The low 16 bits of a number.
pub open spec fn low_u16(n: int) -> u16 {
    (n % 0x1_0000) as u16
}

pub fn to_low_u32(n: usize) -> (r: u32)
    ensures
        r == low_u32(n as int),
{
    (n as u64 % 0x1_0000_0000) as u32
}

pub fn to_low_u16(n: usize) -> (r: u16)
    ensures
        r == low_u16(n as int),
{
    (n as u64 % 0x1_0000) as u16
}

pub proof fn lemma_u16_at(buf: Seq<u8>, pos: int, v: u16)
    requires
        holds_at(buf, pos, u16_le(v)),
    ensures
        u16_at(buf, pos) == v,
        0 <= pos,
        pos + 2 <= buf.len(),
{
    reveal(u16_le);
    reveal(holds_at);
    assert(u16_le(v)[0] == buf[pos + 0]);
    assert(u16_le(v)[1] == buf[pos + 1]);
}

pub proof fn lemma_u32_at(buf: Seq<u8>, pos: int, v: u32)
    requires
        holds_at(buf, pos, u32_le(v)),
    ensures
        u32_at(buf, pos) == v,
        0 <= pos,
        pos + 4 <= buf.len(),
{
    reveal(u32_le);
    reveal(holds_at);
    assert(u32_le(v)[0] == buf[pos + 0]);
    assert(u32_le(v)[1] == buf[pos + 1]);
    assert(u32_le(v)[2] == buf[pos + 2]);
    assert(u32_le(v)[3] == buf[pos + 3]);
}

pub proof fn lemma_u64_at(buf: Seq<u8>, pos: int, v: u64)
    requires
        holds_at(buf, pos, u64_le(v)),
    ensures
        u64_at(buf, pos) == v,
        0 <= pos,
        pos + 8 <= buf.len(),
{
    broadcast use group_lengths;

    reveal(u64_le);
    lemma_holds_append(
        buf,
        pos,
        u32_le((v % 0x1_0000_0000) as u32),
        u32_le((v / 0x1_0000_0000) as u32),
    );
    lemma_u32_at(buf, pos, (v % 0x1_0000_0000) as u32);
    lemma_u32_at(buf, pos + 4, (v / 0x1_0000_0000) as u32);
}

/// What [`write_u8`] wrote, [`read_u8`] gives back.
pub proof fn law_u8_read_back(buf: Seq<u8>, pos: int, v: u8)
    requires
        0 <= pos,
        pos + 1 <= buf.len(),
    ensures
        overwrite(buf, pos, seq![v])[pos] == v,
{
    reveal(overwrite);
}

/// What [`write_u16`] wrote, [`read_u16`] gives back.
pub proof fn law_u16_read_back(buf: Seq<u8>, pos: int, v: u16)
    requires
        0 <= pos,
        pos + 2 <= buf.len(),
    ensures
        u16_at(overwrite(buf, pos, u16_le(v)), pos) == v,
{
    broadcast use group_lengths;

    lemma_overwrite_holds(buf, pos, u16_le(v));
    lemma_u16_at(overwrite(buf, pos, u16_le(v)), pos, v);
}

/// What [`write_u32`] wrote, [`read_u32`] gives back.
pub proof fn law_u32_read_back(buf: Seq<u8>, pos: int, v: u32)
    requires
        0 <= pos,
        pos + 4 <= buf.len(),
    ensures
        u32_at(overwrite(buf, pos, u32_le(v)), pos) == v,
{
    broadcast use group_lengths;

    lemma_overwrite_holds(buf, pos, u32_le(v));
    lemma_u32_at(overwrite(buf, pos, u32_le(v)), pos, v);
}

/// What [`write_u64`] wrote, [`read_u64`] gives back; so do [`write_f64`] and [`read_f64`].
pub proof fn law_u64_read_back(buf: Seq<u8>, pos: int, v: u64)
    requires
        0 <= pos,
        pos + 8 <= buf.len(),
    ensures
        u64_at(overwrite(buf, pos, u64_le(v)), pos) == v,
{
    broadcast use group_lengths;

    lemma_overwrite_holds(buf, pos, u64_le(v));
    lemma_u64_at(overwrite(buf, pos, u64_le(v)), pos, v);
}

/// What [`write_i64`] wrote, [`read_i64`] gives back.
pub proof fn law_i64_read_back(buf: Seq<u8>, pos: int, v: i64)
    requires
        0 <= pos,
        pos + 8 <= buf.len(),
    ensures
        i64_of_bits(u64_at(overwrite(buf, pos, u64_le(i64_bits(v))), pos)) == v,
{
    law_u64_read_back(buf, pos, i64_bits(v));
}

/// What [`write_bytes`] wrote, [`read_bytes`] gives back.
pub proof fn law_bytes_read_back(buf: Seq<u8>, pos: int, bytes: Seq<u8>)
    requires
        0 <= pos,
        pos + bytes.len() <= buf.len(),
    ensures
        overwrite(buf, pos, bytes).subrange(pos, pos + bytes.len()) == bytes,
{
    lemma_overwrite_holds(buf, pos, bytes);
    lemma_holds_subrange(overwrite(buf, pos, bytes), pos, bytes);
}

/// Writing leaves every byte outside the written range as it was.
pub proof fn law_write_leaves_rest(buf: Seq<u8>, pos: int, bytes: Seq<u8>, i: int)
    requires
        0 <= i < buf.len(),
        i < pos || pos + bytes.len() <= i,
    ensures
        overwrite(buf, pos, bytes)[i] == buf[i],
{
    reveal(overwrite);
}

pub fn write_u8(buf: &mut [u8], pos: &mut usize, val: u8)
    requires
        *old(pos) + 1 <= old(buf)@.len(),
    ensures
        final(buf)@ == overwrite(old(buf)@, *old(pos) as int, seq![val]),
        final(buf)@.len() == old(buf)@.len(),
        *final(pos) == *old(pos) + 1,
{
    buf[*pos] = val;
    *pos = *pos + 1;
    reveal(overwrite);
    assert(buf@ =~= overwrite(old(buf)@, *old(pos) as int, seq![val]));
}

pub fn read_u8(buf: &[u8], pos: &mut usize) -> (v: u8)
    requires
        *old(pos) + 1 <= buf@.len(),
    ensures
        v == buf@[*old(pos) as int],
        *final(pos) == *old(pos) + 1,
{
    let v: u8 = buf[*pos];
    *pos = *pos + 1;
    v
}

pub fn write_u32(buf: &mut [u8], pos: &mut usize, val: u32)
    requires
        *old(pos) + 4 <= old(buf)@.len(),
    ensures
        final(buf)@ == overwrite(old(buf)@, *old(pos) as int, u32_le(val)),
        final(buf)@.len() == old(buf)@.len(),
        *final(pos) == *old(pos) + 4,
{
    reveal(u32_le);
    let p: usize = *pos;
    buf[p] = (val % 0x100) as u8;
    buf[p + 1] = (val / 0x100 % 0x100) as u8;
    buf[p + 2] = (val / 0x1_0000 % 0x100) as u8;
    buf[p + 3] = (val / 0x100_0000) as u8;
    *pos = p + 4;
    reveal(overwrite);
    assert(buf@ =~= overwrite(old(buf)@, *old(pos) as int, u32_le(val)));
}

pub fn read_u32(buf: &[u8], pos: &mut usize) -> (v: u32)
    requires
        *old(pos) + 4 <= buf@.len(),
    ensures
        v == u32_at(buf@, *old(pos) as int),
        *final(pos) == *old(pos) + 4,
{
    let p: usize = *pos;
    let v: u32 = buf[p] as u32 + 0x100 * (buf[p + 1] as u32) + 0x1_0000 * (buf[p + 2] as u32)
        + 0x100_0000 * (buf[p + 3] as u32);
    *pos = p + 4;
    v
}

pub fn write_u64(buf: &mut [u8], pos: &mut usize, val: u64)
    requires
        *old(pos) + 8 <= old(buf)@.len(),
    ensures
        final(buf)@ == overwrite(old(buf)@, *old(pos) as int, u64_le(val)),
        final(buf)@.len() == old(buf)@.len(),
        *final(pos) == *old(pos) + 8,
{
    broadcast use group_lengths;

    reveal(u64_le);
    write_u32(buf, pos, (val % 0x1_0000_0000) as u32);
    write_u32(buf, pos, (val / 0x1_0000_0000) as u32);
    proof {
        lemma_overwrite_append(
            old(buf)@,
            *old(pos) as int,
            u32_le((val % 0x1_0000_0000) as u32),
            u32_le((val / 0x1_0000_0000) as u32),
        );
    }
}

pub fn read_u64(buf: &[u8], pos: &mut usize) -> (v: u64)
    requires
        *old(pos) + 8 <= buf@.len(),
    ensures
        v == u64_at(buf@, *old(pos) as int),
        *final(pos) == *old(pos) + 8,
{
    let low: u32 = read_u32(buf, pos);
    let high: u32 = read_u32(buf, pos);
    low as u64 + 0x1_0000_0000 * (high as u64)
}

pub fn write_u16(buf: &mut [u8], pos: &mut usize, val: u16)
    requires
        *old(pos) + 2 <= old(buf)@.len(),
    ensures
        final(buf)@ == overwrite(old(buf)@, *old(pos) as int, u16_le(val)),
        final(buf)@.len() == old(buf)@.len(),
        *final(pos) == *old(pos) + 2,
{
    reveal(u16_le);
    let p: usize = *pos;
    buf[p] = (val % 0x100) as u8;
    buf[p + 1] = (val / 0x100) as u8;
    *pos = p + 2;
    reveal(overwrite);
    assert(buf@ =~= overwrite(old(buf)@, *old(pos) as int, u16_le(val)));
}

pub fn read_u16(buf: &[u8], pos: &mut usize) -> (v: u16)
    requires
        *old(pos) + 2 <= buf@.len(),
    ensures
        v == u16_at(buf@, *old(pos) as int),
        *final(pos) == *old(pos) + 2,
{
    let p: usize = *pos;
    let v: u16 = buf[p] as u16 + 0x100 * (buf[p + 1] as u16);
    *pos = p + 2;
    v
}

pub fn write_bytes(buf: &mut [u8], pos: &mut usize, data: &[u8])
    requires
        *old(pos) + data@.len() <= old(buf)@.len(),
    ensures
        final(buf)@ == overwrite(old(buf)@, *old(pos) as int, data@),
        final(buf)@.len() == old(buf)@.len(),
        *final(pos) == *old(pos) + data@.len(),
{
    let p: usize = *pos;
    let n: usize = data.len();
    let end: usize = buf.len();
    let mut i: usize = 0;
    reveal(overwrite);
    proof {
        lemma_overwrite_empty(buf@, p as int);
        assert(data@.take(0) =~= Seq::empty());
    }
    while i < n
        invariant
            i <= n,
            n == data@.len(),
            p + n <= end,
            end == old(buf)@.len(),
            buf@.len() == end,
            buf@ == overwrite(old(buf)@, p as int, data@.take(i as int)),
        decreases n - i,
    {
        buf[p + i] = data[i];
        i = i + 1;
        reveal(overwrite);
        assert(buf@ =~= overwrite(old(buf)@, p as int, data@.take(i as int)));
    }
    *pos = p + n;
    assert(data@.take(n as int) =~= data@);
}

pub fn read_bytes<'a>(buf: &'a [u8], pos: &mut usize, len: usize) -> (bytes: &'a [u8])
    requires
        *old(pos) + len <= buf@.len(),
    ensures
        bytes@ == buf@.subrange(*old(pos) as int, *old(pos) + len),
        *final(pos) == *old(pos) + len,
{
    let start: usize = *pos;
    let end: usize = buf.len();
    assert(start + len <= end);
    let bytes: &[u8] = slice_subrange(buf, start, start + len);
    *pos = start + len;
    bytes
}

/// The two's complement bit pattern of a signed number.
pub fn to_i64_bits(val: i64) -> (b: u64)
    ensures
        b == i64_bits(val),
{
    assert(val < 0 ==> (val as u64) == val + 0x1_0000_0000_0000_0000) by (bit_vector);
    val as u64
}

/// The signed number of a two's complement bit pattern.
pub fn from_i64_bits(bits: u64) -> (v: i64)
    ensures
        v == i64_of_bits(bits),
{
    assert(bits >= 0x8000_0000_0000_0000 ==> (bits as i64) == bits - 0x1_0000_0000_0000_0000)
        by (bit_vector);
    bits as i64
}

pub fn write_i64(buf: &mut [u8], pos: &mut usize, val: i64)
    requires
        *old(pos) + 8 <= old(buf)@.len(),
    ensures
        final(buf)@ == overwrite(old(buf)@, *old(pos) as int, u64_le(i64_bits(val))),
        final(buf)@.len() == old(buf)@.len(),
        *final(pos) == *old(pos) + 8,
{
    write_u64(buf, pos, to_i64_bits(val));
}

pub fn read_i64(buf: &[u8], pos: &mut usize) -> (v: i64)
    requires
        *old(pos) + 8 <= buf@.len(),
    ensures
        v == i64_of_bits(u64_at(buf@, *old(pos) as int)),
        *final(pos) == *old(pos) + 8,
{
    from_i64_bits(read_u64(buf, pos))
}

/// Writes a floating-point number, given by its bit pattern.
pub fn write_f64(buf: &mut [u8], pos: &mut usize, bits: u64)
    requires
        *old(pos) + 8 <= old(buf)@.len(),
    ensures
        final(buf)@ == overwrite(old(buf)@, *old(pos) as int, u64_le(bits)),
        final(buf)@.len() == old(buf)@.len(),
        *final(pos) == *old(pos) + 8,
{
    write_u64(buf, pos, bits);
}

/// Reads a floating-point number and gives its bit pattern.
pub fn read_f64(buf: &[u8], pos: &mut usize) -> (bits: u64)
    requires
        *old(pos) + 8 <= buf@.len(),
    ensures
        bits == u64_at(buf@, *old(pos) as int),
        *final(pos) == *old(pos) + 8,
{
    read_u64(buf, pos)
}

// ---------------------------------------------------------------------------------------------
// Bit masks

/// The bytes that `n` bits take.
pub open spec fn mask_len(n: nat) -> nat {
    (n + 7) / 8
}

/// The value of the `j`th bit of a byte, counted from its most significant bit.
pub open spec fn bit_weight(j: int) -> int {
    if j == 0 {
        128
    } else if j == 1 {
        64
    } else if j == 2 {
        32
    } else if j == 3 {
        16
    } else if j == 4 {
        8
    } else if j == 5 {
        4
    } else if j == 6 {
        2
    } else {
        1
    }
}

/// The `i`th bit as a number; bits past the end are 0.
pub open spec fn bit_at(bits: Seq<bool>, i: int) -> int {
    if i < bits.len() && bits[i] {
        1
    } else {
        0
    }
}

/// The `k`th byte of a mask: `bits[8 * k]` is its most significant bit.
pub open spec fn packed_byte(bits: Seq<bool>, k: int) -> u8 {
    (128 * bit_at(bits, 8 * k) + 64 * bit_at(bits, 8 * k + 1) + 32 * bit_at(bits, 8 * k + 2) + 16
        * bit_at(bits, 8 * k + 3) + 8 * bit_at(bits, 8 * k + 4) + 4 * bit_at(bits, 8 * k + 5) + 2
        * bit_at(bits, 8 * k + 6) + bit_at(bits, 8 * k + 7)) as u8
}

/// The bit-packed form of `bits`, most significant bit first.
#[verifier::opaque]
pub open spec fn bitmask(bits: Seq<bool>) -> Seq<u8> {
    Seq::new(mask_len(bits.len()), |k: int| packed_byte(bits, k))
}

/// The `i`th bit of a mask.
pub open spec fn mask_bit(mask: Seq<u8>, i: int) -> bool {
    (mask[i / 8] as int / bit_weight(i % 8)) % 2 == 1
}

/// The first `n` bits of a mask.
pub open spec fn unmasked(mask: Seq<u8>, n: nat) -> Seq<bool> {
    Seq::new(n, |i: int| mask_bit(mask, i))
}

proof fn lemma_bit_of_byte(b0: int, b1: int, b2: int, b3: int, b4: int, b5: int, b6: int, b7: int)
    requires
        0 <= b0 <= 1,
        0 <= b1 <= 1,
        0 <= b2 <= 1,
        0 <= b3 <= 1,
        0 <= b4 <= 1,
        0 <= b5 <= 1,
        0 <= b6 <= 1,
        0 <= b7 <= 1,
    ensures
        ({
            let v = 128 * b0 + 64 * b1 + 32 * b2 + 16 * b3 + 8 * b4 + 4 * b5 + 2 * b6 + b7;
            &&& 0 <= v < 256
            &&& (v / 128) % 2 == b0
            &&& (v / 64) % 2 == b1
            &&& (v / 32) % 2 == b2
            &&& (v / 16) % 2 == b3
            &&& (v / 8) % 2 == b4
            &&& (v / 4) % 2 == b5
            &&& (v / 2) % 2 == b6
            &&& (v / 1) % 2 == b7
        }),
{
    let q0 = b0;
    let q1 = 2 * q0 + b1;
    let q2 = 2 * q1 + b2;
    let q3 = 2 * q2 + b3;
    let q4 = 2 * q3 + b4;
    let q5 = 2 * q4 + b5;
    let q6 = 2 * q5 + b6;
    let v = 128 * b0 + 64 * b1 + 32 * b2 + 16 * b3 + 8 * b4 + 4 * b5 + 2 * b6 + b7;
    assert(v / 2 == q6 && q6 % 2 == b6);
    assert(v / 4 == q5 && q5 % 2 == b5);
    assert(v / 8 == q4 && q4 % 2 == b4);
    assert(v / 16 == q3 && q3 % 2 == b3);
    assert(v / 32 == q2 && q2 % 2 == b2);
    assert(v / 64 == q1 && q1 % 2 == b1);
    assert(v / 128 == q0 && q0 % 2 == b0);
    assert(v / 1 == v && v % 2 == b7);
}

/// Unpacking a packed mask gives back the bits.
pub proof fn law_bitmask_roundtrip(bits: Seq<bool>)
    ensures
        unmasked(bitmask(bits), bits.len()) == bits,
{
    reveal(bitmask);
    assert forall|i: int| 0 <= i < bits.len() implies mask_bit(bitmask(bits), i) == bits[i] by {
        let k = i / 8;
        assert(0 <= k < mask_len(bits.len()));
        assert(bitmask(bits)[k] == packed_byte(bits, k));
        lemma_bit_of_byte(
            bit_at(bits, 8 * k),
            bit_at(bits, 8 * k + 1),
            bit_at(bits, 8 * k + 2),
            bit_at(bits, 8 * k + 3),
            bit_at(bits, 8 * k + 4),
            bit_at(bits, 8 * k + 5),
            bit_at(bits, 8 * k + 6),
            bit_at(bits, 8 * k + 7),
        );
        assert(i == 8 * k + i % 8);
    }
    assert(unmasked(bitmask(bits), bits.len()) =~= bits);
}

/// The bytes that `n` bits take.
pub fn bitmask_len(n: usize) -> (len: usize)
    ensures
        len == mask_len(n as nat),
        len <= n,
{
    if n % 8 == 0 {
        n / 8
    } else {
        n / 8 + 1
    }
}

fn bit_value(bits: &[bool], start: usize, j: usize, weight: u8) -> (v: u8)
    requires
        start <= bits@.len(),
    ensures
        v == (if bit_at(bits@, start + j) == 1 {
            weight as int
        } else {
            0
        }),
{
    if j < bits.len() - start && bits[start + j] {
        weight
    } else {
        0
    }
}

/// The byte that starts with `bits[start]`.
fn pack_byte(bits: &[bool], start: usize) -> (byte: u8)
    requires
        start <= bits@.len(),
        start % 8 == 0,
    ensures
        byte == packed_byte(bits@, start as int / 8),
{
    let high: u8 = bit_value(bits, start, 0, 128) + bit_value(bits, start, 1, 64) + bit_value(
        bits,
        start,
        2,
        32,
    ) + bit_value(bits, start, 3, 16);
    let low: u8 = bit_value(bits, start, 4, 8) + bit_value(bits, start, 5, 4) + bit_value(
        bits,
        start,
        6,
        2,
    ) + bit_value(bits, start, 7, 1);
    assert(8 * (start as int / 8) == start);
    high + low
}

/// Pack booleans into a bit-packed byte array.
/// `bits` is written MSB-first within each byte: bits[0] is byte[0].bit7
pub fn pack_bitmask(bits: &[bool]) -> (mask: Vec<u8>)
    ensures
        mask@ == bitmask(bits@),
{
    reveal(bitmask);
    let len: usize = bitmask_len(bits.len());
    let mut mask: Vec<u8> = Vec::new();
    while mask.len() < len
        invariant
            len == mask_len(bits@.len()),
            bits@.len() <= usize::MAX,
            mask@.len() <= len,
            forall|j: int| 0 <= j < mask@.len() ==> mask@[j] == packed_byte(bits@, j),
        decreases len - mask@.len(),
    {
        let start: usize = mask.len() * 8;
        mask.push(pack_byte(bits, start));
    }
    assert(mask@ =~= bitmask(bits@));
    mask
}

/// Unpack the first `num_bits` bits of a mask.
pub fn unpack_bitmask(mask: &[u8], num_bits: usize) -> (bits: Vec<bool>)
    requires
        mask_len(num_bits as nat) <= mask@.len(),
    ensures
        bits@ == unmasked(mask@, num_bits as nat),
{
    let mut bits: Vec<bool> = Vec::new();
    let mut i: usize = 0;
    while i < num_bits
        invariant
            i <= num_bits,
            mask_len(num_bits as nat) <= mask@.len(),
            bits@.len() == i,
            forall|j: int| 0 <= j < i ==> bits@[j] == mask_bit(mask@, j),
        decreases num_bits - i,
    {
        let byte: u8 = mask[i / 8];
        let weight: u8 = match i % 8 {
            0 => 128,
            1 => 64,
            2 => 32,
            3 => 16,
            4 => 8,
            5 => 4,
            6 => 2,
            _ => 1,
        };
        assert(weight == bit_weight(i as int % 8));
        bits.push(byte / weight % 2 == 1);
        i = i + 1;
    }
    assert(bits@ =~= unmasked(mask@, num_bits as nat));
    bits
}

// ---------------------------------------------------------------------------------------------
// Arrays of numbers

/// Eight bytes for each word.
#[verifier::opaque]
pub open spec fn words_le(words: Seq<u64>) -> Seq<u8> {
    Seq::new(8 * words.len(), |k: int| u64_le(words[k / 8])[k % 8])
}

/// Four bytes for each number.
#[verifier::opaque]
pub open spec fn ints_le(ints: Seq<u32>) -> Seq<u8> {
    Seq::new(4 * ints.len(), |k: int| u32_le(ints[k / 4])[k % 4])
}

/// The `n` words that stand in `buf` from `pos` on.
pub open spec fn words_at(buf: Seq<u8>, pos: int, n: nat) -> Seq<u64> {
    Seq::new(n, |i: int| u64_at(buf, pos + 8 * i))
}

/// The `n` 32-bit numbers that stand in `buf` from `pos` on.
pub open spec fn ints_at(buf: Seq<u8>, pos: int, n: nat) -> Seq<u32> {
    Seq::new(n, |i: int| u32_at(buf, pos + 4 * i))
}

pub proof fn lemma_words_push(words: Seq<u64>, w: u64)
    ensures
        words_le(words.push(w)) == words_le(words) + u64_le(w),
{
    broadcast use group_lengths;

    reveal(words_le);
    assert(words_le(words.push(w)) =~= words_le(words) + u64_le(w));
}

pub proof fn lemma_ints_push(ints: Seq<u32>, w: u32)
    ensures
        ints_le(ints.push(w)) == ints_le(ints) + u32_le(w),
{
    broadcast use group_lengths;

    reveal(ints_le);
    assert(ints_le(ints.push(w)) =~= ints_le(ints) + u32_le(w));
}

pub proof fn lemma_words_at(buf: Seq<u8>, pos: int, words: Seq<u64>)
    requires
        holds_at(buf, pos, words_le(words)),
    ensures
        words_at(buf, pos, words.len()) == words,
        0 <= pos,
        pos + 8 * words.len() <= buf.len(),
{
    broadcast use group_lengths;

    reveal(words_le);
    reveal(holds_at);
    assert forall|i: int| 0 <= i < words.len() implies u64_at(buf, pos + 8 * i) == words[i] by {
        let w = u64_le(words[i]);
        assert(holds_at(buf, pos + 8 * i, w)) by {
            assert forall|j: int| 0 <= j < w.len() implies #[trigger] w[j] == buf[pos + 8 * i + j] by {
                assert(words_le(words)[8 * i + j] == buf[pos + (8 * i + j)]);
                assert((8 * i + j) / 8 == i);
                assert((8 * i + j) % 8 == j);
            }
        }
        lemma_u64_at(buf, pos + 8 * i, words[i]);
    }
    assert(words_at(buf, pos, words.len()) =~= words);
}

pub proof fn lemma_ints_at(buf: Seq<u8>, pos: int, ints: Seq<u32>)
    requires
        holds_at(buf, pos, ints_le(ints)),
    ensures
        ints_at(buf, pos, ints.len()) == ints,
        0 <= pos,
        pos + 4 * ints.len() <= buf.len(),
{
    broadcast use group_lengths;

    reveal(ints_le);
    reveal(holds_at);
    assert forall|i: int| 0 <= i < ints.len() implies u32_at(buf, pos + 4 * i) == ints[i] by {
        let w = u32_le(ints[i]);
        assert(holds_at(buf, pos + 4 * i, w)) by {
            assert forall|j: int| 0 <= j < w.len() implies #[trigger] w[j] == buf[pos + 4 * i + j] by {
                assert(ints_le(ints)[4 * i + j] == buf[pos + (4 * i + j)]);
                assert((4 * i + j) / 4 == i);
                assert((4 * i + j) % 4 == j);
            }
        }
        lemma_u32_at(buf, pos + 4 * i, ints[i]);
    }
    assert(ints_at(buf, pos, ints.len()) =~= ints);
}

// ---------------------------------------------------------------------------------------------
// What the bytes are

/// The number that bytes write, the least significant first.
pub open spec fn little_endian(bytes: Seq<u8>) -> int
    decreases bytes.len(),
{
    if bytes.len() == 0 {
        0
    } else {
        bytes[0] + 256 * little_endian(bytes.skip(1))
    }
}

proof fn lemma_little_endian_4(bytes: Seq<u8>)
    requires
        bytes.len() >= 4,
    ensures
        little_endian(bytes) == bytes[0] + 0x100 * bytes[1] + 0x1_0000 * bytes[2] + 0x100_0000
            * bytes[3] + 0x1_0000_0000 * little_endian(bytes.skip(4)),
{
    reveal_with_fuel(little_endian, 5);
    assert(bytes.skip(1).skip(1) =~= bytes.skip(2));
    assert(bytes.skip(2).skip(1) =~= bytes.skip(3));
    assert(bytes.skip(3).skip(1) =~= bytes.skip(4));
    assert(little_endian(bytes) == bytes[0] + 256 * little_endian(bytes.skip(1)));
    assert(little_endian(bytes.skip(1)) == bytes[1] + 256 * little_endian(bytes.skip(2)));
    assert(little_endian(bytes.skip(2)) == bytes[2] + 256 * little_endian(bytes.skip(3)));
    assert(little_endian(bytes.skip(3)) == bytes[3] + 256 * little_endian(bytes.skip(4)));
}

/// Numbers are written in as many bytes as they have, the least significant first.
pub proof fn law_little_endian(a: u16, b: u32, c: u64)
    ensures
        u16_le(a).len() == 2,
        little_endian(u16_le(a)) == a,
        u32_le(b).len() == 4,
        little_endian(u32_le(b)) == b,
        u64_le(c).len() == 8,
        little_endian(u64_le(c)) == c,
{
    broadcast use group_lengths;

    reveal(u16_le);
    reveal(u32_le);
    reveal(u64_le);
    reveal_with_fuel(little_endian, 3);
    let x = u16_le(a);
    assert(little_endian(x) == x[0] + 256 * little_endian(x.skip(1)));
    assert(little_endian(x.skip(1)) == x[1] + 256 * little_endian(x.skip(1).skip(1)));
    assert(little_endian(x.skip(1).skip(1)) == 0);
    lemma_little_endian_4(u32_le(b));
    let low = u32_le((c % 0x1_0000_0000) as u32);
    let high = u32_le((c / 0x1_0000_0000) as u32);
    lemma_little_endian_4(u64_le(c));
    assert(u64_le(c).skip(4) =~= high);
    lemma_little_endian_4(high);
    assert(high.skip(4).len() == 0);
}

/// A signed number is written as the unsigned one that differs from it by a multiple of 2^64.
pub proof fn law_signed_bits(v: i64)
    ensures
        v >= 0 ==> i64_bits(v) == v,
        v < 0 ==> i64_bits(v) == v + 0x1_0000_0000_0000_0000,
        i64_of_bits(i64_bits(v)) == v,
{
}

/// The bits of a mask go from the most significant of each byte to the least, and what is left of the
/// last byte is zero.
pub proof fn law_mask_byte(bits: Seq<bool>, k: int)
    requires
        0 <= 8 * k < bits.len(),
    ensures
        ({
            let byte = bitmask(bits)[k] as int;
            let bit = |j: int| 8 * k + j < bits.len() && bits[8 * k + j];
            &&& bit(0) <==> byte / 128 == 1
            &&& bit(1) <==> byte / 64 % 2 == 1
            &&& bit(2) <==> byte / 32 % 2 == 1
            &&& bit(3) <==> byte / 16 % 2 == 1
            &&& bit(4) <==> byte / 8 % 2 == 1
            &&& bit(5) <==> byte / 4 % 2 == 1
            &&& bit(6) <==> byte / 2 % 2 == 1
            &&& bit(7) <==> byte % 2 == 1
        }),
{
    reveal(bitmask);
    lemma_bit_of_byte(
        bit_at(bits, 8 * k),
        bit_at(bits, 8 * k + 1),
        bit_at(bits, 8 * k + 2),
        bit_at(bits, 8 * k + 3),
        bit_at(bits, 8 * k + 4),
        bit_at(bits, 8 * k + 5),
        bit_at(bits, 8 * k + 6),
        bit_at(bits, 8 * k + 7),
    );
}

} // verus!
