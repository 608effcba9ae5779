//! Verified accessors for packed byte arrays.
//!
//! The functions here implement the byte-wise masked-shift algorithm: a
//! field access touches only the bytes its bit range spans, accumulating
//! them big-endian into a wide word, and a shift and a mask drop the pad
//! bits that belong to the neighbouring fields.

use crate::model::be_value;
use crate::model::field_value;
use crate::model::lemma_be_value_bound;
use crate::model::lemma_field_value_bound;
use crate::model::lemma_field_value_from_be;
use crate::model::lemma_set_get_round_trip;
use crate::model::lemma_with_field_from_span;
use crate::model::lemma_zero_container_reads_zero;
use crate::model::nat_bit;
use crate::model::with_field;
use vstd::arithmetic::div_mod::*;
use vstd::arithmetic::power2::*;
use vstd::bits::*;
use vstd::prelude::*;

verus! {

/// `1 << e` is `pow2(e)` for any shift that fits the word.
proof fn lemma_u128_one_shl_is_pow2(e: u128)
    ensures
        e < 128 ==> (1u128 << e) as nat == pow2(e as nat),
    decreases e,
{
    lemma2_to64();
    if e == 0 {
        assert(1u128 << 0u128 == 1) by (bit_vector);
    } else if e < 128 {
        let e1: u128 = (e - 1) as u128;
        lemma_u128_one_shl_is_pow2(e1);
        assert(1u128 << e == 2 * (1u128 << e1)) by (bit_vector)
            requires
                0 < e < 128 && e1 == e - 1,
        ;
        lemma_pow2_unfold(e as nat);
    }
}

/// Appending one byte to a big-endian accumulator multiplies it by 256
/// and adds the byte.
proof fn lemma_acc_shift_step(acc: u128, x: u8)
    requires
        acc < pow2(120),
    ensures
        ((acc << 8u128) | (x as u128)) as nat == 256 * (acc as nat) + x,
{
    assert(pow2(120) == 0x1000000000000000000000000000000) by {
        lemma2_to64();
        lemma2_to64_rest();
        lemma_pow2_adds(64, 56);
    }
    assert((acc << 8u128) | (x as u128) == 256 * acc + x) by (bit_vector)
        requires
            acc < 0x1000000000000000000000000000000u128,
    ;
}

/// Masking with `0xFF` keeps the low byte.
proof fn lemma_low_byte(x: u128)
    ensures
        (x & 0xFF) as nat == x as nat % 256,
        x & 0xFF <= 0xFF,
{
    assert(x & 0xFF == x % 256 && x & 0xFF <= 0xFF) by (bit_vector);
}

/// Masking with `(1 << w) - 1` keeps the low `w` bits.
proof fn lemma_u64_mask_is_mod(y: u64, m: u64, w: u64)
    requires
        w <= 64,
        m as nat == pow2(w as nat) - 1,
    ensures
        (y & m) as nat == y as nat % pow2(w as nat),
{
    lemma2_to64();
    if w == 64 {
        assert(y & m == y) by (bit_vector)
            requires
                m == 0xFFFF_FFFF_FFFF_FFFFu64,
        ;
        lemma_small_mod(y as nat, pow2(64));
    } else {
        lemma_pow2_strictly_increases(w as nat, 64);
        lemma_u64_shl_is_mul(1, w);
        let q = y >> w;
        lemma_u64_shr_is_div(y, w);
        lemma_pow2_pos(w as nat);
        lemma_fundamental_div_mod(y as int, pow2(w as nat) as int);
        assert(y == ((y >> w) << w) + (y & m) && (y & m) <= m) by (bit_vector)
            requires
                w < 64 && m == (1u64 << w) - 1,
        ;
        lemma_u64_shl_is_mul(q, w);
        lemma_fundamental_div_mod_converse(
            y as int,
            pow2(w as nat) as int,
            q as int,
            (y & m) as int,
        );
    }
}

/// Bit `j` of a wide word, read with shift and mask, is the word's `j`-th
/// binary digit.
proof fn lemma_u128_nat_bit(x: u128, j: u128)
    requires
        j < 128,
    ensures
        nat_bit(x as nat, j as nat) == ((x >> j) & 1 == 1),
{
    lemma_u128_shr_is_div(x, j);
    assert((x >> j) & 1 == (x >> j) % 2) by (bit_vector);
}

/// Truncating a wide word to 64 bits keeps its value modulo `pow2(64)`.
proof fn lemma_u128_truncate_u64(x: u128)
    ensures
        (x as u64) as nat == x as nat % pow2(64),
{
    lemma2_to64();
    assert(x as u64 == x % 0x1_0000_0000_0000_0000u128) by (bit_vector);
}

/// How a field's bit range `[offset, offset + width)` maps onto the bytes
/// it spans: `first` and `last` bracket the span, and `rp` counts the pad
/// bits below the field in its last byte.
pub(crate) proof fn lemma_span_geometry(offset: int, width: int, first: int, last: int, rp: int)
    requires
        0 <= offset,
        1 <= width,
        first == offset / 8,
        last == (offset + width - 1) / 8,
        rp == (8 - (offset + width) % 8) % 8,
    ensures
        8 * first <= offset < 8 * first + 8,
        first <= last,
        0 <= rp < 8,
        offset + width + rp == 8 * (last + 1),
        8 * (last - first) < width + 8,
{
    lemma_fundamental_div_mod(offset, 8);
    lemma_mod_bound(offset, 8);
    let q = (offset + width) / 8;
    let m = (offset + width) % 8;
    lemma_fundamental_div_mod(offset + width, 8);
    lemma_mod_bound(offset + width, 8);
    if m == 0 {
        assert((8 - m) % 8 == 0) by {
            lemma_mod_self_0(8);
        }
        lemma_fundamental_div_mod_converse(offset + width - 1, 8, q - 1, 7);
    } else {
        lemma_small_mod((8 - m) as nat, 8);
        lemma_fundamental_div_mod_converse(offset + width - 1, 8, q, m - 1);
    }
    lemma_div_is_ordered(offset, offset + width - 1, 8);
}

/// Read the `width`-bit field at bit `offset` out of a packed byte array.
///
/// The result holds the field's bits right-justified: its `width` low
/// bits are the container bits `[offset, offset + width)`, most
/// significant first, and all higher bits are zero.
pub fn get_bits(data: &Vec<u8>, offset: usize, width: usize) -> (r: u64)
    requires
        1 <= width <= 64,
        offset + width <= data@.len() * 8,
        offset + width <= usize::MAX,
    ensures
        r as nat == field_value(data@, offset as int, width as nat),
        r < pow2(width as nat),
{
    let first: usize = offset / 8;
    let last: usize = (offset + width - 1) / 8;
    let rp: usize = (8 - (offset + width) % 8) % 8;
    proof {
        lemma_span_geometry(offset as int, width as int, first as int, last as int, rp as int);
        assert(last < data@.len());
        lemma2_to64();
    }
    let ghost span: nat = (last + 1 - first) as nat;
    let mut acc: u128 = 0;
    let mut b: usize = first;
    while b <= last
        invariant
            first <= b <= last + 1,
            last < data@.len(),
            8 * last < usize::MAX,
            8 * (last - first) < 72,
            acc as nat == be_value(data@, first as int, (b - first) as nat),
            (acc as nat) < pow2((8 * (b - first)) as nat),
        decreases last + 1 - b,
    {
        proof {
            lemma_pow2_strictly_increases((8 * (b - first)) as nat, 120);
            lemma_acc_shift_step(acc, data@[b as int]);
            lemma_be_value_bound(data@, first as int, (b + 1 - first) as nat);
        }
        acc = (acc << 8u128) | (data[b] as u128);
        b = b + 1;
    }
    let shifted: u128 = acc >> (rp as u128);
    let low: u64 = #[verifier::truncate] (shifted as u64);
    proof {
        lemma2_to64();
        if width < 64 {
            lemma_pow2_strictly_increases(width as nat, 64);
            lemma_pow2_pos(width as nat);
            lemma_u64_shl_is_mul(1, width as u64);
        }
    }
    let mask: u64 = if width == 64 {
        u64::MAX
    } else {
        (1u64 << (width as u64)) - 1
    };
    let r: u64 = low & mask;
    proof {
        lemma_u128_shr_is_div(acc, rp as u128);
        assert(shifted as nat == acc as nat / pow2(rp as nat));
        lemma_u128_truncate_u64(shifted);
        assert(low as nat == shifted as nat % pow2(64));
        lemma_u64_mask_is_mod(low, mask, width as u64);
        assert(r as nat == low as nat % pow2(width as nat));
        if width < 64 {
            lemma_pow2_pos(width as nat);
            lemma_pow2_pos((64 - width) as nat);
            lemma_pow2_adds(width as nat, (64 - width) as nat);
            lemma_mod_mod(shifted as int, pow2(width as nat) as int, pow2((64 - width) as nat) as int);
        } else {
            lemma_pow2_pos(64);
            lemma_mod_bound(shifted as int, pow2(64) as int);
            lemma_small_mod(low as nat, pow2(64));
        }
        assert(r as nat == shifted as nat % pow2(width as nat));
        assert(acc as nat == be_value(data@, first as int, span));
        lemma_field_value_from_be(
            data@,
            offset as int,
            width as nat,
            first as int,
            span,
            rp as nat,
        );
        lemma_field_value_bound(data@, offset as int, width as nat);
    }
    r
}

/// Splicing a value into a span with mask and shift: each bit of the
/// merged word comes from the value inside the slot and from the old
/// span outside it.
#[verifier::spinoff_prover]
proof fn lemma_merge_bits(
    obe: u128,
    v: u64,
    wmask: u128,
    merged: u128,
    rp: u128,
    w: u128,
    j: u128,
)
    requires
        rp < 8,
        1 <= w <= 64,
        j < 128,
        wmask == (1u128 << w) - 1,
        merged == (obe & !(wmask << rp)) | (((v as u128) & wmask) << rp),
    ensures
        rp <= j < rp + w ==> nat_bit(merged as nat, j as nat) == nat_bit(
            v as nat,
            (j - rp) as nat,
        ),
        !(rp <= j < rp + w) ==> nat_bit(merged as nat, j as nat) == nat_bit(obe as nat, j as nat),
{
    lemma_u128_nat_bit(merged, j);
    if rp <= j < rp + w {
        let jr: u128 = (j - rp) as u128;
        lemma_u128_nat_bit(v as u128, jr);
        assert((merged >> j) & 1 == ((v as u128) >> jr) & 1) by (bit_vector)
            requires
                rp < 8 && 1 <= w <= 64 && rp <= j && j < rp + w && jr == j - rp && wmask == (1u128
                    << w) - 1 && merged == (obe & !(wmask << rp)) | (((v as u128) & wmask) << rp),
        ;
    } else {
        lemma_u128_nat_bit(obe, j);
        assert((merged >> j) & 1 == (obe >> j) & 1) by (bit_vector)
            requires
                rp < 8 && 1 <= w <= 64 && j < 128 && !(rp <= j && j < rp + w) && wmask == (1u128
                    << w) - 1 && merged == (obe & !(wmask << rp)) | (((v as u128) & wmask) << rp),
        ;
    }
}

/// Write the low `width` bits of `value` into the field at bit `offset`,
/// leaving every bit outside the field — including bits that share a
/// storage byte with it — unchanged.
pub fn set_bits(data: &mut Vec<u8>, offset: usize, width: usize, value: u64)
    requires
        1 <= width <= 64,
        offset + width <= old(data)@.len() * 8,
        offset + width <= usize::MAX,
    ensures
        final(data)@ == with_field(old(data)@, offset as int, width as nat, value as nat),
        final(data)@.len() == old(data)@.len(),
        field_value(final(data)@, offset as int, width as nat) == value as nat % pow2(
            width as nat,
        ),
{
    let first: usize = offset / 8;
    let last: usize = (offset + width - 1) / 8;
    let rp: usize = (8 - (offset + width) % 8) % 8;
    proof {
        lemma_span_geometry(offset as int, width as int, first as int, last as int, rp as int);
        assert(last < data@.len());
        lemma2_to64();
    }
    let ghost span: nat = (last + 1 - first) as nat;
    let ghost d0: Seq<u8> = data@;
    let mut acc: u128 = 0;
    let mut b: usize = first;
    while b <= last
        invariant
            first <= b <= last + 1,
            last < d0.len(),
            data@ == d0,
            8 * last < usize::MAX,
            8 * (last - first) < 72,
            acc as nat == be_value(d0, first as int, (b - first) as nat),
            (acc as nat) < pow2((8 * (b - first)) as nat),
        decreases last + 1 - b,
    {
        proof {
            lemma_pow2_strictly_increases((8 * (b - first)) as nat, 120);
            lemma_acc_shift_step(acc, data@[b as int]);
            lemma_be_value_bound(d0, first as int, (b + 1 - first) as nat);
        }
        acc = (acc << 8u128) | (data[b] as u128);
        b = b + 1;
    }
    let obe: u128 = acc;
    proof {
        lemma_u128_one_shl_is_pow2(width as u128);
        lemma_pow2_pos(width as nat);
    }
    let wmask: u128 = (1u128 << (width as u128)) - 1;
    let slot_mask: u128 = wmask << (rp as u128);
    let value_bits: u128 = ((value as u128) & wmask) << (rp as u128);
    let merged: u128 = (obe & !slot_mask) | value_bits;
    b = first;
    while b <= last
        invariant
            first <= b <= last + 1,
            last < data@.len(),
            data@.len() == d0.len(),
            8 * last < usize::MAX,
            8 * (last - first) < 72,
            span == last + 1 - first,
            forall|k: int|
                0 <= k < b - first ==> #[trigger] data@[first + k] == (merged as nat / pow2(
                    (8 * (span - 1 - k)) as nat,
                )) % 256,
            forall|idx: int|
                0 <= idx < data@.len() && !(first <= idx < b) ==> #[trigger] data@[idx] == d0[idx],
        decreases last + 1 - b,
    {
        let sh: usize = 8 * (last - b);
        let byte_v: u128 = (merged >> (sh as u128)) & 0xFF;
        proof {
            lemma_u128_shr_is_div(merged, sh as u128);
            lemma_low_byte(merged >> (sh as u128));
        }
        data.set(b, byte_v as u8);
        b = b + 1;
    }
    proof {
        assert forall|j: nat| j < 8 * span implies #[trigger] nat_bit(merged as nat, j) == (
        if rp <= j < rp + width {
            nat_bit(value as nat, (j - rp) as nat)
        } else {
            nat_bit(be_value(d0, first as int, span), j)
        }) by {
            lemma_merge_bits(obe, value, wmask, merged, rp as u128, width as u128, j as u128);
        }
        lemma_with_field_from_span(
            d0,
            data@,
            offset as int,
            width as nat,
            value as nat,
            first as int,
            span,
            rp as nat,
            merged as nat,
        );
        lemma_set_get_round_trip(d0, offset as int, width as nat, value as nat);
    }
}

/// A fixed-size packed byte container: the runtime artifact whose fields
/// the accessors read and write.  The backing storage is zero-initialized
/// at construction and never resized.
pub struct PackedContainer {
    data: Vec<u8>,
}

impl View for PackedContainer {
    type V = Seq<u8>;

    closed spec fn view(&self) -> Seq<u8> {
        self.data@
    }
}

impl PackedContainer {
    /// A zeroed container of `byte_size` bytes: every field reads zero.
    pub fn new(byte_size: usize) -> (r: Self)
        ensures
            r@.len() == byte_size,
            forall|i: int| 0 <= i < byte_size ==> r@[i] == 0u8,
            forall|offset: int, width: nat|
                0 <= offset && offset + width <= byte_size * 8 ==> #[trigger] field_value(
                    r@,
                    offset,
                    width,
                ) == 0,
    {
        let mut data: Vec<u8> = Vec::new();
        while data.len() < byte_size
            invariant
                data@.len() <= byte_size,
                forall|i: int| 0 <= i < data@.len() ==> data@[i] == 0u8,
            decreases byte_size - data@.len(),
        {
            data.push(0u8);
        }
        let r = PackedContainer { data };
        proof {
            assert forall|offset: int, width: nat|
                0 <= offset && offset + width <= byte_size * 8 implies #[trigger] field_value(
                r@,
                offset,
                width,
            ) == 0 by {
                lemma_zero_container_reads_zero(r@, offset, width);
            }
        }
        r
    }

    /// The number of bytes of backing storage.
    pub fn byte_size(&self) -> (n: usize)
        ensures
            n == self@.len(),
    {
        self.data.len()
    }

    /// The storage byte at index `i`.
    pub fn byte_at(&self, i: usize) -> (b: u8)
        requires
            i < self@.len(),
        ensures
            b == self@[i as int],
    {
        self.data[i]
    }

    /// Read the field occupying bits `[offset, offset + width)`.
    pub fn get_field(&self, offset: usize, width: usize) -> (r: u64)
        requires
            1 <= width <= 64,
            offset + width <= self@.len() * 8,
            offset + width <= usize::MAX,
        ensures
            r as nat == field_value(self@, offset as int, width as nat),
            r < pow2(width as nat),
    {
        get_bits(&self.data, offset, width)
    }

    /// Write the low `width` bits of `value` into the field occupying bits
    /// `[offset, offset + width)`.  Higher bits of `value` are discarded;
    /// bits belonging to other fields are untouched.
    pub fn set_field(&mut self, offset: usize, width: usize, value: u64)
        requires
            1 <= width <= 64,
            offset + width <= old(self)@.len() * 8,
            offset + width <= usize::MAX,
        ensures
            final(self)@ == with_field(old(self)@, offset as int, width as nat, value as nat),
            final(self)@.len() == old(self)@.len(),
            field_value(final(self)@, offset as int, width as nat) == value as nat % pow2(
                width as nat,
            ),
    {
        set_bits(&mut self.data, offset, width, value)
    }
}

} // verus!
