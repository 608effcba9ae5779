//! The mathematical model of a packed byte array.
//!
//! A container is a `Seq<u8>`; its bits are numbered MSB-first: bit 0 of a
//! byte is the byte's most significant bit, and bit `i` of the container is
//! bit `i % 8` of byte `i / 8`.  A field occupying bits
//! `[offset, offset + width)` holds the natural number whose binary digits,
//! most significant first, are those bits.

use vstd::arithmetic::div_mod::*;
use vstd::arithmetic::power2::*;
use vstd::prelude::*;

verus! {

/// Bit `j` of a single byte, MSB-first: `byte_bit(b, 0)` is the most
/// significant bit of `b`.
pub open spec fn byte_bit(b: u8, j: int) -> bool
    recommends
        0 <= j < 8,
{
    (b as nat / pow2((7 - j) as nat)) % 2 == 1
}

/// Bit `i` of a packed byte array, MSB-first within each byte.
pub open spec fn bit_at(d: Seq<u8>, i: int) -> bool
    recommends
        0 <= i < d.len() * 8,
{
    byte_bit(d[i / 8], i % 8)
}

/// Bit `k` of a natural number, counted from the least significant bit.
pub open spec fn nat_bit(v: nat, k: nat) -> bool {
    (v / pow2(k)) % 2 == 1
}

/// The value held by the field occupying bits `[offset, offset + width)`:
/// the container's bits read most-significant first.
pub open spec fn field_value(d: Seq<u8>, offset: int, width: nat) -> nat
    recommends
        0 <= offset,
        offset + width <= d.len() * 8,
    decreases width,
{
    if width == 0 {
        0
    } else {
        2 * field_value(d, offset, (width - 1) as nat) + (if bit_at(
            d,
            offset + width - 1,
        ) {
            1nat
        } else {
            0nat
        })
    }
}

/// A field value is bounded by `pow2` of its width.
pub proof fn lemma_field_value_bound(d: Seq<u8>, offset: int, width: nat)
    ensures
        field_value(d, offset, width) < pow2(width),
    decreases width,
{
    if width == 0 {
        lemma2_to64();
    } else {
        lemma_field_value_bound(d, offset, (width - 1) as nat);
        lemma_pow2_unfold(width);
    }
}

/// A field value depends only on the bits inside the field.
pub proof fn lemma_field_value_congruence(d1: Seq<u8>, d2: Seq<u8>, offset: int, width: nat)
    requires
        forall|k: int|
            0 <= k < width ==> #[trigger] bit_at(d1, offset + k) == bit_at(d2, offset + k),
    ensures
        field_value(d1, offset, width) == field_value(d2, offset, width),
    decreases width,
{
    if width > 0 {
        lemma_field_value_congruence(d1, d2, offset, (width - 1) as nat);
        assert(bit_at(d1, offset + (width - 1)) == bit_at(d2, offset + (width - 1)));
    }
}

/// Shifting a natural number right by one moves every bit down one place.
pub proof fn lemma_nat_bit_div2(v: nat, k: nat)
    ensures
        nat_bit(v / 2, k) == nat_bit(v, k + 1),
{
    lemma_pow2_pos(k);
    lemma_div_denominator(v as int, 2, pow2(k) as int);
    lemma_pow2_unfold(k + 1);
}

/// A field whose bits agree, most-significant first, with the low `width`
/// bits of `v` holds exactly `v % pow2(width)`.
pub proof fn lemma_field_value_of_bits(d: Seq<u8>, offset: int, width: nat, v: nat)
    requires
        forall|k: int|
            0 <= k < width ==> #[trigger] bit_at(d, offset + k) == nat_bit(
                v,
                (width - 1 - k) as nat,
            ),
    ensures
        field_value(d, offset, width) == v % pow2(width),
    decreases width,
{
    lemma2_to64();
    if width == 0 {
        lemma_fundamental_div_mod_converse(v as int, 1, v as int, 0);
    } else {
        assert forall|k: int| 0 <= k < width - 1 implies #[trigger] bit_at(d, offset + k)
            == nat_bit(v / 2, (width - 2 - k) as nat) by {
            assert(bit_at(d, offset + k) == nat_bit(v, (width - 1 - k) as nat));
            lemma_nat_bit_div2(v, (width - 2 - k) as nat);
        }
        lemma_field_value_of_bits(d, offset, (width - 1) as nat, v / 2);
        assert(bit_at(d, offset + (width - 1)) == nat_bit(v, 0));
        assert(nat_bit(v, 0) == (v % 2 == 1));
        lemma_pow2_pos((width - 1) as nat);
        lemma_mod_breakdown(v as int, 2, pow2((width - 1) as nat) as int);
        lemma_pow2_unfold(width);
    }
}

/// The big-endian value of the `count` bytes starting at byte `first`.
pub open spec fn be_value(d: Seq<u8>, first: int, count: nat) -> nat
    recommends
        0 <= first,
        first + count <= d.len(),
    decreases count,
{
    if count == 0 {
        0
    } else {
        256 * be_value(d, first, (count - 1) as nat) + d[first + count - 1] as nat
    }
}

/// The value of `count` bytes is bounded by `pow2(8 * count)`.
pub proof fn lemma_be_value_bound(d: Seq<u8>, first: int, count: nat)
    ensures
        be_value(d, first, count) < pow2(8 * count),
    decreases count,
{
    lemma2_to64();
    if count > 0 {
        lemma_be_value_bound(d, first, (count - 1) as nat);
        lemma_pow2_adds((8 * (count - 1)) as nat, 8);
        assert(256 * be_value(d, first, (count - 1) as nat) <= 256 * (pow2(
            (8 * (count - 1)) as nat,
        ) - 1)) by (nonlinear_arith)
            requires
                be_value(d, first, (count - 1) as nat) <= pow2((8 * (count - 1)) as nat) - 1,
        ;
    }
}

/// Bit `j` (counted from the least significant end) of a big-endian byte
/// span is the container bit at the mirrored MSB-first position.
pub proof fn lemma_be_value_bit(d: Seq<u8>, first: int, count: nat, j: nat)
    requires
        0 <= first,
        j < 8 * count,
    ensures
        nat_bit(be_value(d, first, count), j) == bit_at(d, 8 * first + (8 * count - 1 - j)),
    decreases count,
{
    lemma2_to64();
    let prev = be_value(d, first, (count - 1) as nat);
    let last = d[first + count - 1];
    let be = be_value(d, first, count);
    if j < 8 {
        // The low eight bits of the span value are the bits of its last byte.
        assert(be / pow2(j) == prev * pow2((8 - j) as nat) + last as nat / pow2(j)) by {
            lemma_pow2_adds((8 - j) as nat, j);
            assert(256 * prev == (prev * pow2((8 - j) as nat)) * pow2(j)) by (nonlinear_arith)
                requires
                    256 == pow2((8 - j) as nat) * pow2(j),
            ;
            lemma_pow2_pos(j);
            lemma_hoist_over_denominator(last as int, (prev * pow2((8 - j) as nat)) as int, pow2(j));
        }
        assert((prev * pow2((8 - j) as nat) + last as nat / pow2(j)) % 2 == (last as nat / pow2(j))
            % 2) by {
            lemma_pow2_adds((7 - j) as nat, 1);
            assert(prev * pow2((8 - j) as nat) == 2 * (prev * pow2((7 - j) as nat)))
                by (nonlinear_arith)
                requires
                    pow2((8 - j) as nat) == pow2((7 - j) as nat) * 2,
            ;
            lemma_mod_multiples_vanish(
                prev * pow2((7 - j) as nat) as int,
                (last as nat / pow2(j)) as int,
                2,
            );
        }
        let i = 8 * first + (8 * count - 1 - j);
        lemma_fundamental_div_mod_converse(i, 8, first + count - 1, 7 - j);
    } else {
        // Higher bits come from the preceding bytes.
        assert(be / 256 == prev) by {
            lemma_fundamental_div_mod_converse(be as int, 256, prev as int, last as int);
        }
        assert(be / pow2(j) == prev / pow2((j - 8) as nat)) by {
            lemma_pow2_adds(8, (j - 8) as nat);
            lemma_pow2_pos((j - 8) as nat);
            lemma_div_denominator(be as int, 256, pow2((j - 8) as nat) as int);
        }
        lemma_be_value_bit(d, first, (count - 1) as nat, (j - 8) as nat);
    }
}

/// If every byte of a span equals the corresponding big-endian byte of `m`,
/// the span's value is `m` reduced modulo the span's capacity.
pub proof fn lemma_be_value_of_bytes(d: Seq<u8>, first: int, count: nat, m: nat)
    requires
        forall|k: int|
            0 <= k < count ==> #[trigger] d[first + k] == (m / pow2((8 * (count - 1 - k)) as nat))
                % 256,
    ensures
        be_value(d, first, count) == m % pow2(8 * count),
    decreases count,
{
    lemma2_to64();
    if count == 0 {
        lemma_fundamental_div_mod_converse(m as int, 1, m as int, 0);
    } else {
        assert forall|k: int| 0 <= k < count - 1 implies #[trigger] d[first + k] == ((m / 256)
            / pow2((8 * (count - 2 - k)) as nat)) % 256 by {
            assert(d[first + k] == (m / pow2((8 * (count - 1 - k)) as nat)) % 256);
            lemma_pow2_adds(8, (8 * (count - 2 - k)) as nat);
            lemma_pow2_pos((8 * (count - 2 - k)) as nat);
            lemma_div_denominator(m as int, 256, pow2((8 * (count - 2 - k)) as nat) as int);
        }
        lemma_be_value_of_bytes(d, first, (count - 1) as nat, m / 256);
        assert(d[first + (count - 1)] == (m / pow2((8 * (count - 1 - (count - 1))) as nat)) % 256);
        lemma_fundamental_div_mod_converse(m as int, 1, m as int, 0);
        assert(d[first + count - 1] == m % 256);
        lemma_pow2_pos((8 * (count - 1)) as nat);
        lemma_mod_breakdown(m as int, 256, pow2((8 * (count - 1)) as nat) as int);
        lemma_pow2_adds(8, (8 * (count - 1)) as nat);
    }
}

/// Reducing modulo `pow2(t)` keeps every bit below position `t`.
pub proof fn lemma_nat_bit_mod_pow2(m: nat, t: nat, j: nat)
    requires
        j < t,
    ensures
        nat_bit(m % pow2(t), j) == nat_bit(m, j),
{
    lemma_pow2_pos(j);
    lemma_pow2_pos((t - j) as nat);
    lemma_pow2_adds(j, (t - j) as nat);
    lemma_mod_breakdown(m as int, pow2(j) as int, pow2((t - j) as nat) as int);
    let a = (m / pow2(j)) % pow2((t - j) as nat);
    lemma_fundamental_div_mod_converse(
        (m % pow2(t)) as int,
        pow2(j) as int,
        a as int,
        (m % pow2(j)) as int,
    );
    lemma_mod_bound(m as int, pow2(j) as int);
    lemma2_to64();
    lemma_pow2_pos((t - j - 1) as nat);
    lemma_pow2_adds(1, (t - j - 1) as nat);
    lemma_mod_mod((m / pow2(j)) as int, 2, pow2((t - j - 1) as nat) as int);
}

/// Every field of an all-zero container holds zero.
pub proof fn lemma_zero_container_reads_zero(d: Seq<u8>, offset: int, width: nat)
    requires
        forall|i: int| 0 <= i < d.len() ==> #[trigger] d[i] == 0u8,
        0 <= offset,
        offset + width <= d.len() * 8,
    ensures
        field_value(d, offset, width) == 0,
    decreases width,
{
    if width > 0 {
        lemma_zero_container_reads_zero(d, offset, (width - 1) as nat);
        let i = offset + width - 1;
        lemma_fundamental_div_mod(i, 8);
        lemma_mod_bound(i, 8);
        assert(i / 8 < d.len()) by (nonlinear_arith)
            requires
                8 * (i / 8) + i % 8 == i,
                0 <= i % 8 < 8,
                i < d.len() * 8,
        ;
        assert(d[i / 8] == 0u8);
        lemma_pow2_pos((7 - i % 8) as nat);
        lemma_div_of0(pow2((7 - i % 8) as nat) as int);
        assert(!bit_at(d, i));
    }
}

/// The numeric value of a single bit.
pub open spec fn bit_as_nat(b: bool) -> nat {
    if b {
        1
    } else {
        0
    }
}

/// The byte whose MSB-first bits are `f(0), ..., f(7)`.
pub open spec fn byte_of_bits(f: spec_fn(int) -> bool) -> u8 {
    (bit_as_nat(f(0)) * 128 + bit_as_nat(f(1)) * 64 + bit_as_nat(f(2)) * 32 + bit_as_nat(f(3)) * 16
        + bit_as_nat(f(4)) * 8 + bit_as_nat(f(5)) * 4 + bit_as_nat(f(6)) * 2 + bit_as_nat(
        f(7),
    )) as u8
}

/// Extracting the bit with place value `p0` out of `hi * (2 * p0) + b * p0 + lo`
/// yields `b`.
proof fn lemma_div_mod_bit(hi: nat, b: nat, lo: nat, p0: nat)
    requires
        b < 2,
        lo < p0,
    ensures
        ((hi * (2 * p0) + b * p0 + lo) / p0) % 2 == b,
{
    let x = hi * (2 * p0) + b * p0 + lo;
    assert(x == (2 * hi + b) * p0 + lo) by (nonlinear_arith)
        requires
            x == hi * (2 * p0) + b * p0 + lo,
    ;
    lemma_fundamental_div_mod_converse(x as int, p0 as int, (2 * hi + b) as int, lo as int);
    lemma_fundamental_div_mod_converse((2 * hi + b) as int, 2, hi as int, b as int);
}

/// Reading bit `j` of an assembled byte gives back the bit it was built from.
pub proof fn lemma_byte_of_bits_bit(f: spec_fn(int) -> bool, j: int)
    requires
        0 <= j < 8,
    ensures
        byte_bit(byte_of_bits(f), j) == f(j),
{
    lemma2_to64();
    let n0 = bit_as_nat(f(0));
    let n1 = bit_as_nat(f(1));
    let n2 = bit_as_nat(f(2));
    let n3 = bit_as_nat(f(3));
    let n4 = bit_as_nat(f(4));
    let n5 = bit_as_nat(f(5));
    let n6 = bit_as_nat(f(6));
    let n7 = bit_as_nat(f(7));
    let s = n0 * 128 + n1 * 64 + n2 * 32 + n3 * 16 + n4 * 8 + n5 * 4 + n6 * 2 + n7;
    assert(s <= 255);
    assert(byte_of_bits(f) as nat == s);
    if j == 0 {
        lemma_div_mod_bit(0, n0, n1 * 64 + n2 * 32 + n3 * 16 + n4 * 8 + n5 * 4 + n6 * 2 + n7, 128);
        assert((s / pow2(7)) % 2 == n0);
    } else if j == 1 {
        lemma_div_mod_bit(n0, n1, n2 * 32 + n3 * 16 + n4 * 8 + n5 * 4 + n6 * 2 + n7, 64);
        assert((s / pow2(6)) % 2 == n1);
    } else if j == 2 {
        lemma_div_mod_bit(n0 * 2 + n1, n2, n3 * 16 + n4 * 8 + n5 * 4 + n6 * 2 + n7, 32);
        assert((s / pow2(5)) % 2 == n2);
    } else if j == 3 {
        lemma_div_mod_bit(n0 * 4 + n1 * 2 + n2, n3, n4 * 8 + n5 * 4 + n6 * 2 + n7, 16);
        assert((s / pow2(4)) % 2 == n3);
    } else if j == 4 {
        lemma_div_mod_bit(n0 * 8 + n1 * 4 + n2 * 2 + n3, n4, n5 * 4 + n6 * 2 + n7, 8);
        assert((s / pow2(3)) % 2 == n4);
    } else if j == 5 {
        lemma_div_mod_bit(n0 * 16 + n1 * 8 + n2 * 4 + n3 * 2 + n4, n5, n6 * 2 + n7, 4);
        assert((s / pow2(2)) % 2 == n5);
    } else if j == 6 {
        lemma_div_mod_bit(n0 * 32 + n1 * 16 + n2 * 8 + n3 * 4 + n4 * 2 + n5, n6, n7, 2);
        assert((s / pow2(1)) % 2 == n6);
    } else {
        lemma_div_mod_bit(n0 * 64 + n1 * 32 + n2 * 16 + n3 * 8 + n4 * 4 + n5 * 2 + n6, n7, 0, 1);
        assert((s / pow2(0)) % 2 == n7);
    }
}

/// Two bytes that agree on all eight bits are equal.
pub proof fn lemma_u8_eq_by_bits(x: u8, y: u8)
    requires
        forall|j: int| 0 <= j < 8 ==> #[trigger] byte_bit(x, j) == byte_bit(y, j),
    ensures
        x == y,
{
    lemma2_to64();
    assert forall|k: nat| k < 8 implies (x as nat / #[trigger] pow2(k)) % 2 == (y as nat / pow2(k))
        % 2 by {
        assert(byte_bit(x, 7 - k) == byte_bit(y, 7 - k));
        lemma_mod_bound((x as nat / pow2(k)) as int, 2);
        lemma_mod_bound((y as nat / pow2(k)) as int, 2);
    }
    assert(x as nat / pow2(0) == x as nat && y as nat / pow2(0) == y as nat) by {
        lemma_fundamental_div_mod_converse(x as int, 1, x as int, 0);
        lemma_fundamental_div_mod_converse(y as int, 1, y as int, 0);
    }
    assert(x == y) by (bit_vector)
        requires
            x % 2 == y % 2,
            (x / 2) % 2 == (y / 2) % 2,
            (x / 4) % 2 == (y / 4) % 2,
            (x / 8) % 2 == (y / 8) % 2,
            (x / 16) % 2 == (y / 16) % 2,
            (x / 32) % 2 == (y / 32) % 2,
            (x / 64) % 2 == (y / 64) % 2,
            (x / 128) % 2 == (y / 128) % 2,
    ;
}

/// Bit `i` of the container after writing `v` into the field at
/// `[offset, offset + width)`: inside the field the matching bit of `v`,
/// elsewhere the old bit.
pub open spec fn with_field_bit(d: Seq<u8>, offset: int, width: nat, v: nat, i: int) -> bool {
    if offset <= i < offset + width {
        nat_bit(v, (offset + width - 1 - i) as nat)
    } else {
        bit_at(d, i)
    }
}

/// The container after writing the low `width` bits of `v` into the field
/// at `[offset, offset + width)`, all other bits unchanged.
pub open spec fn with_field(d: Seq<u8>, offset: int, width: nat, v: nat) -> Seq<u8> {
    Seq::new(
        d.len(),
        |bi: int| byte_of_bits(|j: int| with_field_bit(d, offset, width, v, 8 * bi + j)),
    )
}

/// The bits of `with_field` are exactly `with_field_bit`.
pub proof fn lemma_with_field_bit(d: Seq<u8>, offset: int, width: nat, v: nat, i: int)
    requires
        0 <= i < d.len() * 8,
    ensures
        bit_at(with_field(d, offset, width, v), i) == with_field_bit(d, offset, width, v, i),
{
    let bi = i / 8;
    let j = i % 8;
    lemma_fundamental_div_mod(i, 8);
    lemma_mod_bound(i, 8);
    assert(bi < d.len()) by (nonlinear_arith)
        requires
            8 * bi + j == i,
            0 <= j < 8,
            i < d.len() * 8,
    ;
    lemma_byte_of_bits_bit(|jj: int| with_field_bit(d, offset, width, v, 8 * bi + jj), j);
}

/// Round trip: reading a field straight after writing it returns the
/// written value reduced to the field's width.
pub proof fn lemma_set_get_round_trip(d: Seq<u8>, offset: int, width: nat, v: nat)
    requires
        0 <= offset,
        offset + width <= d.len() * 8,
    ensures
        field_value(with_field(d, offset, width, v), offset, width) == v % pow2(width),
{
    let w = with_field(d, offset, width, v);
    assert forall|k: int| 0 <= k < width implies #[trigger] bit_at(w, offset + k) == nat_bit(
        v,
        (width - 1 - k) as nat,
    ) by {
        lemma_with_field_bit(d, offset, width, v, offset + k);
    }
    lemma_field_value_of_bits(w, offset, width, v);
}

/// Non-interference: writing one field leaves the value of any disjoint
/// field unchanged.
pub proof fn lemma_set_preserves_disjoint(
    d: Seq<u8>,
    offset: int,
    width: nat,
    v: nat,
    offset2: int,
    width2: nat,
)
    requires
        0 <= offset,
        offset + width <= d.len() * 8,
        0 <= offset2,
        offset2 + width2 <= d.len() * 8,
        offset + width <= offset2 || offset2 + width2 <= offset,
    ensures
        field_value(with_field(d, offset, width, v), offset2, width2) == field_value(
            d,
            offset2,
            width2,
        ),
{
    let w = with_field(d, offset, width, v);
    assert forall|k: int| 0 <= k < width2 implies #[trigger] bit_at(w, offset2 + k) == bit_at(
        d,
        offset2 + k,
    ) by {
        lemma_with_field_bit(d, offset, width, v, offset2 + k);
    }
    lemma_field_value_congruence(w, d, offset2, width2);
}

/// A field's value, read out of the big-endian value of the bytes it
/// spans: drop the `rp` trailing pad bits, keep the low `width` bits.
pub proof fn lemma_field_value_from_be(
    d: Seq<u8>,
    offset: int,
    width: nat,
    first: int,
    span: nat,
    rp: nat,
)
    requires
        0 <= 8 * first <= offset,
        offset < 8 * first + 8,
        rp < 8,
        offset + width + rp == 8 * (first + span),
    ensures
        (be_value(d, first, span) / pow2(rp)) % pow2(width) == field_value(d, offset, width),
{
    let be = be_value(d, first, span);
    let v = be / pow2(rp);
    assert forall|k: int| 0 <= k < width implies #[trigger] bit_at(d, offset + k) == nat_bit(
        v,
        (width - 1 - k) as nat,
    ) by {
        let j = (rp + width - 1 - k) as nat;
        assert(v / pow2((width - 1 - k) as nat) == be / pow2(j)) by {
            lemma_pow2_pos(rp);
            lemma_pow2_pos((width - 1 - k) as nat);
            lemma_div_denominator(be as int, pow2(rp) as int, pow2((width - 1 - k) as nat) as int);
            lemma_pow2_adds(rp, (width - 1 - k) as nat);
        }
        lemma_be_value_bit(d, first, span, j);
        assert(8 * first + (8 * span - 1 - j) == offset + k);
    }
    lemma_field_value_of_bits(d, offset, width, v);
}

/// A container whose spanned bytes hold the big-endian digits of a merged
/// word, and whose other bytes are untouched, is exactly `with_field` of
/// the old container — provided the merged word splices the value's bits
/// into the old span between the pad bits.
pub proof fn lemma_with_field_from_span(
    d_old: Seq<u8>,
    d_new: Seq<u8>,
    offset: int,
    width: nat,
    v: nat,
    first: int,
    span: nat,
    rp: nat,
    merged: nat,
)
    requires
        d_new.len() == d_old.len(),
        0 <= 8 * first <= offset,
        offset < 8 * first + 8,
        rp < 8,
        width >= 1,
        offset + width + rp == 8 * (first + span),
        first + span <= d_old.len(),
        forall|k: int|
            0 <= k < span ==> #[trigger] d_new[first + k] == (merged / pow2(
                (8 * (span - 1 - k)) as nat,
            )) % 256,
        forall|idx: int|
            0 <= idx < d_new.len() && !(first <= idx < first + span) ==> #[trigger] d_new[idx]
                == d_old[idx],
        forall|j: nat|
            j < 8 * span ==> #[trigger] nat_bit(merged, j) == (if rp <= j < rp + width {
                nat_bit(v, (j - rp) as nat)
            } else {
                nat_bit(be_value(d_old, first, span), j)
            }),
    ensures
        d_new == with_field(d_old, offset, width, v),
{
    let wf = with_field(d_old, offset, width, v);
    lemma_be_value_of_bytes(d_new, first, span, merged);
    assert forall|i: int| 0 <= i < d_new.len() * 8 implies #[trigger] bit_at(d_new, i)
        == with_field_bit(d_old, offset, width, v, i) by {
        if 8 * first <= i < 8 * (first + span) {
            let j = (8 * (first + span) - 1 - i) as nat;
            lemma_be_value_bit(d_new, first, span, j);
            lemma_nat_bit_mod_pow2(merged, 8 * span, j);
            assert(bit_at(d_new, i) == nat_bit(merged, j));
            if offset <= i < offset + width {
                assert(rp <= j < rp + width);
                assert(nat_bit(merged, j) == nat_bit(v, (j - rp) as nat));
                assert(j - rp == offset + width - 1 - i);
            } else {
                assert(!(rp <= j < rp + width));
                lemma_be_value_bit(d_old, first, span, j);
            }
        } else {
            lemma_fundamental_div_mod(i, 8);
            lemma_mod_bound(i, 8);
            assert(d_new[i / 8] == d_old[i / 8]);
        }
    }
    assert forall|bi: int| 0 <= bi < d_new.len() implies d_new[bi] == wf[bi] by {
        assert forall|jj: int| 0 <= jj < 8 implies #[trigger] byte_bit(d_new[bi], jj) == byte_bit(
            wf[bi],
            jj,
        ) by {
            let i = 8 * bi + jj;
            lemma_fundamental_div_mod_converse(i, 8, bi, jj);
            assert(bit_at(d_new, i) == byte_bit(d_new[bi], jj));
            assert(bit_at(wf, i) == byte_bit(wf[bi], jj));
            lemma_with_field_bit(d_old, offset, width, v, i);
        }
        lemma_u8_eq_by_bits(d_new[bi], wf[bi]);
    }
    assert(d_new =~= wf);
}

} // verus!
