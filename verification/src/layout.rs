//! The packed field layout engine.
//!
//! A container type is described by an ordered list of fields, each with a
//! bit width.  Fields are packed left to right with no padding, MSB-first:
//! the first field occupies the highest-order bits of byte 0.  The engine
//! computes each field's bit offset and byte span, validates that the
//! total width is a whole number of bytes, and derives the abstract
//! access plan (byte indices, pads, masks) that accessors are built from.

use vstd::arithmetic::div_mod::*;
use vstd::arithmetic::mul::*;
use vstd::arithmetic::power2::*;
use vstd::bits::*;
use vstd::prelude::*;

verus! {

/// One packed field: a name, unique within its container, and a positive
/// bit width.
#[derive(Debug, Clone, PartialEq, Eq)]
pub struct FieldSpec {
    pub name: String,
    pub bit_width: usize,
}

/// A field's resolved position within the packed byte array.
#[derive(Debug, Clone, PartialEq, Eq)]
pub struct FieldSlot {
    pub name: String,
    pub bit_offset: usize,
    pub bit_width: usize,
    pub first_byte: usize,
    pub last_byte: usize,
}

/// The derived layout of a whole container: one slot per field, in order,
/// plus the container's total size.
#[derive(Debug, Clone, PartialEq, Eq)]
pub struct LayoutPlan {
    pub slots: Vec<FieldSlot>,
    pub total_bits: usize,
    pub container_byte_size: usize,
}

/// Why a layout was rejected.  Either error aborts generation for the
/// whole container; no partial layout is ever produced.
#[derive(Debug, Clone, PartialEq, Eq)]
pub enum LayoutError {
    /// The total bit width is not a multiple of eight.
    AlignmentError { total_bits: usize },
    /// A field's width is zero or exceeds the widest carrier integer.
    UnsupportedFieldWidth { index: usize, bit_width: usize },
}

/// A width the engine supports: at least one bit, at most one 64-bit
/// carrier word.
pub open spec fn width_ok(w: usize) -> bool {
    1 <= w <= 64
}

/// Every field of the list has a supported width.
pub open spec fn all_widths_ok(fields: Seq<FieldSpec>) -> bool {
    forall|i: int| 0 <= i < fields.len() ==> width_ok(#[trigger] fields[i].bit_width)
}

/// The sum of the widths of the first `n` fields: field `n`'s bit offset.
pub open spec fn width_sum(fields: Seq<FieldSpec>, n: int) -> nat
    decreases n,
{
    if n <= 0 {
        0
    } else {
        width_sum(fields, n - 1) + fields[n - 1].bit_width as nat
    }
}

/// Slots are contiguous and non-overlapping: field `i`'s bit range ends
/// exactly where field `i + 1`'s begins, so the range of any earlier
/// field lies wholly below the offset of any later one.  Together with
/// the accessors' non-interference law this means writing one field of a
/// computed layout never disturbs another.
pub proof fn lemma_slots_disjoint(fields: Seq<FieldSpec>, i: int, j: int)
    requires
        0 <= i < j <= fields.len(),
    ensures
        width_sum(fields, i) + fields[i].bit_width <= width_sum(fields, j),
    decreases j - i,
{
    if j > i + 1 {
        lemma_slots_disjoint(fields, i, j - 1);
    }
}

/// Ceiling division: the least `r` with `n <= r * m`.
pub fn div_ceil(n: usize, m: usize) -> (r: usize)
    requires
        m > 0,
        n + m <= usize::MAX,
    ensures
        r == (n + m - 1) as int / m as int,
        n <= m * r,
        n > 0 ==> m * (r - 1) < n,
        n == 0 ==> r == 0,
{
    let q = (n + m - 1) / m;
    proof {
        lemma_fundamental_div_mod((n + m - 1) as int, m as int);
        lemma_mod_bound((n + m - 1) as int, m as int);
        lemma_mul_is_distributive_sub(m as int, q as int, 1);
        if n == 0 {
            lemma_basic_div((m - 1) as int, m as int);
        }
    }
    q
}

/// Compute the layout of an ordered field list.
///
/// Succeeds exactly when every width lies in `1..=64` and the summed
/// width is byte aligned; the plan then assigns each field the offset
/// given by the running sum of the widths before it.  A field with an
/// unsupported width is reported at the first index where one occurs; a
/// misaligned total is reported with the offending bit count.
pub fn compute_layout(fields: &Vec<FieldSpec>) -> (r: Result<LayoutPlan, LayoutError>)
    requires
        fields@.len() * 64 <= usize::MAX,
    ensures
        r is Ok <==> (all_widths_ok(fields@) && width_sum(fields@, fields@.len() as int) % 8 == 0),
        match r {
            Ok(plan) => {
                &&& plan.slots@.len() == fields@.len()
                &&& plan.total_bits as nat == width_sum(fields@, fields@.len() as int)
                &&& plan.total_bits % 8 == 0
                &&& plan.container_byte_size == plan.total_bits / 8
                &&& forall|i: int|
                    0 <= i < fields@.len() ==> {
                        let s = #[trigger] plan.slots@[i];
                        &&& s.name@ == fields@[i].name@
                        &&& s.bit_width == fields@[i].bit_width
                        &&& s.bit_offset as nat == width_sum(fields@, i)
                        &&& s.first_byte == s.bit_offset / 8
                        &&& s.last_byte == (s.bit_offset + s.bit_width - 1) / 8
                    }
            },
            Err(LayoutError::UnsupportedFieldWidth { index, bit_width }) => {
                &&& 0 <= index < fields@.len()
                &&& bit_width == fields@[index as int].bit_width
                &&& !width_ok(bit_width)
                &&& forall|k: int| 0 <= k < index ==> width_ok(#[trigger] fields@[k].bit_width)
            },
            Err(LayoutError::AlignmentError { total_bits }) => {
                &&& all_widths_ok(fields@)
                &&& total_bits as nat == width_sum(fields@, fields@.len() as int)
                &&& total_bits % 8 != 0
            },
        },
{
    let mut slots: Vec<FieldSlot> = Vec::new();
    let mut offset: usize = 0;
    let mut i: usize = 0;
    while i < fields.len()
        invariant
            i <= fields@.len(),
            fields@.len() * 64 <= usize::MAX,
            slots@.len() == i,
            offset as nat == width_sum(fields@, i as int),
            offset <= 64 * i,
            forall|k: int| 0 <= k < i ==> width_ok(#[trigger] fields@[k].bit_width),
            forall|k: int|
                0 <= k < i ==> {
                    let s = #[trigger] slots@[k];
                    &&& s.name@ == fields@[k].name@
                    &&& s.bit_width == fields@[k].bit_width
                    &&& s.bit_offset as nat == width_sum(fields@, k)
                    &&& s.first_byte == s.bit_offset / 8
                    &&& s.last_byte == (s.bit_offset + s.bit_width - 1) / 8
                },
        decreases fields@.len() - i,
    {
        let w = fields[i].bit_width;
        if w < 1 || w > 64 {
            return Err(LayoutError::UnsupportedFieldWidth { index: i, bit_width: w });
        }
        let slot = FieldSlot {
            name: fields[i].name.clone(),
            bit_offset: offset,
            bit_width: w,
            first_byte: offset / 8,
            last_byte: (offset + w - 1) / 8,
        };
        slots.push(slot);
        offset = offset + w;
        i = i + 1;
    }
    if offset % 8 != 0 {
        return Err(LayoutError::AlignmentError { total_bits: offset });
    }
    Ok(LayoutPlan { slots, total_bits: offset, container_byte_size: offset / 8 })
}

/// The abstract access plan for one slot, ready for a code emitter to
/// render: byte indices, pad bit counts, and the mask for a field
/// confined to a single storage byte.
#[derive(Debug, Clone, Copy, PartialEq, Eq)]
pub struct AccessorLogic {
    pub first_byte: usize,
    pub last_byte: usize,
    pub byte_span: usize,
    pub left_pad: usize,
    pub right_pad: usize,
    pub leading_byte_mask: u8,
    pub single_byte_mask: u8,
}

/// What an access plan promises about its slot: the byte span brackets
/// the bit range, the pads count the foreign bits in the outer bytes,
/// the leading mask drops the left pad of the first byte, and for a
/// field confined to one byte the single-byte mask selects exactly the
/// field's bits.
pub open spec fn accessor_logic_ok(slot: FieldSlot, r: AccessorLogic) -> bool {
    &&& r.first_byte == slot.bit_offset / 8
    &&& r.last_byte == (slot.bit_offset + slot.bit_width - 1) / 8
    &&& r.byte_span == r.last_byte - r.first_byte + 1
    &&& r.left_pad == slot.bit_offset % 8
    &&& r.right_pad == (8 - (slot.bit_offset + slot.bit_width) % 8) % 8
    &&& r.leading_byte_mask as nat == pow2((8 - r.left_pad) as nat) - 1
    &&& r.left_pad + r.right_pad <= 8 ==> r.single_byte_mask as nat == pow2(
        (8 - r.left_pad) as nat,
    ) - pow2(r.right_pad as nat)
    &&& r.left_pad + r.right_pad > 8 ==> r.single_byte_mask == 0
}

/// `0xFF >> lp` keeps the low `8 - lp` bits of a byte.
proof fn lemma_leading_mask(lp: u8)
    requires
        lp < 8,
    ensures
        (0xFFu8 >> lp) as nat == pow2((8 - lp) as nat) - 1,
{
    lemma2_to64();
    lemma_u8_shr_is_div(0xFF, lp);
    lemma_pow2_pos(lp as nat);
    lemma_pow2_adds((8 - lp) as nat, lp as nat);
    assert(255int == (pow2((8 - lp) as nat) - 1) * pow2(lp as nat) + (pow2(lp as nat) - 1))
        by (nonlinear_arith)
        requires
            pow2((8 - lp) as nat) * pow2(lp as nat) == 256,
            pow2(lp as nat) >= 1,
    ;
    lemma_fundamental_div_mod_converse(
        255,
        pow2(lp as nat) as int,
        pow2((8 - lp) as nat) - 1,
        pow2(lp as nat) - 1,
    );
}

/// The mask `(0xFF >> lp) & (0xFF << rp)` keeps the bits between the two
/// pads of a byte; when the pads overlap no bit is left.
proof fn lemma_pad_mask(lp: u8, rp: u8, mask: u8)
    requires
        lp < 8,
        rp < 8,
        mask == (0xFFu8 >> lp) & (0xFFu8 << rp),
    ensures
        lp + rp <= 8 ==> mask as nat == pow2((8 - lp) as nat) - pow2(rp as nat),
        lp + rp > 8 ==> mask == 0,
{
    lemma2_to64();
    let a = 0xFFu8 >> lp;
    lemma_leading_mask(lp);
    lemma_pow2_pos(rp as nat);
    lemma_pow2_pos((8 - lp) as nat);
    assert(mask == ((a >> rp) << rp)) by (bit_vector)
        requires
            mask == (a & (0xFFu8 << rp)) && rp < 8,
    ;
    lemma_u8_shr_is_div(a, rp);
    if lp + rp <= 8 {
        lemma_pow2_pos((8 - lp - rp) as nat);
        lemma_pow2_adds((8 - lp - rp) as nat, rp as nat);
        assert((pow2((8 - lp) as nat) - 1) as int == (pow2((8 - lp - rp) as nat) - 1) * pow2(
            rp as nat,
        ) + (pow2(rp as nat) - 1)) by (nonlinear_arith)
            requires
                pow2((8 - lp - rp) as nat) * pow2(rp as nat) == pow2((8 - lp) as nat),
                pow2(rp as nat) >= 1,
        ;
        lemma_fundamental_div_mod_converse(
            (pow2((8 - lp) as nat) - 1) as int,
            pow2(rp as nat) as int,
            pow2((8 - lp - rp) as nat) - 1,
            pow2(rp as nat) - 1,
        );
        assert((a >> rp) as nat == pow2((8 - lp - rp) as nat) - 1);
        assert((pow2((8 - lp - rp) as nat) - 1) * pow2(rp as nat) == pow2((8 - lp) as nat) - pow2(
            rp as nat,
        )) by (nonlinear_arith)
            requires
                pow2((8 - lp - rp) as nat) * pow2(rp as nat) == pow2((8 - lp) as nat),
                pow2(rp as nat) >= 1,
        ;
        lemma_u8_shl_is_mul(a >> rp, rp);
    } else {
        lemma_pow2_strictly_increases((8 - lp) as nat, rp as nat);
        lemma_basic_div(a as int, pow2(rp as nat) as int);
        assert((a >> rp) == 0);
        assert((0u8 << rp) == 0) by (bit_vector);
    }
}

/// Derive the access plan shared by a slot's getter and setter.
fn accessor_plan(slot: &FieldSlot) -> (r: AccessorLogic)
    requires
        width_ok(slot.bit_width),
        slot.bit_offset + slot.bit_width <= usize::MAX,
    ensures
        accessor_logic_ok(*slot, r),
{
    let first: usize = slot.bit_offset / 8;
    let last: usize = (slot.bit_offset + slot.bit_width - 1) / 8;
    let lp: usize = slot.bit_offset % 8;
    let rp: usize = (8 - (slot.bit_offset + slot.bit_width) % 8) % 8;
    proof {
        crate::access::lemma_span_geometry(
            slot.bit_offset as int,
            slot.bit_width as int,
            first as int,
            last as int,
            rp as int,
        );
        lemma_fundamental_div_mod(slot.bit_offset as int, 8);
        lemma_mod_bound(slot.bit_offset as int, 8);
    }
    let lead: u8 = 0xFFu8 >> (lp as u8);
    let mask: u8 = lead & (0xFFu8 << (rp as u8));
    proof {
        lemma_leading_mask(lp as u8);
        lemma_pad_mask(lp as u8, rp as u8, mask);
    }
    AccessorLogic {
        first_byte: first,
        last_byte: last,
        byte_span: last - first + 1,
        left_pad: lp,
        right_pad: rp,
        leading_byte_mask: lead,
        single_byte_mask: mask,
    }
}

/// The access plan a code emitter renders into a slot's getter.
pub fn emit_getter(slot: &FieldSlot) -> (r: AccessorLogic)
    requires
        width_ok(slot.bit_width),
        slot.bit_offset + slot.bit_width <= usize::MAX,
    ensures
        accessor_logic_ok(*slot, r),
{
    accessor_plan(slot)
}

/// The access plan a code emitter renders into a slot's setter.
pub fn emit_setter(slot: &FieldSlot) -> (r: AccessorLogic)
    requires
        width_ok(slot.bit_width),
        slot.bit_offset + slot.bit_width <= usize::MAX,
    ensures
        accessor_logic_ok(*slot, r),
{
    accessor_plan(slot)
}

} // verus!
