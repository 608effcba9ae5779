use bitfield::access::PackedContainer;
use bitfield::layout::compute_layout;
use bitfield::layout::div_ceil;
use bitfield::layout::emit_getter;
use bitfield::layout::emit_setter;
use bitfield::layout::FieldSpec;
use bitfield::layout::FieldSlot;
use bitfield::layout::LayoutError;
use bitfield::specifier::discriminant_bits;
use bitfield::specifier::SpecifierError;

fn fields(widths: &[usize]) -> Vec<FieldSpec> {
    widths
        .iter()
        .enumerate()
        .map(|(i, &w)| FieldSpec { name: format!("f{}", i), bit_width: w })
        .collect()
}

#[test]
fn alignment_gate_rejects_7_15_17() {
    for widths in [vec![7], vec![7, 8], vec![17]] {
        let total: usize = widths.iter().sum();
        match compute_layout(&fields(&widths)) {
            Err(LayoutError::AlignmentError { total_bits }) => assert_eq!(total_bits, total),
            other => panic!("expected AlignmentError for {} bits, got {:?}", total, other),
        }
    }
}

#[test]
fn alignment_gate_accepts_8_16_64() {
    for widths in [vec![8], vec![7, 9], vec![64]] {
        let total: usize = widths.iter().sum();
        let plan = compute_layout(&fields(&widths)).unwrap();
        assert_eq!(plan.total_bits, total);
        assert_eq!(plan.container_byte_size, total / 8);
    }
}

#[test]
fn layout_assigns_running_offsets() {
    let plan = compute_layout(&fields(&[1, 3, 4, 24])).unwrap();
    assert_eq!(plan.total_bits, 32);
    assert_eq!(plan.container_byte_size, 4);
    let offsets: Vec<usize> = plan.slots.iter().map(|s| s.bit_offset).collect();
    assert_eq!(offsets, vec![0, 1, 4, 8]);
    assert_eq!(plan.slots[3].first_byte, 1);
    assert_eq!(plan.slots[3].last_byte, 3);
    assert_eq!(plan.slots[0].name, "f0");
    assert_eq!(plan.slots[3].bit_width, 24);
}

#[test]
fn zero_width_field_is_unsupported() {
    match compute_layout(&fields(&[8, 0, 8])) {
        Err(LayoutError::UnsupportedFieldWidth { index, bit_width }) => {
            assert_eq!(index, 1);
            assert_eq!(bit_width, 0);
        }
        other => panic!("expected UnsupportedFieldWidth, got {:?}", other),
    }
}

#[test]
fn overwide_field_is_unsupported() {
    match compute_layout(&fields(&[65])) {
        Err(LayoutError::UnsupportedFieldWidth { index, bit_width }) => {
            assert_eq!(index, 0);
            assert_eq!(bit_width, 65);
        }
        other => panic!("expected UnsupportedFieldWidth, got {:?}", other),
    }
}

#[test]
fn width_error_reported_before_alignment() {
    // One field too wide and a misaligned total: the width wins.
    match compute_layout(&fields(&[3, 65])) {
        Err(LayoutError::UnsupportedFieldWidth { index, .. }) => assert_eq!(index, 1),
        other => panic!("expected UnsupportedFieldWidth, got {:?}", other),
    }
}

#[test]
fn empty_field_list_is_byte_aligned() {
    let plan = compute_layout(&fields(&[])).unwrap();
    assert_eq!(plan.total_bits, 0);
    assert_eq!(plan.container_byte_size, 0);
    assert!(plan.slots.is_empty());
}

#[test]
fn single_byte_mask_matches_reference() {
    // A 3-bit field at offset 2 inside one byte: mask 0b00111000.
    let slot = FieldSlot {
        name: "f".to_string(),
        bit_offset: 2,
        bit_width: 3,
        first_byte: 0,
        last_byte: 0,
    };
    let plan = emit_getter(&slot);
    assert_eq!(plan.first_byte, 0);
    assert_eq!(plan.last_byte, 0);
    assert_eq!(plan.byte_span, 1);
    assert_eq!(plan.left_pad, 2);
    assert_eq!(plan.right_pad, 3);
    assert_eq!(plan.leading_byte_mask, 0b00111111);
    assert_eq!(plan.single_byte_mask, 0b00111000);
    assert_eq!(emit_setter(&slot), plan);
}

#[test]
fn cross_byte_plan_geometry() {
    // A 4-bit field at offset 6 spans bytes 0 and 1.
    let slot = FieldSlot {
        name: "f".to_string(),
        bit_offset: 6,
        bit_width: 4,
        first_byte: 0,
        last_byte: 1,
    };
    let plan = emit_getter(&slot);
    assert_eq!(plan.first_byte, 0);
    assert_eq!(plan.last_byte, 1);
    assert_eq!(plan.byte_span, 2);
    assert_eq!(plan.left_pad, 6);
    assert_eq!(plan.right_pad, 6);
    assert_eq!(plan.leading_byte_mask, 0b00000011);
    assert_eq!(plan.single_byte_mask, 0);
}

#[test]
fn unaligned_64_bit_plan_geometry() {
    // A 64-bit field at offset 3 spans nine bytes.
    let slot = FieldSlot {
        name: "f".to_string(),
        bit_offset: 3,
        bit_width: 64,
        first_byte: 0,
        last_byte: 8,
    };
    let plan = emit_getter(&slot);
    assert_eq!(plan.byte_span, 9);
    assert_eq!(plan.left_pad, 3);
    assert_eq!(plan.right_pad, 5);
}

#[test]
fn single_byte_plan_drives_correct_access() {
    // Rendering the plan by hand — mask, then shift — must agree with the
    // verified accessors for every placement within one byte.
    for width in 1..=8usize {
        for offset in 0..=(8 - width) {
            let slot = FieldSlot {
                name: "f".to_string(),
                bit_offset: offset,
                bit_width: width,
                first_byte: 0,
                last_byte: 0,
            };
            let plan = emit_getter(&slot);
            assert_eq!(plan.byte_span, 1);
            let mut c = PackedContainer::new(1);
            c.set_field(0, 8, 0b1011_0110);
            let byte = c.byte_at(0);
            let expected = ((byte & plan.single_byte_mask) >> plan.right_pad) as u64;
            assert_eq!(c.get_field(offset, width), expected);
            let v: u8 = 0x5A & (((1u16 << width) - 1) as u8);
            let stored =
                (byte & !plan.single_byte_mask) | ((v << plan.right_pad) & plan.single_byte_mask);
            c.set_field(offset, width, v as u64);
            assert_eq!(c.byte_at(0), stored);
        }
    }
}

#[test]
fn multi_byte_plan_drives_correct_access() {
    // The rendered multi-byte getter — accumulate the span big-endian,
    // drop the right pad, mask to the width — agrees with the library.
    for (offset, width) in [(6usize, 4usize), (3, 64), (5, 27), (0, 16), (1, 9)] {
        let mut c = PackedContainer::new(10);
        for i in 0..10 {
            c.set_field(8 * i, 8, ((i as u64) * 37 + 11) % 256);
        }
        let slot = FieldSlot {
            name: "f".to_string(),
            bit_offset: offset,
            bit_width: width,
            first_byte: offset / 8,
            last_byte: (offset + width - 1) / 8,
        };
        let g = emit_getter(&slot);
        let mut acc: u128 = 0;
        for i in g.first_byte..=g.last_byte {
            acc = (acc << 8) | c.byte_at(i) as u128;
        }
        let vmask: u64 = if width == 64 { u64::MAX } else { (1u64 << width) - 1 };
        let rendered = ((acc >> g.right_pad) as u64) & vmask;
        assert_eq!(c.get_field(offset, width), rendered);
    }
}

#[test]
fn div_ceil_reference_values() {
    assert_eq!(div_ceil(0, 8), 0);
    assert_eq!(div_ceil(1, 8), 1);
    assert_eq!(div_ceil(8, 8), 1);
    assert_eq!(div_ceil(9, 8), 2);
    assert_eq!(div_ceil(64, 8), 8);
    assert_eq!(div_ceil(65, 8), 9);
}

#[test]
fn discriminant_bits_accepts_powers_of_two() {
    assert_eq!(discriminant_bits(1), Ok(0));
    assert_eq!(discriminant_bits(2), Ok(1));
    assert_eq!(discriminant_bits(4), Ok(2));
    assert_eq!(discriminant_bits(8), Ok(3));
    assert_eq!(discriminant_bits(64), Ok(6));
}

#[test]
fn discriminant_bits_rejects_other_counts() {
    for count in [0usize, 3, 5, 6, 7, 12, 100] {
        assert_eq!(
            discriminant_bits(count),
            Err(SpecifierError::NotPowerOfTwo { variant_count: count })
        );
    }
}
