use bitfield::access::get_bits;
use bitfield::access::set_bits;
use bitfield::access::PackedContainer;
use bitfield::layout::compute_layout;
use bitfield::layout::FieldSpec;
use bitfield::specifier::Specifier;

fn mask(width: usize) -> u64 {
    if width == 64 { u64::MAX } else { (1u64 << width) - 1 }
}

#[test]
fn new_container_is_zeroed() {
    let c = PackedContainer::new(4);
    assert_eq!(c.byte_size(), 4);
    for i in 0..4 {
        assert_eq!(c.byte_at(i), 0);
    }
}

#[test]
fn single_byte_field_written_from_zero() {
    // A 3-bit field at offset 2: writing 0b101 into a zero byte gives
    // 0b00101000.
    let mut c = PackedContainer::new(1);
    c.set_field(2, 3, 0b101);
    assert_eq!(c.byte_at(0), 0b00101000);
    assert_eq!(c.get_field(2, 3), 0b101);
}

#[test]
fn single_byte_field_preserves_neighbours() {
    let mut c = PackedContainer::new(1);
    c.set_field(0, 2, 0b11);
    c.set_field(5, 3, 0b111);
    c.set_field(2, 3, 0b101);
    assert_eq!(c.byte_at(0), 0b11101111);
    c.set_field(2, 3, 0);
    assert_eq!(c.byte_at(0), 0b11000111);
}

#[test]
fn cross_byte_field_round_trip() {
    // A 4-bit field at offset 6: bits 6-7 of byte 0 and bits 0-1 of byte 1.
    let mut c = PackedContainer::new(2);
    c.set_field(6, 4, 0b1010);
    assert_eq!(c.byte_at(0), 0b00000010);
    assert_eq!(c.byte_at(1), 0b10000000);
    assert_eq!(c.get_field(6, 4), 0b1010);
}

#[test]
fn unaligned_64_bit_field_round_trip() {
    // The hardest edge: offset 3, width 64, inside a 9-byte container.
    for v in [0u64, u64::MAX, 0xDEAD_BEEF_CAFE_BABE, 0x0123_4567_89AB_CDEF, 1, 1 << 63] {
        let mut c = PackedContainer::new(9);
        c.set_field(3, 64, v);
        assert_eq!(c.get_field(3, 64), v);
        // The three bits above and the five below the field stay zero.
        assert_eq!(c.get_field(0, 3), 0);
        assert_eq!(c.get_field(67, 5), 0);
    }
}

#[test]
fn unaligned_64_bit_field_preserves_neighbours() {
    let mut c = PackedContainer::new(9);
    c.set_field(0, 3, 0b110);
    c.set_field(67, 5, 0b10011);
    c.set_field(3, 64, 0xFFFF_FFFF_FFFF_FFFF);
    assert_eq!(c.get_field(0, 3), 0b110);
    assert_eq!(c.get_field(67, 5), 0b10011);
    c.set_field(3, 64, 0);
    assert_eq!(c.get_field(0, 3), 0b110);
    assert_eq!(c.get_field(67, 5), 0b10011);
    assert_eq!(c.get_field(3, 64), 0);
}

#[test]
fn round_trip_all_offsets_and_widths() {
    // set then get returns v & ((1 << width) - 1) for every placement in
    // a three-byte container and a sample of values.
    for width in 1..=24usize {
        for offset in 0..=(24 - width) {
            for v in [0u64, u64::MAX, 0xAAAA_AAAA_AAAA_AAAA, 0x5555_5555_5555_5555, 0x1234_5678]
            {
                let mut c = PackedContainer::new(3);
                c.set_field(offset, width, v);
                assert_eq!(c.get_field(offset, width), v & mask(width),
                    "offset {} width {} value {:#x}", offset, width, v);
            }
        }
    }
}

#[test]
fn wide_fields_round_trip_at_every_pad() {
    // Widths around the carrier boundaries, at every left pad.
    for width in [31usize, 32, 33, 63, 64] {
        for pad in 0..8usize {
            let mut c = PackedContainer::new(10);
            let v = 0x0F0F_F00F_1234_8765u64;
            c.set_field(pad, width, v);
            assert_eq!(c.get_field(pad, width), v & mask(width));
        }
    }
}

#[test]
fn setter_truncates_oversized_values() {
    // The stored value is the input reduced to the field's width.
    let mut c = PackedContainer::new(2);
    c.set_field(4, 8, 0xFFFF);
    assert_eq!(c.get_field(4, 8), 0xFF);
    assert_eq!(c.byte_at(0), 0x0F);
    assert_eq!(c.byte_at(1), 0xF0);
}

#[test]
fn non_interference_across_a_whole_layout() {
    // Give every field of a container a distinct pattern, rewrite each in
    // turn, and confirm the others always read back unchanged.
    let widths = [1usize, 3, 4, 8, 16, 4, 12, 16];
    let specs: Vec<FieldSpec> = widths
        .iter()
        .enumerate()
        .map(|(i, &w)| FieldSpec { name: format!("f{}", i), bit_width: w })
        .collect();
    let plan = compute_layout(&specs).unwrap();
    assert_eq!(plan.total_bits, 64);
    let mut c = PackedContainer::new(plan.container_byte_size);
    let pattern = |i: usize, w: usize| (0x9E37_79B9_7F4A_7C15u64.rotate_left(i as u32)) & mask(w);
    for (i, slot) in plan.slots.iter().enumerate() {
        c.set_field(slot.bit_offset, slot.bit_width, pattern(i, slot.bit_width));
    }
    for (i, slot) in plan.slots.iter().enumerate() {
        assert_eq!(c.get_field(slot.bit_offset, slot.bit_width), pattern(i, slot.bit_width));
    }
    for (i, slot) in plan.slots.iter().enumerate() {
        c.set_field(slot.bit_offset, slot.bit_width, !pattern(i, slot.bit_width) & mask(slot.bit_width));
        for (j, other) in plan.slots.iter().enumerate() {
            let expect = if j <= i {
                !pattern(j, other.bit_width) & mask(other.bit_width)
            } else {
                pattern(j, other.bit_width)
            };
            assert_eq!(c.get_field(other.bit_offset, other.bit_width), expect);
        }
    }
}

#[test]
fn free_accessors_match_container() {
    let mut data: Vec<u8> = vec![0; 3];
    set_bits(&mut data, 5, 9, 0x1AB);
    assert_eq!(get_bits(&data, 5, 9), 0x1AB);
    let mut c = PackedContainer::new(3);
    c.set_field(5, 9, 0x1AB);
    for i in 0..3 {
        assert_eq!(data[i], c.byte_at(i));
    }
}

#[test]
fn bool_specifier_round_trip() {
    assert_eq!(<bool as Specifier>::bits(), 1);
    assert_eq!(<bool as Specifier>::bytes(), 1);
    assert_eq!(<bool as Specifier>::to_be_bytes(true), vec![1u8]);
    assert_eq!(<bool as Specifier>::to_be_bytes(false), vec![0u8]);
    assert!(<bool as Specifier>::from_be_bytes(vec![1u8]));
    assert!(!<bool as Specifier>::from_be_bytes(vec![0u8]));
}
