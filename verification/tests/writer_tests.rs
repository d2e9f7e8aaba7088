use batatacode::bytecode::{as_2bits, EncodeError, Jmb};

#[test]
fn primitive_rules_pack_least_significant_bit_first() {
    let mut jmb = Jmb::new();
    jmb.serialize_bool(true).unwrap();
    jmb.serialize_char('A').unwrap();
    jmb.write_bits(0xAB, 8).unwrap();
    as_2bits(&mut jmb, 3).unwrap();
    assert_eq!(jmb.len_bits(), 1 + 32 + 8 + 2);
    assert_eq!(jmb.to_bytes(), vec![131, 0, 0, 0, 86, 7]);
}

#[test]
fn unit_and_none_write_nothing() {
    let mut jmb = Jmb::new();
    jmb.serialize_unit().unwrap();
    jmb.serialize_none().unwrap();
    assert_eq!(jmb.len_bits(), 0);
    assert_eq!(jmb.to_bytes(), Vec::<u8>::new());
}

#[test]
fn seq_len_is_one_full_width_word() {
    let mut jmb = Jmb::new();
    jmb.serialize_seq_len(3).unwrap();
    assert_eq!(jmb.len_bits(), 64);
    assert_eq!(jmb.to_bytes(), vec![3, 0, 0, 0, 0, 0, 0, 0]);
}

#[test]
fn recorded_string_consumes_no_bits_until_finalized() {
    let mut jmb = Jmb::new();
    jmb.serialize_str("hi").unwrap();
    assert_eq!(jmb.len_bits(), 0);
    jmb.finalize().unwrap();
    // One distinct string: the table entry alone, zero index bits.
    assert_eq!(jmb.to_bytes(), vec![2, 0, 104, 105]);
}

#[test]
fn overlong_string_is_refused_at_record_time() {
    let mut jmb = Jmb::new();
    let long = "b".repeat(65536);
    assert_eq!(jmb.serialize_str(&long), Err(EncodeError::StringTooLong));
    assert_eq!(jmb.len_bits(), 0);
}

#[test]
fn finalize_with_nothing_recorded_leaves_the_stream_untouched() {
    let mut jmb = Jmb::new();
    jmb.write_bits(0x5A, 8).unwrap();
    jmb.finalize().unwrap();
    assert_eq!(jmb.to_bytes(), vec![0x5A]);
}

#[test]
fn two_distinct_strings_get_one_bit_indices() {
    let mut jmb = Jmb::new();
    jmb.serialize_str("b").unwrap();
    jmb.serialize_str("a").unwrap();
    jmb.finalize().unwrap();
    // Table: [len 1, 'a'], [len 1, 'b']; then the two 1-bit indices at the
    // same position, in call order: first 1 (for "b"), then 0 (for "a").
    assert_eq!(jmb.len_bits(), 16 + 8 + 16 + 8 + 2);
    assert_eq!(jmb.to_bytes(), vec![1, 0, 97, 1, 0, 98, 1]);
}

#[test]
fn default_tag_width_is_32_bits() {
    let mut jmb = Jmb::new();
    jmb.serialize_variant_tag("LineType", 2).unwrap();
    assert_eq!(jmb.len_bits(), 32);
    assert_eq!(jmb.to_bytes(), vec![2, 0, 0, 0]);
}

#[test]
fn wants_hint_narrows_the_tag() {
    let mut jmb = Jmb::new();
    jmb.serialize_variant_tag("ActionIdWants11Bits", 5).unwrap();
    assert_eq!(jmb.len_bits(), 11);
    assert_eq!(jmb.to_bytes(), vec![5, 0]);
}

#[test]
fn narrowed_tag_truncates_high_ordinal_bits() {
    // 2053 = 2048 + 5: only the low 11 bits are kept, whatever the catalog
    // size.
    let mut jmb = Jmb::new();
    jmb.serialize_variant_tag("ActionIdWants11Bits", 2053).unwrap();
    assert_eq!(jmb.len_bits(), 11);
    assert_eq!(jmb.to_bytes(), vec![5, 0]);
}

#[test]
fn hint_wider_than_the_tag_is_refused() {
    let mut jmb = Jmb::new();
    assert_eq!(
        jmb.serialize_variant_tag("AWants33Bits", 1),
        Err(EncodeError::BadWidthHint)
    );
    assert_eq!(jmb.len_bits(), 0);
}

#[test]
fn unsigned_integers_write_their_full_width() {
    let mut jmb = Jmb::new();
    jmb.serialize_u8(0x12).unwrap();
    jmb.serialize_u16(0x3456).unwrap();
    jmb.serialize_u32(0x789ABCDE).unwrap();
    jmb.serialize_u64(0x0F0E0D0C0B0A0908).unwrap();
    assert_eq!(jmb.len_bits(), 8 + 16 + 32 + 64);
    assert_eq!(
        jmb.to_bytes(),
        vec![0x12, 0x56, 0x34, 0xDE, 0xBC, 0x9A, 0x78, 0x08, 0x09, 0x0A, 0x0B, 0x0C, 0x0D, 0x0E, 0x0F]
    );
}

#[test]
fn signed_integers_keep_their_twos_complement_pattern() {
    let mut jmb = Jmb::new();
    jmb.serialize_i16(-2).unwrap();
    jmb.serialize_i8(-1).unwrap();
    jmb.serialize_i32(-1).unwrap();
    jmb.serialize_i64(1).unwrap();
    assert_eq!(
        jmb.to_bytes(),
        vec![
            0xFE, 0xFF, 0xFF, 0xFF, 0xFF, 0xFF, 0xFF, 1, 0, 0, 0, 0, 0, 0, 0,
        ]
    );
}

#[test]
fn float_patterns_write_unchanged() {
    let mut jmb = Jmb::new();
    jmb.serialize_float32_bits(1.5f32.to_bits()).unwrap();
    jmb.serialize_float64_bits((-0.5f64).to_bits()).unwrap();
    assert_eq!(
        jmb.to_bytes(),
        vec![0x00, 0x00, 0xC0, 0x3F, 0, 0, 0, 0, 0, 0, 0xE0, 0xBF]
    );
}

#[test]
fn byte_sequences_copy_bit_for_bit() {
    let mut jmb = Jmb::new();
    jmb.serialize_bytes(&[0x12, 0x34, 0xFF]).unwrap();
    assert_eq!(jmb.len_bits(), 24);
    assert_eq!(jmb.to_bytes(), vec![0x12, 0x34, 0xFF]);
}

#[test]
fn tuple_variant_puts_length_before_the_tag() {
    let mut jmb = Jmb::new();
    jmb.serialize_tuple_variant_header("ActionIdWants11Bits", 5, 2).unwrap();
    assert_eq!(jmb.len_bits(), 64 + 11);
    assert_eq!(jmb.to_bytes(), vec![2, 0, 0, 0, 0, 0, 0, 0, 5, 0]);
}
