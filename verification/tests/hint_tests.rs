use batatacode::hint::width_hint;

#[test]
fn action_catalog_name_asks_for_eleven_bits() {
    assert_eq!(width_hint("ActionIdWants11Bits"), Some(11));
}

#[test]
fn plain_names_carry_no_hint() {
    assert_eq!(width_hint("LineType"), None);
    assert_eq!(width_hint("GameValueId"), None);
    assert_eq!(width_hint(""), None);
}

#[test]
fn the_pattern_needs_digits_between_wants_and_bits() {
    assert_eq!(width_hint("WantsBits"), None);
    assert_eq!(width_hint("WantsXBits"), None);
    assert_eq!(width_hint("Wants5Bit"), None);
    assert_eq!(width_hint("Wants5Bitses"), None);
}

#[test]
fn the_whole_suffix_must_close_the_name() {
    assert_eq!(width_hint("Wants5BitsAndMore"), None);
    assert_eq!(width_hint("XWants5Bits"), Some(5));
    assert_eq!(width_hint("Wants10Bits"), Some(10));
}

#[test]
fn a_later_wants_can_carry_the_hint() {
    assert_eq!(width_hint("WantsWants7Bits"), Some(7));
}

#[test]
fn oversized_hints_saturate() {
    assert_eq!(width_hint("Wants64Bits"), Some(64));
    assert_eq!(width_hint("Wants65Bits"), Some(65));
    assert_eq!(width_hint("Wants9999Bits"), Some(65));
}
