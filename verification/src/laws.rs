//! Laws of the encoding, stated over the specification functions that the
//! encoder's contracts use and proved for every input.

use vstd::prelude::*;

use crate::bits::{bit_at, bits_le};
use crate::hint::{digits_val, hint_from, hint_match_at, lemma_hint_from_skip, resolved_width, width_hint_spec};
use crate::layout::{
    enc_line_list, enc_module, enc_named_list, enc_op_list, enc_value, enc_value_list,
    lemma_enc_module_wf, lemma_splice_zero, lemma_table_of_props, lemma_words_out_len,
    module_bits, table_bits, table_of, Occ, ACTION_TAG_WIDTH, LEN_PREFIX_WIDTH, TAG_FULL_WIDTH,
};
use crate::module::{value_tag_ord, Line, Module, NamedValue, Number, Op, Value};
use crate::strtab::{
    index_of, index_width, insert_sorted, lemma_index_of_contains, strictly_sorted, table_contains,
};

verus! {

/// Whether a number holds no string-valued field.
pub open spec fn number_no_strings(n: Number) -> bool {
    n matches Number::Simple(_)
}

/// Whether an argument value holds no string-valued field anywhere below it.
pub open spec fn value_no_strings(v: Value) -> bool
    decreases v,
{
    match v {
        Value::Array { values } => value_list_no_strings(values@),
        Value::Block { .. } => false,
        Value::Enum { .. } => false,
        Value::Item { .. } => false,
        Value::Location { .. } => true,
        Value::Number { number } => number_no_strings(number),
        Value::Particle => true,
        Value::Potion { .. } => false,
        Value::Sound { .. } => false,
        Value::Text { .. } => false,
        Value::Variable { .. } => false,
        Value::Vector { .. } => true,
        Value::GameValue { .. } => false,
        Value::Error => true,
    }
}

/// Whether a run of values holds no string-valued field.
pub open spec fn value_list_no_strings(s: Seq<Value>) -> bool
    decreases s,
{
    if s.len() == 0 {
        true
    } else {
        value_list_no_strings(s.drop_last()) && value_no_strings(s.last())
    }
}

/// Whether a run of named arguments holds no string-valued argument value.
/// Argument names are never encoded, so they do not count.
pub open spec fn named_list_no_strings(s: Seq<NamedValue>) -> bool
    decreases s,
{
    if s.len() == 0 {
        true
    } else {
        named_list_no_strings(s.drop_last()) && value_no_strings(s.last().value)
    }
}

/// Whether a run of operations holds no string-valued field.
pub open spec fn op_list_no_strings(s: Seq<Op>) -> bool
    decreases s,
{
    if s.len() == 0 {
        true
    } else {
        op_list_no_strings(s.drop_last()) && named_list_no_strings(s.last().values@)
    }
}

/// Whether a run of lines holds no string-valued field.
pub open spec fn line_list_no_strings(s: Seq<Line>) -> bool
    decreases s,
{
    if s.len() == 0 {
        true
    } else {
        line_list_no_strings(s.drop_last()) && op_list_no_strings(s.last().operations@)
    }
}

/// Whether a module holds no string-valued field anywhere in its graph.
pub open spec fn module_no_strings(m: Module) -> bool {
    line_list_no_strings(m.handlers@)
}

proof fn lemma_value_no_strings_no_occs(v: Value)
    requires
        value_no_strings(v),
    ensures
        enc_value(v).occs.len() == 0,
    decreases v,
{
    match v {
        Value::Array { values } => {
            lemma_value_list_no_strings_no_occs(values@);
        },
        Value::Location { x, y, z, yaw, pitch } => {
            lemma_words_out_len(seq![x, y, z, yaw, pitch]);
        },
        Value::Vector { x, y, z } => {
            lemma_words_out_len(seq![x, y, z]);
        },
        _ => {},
    }
}

proof fn lemma_value_list_no_strings_no_occs(s: Seq<Value>)
    requires
        value_list_no_strings(s),
    ensures
        enc_value_list(s).occs.len() == 0,
    decreases s,
{
    if s.len() > 0 {
        lemma_value_list_no_strings_no_occs(s.drop_last());
        lemma_value_no_strings_no_occs(s.last());
    }
}

proof fn lemma_named_list_no_strings_no_occs(s: Seq<NamedValue>)
    requires
        named_list_no_strings(s),
    ensures
        enc_named_list(s).occs.len() == 0,
    decreases s,
{
    if s.len() > 0 {
        lemma_named_list_no_strings_no_occs(s.drop_last());
        lemma_value_no_strings_no_occs(s.last().value);
    }
}

proof fn lemma_op_list_no_strings_no_occs(s: Seq<Op>)
    requires
        op_list_no_strings(s),
    ensures
        enc_op_list(s).occs.len() == 0,
    decreases s,
{
    if s.len() > 0 {
        lemma_op_list_no_strings_no_occs(s.drop_last());
        lemma_named_list_no_strings_no_occs(s.last().values@);
    }
}

proof fn lemma_line_list_no_strings_no_occs(s: Seq<Line>)
    requires
        line_list_no_strings(s),
    ensures
        enc_line_list(s).occs.len() == 0,
    decreases s,
{
    if s.len() > 0 {
        lemma_line_list_no_strings_no_occs(s.drop_last());
        lemma_op_list_no_strings_no_occs(s.last().operations@);
    }
}

/// A module without string-valued fields records no occurrences, and its
/// final output is exactly the raw traversal bits: no string table is
/// prepended and nothing is inserted.
pub proof fn lemma_no_strings_raw_output(m: Module)
    requires
        module_no_strings(m),
    ensures
        enc_module(m).occs.len() == 0,
        module_bits(m) == enc_module(m).bits,
{
    lemma_line_list_no_strings_no_occs(m.handlers@);
}

/// A module whose only recorded string is one text occurring twice needs a
/// zero-bit index: the final stream is the one-entry table followed by the
/// raw traversal bits unchanged — the occurrence points vanish.
pub proof fn lemma_single_string_zero_width(m: Module)
    requires
        enc_module(m).occs.len() == 2,
        enc_module(m).occs[0].text == enc_module(m).occs[1].text,
    ensures
        table_of(enc_module(m).occs) == seq![enc_module(m).occs[0].text],
        index_width(table_of(enc_module(m).occs).len()) == 0,
        module_bits(m) == table_bits(table_of(enc_module(m).occs)) + enc_module(m).bits,
{
    let e = enc_module(m);
    let t = e.occs[0].text;
    assert(e.occs.drop_last() =~= seq![e.occs[0]]);
    assert(e.occs.drop_last().drop_last() =~= Seq::<Occ>::empty());
    assert(table_of(e.occs.drop_last().drop_last()) == Seq::<Seq<u8>>::empty());
    assert(insert_sorted(Seq::<Seq<u8>>::empty(), t) == seq![t]);
    assert(table_of(e.occs.drop_last()) == seq![t]);
    assert(insert_sorted(seq![t], t) == seq![t]);
    assert(table_of(e.occs) == seq![t]);
    lemma_enc_module_wf(m);
    lemma_splice_zero(e.bits, e.occs, seq![t], 0);
    assert(e.bits.subrange(0, e.bits.len() as int) =~= e.bits);
}

/// Every string table is strictly ascending in the lexicographic order of
/// the strings' bytes: sorted and free of duplicates.
pub proof fn lemma_table_sorted(m: Module)
    ensures
        strictly_sorted(table_of(enc_module(m).occs)),
{
    lemma_table_of_props(enc_module(m).occs);
}

/// The length-prefix rule is kept even for statically-sized aggregates: a
/// three-element array's stream carries, right after its tag, a full-width
/// length prefix of value 3.
pub proof fn lemma_fixed_count_prefix(values: Vec<Value>)
    requires
        values@.len() == 3,
    ensures
        enc_value(Value::Array { values }).bits.subrange(
            TAG_FULL_WIDTH as int,
            TAG_FULL_WIDTH as int + LEN_PREFIX_WIDTH as int,
        ) == bits_le(3, LEN_PREFIX_WIDTH),
{
    let e = enc_value(Value::Array { values });
    assert(e.bits.subrange(TAG_FULL_WIDTH as int, TAG_FULL_WIDTH as int + LEN_PREFIX_WIDTH as int)
        =~= bits_le(3, LEN_PREFIX_WIDTH));
}

/// A tag whose declared type name carries a `Wants11Bits` hint is emitted in
/// exactly 11 bits, whatever the catalog size: the low 11 bits of the
/// ordinal, higher ordinal bits truncated away.
pub proof fn lemma_wants_11_bits(name: Seq<u8>, ordinal: u64)
    requires
        width_hint_spec(name) == Some(11u64),
    ensures
        resolved_width(width_hint_spec(name), TAG_FULL_WIDTH) == 11,
        bits_le(ordinal, 11).len() == 11,
        bits_le(ordinal, 11) == bits_le(ordinal % 0x800, 11),
{
    assert forall|i: u64| i < 11 implies bit_at(ordinal, i) == bit_at(ordinal % 0x800, i) by {
        assert((ordinal >> i) & 1u64 == ((ordinal % 0x800) >> i) & 1u64) by (bit_vector)
            requires
                i < 11,
        ;
    }
    assert(bits_le(ordinal, 11) =~= bits_le(ordinal % 0x800, 11));
}

/// Toward the round-trip property: the table index recorded for an
/// occurrence identifies exactly its string — looking the index up in the
/// table gives the occurrence's bytes back unchanged.
pub proof fn lemma_index_recovers_string(m: Module, j: int)
    requires
        0 <= j < enc_module(m).occs.len(),
    ensures
        ({
            let occs = enc_module(m).occs;
            let tbl = table_of(occs);
            &&& 0 <= index_of(tbl, occs[j].text) < tbl.len()
            &&& tbl[index_of(tbl, occs[j].text)] == occs[j].text
        }),
{
    let occs = enc_module(m).occs;
    lemma_table_of_props(occs);
    assert(table_contains(table_of(occs), occs[j].text));
    lemma_index_of_contains(table_of(occs), occs[j].text);
}

/// Two values whose low `w` bits were written identically agree on each of
/// those bits.
proof fn lemma_equal_bits_agree(a: u64, b: u64, w: u64, k: u64)
    requires
        bits_le(a, w) == bits_le(b, w),
        k < w,
    ensures
        bit_at(a, k) == bit_at(b, k),
{
    assert(bits_le(a, w)[k as int] == bit_at(a, k));
    assert(bits_le(b, w)[k as int] == bit_at(b, k));
}

/// Toward the round-trip property: a full-width numeric field is uniquely
/// determined by the bits it writes — two different 64-bit patterns never
/// produce the same stream bits, so a decoder can recover the value exactly.
#[verifier::rlimit(60)]
pub proof fn lemma_word_bits_injective(a: u64, b: u64)
    requires
        bits_le(a, 64) == bits_le(b, 64),
    ensures
        a == b,
{
    lemma_equal_bits_agree(a, b, 64, 0);
    lemma_equal_bits_agree(a, b, 64, 1);
    lemma_equal_bits_agree(a, b, 64, 2);
    lemma_equal_bits_agree(a, b, 64, 3);
    lemma_equal_bits_agree(a, b, 64, 4);
    lemma_equal_bits_agree(a, b, 64, 5);
    lemma_equal_bits_agree(a, b, 64, 6);
    lemma_equal_bits_agree(a, b, 64, 7);
    lemma_equal_bits_agree(a, b, 64, 8);
    lemma_equal_bits_agree(a, b, 64, 9);
    lemma_equal_bits_agree(a, b, 64, 10);
    lemma_equal_bits_agree(a, b, 64, 11);
    lemma_equal_bits_agree(a, b, 64, 12);
    lemma_equal_bits_agree(a, b, 64, 13);
    lemma_equal_bits_agree(a, b, 64, 14);
    lemma_equal_bits_agree(a, b, 64, 15);
    lemma_equal_bits_agree(a, b, 64, 16);
    lemma_equal_bits_agree(a, b, 64, 17);
    lemma_equal_bits_agree(a, b, 64, 18);
    lemma_equal_bits_agree(a, b, 64, 19);
    lemma_equal_bits_agree(a, b, 64, 20);
    lemma_equal_bits_agree(a, b, 64, 21);
    lemma_equal_bits_agree(a, b, 64, 22);
    lemma_equal_bits_agree(a, b, 64, 23);
    lemma_equal_bits_agree(a, b, 64, 24);
    lemma_equal_bits_agree(a, b, 64, 25);
    lemma_equal_bits_agree(a, b, 64, 26);
    lemma_equal_bits_agree(a, b, 64, 27);
    lemma_equal_bits_agree(a, b, 64, 28);
    lemma_equal_bits_agree(a, b, 64, 29);
    lemma_equal_bits_agree(a, b, 64, 30);
    lemma_equal_bits_agree(a, b, 64, 31);
    lemma_equal_bits_agree(a, b, 64, 32);
    lemma_equal_bits_agree(a, b, 64, 33);
    lemma_equal_bits_agree(a, b, 64, 34);
    lemma_equal_bits_agree(a, b, 64, 35);
    lemma_equal_bits_agree(a, b, 64, 36);
    lemma_equal_bits_agree(a, b, 64, 37);
    lemma_equal_bits_agree(a, b, 64, 38);
    lemma_equal_bits_agree(a, b, 64, 39);
    lemma_equal_bits_agree(a, b, 64, 40);
    lemma_equal_bits_agree(a, b, 64, 41);
    lemma_equal_bits_agree(a, b, 64, 42);
    lemma_equal_bits_agree(a, b, 64, 43);
    lemma_equal_bits_agree(a, b, 64, 44);
    lemma_equal_bits_agree(a, b, 64, 45);
    lemma_equal_bits_agree(a, b, 64, 46);
    lemma_equal_bits_agree(a, b, 64, 47);
    lemma_equal_bits_agree(a, b, 64, 48);
    lemma_equal_bits_agree(a, b, 64, 49);
    lemma_equal_bits_agree(a, b, 64, 50);
    lemma_equal_bits_agree(a, b, 64, 51);
    lemma_equal_bits_agree(a, b, 64, 52);
    lemma_equal_bits_agree(a, b, 64, 53);
    lemma_equal_bits_agree(a, b, 64, 54);
    lemma_equal_bits_agree(a, b, 64, 55);
    lemma_equal_bits_agree(a, b, 64, 56);
    lemma_equal_bits_agree(a, b, 64, 57);
    lemma_equal_bits_agree(a, b, 64, 58);
    lemma_equal_bits_agree(a, b, 64, 59);
    lemma_equal_bits_agree(a, b, 64, 60);
    lemma_equal_bits_agree(a, b, 64, 61);
    lemma_equal_bits_agree(a, b, 64, 62);
    lemma_equal_bits_agree(a, b, 64, 63);
    assert(a == b) by (bit_vector)
        requires
            ((a >> 0u64) & 1u64 == 1u64) == ((b >> 0u64) & 1u64 == 1u64),
            ((a >> 1u64) & 1u64 == 1u64) == ((b >> 1u64) & 1u64 == 1u64),
            ((a >> 2u64) & 1u64 == 1u64) == ((b >> 2u64) & 1u64 == 1u64),
            ((a >> 3u64) & 1u64 == 1u64) == ((b >> 3u64) & 1u64 == 1u64),
            ((a >> 4u64) & 1u64 == 1u64) == ((b >> 4u64) & 1u64 == 1u64),
            ((a >> 5u64) & 1u64 == 1u64) == ((b >> 5u64) & 1u64 == 1u64),
            ((a >> 6u64) & 1u64 == 1u64) == ((b >> 6u64) & 1u64 == 1u64),
            ((a >> 7u64) & 1u64 == 1u64) == ((b >> 7u64) & 1u64 == 1u64),
            ((a >> 8u64) & 1u64 == 1u64) == ((b >> 8u64) & 1u64 == 1u64),
            ((a >> 9u64) & 1u64 == 1u64) == ((b >> 9u64) & 1u64 == 1u64),
            ((a >> 10u64) & 1u64 == 1u64) == ((b >> 10u64) & 1u64 == 1u64),
            ((a >> 11u64) & 1u64 == 1u64) == ((b >> 11u64) & 1u64 == 1u64),
            ((a >> 12u64) & 1u64 == 1u64) == ((b >> 12u64) & 1u64 == 1u64),
            ((a >> 13u64) & 1u64 == 1u64) == ((b >> 13u64) & 1u64 == 1u64),
            ((a >> 14u64) & 1u64 == 1u64) == ((b >> 14u64) & 1u64 == 1u64),
            ((a >> 15u64) & 1u64 == 1u64) == ((b >> 15u64) & 1u64 == 1u64),
            ((a >> 16u64) & 1u64 == 1u64) == ((b >> 16u64) & 1u64 == 1u64),
            ((a >> 17u64) & 1u64 == 1u64) == ((b >> 17u64) & 1u64 == 1u64),
            ((a >> 18u64) & 1u64 == 1u64) == ((b >> 18u64) & 1u64 == 1u64),
            ((a >> 19u64) & 1u64 == 1u64) == ((b >> 19u64) & 1u64 == 1u64),
            ((a >> 20u64) & 1u64 == 1u64) == ((b >> 20u64) & 1u64 == 1u64),
            ((a >> 21u64) & 1u64 == 1u64) == ((b >> 21u64) & 1u64 == 1u64),
            ((a >> 22u64) & 1u64 == 1u64) == ((b >> 22u64) & 1u64 == 1u64),
            ((a >> 23u64) & 1u64 == 1u64) == ((b >> 23u64) & 1u64 == 1u64),
            ((a >> 24u64) & 1u64 == 1u64) == ((b >> 24u64) & 1u64 == 1u64),
            ((a >> 25u64) & 1u64 == 1u64) == ((b >> 25u64) & 1u64 == 1u64),
            ((a >> 26u64) & 1u64 == 1u64) == ((b >> 26u64) & 1u64 == 1u64),
            ((a >> 27u64) & 1u64 == 1u64) == ((b >> 27u64) & 1u64 == 1u64),
            ((a >> 28u64) & 1u64 == 1u64) == ((b >> 28u64) & 1u64 == 1u64),
            ((a >> 29u64) & 1u64 == 1u64) == ((b >> 29u64) & 1u64 == 1u64),
            ((a >> 30u64) & 1u64 == 1u64) == ((b >> 30u64) & 1u64 == 1u64),
            ((a >> 31u64) & 1u64 == 1u64) == ((b >> 31u64) & 1u64 == 1u64),
            ((a >> 32u64) & 1u64 == 1u64) == ((b >> 32u64) & 1u64 == 1u64),
            ((a >> 33u64) & 1u64 == 1u64) == ((b >> 33u64) & 1u64 == 1u64),
            ((a >> 34u64) & 1u64 == 1u64) == ((b >> 34u64) & 1u64 == 1u64),
            ((a >> 35u64) & 1u64 == 1u64) == ((b >> 35u64) & 1u64 == 1u64),
            ((a >> 36u64) & 1u64 == 1u64) == ((b >> 36u64) & 1u64 == 1u64),
            ((a >> 37u64) & 1u64 == 1u64) == ((b >> 37u64) & 1u64 == 1u64),
            ((a >> 38u64) & 1u64 == 1u64) == ((b >> 38u64) & 1u64 == 1u64),
            ((a >> 39u64) & 1u64 == 1u64) == ((b >> 39u64) & 1u64 == 1u64),
            ((a >> 40u64) & 1u64 == 1u64) == ((b >> 40u64) & 1u64 == 1u64),
            ((a >> 41u64) & 1u64 == 1u64) == ((b >> 41u64) & 1u64 == 1u64),
            ((a >> 42u64) & 1u64 == 1u64) == ((b >> 42u64) & 1u64 == 1u64),
            ((a >> 43u64) & 1u64 == 1u64) == ((b >> 43u64) & 1u64 == 1u64),
            ((a >> 44u64) & 1u64 == 1u64) == ((b >> 44u64) & 1u64 == 1u64),
            ((a >> 45u64) & 1u64 == 1u64) == ((b >> 45u64) & 1u64 == 1u64),
            ((a >> 46u64) & 1u64 == 1u64) == ((b >> 46u64) & 1u64 == 1u64),
            ((a >> 47u64) & 1u64 == 1u64) == ((b >> 47u64) & 1u64 == 1u64),
            ((a >> 48u64) & 1u64 == 1u64) == ((b >> 48u64) & 1u64 == 1u64),
            ((a >> 49u64) & 1u64 == 1u64) == ((b >> 49u64) & 1u64 == 1u64),
            ((a >> 50u64) & 1u64 == 1u64) == ((b >> 50u64) & 1u64 == 1u64),
            ((a >> 51u64) & 1u64 == 1u64) == ((b >> 51u64) & 1u64 == 1u64),
            ((a >> 52u64) & 1u64 == 1u64) == ((b >> 52u64) & 1u64 == 1u64),
            ((a >> 53u64) & 1u64 == 1u64) == ((b >> 53u64) & 1u64 == 1u64),
            ((a >> 54u64) & 1u64 == 1u64) == ((b >> 54u64) & 1u64 == 1u64),
            ((a >> 55u64) & 1u64 == 1u64) == ((b >> 55u64) & 1u64 == 1u64),
            ((a >> 56u64) & 1u64 == 1u64) == ((b >> 56u64) & 1u64 == 1u64),
            ((a >> 57u64) & 1u64 == 1u64) == ((b >> 57u64) & 1u64 == 1u64),
            ((a >> 58u64) & 1u64 == 1u64) == ((b >> 58u64) & 1u64 == 1u64),
            ((a >> 59u64) & 1u64 == 1u64) == ((b >> 59u64) & 1u64 == 1u64),
            ((a >> 60u64) & 1u64 == 1u64) == ((b >> 60u64) & 1u64 == 1u64),
            ((a >> 61u64) & 1u64 == 1u64) == ((b >> 61u64) & 1u64 == 1u64),
            ((a >> 62u64) & 1u64 == 1u64) == ((b >> 62u64) & 1u64 == 1u64),
            ((a >> 63u64) & 1u64 == 1u64) == ((b >> 63u64) & 1u64 == 1u64),
    ;
}

/// The action catalog's generated type name carries, by the naming
/// convention, exactly the width the encoder registers for action tags:
/// eleven bits.
pub proof fn lemma_action_name_registers_its_width()
    ensures
        width_hint_spec(vstd::utf8::encode_utf8("ActionIdWants11Bits"@)) == Some(ACTION_TAG_WIDTH),
{
    reveal_strlit("ActionIdWants11Bits");
    let chars = "ActionIdWants11Bits"@;
    assert(vstd::utf8::is_ascii_chars(chars));
    vstd::utf8::is_ascii_chars_encode_utf8(chars);
    let bytes = vstd::utf8::encode_utf8(chars);
    assert(bytes =~= Seq::new(chars.len(), |i: int| chars[i] as u8));
    assert(bytes.len() == 19);
    assert(bytes[0] == 65);
    assert(bytes[1] == 99);
    assert(bytes[2] == 116);
    assert(bytes[3] == 105);
    assert(bytes[4] == 111);
    assert(bytes[5] == 110);
    assert(bytes[6] == 73);
    assert(bytes[7] == 100);
    assert(bytes[8] == 87);
    assert(bytes[9] == 97);
    assert(bytes[10] == 110);
    assert(bytes[11] == 116);
    assert(bytes[12] == 115);
    assert(bytes[13] == 49);
    assert(bytes[14] == 49);
    assert(bytes[15] == 66);
    assert(bytes[16] == 105);
    assert(bytes[17] == 116);
    assert(bytes[18] == 115);
    assert(!hint_match_at(bytes, 0));
    lemma_hint_from_skip(bytes, 0);
    assert(!hint_match_at(bytes, 1));
    lemma_hint_from_skip(bytes, 1);
    assert(!hint_match_at(bytes, 2));
    lemma_hint_from_skip(bytes, 2);
    assert(!hint_match_at(bytes, 3));
    lemma_hint_from_skip(bytes, 3);
    assert(!hint_match_at(bytes, 4));
    lemma_hint_from_skip(bytes, 4);
    assert(!hint_match_at(bytes, 5));
    lemma_hint_from_skip(bytes, 5);
    assert(!hint_match_at(bytes, 6));
    lemma_hint_from_skip(bytes, 6);
    assert(!hint_match_at(bytes, 7));
    lemma_hint_from_skip(bytes, 7);
    assert(hint_match_at(bytes, 8));
    assert(hint_from(bytes, 8) == Some(digits_val(bytes.subrange(13, 15))));
    assert(bytes.subrange(13, 15) =~= seq![49u8, 49u8]);
    assert(seq![49u8, 49u8].drop_last() =~= seq![49u8]);
    assert(seq![49u8].drop_last() =~= Seq::<u8>::empty());
    assert(digits_val(Seq::<u8>::empty()) == 0);
    assert(digits_val(seq![49u8]) == 1);
    assert(digits_val(seq![49u8, 49u8]) == 11);
}

/// Every argument value's stream begins with its variant selector, written
/// in the default tag width.
pub proof fn lemma_value_stream_begins_with_tag(v: Value)
    ensures
        enc_value(v).bits.len() >= TAG_FULL_WIDTH,
        enc_value(v).bits.subrange(0, TAG_FULL_WIDTH as int) == bits_le(
            value_tag_ord(v),
            TAG_FULL_WIDTH,
        ),
{
    match v {
        Value::Location { x, y, z, yaw, pitch } => {
            lemma_words_out_len(seq![x, y, z, yaw, pitch]);
        },
        Value::Vector { x, y, z } => {
            lemma_words_out_len(seq![x, y, z]);
        },
        _ => {},
    }
    assert(enc_value(v).bits.subrange(0, TAG_FULL_WIDTH as int) =~= bits_le(
        value_tag_ord(v),
        TAG_FULL_WIDTH,
    ));
}

/// Toward the round-trip property: within the declared catalog width, a
/// narrowed action tag is uniquely determined by its 11 emitted bits, so a
/// decoder recovers the ordinal exactly.
#[verifier::rlimit(30)]
pub proof fn lemma_narrow_tag_injective(a: u64, b: u64)
    requires
        a < 0x800,
        b < 0x800,
        bits_le(a, 11) == bits_le(b, 11),
    ensures
        a == b,
{
    lemma_equal_bits_agree(a, b, 11, 0);
    lemma_equal_bits_agree(a, b, 11, 1);
    lemma_equal_bits_agree(a, b, 11, 2);
    lemma_equal_bits_agree(a, b, 11, 3);
    lemma_equal_bits_agree(a, b, 11, 4);
    lemma_equal_bits_agree(a, b, 11, 5);
    lemma_equal_bits_agree(a, b, 11, 6);
    lemma_equal_bits_agree(a, b, 11, 7);
    lemma_equal_bits_agree(a, b, 11, 8);
    lemma_equal_bits_agree(a, b, 11, 9);
    lemma_equal_bits_agree(a, b, 11, 10);
    assert(a == b) by (bit_vector)
        requires
            a < 0x800,
            b < 0x800,
            ((a >> 0u64) & 1u64 == 1u64) == ((b >> 0u64) & 1u64 == 1u64),
            ((a >> 1u64) & 1u64 == 1u64) == ((b >> 1u64) & 1u64 == 1u64),
            ((a >> 2u64) & 1u64 == 1u64) == ((b >> 2u64) & 1u64 == 1u64),
            ((a >> 3u64) & 1u64 == 1u64) == ((b >> 3u64) & 1u64 == 1u64),
            ((a >> 4u64) & 1u64 == 1u64) == ((b >> 4u64) & 1u64 == 1u64),
            ((a >> 5u64) & 1u64 == 1u64) == ((b >> 5u64) & 1u64 == 1u64),
            ((a >> 6u64) & 1u64 == 1u64) == ((b >> 6u64) & 1u64 == 1u64),
            ((a >> 7u64) & 1u64 == 1u64) == ((b >> 7u64) & 1u64 == 1u64),
            ((a >> 8u64) & 1u64 == 1u64) == ((b >> 8u64) & 1u64 == 1u64),
            ((a >> 9u64) & 1u64 == 1u64) == ((b >> 9u64) & 1u64 == 1u64),
            ((a >> 10u64) & 1u64 == 1u64) == ((b >> 10u64) & 1u64 == 1u64),
    ;
}

} // verus!
