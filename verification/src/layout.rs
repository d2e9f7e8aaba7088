//! The bit-level layout of the traversal, as specification functions.
//!
//! Encoding a node yields a pending stream: the bits it appends, and the
//! string occurrences it records.  An occurrence consumes no bits; it only
//! remembers the string's bytes and the bit position where an index into the
//! string table will later be inserted.  Streams compose by concatenation,
//! which offsets the positions of the right-hand stream by the bit length of
//! the left-hand one.

use vstd::prelude::*;

use crate::bits::{bits_le, bytes_of_bits, CAP_BITS};
use crate::strtab::{
    index_of, index_width, insert_sorted, lemma_insert_sorted_keeps_sorted, strictly_sorted,
    table_contains,
};
use crate::module::{
    Line, LineType, Module, NamedValue, Number, Op, TextParsing, Value, VariableScope,
    line_type_ord, text_parsing_ord, variable_scope_ord,
};

verus! {

/// One recorded string occurrence: the string's bytes and the bit position
/// of the insertion point, relative to the start of the stream.
#[verifier::ext_equal]
pub ghost struct Occ {
    pub text: Seq<u8>,
    pub pos: int,
}

/// A pending stream: appended bits plus recorded string occurrences.
#[verifier::ext_equal]
pub ghost struct EncOut {
    pub bits: Seq<bool>,
    pub occs: Seq<Occ>,
}

/// The bytes of a string value.
pub open spec fn str_bytes(s: String) -> Seq<u8> {
    vstd::utf8::encode_utf8(s@)
}

/// The stream that appends and records nothing.
pub open spec fn empty_out() -> EncOut {
    EncOut { bits: Seq::empty(), occs: Seq::empty() }
}

/// The stream that appends the low `w` bits of `v` and records nothing.
pub open spec fn bits_out(v: u64, w: u64) -> EncOut {
    EncOut { bits: bits_le(v, w), occs: Seq::empty() }
}

/// The stream that appends nothing and records one occurrence of `text` at
/// its own start.
pub open spec fn str_out(text: Seq<u8>) -> EncOut {
    EncOut { bits: Seq::empty(), occs: seq![Occ { text, pos: 0 }] }
}

/// Occurrences moved `d` bits to the right.
pub open spec fn shift_occs(occs: Seq<Occ>, d: int) -> Seq<Occ> {
    occs.map_values(|o: Occ| Occ { text: o.text, pos: o.pos + d })
}

/// Stream concatenation: `b`'s occurrence positions land after `a`'s bits.
pub open spec fn cat(a: EncOut, b: EncOut) -> EncOut {
    EncOut { bits: a.bits + b.bits, occs: a.occs + shift_occs(b.occs, a.bits.len() as int) }
}

/// Every occurrence lies inside the stream, and positions never decrease.
pub open spec fn occs_wf(e: EncOut) -> bool {
    (forall|i: int| 0 <= i < e.occs.len() ==> 0 <= (#[trigger] e.occs[i]).pos <= e.bits.len())
        && (forall|i: int, j: int|
        0 <= i <= j < e.occs.len() ==> (#[trigger] e.occs[i]).pos <= (#[trigger] e.occs[j]).pos)
}

/// The default width of an enumerated tag, in bits.
pub const TAG_FULL_WIDTH: u64 = 32;

/// The declared width of an action tag, in bits: the action catalog's
/// generated type name carries the `Wants11Bits` hint, fixed independently of
/// the live catalog size.
pub const ACTION_TAG_WIDTH: u64 = 11;

/// The width of a sequence length prefix, in bits: one full-width unsigned
/// integer.
pub const LEN_PREFIX_WIDTH: u64 = 64;

/// A full-width enumerated tag.
pub open spec fn tag_out(ordinal: u64) -> EncOut {
    bits_out(ordinal, TAG_FULL_WIDTH)
}

/// A sequence length prefix.
pub open spec fn len_out(n: int) -> EncOut {
    bits_out(n as u64, LEN_PREFIX_WIDTH)
}

/// The streams of a run of 64-bit patterns, in order.
pub open spec fn words_out(s: Seq<u64>) -> EncOut
    decreases s.len(),
{
    if s.len() == 0 {
        empty_out()
    } else {
        cat(words_out(s.drop_last()), bits_out(s.last(), 64))
    }
}

/// A run of 64-bit patterns appends exactly 64 bits each and records nothing.
pub proof fn lemma_words_out_len(s: Seq<u64>)
    ensures
        words_out(s).bits.len() == 64 * s.len(),
        words_out(s).occs.len() == 0,
    decreases s.len(),
{
    if s.len() > 0 {
        lemma_words_out_len(s.drop_last());
    }
}

/// The stream of a numeric argument: an untagged alternative, so no selector
/// bits of its own — a literal double appends its 64-bit pattern, a
/// calculation expression records its string.
pub open spec fn enc_number(n: Number) -> EncOut {
    match n {
        Number::Simple(b) => bits_out(b, 64),
        Number::Calc(s) => str_out(str_bytes(s)),
    }
}

/// The stream of one argument value: its variant tag in the default tag
/// width, then its payload fields in declaration order.
pub open spec fn enc_value(v: Value) -> EncOut
    decreases v,
{
    match v {
        Value::Array { values } => cat(
            cat(tag_out(0), len_out(values@.len() as int)),
            enc_value_list(values@),
        ),
        Value::Block { block } => cat(tag_out(1), str_out(str_bytes(block))),
        Value::Enum { value } => cat(tag_out(2), str_out(str_bytes(value))),
        Value::Item { item } => cat(tag_out(3), str_out(str_bytes(item))),
        Value::Location { x, y, z, yaw, pitch } => cat(
            tag_out(4),
            words_out(seq![x, y, z, yaw, pitch]),
        ),
        Value::Number { number } => cat(tag_out(5), enc_number(number)),
        Value::Particle => tag_out(6),
        Value::Potion { potion, amplifier, duration } => cat(
            cat(cat(tag_out(7), str_out(str_bytes(potion))), bits_out(amplifier as u16 as u64, 16)),
            bits_out(duration as u16 as u64, 16),
        ),
        Value::Sound { sound, pitch, volume, variaton, source } => cat(
            cat(
                cat(cat(tag_out(8), str_out(str_bytes(sound))), bits_out(pitch as u64, 32)),
                bits_out(volume as u64, 32),
            ),
            cat(str_out(str_bytes(variaton)), str_out(str_bytes(source))),
        ),
        Value::Text { text, parsing } => cat(
            cat(tag_out(9), str_out(str_bytes(text))),
            tag_out(text_parsing_ord(parsing)),
        ),
        Value::Variable { variable, scope } => cat(
            cat(tag_out(10), str_out(str_bytes(variable))),
            tag_out(variable_scope_ord(scope)),
        ),
        Value::Vector { x, y, z } => cat(tag_out(11), words_out(seq![x, y, z])),
        Value::GameValue { game_value, selection } => cat(
            cat(tag_out(12), tag_out(game_value.ordinal as u64)),
            str_out(str_bytes(selection)),
        ),
        Value::Error => tag_out(13),
    }
}

/// The streams of a run of values, in order.
pub open spec fn enc_value_list(s: Seq<Value>) -> EncOut
    decreases s,
{
    if s.len() == 0 {
        empty_out()
    } else {
        cat(enc_value_list(s.drop_last()), enc_value(s.last()))
    }
}

/// The stream of a named argument: only the value; the name is not encoded.
pub open spec fn enc_named(nv: NamedValue) -> EncOut {
    enc_value(nv.value)
}

/// The streams of a run of named arguments, in order.
pub open spec fn enc_named_list(s: Seq<NamedValue>) -> EncOut
    decreases s,
{
    if s.len() == 0 {
        empty_out()
    } else {
        cat(enc_named_list(s.drop_last()), enc_named(s.last()))
    }
}

/// The stream of one operation: its action tag in the declared 11-bit width,
/// then its argument list behind a length prefix.
pub open spec fn enc_op(op: Op) -> EncOut {
    cat(
        cat(bits_out(op.action.ordinal as u64, ACTION_TAG_WIDTH), len_out(op.values@.len() as int)),
        enc_named_list(op.values@),
    )
}

/// The streams of a run of operations, in order.
pub open spec fn enc_op_list(s: Seq<Op>) -> EncOut
    decreases s,
{
    if s.len() == 0 {
        empty_out()
    } else {
        cat(enc_op_list(s.drop_last()), enc_op(s.last()))
    }
}

/// The stream of one line: its kind tag, its position byte, then its
/// operations behind a length prefix.
pub open spec fn enc_line(l: Line) -> EncOut {
    cat(
        cat(
            cat(tag_out(line_type_ord(l.line_type)), bits_out(l.position as u64, 8)),
            len_out(l.operations@.len() as int),
        ),
        enc_op_list(l.operations@),
    )
}

/// The streams of a run of lines, in order.
pub open spec fn enc_line_list(s: Seq<Line>) -> EncOut
    decreases s,
{
    if s.len() == 0 {
        empty_out()
    } else {
        cat(enc_line_list(s.drop_last()), enc_line(s.last()))
    }
}

/// The raw traversal stream of a whole module: its handler list behind a
/// length prefix.
pub open spec fn enc_module(m: Module) -> EncOut {
    cat(len_out(m.handlers@.len() as int), enc_line_list(m.handlers@))
}

/// Bits of a run of bytes, in order, each byte least-significant bit first.
pub open spec fn byte_seq_bits(s: Seq<u8>) -> Seq<bool>
    decreases s.len(),
{
    if s.len() == 0 {
        Seq::empty()
    } else {
        byte_seq_bits(s.drop_last()) + bits_le(s.last() as u64, 8)
    }
}

/// One string table entry: a 16-bit length, then the string's bytes.
pub open spec fn entry_bits(s: Seq<u8>) -> Seq<bool> {
    bits_le(s.len() as u64, 16) + byte_seq_bits(s)
}

/// The whole string table, entries in ascending order.
pub open spec fn table_bits(t: Seq<Seq<u8>>) -> Seq<bool>
    decreases t.len(),
{
    if t.len() == 0 {
        Seq::empty()
    } else {
        table_bits(t.drop_last()) + entry_bits(t.last())
    }
}

/// The deduplicated, ascending table of the recorded strings.
pub open spec fn table_of(occs: Seq<Occ>) -> Seq<Seq<u8>>
    decreases occs.len(),
{
    if occs.len() == 0 {
        Seq::empty()
    } else {
        insert_sorted(table_of(occs.drop_last()), occs.last().text)
    }
}

/// The traversal bits from `from` on, with each occurrence's table index,
/// `w` bits wide, inserted at its recorded position.
pub open spec fn splice_bits(
    bits: Seq<bool>,
    occs: Seq<Occ>,
    tbl: Seq<Seq<u8>>,
    w: u64,
    from: int,
) -> Seq<bool>
    decreases occs.len(),
{
    if occs.len() == 0 {
        bits.subrange(from, bits.len() as int)
    } else {
        bits.subrange(from, occs[0].pos) + bits_le(index_of(tbl, occs[0].text) as u64, w)
            + splice_bits(bits, occs.drop_first(), tbl, w, occs[0].pos)
    }
}

/// The final stream: with no recorded strings the traversal bits stand
/// untouched; otherwise the table comes first, and every occurrence gets its
/// minimal-width index inserted.
pub open spec fn finalize_bits(e: EncOut) -> Seq<bool> {
    if e.occs.len() == 0 {
        e.bits
    } else {
        let tbl = table_of(e.occs);
        table_bits(tbl) + splice_bits(e.bits, e.occs, tbl, index_width(tbl.len()) as u64, 0)
    }
}

/// The complete encoded bit stream of a module.
pub open spec fn module_bits(m: Module) -> Seq<bool> {
    finalize_bits(enc_module(m))
}

/// The complete encoded output of a module, packed into bytes.
pub open spec fn module_bytes(m: Module) -> Seq<u8> {
    bytes_of_bits(module_bits(m))
}

/// Whether a module's encoded stream stays under the length ceiling.
pub open spec fn module_fits(m: Module) -> bool {
    module_bits(m).len() <= CAP_BITS
}

/// Stream concatenation is associative.
pub proof fn lemma_cat_assoc(a: EncOut, b: EncOut, c: EncOut)
    ensures
        cat(cat(a, b), c) == cat(a, cat(b, c)),
{
    assert(cat(cat(a, b), c).bits =~= cat(a, cat(b, c)).bits);
    assert(cat(cat(a, b), c).occs =~= cat(a, cat(b, c)).occs);
    assert(cat(cat(a, b), c) =~= cat(a, cat(b, c)));
}

/// The empty stream is a right identity.
pub proof fn lemma_cat_empty(a: EncOut)
    ensures
        cat(a, empty_out()) == a,
        cat(empty_out(), a) == a,
{
    assert(cat(a, empty_out()).occs =~= a.occs);
    assert(cat(a, empty_out()).bits =~= a.bits);
    assert(cat(a, empty_out()) =~= a);
    assert(cat(empty_out(), a).occs =~= a.occs);
    assert(cat(empty_out(), a).bits =~= a.bits);
    assert(cat(empty_out(), a) =~= a);
}

/// Whether every string value in a number fits the table's 16-bit length.
pub open spec fn number_strings_ok(n: Number) -> bool {
    match n {
        Number::Simple(_) => true,
        Number::Calc(s) => str_bytes(s).len() <= 0xffff,
    }
}

/// Whether every string value below an argument value fits the table's
/// 16-bit length field.
pub open spec fn value_strings_ok(v: Value) -> bool
    decreases v,
{
    match v {
        Value::Array { values } => value_list_strings_ok(values@),
        Value::Block { block } => str_bytes(block).len() <= 0xffff,
        Value::Enum { value } => str_bytes(value).len() <= 0xffff,
        Value::Item { item } => str_bytes(item).len() <= 0xffff,
        Value::Location { .. } => true,
        Value::Number { number } => number_strings_ok(number),
        Value::Particle => true,
        Value::Potion { potion, .. } => str_bytes(potion).len() <= 0xffff,
        Value::Sound { sound, variaton, source, .. } => str_bytes(sound).len() <= 0xffff
            && str_bytes(variaton).len() <= 0xffff && str_bytes(source).len() <= 0xffff,
        Value::Text { text, .. } => str_bytes(text).len() <= 0xffff,
        Value::Variable { variable, .. } => str_bytes(variable).len() <= 0xffff,
        Value::Vector { .. } => true,
        Value::GameValue { selection, .. } => str_bytes(selection).len() <= 0xffff,
        Value::Error => true,
    }
}

/// Whether every string value below a run of values fits the 16-bit length.
pub open spec fn value_list_strings_ok(s: Seq<Value>) -> bool
    decreases s,
{
    if s.len() == 0 {
        true
    } else {
        value_list_strings_ok(s.drop_last()) && value_strings_ok(s.last())
    }
}

/// Whether every string value below a run of named arguments fits.
pub open spec fn named_list_strings_ok(s: Seq<NamedValue>) -> bool
    decreases s,
{
    if s.len() == 0 {
        true
    } else {
        named_list_strings_ok(s.drop_last()) && value_strings_ok(s.last().value)
    }
}

/// Whether every string value below a run of operations fits.
pub open spec fn op_list_strings_ok(s: Seq<Op>) -> bool
    decreases s,
{
    if s.len() == 0 {
        true
    } else {
        op_list_strings_ok(s.drop_last()) && named_list_strings_ok(s.last().values@)
    }
}

/// Whether every string value below a run of lines fits.
pub open spec fn line_list_strings_ok(s: Seq<Line>) -> bool
    decreases s,
{
    if s.len() == 0 {
        true
    } else {
        line_list_strings_ok(s.drop_last()) && op_list_strings_ok(s.last().operations@)
    }
}

/// Whether every string value anywhere in a module fits the table's 16-bit
/// length field.
pub open spec fn module_strings_ok(m: Module) -> bool {
    line_list_strings_ok(m.handlers@)
}

/// One more value extends the run's stream by that value's.
pub proof fn lemma_value_list_step(s: Seq<Value>, i: int)
    requires
        0 <= i < s.len(),
    ensures
        enc_value_list(s.take(i + 1)) == cat(enc_value_list(s.take(i)), enc_value(s[i])),
        value_list_strings_ok(s.take(i + 1)) == (value_list_strings_ok(s.take(i))
            && value_strings_ok(s[i])),
{
    assert(s.take(i + 1).drop_last() =~= s.take(i));
    assert(s.take(i + 1).last() == s[i]);
}

/// A prefix of a run never encodes to more bits than the whole run.
pub proof fn lemma_value_list_len_mono(s: Seq<Value>, i: int)
    requires
        0 <= i <= s.len(),
    ensures
        enc_value_list(s.take(i)).bits.len() <= enc_value_list(s).bits.len(),
    decreases s.len() - i,
{
    if i == s.len() {
        assert(s.take(i) =~= s);
    } else {
        lemma_value_list_step(s, i);
        lemma_value_list_len_mono(s, i + 1);
    }
}

/// Every value of an acceptable run is itself acceptable.
pub proof fn lemma_value_list_ok_index(s: Seq<Value>, i: int)
    requires
        value_list_strings_ok(s),
        0 <= i < s.len(),
    ensures
        value_strings_ok(s[i]),
    decreases s.len(),
{
    if i < s.len() - 1 {
        assert(s.drop_last()[i] == s[i]);
        lemma_value_list_ok_index(s.drop_last(), i);
    }
}

/// One more argument extends the run's stream by its value's.
pub proof fn lemma_named_list_step(s: Seq<NamedValue>, i: int)
    requires
        0 <= i < s.len(),
    ensures
        enc_named_list(s.take(i + 1)) == cat(enc_named_list(s.take(i)), enc_named(s[i])),
        named_list_strings_ok(s.take(i + 1)) == (named_list_strings_ok(s.take(i))
            && value_strings_ok(s[i].value)),
{
    assert(s.take(i + 1).drop_last() =~= s.take(i));
    assert(s.take(i + 1).last() == s[i]);
}

/// A prefix of an argument run never encodes to more bits than the whole.
pub proof fn lemma_named_list_len_mono(s: Seq<NamedValue>, i: int)
    requires
        0 <= i <= s.len(),
    ensures
        enc_named_list(s.take(i)).bits.len() <= enc_named_list(s).bits.len(),
    decreases s.len() - i,
{
    if i == s.len() {
        assert(s.take(i) =~= s);
    } else {
        lemma_named_list_step(s, i);
        lemma_named_list_len_mono(s, i + 1);
    }
}

/// Every argument of an acceptable run holds an acceptable value.
pub proof fn lemma_named_list_ok_index(s: Seq<NamedValue>, i: int)
    requires
        named_list_strings_ok(s),
        0 <= i < s.len(),
    ensures
        value_strings_ok(s[i].value),
    decreases s.len(),
{
    if i < s.len() - 1 {
        assert(s.drop_last()[i] == s[i]);
        lemma_named_list_ok_index(s.drop_last(), i);
    }
}

/// One more operation extends the run's stream by that operation's.
pub proof fn lemma_op_list_step(s: Seq<Op>, i: int)
    requires
        0 <= i < s.len(),
    ensures
        enc_op_list(s.take(i + 1)) == cat(enc_op_list(s.take(i)), enc_op(s[i])),
        op_list_strings_ok(s.take(i + 1)) == (op_list_strings_ok(s.take(i))
            && named_list_strings_ok(s[i].values@)),
{
    assert(s.take(i + 1).drop_last() =~= s.take(i));
    assert(s.take(i + 1).last() == s[i]);
}

/// A prefix of an operation run never encodes to more bits than the whole.
pub proof fn lemma_op_list_len_mono(s: Seq<Op>, i: int)
    requires
        0 <= i <= s.len(),
    ensures
        enc_op_list(s.take(i)).bits.len() <= enc_op_list(s).bits.len(),
    decreases s.len() - i,
{
    if i == s.len() {
        assert(s.take(i) =~= s);
    } else {
        lemma_op_list_step(s, i);
        lemma_op_list_len_mono(s, i + 1);
    }
}

/// Every operation of an acceptable run has acceptable arguments.
pub proof fn lemma_op_list_ok_index(s: Seq<Op>, i: int)
    requires
        op_list_strings_ok(s),
        0 <= i < s.len(),
    ensures
        named_list_strings_ok(s[i].values@),
    decreases s.len(),
{
    if i < s.len() - 1 {
        assert(s.drop_last()[i] == s[i]);
        lemma_op_list_ok_index(s.drop_last(), i);
    }
}

/// One more line extends the run's stream by that line's.
pub proof fn lemma_line_list_step(s: Seq<Line>, i: int)
    requires
        0 <= i < s.len(),
    ensures
        enc_line_list(s.take(i + 1)) == cat(enc_line_list(s.take(i)), enc_line(s[i])),
        line_list_strings_ok(s.take(i + 1)) == (line_list_strings_ok(s.take(i))
            && op_list_strings_ok(s[i].operations@)),
{
    assert(s.take(i + 1).drop_last() =~= s.take(i));
    assert(s.take(i + 1).last() == s[i]);
}

/// A prefix of a line run never encodes to more bits than the whole.
pub proof fn lemma_line_list_len_mono(s: Seq<Line>, i: int)
    requires
        0 <= i <= s.len(),
    ensures
        enc_line_list(s.take(i)).bits.len() <= enc_line_list(s).bits.len(),
    decreases s.len() - i,
{
    if i == s.len() {
        assert(s.take(i) =~= s);
    } else {
        lemma_line_list_step(s, i);
        lemma_line_list_len_mono(s, i + 1);
    }
}

/// Every line of an acceptable run has acceptable operations.
pub proof fn lemma_line_list_ok_index(s: Seq<Line>, i: int)
    requires
        line_list_strings_ok(s),
        0 <= i < s.len(),
    ensures
        op_list_strings_ok(s[i].operations@),
    decreases s.len(),
{
    if i < s.len() - 1 {
        assert(s.drop_last()[i] == s[i]);
        lemma_line_list_ok_index(s.drop_last(), i);
    }
}

/// Concatenation keeps streams well-formed.
pub proof fn lemma_cat_wf(a: EncOut, b: EncOut)
    requires
        occs_wf(a),
        occs_wf(b),
    ensures
        occs_wf(cat(a, b)),
{
    let c = cat(a, b);
    assert(forall|i: int|
        0 <= i < a.occs.len() ==> c.occs[i] == a.occs[i]);
    assert(forall|i: int|
        a.occs.len() <= i < c.occs.len() ==> c.occs[i] == Occ {
            text: b.occs[i - a.occs.len()].text,
            pos: b.occs[i - a.occs.len()].pos + a.bits.len(),
        });
    assert forall|i: int| 0 <= i < c.occs.len() implies 0 <= (#[trigger] c.occs[i]).pos
        <= c.bits.len() by {
        if i < a.occs.len() {
        } else {
            assert(0 <= b.occs[i - a.occs.len()].pos <= b.bits.len());
        }
    }
    assert forall|i: int, j: int| 0 <= i <= j < c.occs.len() implies (#[trigger] c.occs[i]).pos
        <= (#[trigger] c.occs[j]).pos by {
        if j < a.occs.len() {
        } else if i < a.occs.len() {
            assert(c.occs[i].pos <= a.bits.len());
            assert(0 <= b.occs[j - a.occs.len()].pos);
        } else {
            assert(b.occs[i - a.occs.len()].pos <= b.occs[j - a.occs.len()].pos);
        }
    }
}

/// A run of 64-bit patterns is well-formed: it records nothing.
pub proof fn lemma_words_out_wf(s: Seq<u64>)
    ensures
        occs_wf(words_out(s)),
    decreases s.len(),
{
    if s.len() > 0 {
        lemma_words_out_wf(s.drop_last());
        lemma_cat_wf(words_out(s.drop_last()), bits_out(s.last(), 64));
    }
}

/// A number's stream is well-formed.
pub proof fn lemma_enc_number_wf(n: Number)
    ensures
        occs_wf(enc_number(n)),
{
}

/// A value's stream is well-formed.
pub proof fn lemma_enc_value_wf(v: Value)
    ensures
        occs_wf(enc_value(v)),
    decreases v,
{
    match v {
        Value::Array { values } => {
            lemma_enc_value_list_wf(values@);
            lemma_cat_wf(tag_out(0), len_out(values@.len() as int));
            lemma_cat_wf(cat(tag_out(0), len_out(values@.len() as int)), enc_value_list(values@));
        },
        Value::Block { block } => {
            lemma_cat_wf(tag_out(1), str_out(str_bytes(block)));
        },
        Value::Enum { value } => {
            lemma_cat_wf(tag_out(2), str_out(str_bytes(value)));
        },
        Value::Item { item } => {
            lemma_cat_wf(tag_out(3), str_out(str_bytes(item)));
        },
        Value::Location { x, y, z, yaw, pitch } => {
            lemma_words_out_wf(seq![x, y, z, yaw, pitch]);
            lemma_cat_wf(tag_out(4), words_out(seq![x, y, z, yaw, pitch]));
        },
        Value::Number { number } => {
            lemma_enc_number_wf(number);
            lemma_cat_wf(tag_out(5), enc_number(number));
        },
        Value::Particle => {},
        Value::Potion { potion, amplifier, duration } => {
            lemma_cat_wf(tag_out(7), str_out(str_bytes(potion)));
            lemma_cat_wf(
                cat(tag_out(7), str_out(str_bytes(potion))),
                bits_out(amplifier as u16 as u64, 16),
            );
            lemma_cat_wf(
                cat(cat(tag_out(7), str_out(str_bytes(potion))), bits_out(amplifier as u16 as u64, 16)),
                bits_out(duration as u16 as u64, 16),
            );
        },
        Value::Sound { sound, pitch, volume, variaton, source } => {
            lemma_cat_wf(tag_out(8), str_out(str_bytes(sound)));
            lemma_cat_wf(cat(tag_out(8), str_out(str_bytes(sound))), bits_out(pitch as u64, 32));
            lemma_cat_wf(
                cat(cat(tag_out(8), str_out(str_bytes(sound))), bits_out(pitch as u64, 32)),
                bits_out(volume as u64, 32),
            );
            lemma_cat_wf(str_out(str_bytes(variaton)), str_out(str_bytes(source)));
            lemma_cat_wf(
                cat(
                    cat(cat(tag_out(8), str_out(str_bytes(sound))), bits_out(pitch as u64, 32)),
                    bits_out(volume as u64, 32),
                ),
                cat(str_out(str_bytes(variaton)), str_out(str_bytes(source))),
            );
        },
        Value::Text { text, parsing } => {
            lemma_cat_wf(tag_out(9), str_out(str_bytes(text)));
            lemma_cat_wf(
                cat(tag_out(9), str_out(str_bytes(text))),
                tag_out(text_parsing_ord(parsing)),
            );
        },
        Value::Variable { variable, scope } => {
            lemma_cat_wf(tag_out(10), str_out(str_bytes(variable)));
            lemma_cat_wf(
                cat(tag_out(10), str_out(str_bytes(variable))),
                tag_out(variable_scope_ord(scope)),
            );
        },
        Value::Vector { x, y, z } => {
            lemma_words_out_wf(seq![x, y, z]);
            lemma_cat_wf(tag_out(11), words_out(seq![x, y, z]));
        },
        Value::GameValue { game_value, selection } => {
            lemma_cat_wf(tag_out(12), tag_out(game_value.ordinal as u64));
            lemma_cat_wf(
                cat(tag_out(12), tag_out(game_value.ordinal as u64)),
                str_out(str_bytes(selection)),
            );
        },
        Value::Error => {},
    }
}

/// A run of values' stream is well-formed.
pub proof fn lemma_enc_value_list_wf(s: Seq<Value>)
    ensures
        occs_wf(enc_value_list(s)),
    decreases s,
{
    if s.len() > 0 {
        lemma_enc_value_list_wf(s.drop_last());
        lemma_enc_value_wf(s.last());
        lemma_cat_wf(enc_value_list(s.drop_last()), enc_value(s.last()));
    }
}

/// A run of named arguments' stream is well-formed.
pub proof fn lemma_enc_named_list_wf(s: Seq<NamedValue>)
    ensures
        occs_wf(enc_named_list(s)),
    decreases s,
{
    if s.len() > 0 {
        lemma_enc_named_list_wf(s.drop_last());
        lemma_enc_value_wf(s.last().value);
        lemma_cat_wf(enc_named_list(s.drop_last()), enc_named(s.last()));
    }
}

/// An operation's stream is well-formed.
pub proof fn lemma_enc_op_wf(op: Op)
    ensures
        occs_wf(enc_op(op)),
{
    lemma_enc_named_list_wf(op.values@);
    lemma_cat_wf(
        bits_out(op.action.ordinal as u64, ACTION_TAG_WIDTH),
        len_out(op.values@.len() as int),
    );
    lemma_cat_wf(
        cat(bits_out(op.action.ordinal as u64, ACTION_TAG_WIDTH), len_out(op.values@.len() as int)),
        enc_named_list(op.values@),
    );
}

/// A run of operations' stream is well-formed.
pub proof fn lemma_enc_op_list_wf(s: Seq<Op>)
    ensures
        occs_wf(enc_op_list(s)),
    decreases s,
{
    if s.len() > 0 {
        lemma_enc_op_list_wf(s.drop_last());
        lemma_enc_op_wf(s.last());
        lemma_cat_wf(enc_op_list(s.drop_last()), enc_op(s.last()));
    }
}

/// A line's stream is well-formed.
pub proof fn lemma_enc_line_wf(l: Line)
    ensures
        occs_wf(enc_line(l)),
{
    lemma_enc_op_list_wf(l.operations@);
    lemma_cat_wf(tag_out(line_type_ord(l.line_type)), bits_out(l.position as u64, 8));
    lemma_cat_wf(
        cat(tag_out(line_type_ord(l.line_type)), bits_out(l.position as u64, 8)),
        len_out(l.operations@.len() as int),
    );
    lemma_cat_wf(
        cat(
            cat(tag_out(line_type_ord(l.line_type)), bits_out(l.position as u64, 8)),
            len_out(l.operations@.len() as int),
        ),
        enc_op_list(l.operations@),
    );
}

/// A run of lines' stream is well-formed.
pub proof fn lemma_enc_line_list_wf(s: Seq<Line>)
    ensures
        occs_wf(enc_line_list(s)),
    decreases s,
{
    if s.len() > 0 {
        lemma_enc_line_list_wf(s.drop_last());
        lemma_enc_line_wf(s.last());
        lemma_cat_wf(enc_line_list(s.drop_last()), enc_line(s.last()));
    }
}

/// A module's raw traversal stream is well-formed.
pub proof fn lemma_enc_module_wf(m: Module)
    ensures
        occs_wf(enc_module(m)),
{
    lemma_enc_line_list_wf(m.handlers@);
    lemma_cat_wf(len_out(m.handlers@.len() as int), enc_line_list(m.handlers@));
}

/// Every recorded string lands in the table, and every table entry was
/// recorded; the table is strictly ascending.
pub proof fn lemma_table_of_props(occs: Seq<Occ>)
    ensures
        strictly_sorted(table_of(occs)),
        forall|j: int|
            0 <= j < occs.len() ==> table_contains(table_of(occs), (#[trigger] occs[j]).text),
        forall|y: Seq<u8>|
            #[trigger] table_contains(table_of(occs), y) ==> exists|j: int|
                0 <= j < occs.len() && (#[trigger] occs[j]).text == y,
    decreases occs.len(),
{
    if occs.len() > 0 {
        let prev = occs.drop_last();
        lemma_table_of_props(prev);
        lemma_insert_sorted_keeps_sorted(table_of(prev), occs.last().text);
        assert(forall|j: int| 0 <= j < prev.len() ==> prev[j] == occs[j]);
        assert forall|j: int| 0 <= j < occs.len() implies table_contains(
            table_of(occs),
            (#[trigger] occs[j]).text,
        ) by {
            if j < occs.len() - 1 {
                assert(table_contains(table_of(prev), occs[j].text));
            } else {
                assert(occs[j] == occs.last());
            }
        }
        assert forall|y: Seq<u8>| #[trigger] table_contains(table_of(occs), y) implies exists|j: int|
            0 <= j < occs.len() && (#[trigger] occs[j]).text == y by {
            assert(table_contains(insert_sorted(table_of(prev), occs.last().text), y));
            if y == occs.last().text {
                assert(occs[occs.len() - 1].text == y);
            } else {
                assert(table_contains(table_of(prev), y));
                let j = choose|j: int| 0 <= j < prev.len() && (#[trigger] prev[j]).text == y;
                assert(occs[j].text == y);
            }
        }
    }
}

/// The table-of step: one more occurrence inserts its text.
pub proof fn lemma_table_of_step(occs: Seq<Occ>, i: int)
    requires
        0 <= i < occs.len(),
    ensures
        table_of(occs.take(i + 1)) == insert_sorted(table_of(occs.take(i)), occs[i].text),
{
    assert(occs.take(i + 1).drop_last() =~= occs.take(i));
    assert(occs.take(i + 1).last() == occs[i]);
}

/// The table-bits step: one more entry appends its bits.
pub proof fn lemma_table_bits_step(t: Seq<Seq<u8>>, e: int)
    requires
        0 <= e < t.len(),
    ensures
        table_bits(t.take(e + 1)) == table_bits(t.take(e)) + entry_bits(t[e]),
{
    assert(t.take(e + 1).drop_last() =~= t.take(e));
    assert(t.take(e + 1).last() == t[e]);
}

/// A table prefix never takes more bits than the whole table.
pub proof fn lemma_table_bits_mono(t: Seq<Seq<u8>>, e: int)
    requires
        0 <= e <= t.len(),
    ensures
        table_bits(t.take(e)).len() <= table_bits(t).len(),
    decreases t.len() - e,
{
    if e == t.len() {
        assert(t.take(e) =~= t);
    } else {
        lemma_table_bits_step(t, e);
        lemma_table_bits_mono(t, e + 1);
    }
}

/// The byte-run step, and its exact bit count.
pub proof fn lemma_byte_seq_bits_step(s: Seq<u8>, k: int)
    requires
        0 <= k < s.len(),
    ensures
        byte_seq_bits(s.take(k + 1)) == byte_seq_bits(s.take(k)) + bits_le(s[k] as u64, 8),
{
    assert(s.take(k + 1).drop_last() =~= s.take(k));
    assert(s.take(k + 1).last() == s[k]);
}

/// A run of bytes takes exactly eight bits each.
pub proof fn lemma_byte_seq_bits_len(s: Seq<u8>)
    ensures
        byte_seq_bits(s).len() == 8 * s.len(),
    decreases s.len(),
{
    if s.len() > 0 {
        lemma_byte_seq_bits_len(s.drop_last());
    }
}

/// The exact length of the spliced body: the remaining traversal bits plus
/// one index of width `w` per occurrence.
pub proof fn lemma_splice_len(bits: Seq<bool>, occs: Seq<Occ>, tbl: Seq<Seq<u8>>, w: u64, from: int)
    requires
        0 <= from <= bits.len(),
        forall|i: int| 0 <= i < occs.len() ==> from <= (#[trigger] occs[i]).pos <= bits.len(),
        forall|i: int, j: int|
            0 <= i <= j < occs.len() ==> (#[trigger] occs[i]).pos <= (#[trigger] occs[j]).pos,
    ensures
        splice_bits(bits, occs, tbl, w, from).len() == bits.len() - from + w * occs.len(),
    decreases occs.len(),
{
    if occs.len() == 0 {
    } else {
        let rest = occs.drop_first();
        assert(forall|i: int| 0 <= i < rest.len() ==> rest[i] == occs[i + 1]);
        lemma_splice_len(bits, rest, tbl, w, occs[0].pos);
        assert(w * occs.len() == w * rest.len() + w) by (nonlinear_arith)
            requires
                occs.len() == rest.len() + 1,
        ;
    }
}

/// The final stream is never shorter than the raw traversal bits.
pub proof fn lemma_finalize_ge_raw(e: EncOut)
    requires
        occs_wf(e),
    ensures
        finalize_bits(e).len() >= e.bits.len(),
{
    if e.occs.len() > 0 {
        let tbl = table_of(e.occs);
        let w = index_width(tbl.len()) as u64;
        lemma_splice_len(e.bits, e.occs, tbl, w, 0);
        assert(w * e.occs.len() >= 0) by (nonlinear_arith)
            requires
                e.occs.len() >= 0,
                w >= 0,
        ;
    }
}

/// With a zero index width no bits are inserted: splicing gives the
/// traversal bits back unchanged.
pub proof fn lemma_splice_zero(bits: Seq<bool>, occs: Seq<Occ>, tbl: Seq<Seq<u8>>, from: int)
    requires
        0 <= from <= bits.len(),
        forall|i: int| 0 <= i < occs.len() ==> from <= (#[trigger] occs[i]).pos <= bits.len(),
        forall|i: int, j: int|
            0 <= i <= j < occs.len() ==> (#[trigger] occs[i]).pos <= (#[trigger] occs[j]).pos,
    ensures
        splice_bits(bits, occs, tbl, 0, from) == bits.subrange(from, bits.len() as int),
    decreases occs.len(),
{
    if occs.len() > 0 {
        let rest = occs.drop_first();
        assert(forall|i: int| 0 <= i < rest.len() ==> rest[i] == occs[i + 1]);
        lemma_splice_zero(bits, rest, tbl, occs[0].pos);
        assert(bits_le(index_of(tbl, occs[0].text) as u64, 0) =~= Seq::<bool>::empty());
        assert(bits.subrange(from, occs[0].pos) + Seq::<bool>::empty() + bits.subrange(
            occs[0].pos,
            bits.len() as int,
        ) =~= bits.subrange(from, bits.len() as int));
    }
}

} // verus!
