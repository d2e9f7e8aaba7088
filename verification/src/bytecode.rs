//! The encoder: a bit-stream writer with a pending string table, the
//! traversal of the value graph, and the finalizing pass.
//!
//! Traversal appends bits for every numeric and tag field and records each
//! string occurrence with the bit position it was met at; positions therefore
//! never decrease along the record list, and same-position occurrences keep
//! their call order.  The finalizing pass sorts and deduplicates the recorded
//! strings, prepends the string table, and inserts a minimal-width table
//! index at every recorded position.

use vstd::prelude::*;

use crate::bits::{
    bits_le, bits_of, bv_append_range, bv_len, bv_new, bv_push_bits, bv_to_bytes, BitBuf, CAP_BITS,
};
use crate::hint::{resolved_width, width_hint, width_hint_spec};
use crate::layout::{
    bits_out, byte_seq_bits, cat, empty_out, enc_line, enc_line_list, enc_module, enc_named,
    enc_named_list, enc_number, enc_op, enc_op_list, enc_value, enc_value_list, entry_bits,
    finalize_bits, lemma_byte_seq_bits_len, lemma_byte_seq_bits_step, lemma_cat_assoc,
    lemma_cat_empty, lemma_enc_module_wf, lemma_finalize_ge_raw, lemma_line_list_len_mono,
    lemma_line_list_ok_index, lemma_line_list_step, lemma_named_list_len_mono,
    lemma_named_list_ok_index, lemma_named_list_step, lemma_op_list_len_mono,
    lemma_op_list_ok_index, lemma_op_list_step, lemma_table_bits_mono, lemma_table_bits_step,
    lemma_table_of_props, lemma_table_of_step, lemma_value_list_len_mono,
    lemma_value_list_ok_index, lemma_value_list_step, lemma_words_out_len, len_out,
    line_list_strings_ok, module_bits, module_bytes, module_fits, module_strings_ok,
    named_list_strings_ok, number_strings_ok, occs_wf, op_list_strings_ok, splice_bits, str_bytes,
    str_out, table_bits, table_of, tag_out, value_list_strings_ok, value_strings_ok, words_out,
    EncOut, Occ, ACTION_TAG_WIDTH, LEN_PREFIX_WIDTH, TAG_FULL_WIDTH,
};
use crate::module::{
    line_type_ord, text_parsing_ord, variable_scope_ord, Line, LineType, Module, NamedValue,
    Number, Op, TextParsing, Value, VariableScope,
};
use crate::strtab::{
    compute_index_width, find_index, index_of, insert_string, lemma_insert_sorted_keeps_sorted,
    strictly_sorted, table_contains, table_view,
};
use vstd::string::StringSliceAdditionalSpecFns;

verus! {

/// Why an encode run was abandoned.  Any of these is fatal for the whole
/// run: no partial output is returned.
#[derive(Clone, Copy, Debug, PartialEq, Eq, Structural)]
pub enum EncodeError {
    /// A string value is longer than the table's 16-bit length field can say.
    StringTooLong,
    /// A declared width hint asks for more bits than the tag has.
    BadWidthHint,
    /// The stream would pass the length ceiling.
    TooLarge,
}

/// One recorded string occurrence: the string and the bit length of the
/// stream at the moment it was met.
struct StrOcc {
    text: String,
    pos: usize,
}

/// The encoder state: the growing bit stream and the pending string
/// occurrences, owned by one encode run from start to finish.
pub struct Jmb {
    bits: BitBuf,
    strs: Vec<StrOcc>,
}

impl Jmb {
    /// The pending stream written so far: its bits and its recorded
    /// occurrences, positions absolute.
    pub closed spec fn stream(&self) -> EncOut {
        EncOut {
            bits: bits_of(self.bits),
            occs: self.strs@.map_values(
                |o: StrOcc| Occ { text: str_bytes(o.text), pos: o.pos as int },
            ),
        }
    }

    /// The writer's well-formedness: the stream is under the ceiling, every
    /// occurrence lies inside it with never-decreasing positions, and every
    /// recorded string fits the table's 16-bit length field.
    pub closed spec fn wf(&self) -> bool {
        &&& bits_of(self.bits).len() <= CAP_BITS
        &&& occs_wf(self.stream())
        &&& forall|i: int|
            0 <= i < self.strs@.len() ==> str_bytes(self.strs@[i].text).len() <= 0xffff
    }

    /// A fresh encoder with an empty stream and nothing recorded.
    pub fn new() -> (r: Jmb)
        ensures
            r.wf(),
            r.stream() == empty_out(),
    {
        let r = Jmb { bits: bv_new(), strs: Vec::new() };
        proof {
            assert(r.stream().occs =~= empty_out().occs);
            assert(r.stream() =~= empty_out());
        }
        r
    }

    /// Appends the low `w` bits of `v`, least-significant bit first: the one
    /// writing primitive every numeric and tag rule goes through.
    pub fn write_bits(&mut self, v: u64, w: u64) -> (r: Result<(), EncodeError>)
        requires
            old(self).wf(),
            w <= 64,
        ensures
            final(self).wf(),
            r is Ok <==> old(self).stream().bits.len() + w <= CAP_BITS,
            r is Ok ==> final(self).stream() == cat(old(self).stream(), bits_out(v, w)),
            r is Err ==> final(self).stream() == old(self).stream() && r == Err::<
                (),
                EncodeError,
            >(EncodeError::TooLarge),
    {
        let ok: bool = bv_push_bits(&mut self.bits, v, w);
        if ok {
            proof {
                assert(self.stream().occs =~= cat(old(self).stream(), bits_out(v, w)).occs);
                assert(self.stream() =~= cat(old(self).stream(), bits_out(v, w)));
            }
            Ok(())
        } else {
            proof {
                assert(self.stream() =~= old(self).stream());
            }
            Err(EncodeError::TooLarge)
        }
    }

    /// The boolean rule: one bit.
    pub fn serialize_bool(&mut self, v: bool) -> (r: Result<(), EncodeError>)
        requires
            old(self).wf(),
        ensures
            final(self).wf(),
            r is Ok <==> old(self).stream().bits.len() + 1 <= CAP_BITS,
            r is Ok ==> final(self).stream() == cat(
                old(self).stream(),
                bits_out(
                    if v {
                        1
                    } else {
                        0
                    },
                    1,
                ),
            ),
            r is Err ==> final(self).stream() == old(self).stream() && r == Err::<
                (),
                EncodeError,
            >(EncodeError::TooLarge),
    {
        let n: u64 = if v {
            1
        } else {
            0
        };
        self.write_bits(n, 1)
    }

    /// The character rule: the 32-bit code point, least-significant bit
    /// first.
    pub fn serialize_char(&mut self, v: char) -> (r: Result<(), EncodeError>)
        requires
            old(self).wf(),
        ensures
            final(self).wf(),
            r is Ok <==> old(self).stream().bits.len() + 32 <= CAP_BITS,
            r is Ok ==> final(self).stream() == cat(old(self).stream(), bits_out(v as u64, 32)),
            r is Err ==> final(self).stream() == old(self).stream() && r == Err::<
                (),
                EncodeError,
            >(EncodeError::TooLarge),
    {
        self.write_bits(v as u64, 32)
    }

    /// The unsigned integer rules: the full width, least-significant bit
    /// first.
    pub fn serialize_u8(&mut self, v: u8) -> (r: Result<(), EncodeError>)
        requires
            old(self).wf(),
        ensures
            final(self).wf(),
            r is Ok <==> old(self).stream().bits.len() + 8 <= CAP_BITS,
            r is Ok ==> final(self).stream() == cat(old(self).stream(), bits_out(v as u64, 8)),
            r is Err ==> final(self).stream() == old(self).stream() && r == Err::<
                (),
                EncodeError,
            >(EncodeError::TooLarge),
    {
        self.write_bits(v as u64, 8)
    }

    /// See [`Self::serialize_u8`]; sixteen bits.
    pub fn serialize_u16(&mut self, v: u16) -> (r: Result<(), EncodeError>)
        requires
            old(self).wf(),
        ensures
            final(self).wf(),
            r is Ok <==> old(self).stream().bits.len() + 16 <= CAP_BITS,
            r is Ok ==> final(self).stream() == cat(old(self).stream(), bits_out(v as u64, 16)),
            r is Err ==> final(self).stream() == old(self).stream() && r == Err::<
                (),
                EncodeError,
            >(EncodeError::TooLarge),
    {
        self.write_bits(v as u64, 16)
    }

    /// See [`Self::serialize_u8`]; thirty-two bits.
    pub fn serialize_u32(&mut self, v: u32) -> (r: Result<(), EncodeError>)
        requires
            old(self).wf(),
        ensures
            final(self).wf(),
            r is Ok <==> old(self).stream().bits.len() + 32 <= CAP_BITS,
            r is Ok ==> final(self).stream() == cat(old(self).stream(), bits_out(v as u64, 32)),
            r is Err ==> final(self).stream() == old(self).stream() && r == Err::<
                (),
                EncodeError,
            >(EncodeError::TooLarge),
    {
        self.write_bits(v as u64, 32)
    }

    /// See [`Self::serialize_u8`]; sixty-four bits.
    pub fn serialize_u64(&mut self, v: u64) -> (r: Result<(), EncodeError>)
        requires
            old(self).wf(),
        ensures
            final(self).wf(),
            r is Ok <==> old(self).stream().bits.len() + 64 <= CAP_BITS,
            r is Ok ==> final(self).stream() == cat(old(self).stream(), bits_out(v, 64)),
            r is Err ==> final(self).stream() == old(self).stream() && r == Err::<
                (),
                EncodeError,
            >(EncodeError::TooLarge),
    {
        self.write_bits(v, 64)
    }

    /// The signed integer rules: the two's-complement bit pattern,
    /// reinterpreted as the same-width unsigned value, full width,
    /// least-significant bit first.
    pub fn serialize_i8(&mut self, v: i8) -> (r: Result<(), EncodeError>)
        requires
            old(self).wf(),
        ensures
            final(self).wf(),
            r is Ok <==> old(self).stream().bits.len() + 8 <= CAP_BITS,
            r is Ok ==> final(self).stream() == cat(
                old(self).stream(),
                bits_out(v as u8 as u64, 8),
            ),
            r is Err ==> final(self).stream() == old(self).stream() && r == Err::<
                (),
                EncodeError,
            >(EncodeError::TooLarge),
    {
        self.write_bits(v as u8 as u64, 8)
    }

    /// See [`Self::serialize_i8`]; sixteen bits.
    pub fn serialize_i16(&mut self, v: i16) -> (r: Result<(), EncodeError>)
        requires
            old(self).wf(),
        ensures
            final(self).wf(),
            r is Ok <==> old(self).stream().bits.len() + 16 <= CAP_BITS,
            r is Ok ==> final(self).stream() == cat(
                old(self).stream(),
                bits_out(v as u16 as u64, 16),
            ),
            r is Err ==> final(self).stream() == old(self).stream() && r == Err::<
                (),
                EncodeError,
            >(EncodeError::TooLarge),
    {
        self.write_bits(v as u16 as u64, 16)
    }

    /// See [`Self::serialize_i8`]; thirty-two bits.
    pub fn serialize_i32(&mut self, v: i32) -> (r: Result<(), EncodeError>)
        requires
            old(self).wf(),
        ensures
            final(self).wf(),
            r is Ok <==> old(self).stream().bits.len() + 32 <= CAP_BITS,
            r is Ok ==> final(self).stream() == cat(
                old(self).stream(),
                bits_out(v as u32 as u64, 32),
            ),
            r is Err ==> final(self).stream() == old(self).stream() && r == Err::<
                (),
                EncodeError,
            >(EncodeError::TooLarge),
    {
        self.write_bits(v as u32 as u64, 32)
    }

    /// See [`Self::serialize_i8`]; sixty-four bits.
    pub fn serialize_i64(&mut self, v: i64) -> (r: Result<(), EncodeError>)
        requires
            old(self).wf(),
        ensures
            final(self).wf(),
            r is Ok <==> old(self).stream().bits.len() + 64 <= CAP_BITS,
            r is Ok ==> final(self).stream() == cat(old(self).stream(), bits_out(v as u64, 64)),
            r is Err ==> final(self).stream() == old(self).stream() && r == Err::<
                (),
                EncodeError,
            >(EncodeError::TooLarge),
    {
        self.write_bits(v as u64, 64)
    }

    /// The floating-point rules take the IEEE-754 bit pattern, already
    /// reinterpreted as a same-width unsigned value, and write it in full,
    /// least-significant bit first.
    pub fn serialize_float32_bits(&mut self, pattern: u32) -> (r: Result<(), EncodeError>)
        requires
            old(self).wf(),
        ensures
            final(self).wf(),
            r is Ok <==> old(self).stream().bits.len() + 32 <= CAP_BITS,
            r is Ok ==> final(self).stream() == cat(
                old(self).stream(),
                bits_out(pattern as u64, 32),
            ),
            r is Err ==> final(self).stream() == old(self).stream() && r == Err::<
                (),
                EncodeError,
            >(EncodeError::TooLarge),
    {
        self.write_bits(pattern as u64, 32)
    }

    /// See [`Self::serialize_float32_bits`]; sixty-four bits.
    pub fn serialize_float64_bits(&mut self, pattern: u64) -> (r: Result<(), EncodeError>)
        requires
            old(self).wf(),
        ensures
            final(self).wf(),
            r is Ok <==> old(self).stream().bits.len() + 64 <= CAP_BITS,
            r is Ok ==> final(self).stream() == cat(old(self).stream(), bits_out(pattern, 64)),
            r is Err ==> final(self).stream() == old(self).stream() && r == Err::<
                (),
                EncodeError,
            >(EncodeError::TooLarge),
    {
        self.write_bits(pattern, 64)
    }

    /// The byte-sequence rule: a literal bit-for-bit copy, each byte
    /// least-significant bit first.
    pub fn serialize_bytes(&mut self, v: &[u8]) -> (r: Result<(), EncodeError>)
        requires
            old(self).wf(),
        ensures
            final(self).wf(),
            r is Ok <==> old(self).stream().bits.len() + 8 * v@.len() <= CAP_BITS,
            r is Ok ==> final(self).stream() == cat(
                old(self).stream(),
                (EncOut { bits: byte_seq_bits(v@), occs: Seq::empty() }),
            ),
            r is Err ==> r == Err::<(), EncodeError>(EncodeError::TooLarge),
    {
        let ghost st0 = old(self).stream();
        let n: usize = v.len();
        let mut k: usize = 0;
        proof {
            lemma_byte_seq_bits_len(v@);
            assert(v@.take(0) =~= Seq::<u8>::empty());
            assert((EncOut { bits: byte_seq_bits(v@.take(0)), occs: Seq::empty() })
                =~= empty_out());
            lemma_cat_empty(st0);
        }
        while k < n
            invariant
                k <= n,
                n == v@.len(),
                self.wf(),
                st0 == old(self).stream(),
                byte_seq_bits(v@).len() == 8 * v@.len(),
                self.stream() == cat(
                    st0,
                    (EncOut { bits: byte_seq_bits(v@.take(k as int)), occs: Seq::empty() }),
                ),
            decreases n - k,
        {
            proof {
                lemma_byte_seq_bits_len(v@.take(k as int));
            }
            let byte: u8 = v[k];
            match self.write_bits(byte as u64, 8) {
                Ok(_) => {},
                Err(e) => {
                    proof {
                        lemma_byte_seq_bits_step(v@, k as int);
                        lemma_byte_seq_bits_len(v@.take(k + 1));
                    }
                    return Err(e);
                },
            }
            proof {
                lemma_byte_seq_bits_step(v@, k as int);
                lemma_cat_assoc(
                    st0,
                    (EncOut { bits: byte_seq_bits(v@.take(k as int)), occs: Seq::empty() }),
                    bits_out(v@[k as int] as u64, 8),
                );
                assert(cat(
                    (EncOut { bits: byte_seq_bits(v@.take(k as int)), occs: Seq::empty() }),
                    bits_out(v@[k as int] as u64, 8),
                ) =~= (EncOut { bits: byte_seq_bits(v@.take(k + 1)), occs: Seq::empty() }));
            }
            k = k + 1;
        }
        proof {
            assert(v@.take(n as int) =~= v@);
        }
        Ok(())
    }

    /// The string rule: no bits are consumed here; the string and the
    /// current bit length are recorded for the finalizing pass.  A string
    /// longer than the table's 16-bit length field is refused.
    pub fn serialize_str(&mut self, v: &str) -> (r: Result<(), EncodeError>)
        requires
            old(self).wf(),
        ensures
            final(self).wf(),
            r is Ok <==> v.spec_bytes().len() <= 0xffff,
            r is Ok ==> final(self).stream() == cat(old(self).stream(), str_out(v.spec_bytes())),
            r is Err ==> final(self).stream() == old(self).stream() && r == Err::<
                (),
                EncodeError,
            >(EncodeError::StringTooLong),
    {
        let nbytes: usize = v.as_bytes().len();
        if nbytes > 0xffff {
            return Err(EncodeError::StringTooLong);
        }
        let pos: usize = bv_len(&self.bits);
        self.strs.push(StrOcc { text: v.to_owned(), pos });
        proof {
            assert(forall|i: int|
                0 <= i < old(self).strs@.len() ==> self.strs@[i] == old(self).strs@[i]);
            assert(self.stream().occs =~= cat(old(self).stream(), str_out(v.spec_bytes())).occs);
            assert(self.stream() =~= cat(old(self).stream(), str_out(v.spec_bytes())));
            assert(forall|i: int|
                0 <= i < self.strs@.len() ==> str_bytes(#[trigger] self.strs@[i].text).len()
                    <= 0xffff);
            assert(occs_wf(self.stream())) by {
                assert(forall|i: int|
                    0 <= i < old(self).stream().occs.len() ==> self.stream().occs[i]
                        == old(self).stream().occs[i]);
                assert(self.stream().occs[self.stream().occs.len() - 1].pos
                    == self.stream().bits.len());
            }
        }
        Ok(())
    }

    /// The sequence, map and tuple rule: the length as one full-width
    /// unsigned integer, even where the count is statically known.
    pub fn serialize_seq_len(&mut self, len: usize) -> (r: Result<(), EncodeError>)
        requires
            old(self).wf(),
        ensures
            final(self).wf(),
            r is Ok <==> old(self).stream().bits.len() + LEN_PREFIX_WIDTH <= CAP_BITS,
            r is Ok ==> final(self).stream() == cat(
                old(self).stream(),
                bits_out(len as u64, LEN_PREFIX_WIDTH),
            ),
            r is Err ==> final(self).stream() == old(self).stream() && r == Err::<
                (),
                EncodeError,
            >(EncodeError::TooLarge),
    {
        self.write_bits(len as u64, LEN_PREFIX_WIDTH)
    }

    /// The optional rule: an absent optional writes nothing.  A present
    /// optional also writes nothing and its payload is not walked — the
    /// format deliberately drops optional payload data, so callers must not
    /// put required information behind an optional.
    pub fn serialize_none(&mut self) -> (r: Result<(), EncodeError>)
        requires
            old(self).wf(),
        ensures
            final(self).wf(),
            r is Ok,
            final(self).stream() == old(self).stream(),
    {
        Ok(())
    }

    /// The unit and plain-record rule: no tag, no length, nothing written;
    /// a record's fields follow on their own in declaration order.
    pub fn serialize_unit(&mut self) -> (r: Result<(), EncodeError>)
        requires
            old(self).wf(),
        ensures
            final(self).wf(),
            r is Ok,
            final(self).stream() == old(self).stream(),
    {
        Ok(())
    }

    /// The enumerated tag rule: the ordinal in the default full width,
    /// unless the type's declared name carries a `Wants{N}Bits` hint, in
    /// which case only the low `N` ordinal bits are written.  A hint wider
    /// than the tag itself is refused.
    pub fn serialize_variant_tag(&mut self, name: &str, variant_index: u32) -> (r: Result<
        (),
        EncodeError,
    >)
        requires
            old(self).wf(),
        ensures
            final(self).wf(),
            ({
                let hint = width_hint_spec(name.spec_bytes());
                let w = resolved_width(hint, TAG_FULL_WIDTH);
                &&& (hint matches Some(n) && n > TAG_FULL_WIDTH) ==> r == Err::<
                    (),
                    EncodeError,
                >(EncodeError::BadWidthHint) && final(self).stream() == old(self).stream()
                &&& !(hint matches Some(n) && n > TAG_FULL_WIDTH) ==> {
                    &&& (r is Ok <==> old(self).stream().bits.len() + w <= CAP_BITS)
                    &&& r is Ok ==> final(self).stream() == cat(
                        old(self).stream(),
                        bits_out(variant_index as u64, w),
                    )
                    &&& r is Err ==> final(self).stream() == old(self).stream() && r == Err::<
                        (),
                        EncodeError,
                    >(EncodeError::TooLarge)
                }
            }),
    {
        let hint: Option<u64> = width_hint(name);
        match hint {
            Option::None => self.write_bits(variant_index as u64, TAG_FULL_WIDTH),
            Option::Some(n) => {
                if n > TAG_FULL_WIDTH {
                    Err(EncodeError::BadWidthHint)
                } else {
                    self.write_bits(variant_index as u64, n)
                }
            },
        }
    }

    /// The tuple-variant rule: unlike every other aggregate, the length
    /// prefix comes first and the variant tag follows it, resolved against
    /// the type name's width hint like any other tag.
    pub fn serialize_tuple_variant_header(
        &mut self,
        name: &str,
        variant_index: u32,
        len: usize,
    ) -> (r: Result<(), EncodeError>)
        requires
            old(self).wf(),
        ensures
            final(self).wf(),
            ({
                let hint = width_hint_spec(name.spec_bytes());
                let w = resolved_width(hint, TAG_FULL_WIDTH);
                &&& (hint matches Some(n) && n > TAG_FULL_WIDTH) ==> r == Err::<
                    (),
                    EncodeError,
                >(EncodeError::BadWidthHint)
                &&& !(hint matches Some(n) && n > TAG_FULL_WIDTH) ==> {
                    &&& (r is Ok <==> old(self).stream().bits.len() + LEN_PREFIX_WIDTH + w
                        <= CAP_BITS)
                    &&& r is Ok ==> final(self).stream() == cat(
                        old(self).stream(),
                        cat(
                            bits_out(len as u64, LEN_PREFIX_WIDTH),
                            bits_out(variant_index as u64, w),
                        ),
                    )
                    &&& r is Err ==> r == Err::<(), EncodeError>(EncodeError::TooLarge)
                }
            }),
    {
        let ghost st0 = old(self).stream();
        let hint: Option<u64> = width_hint(name);
        if let Option::Some(n) = hint {
            if n > TAG_FULL_WIDTH {
                return Err(EncodeError::BadWidthHint);
            }
        }
        match self.serialize_seq_len(len) {
            Ok(_) => {},
            Err(e) => {
                return Err(e);
            },
        }
        let r = self.serialize_variant_tag(name, variant_index);
        proof {
            let w = resolved_width(width_hint_spec(name.spec_bytes()), TAG_FULL_WIDTH);
            if r is Ok {
                lemma_cat_assoc(
                    st0,
                    bits_out(len as u64, LEN_PREFIX_WIDTH),
                    bits_out(variant_index as u64, w),
                );
            }
        }
        r
    }

    /// The current length of the stream, in bits.
    pub fn len_bits(&self) -> (r: usize)
        ensures
            r == self.stream().bits.len(),
    {
        bv_len(&self.bits)
    }

    /// Reads the stream out as bytes, eight bits per byte least-significant
    /// bit first, the final partial byte zero-filled.
    pub fn to_bytes(&self) -> (r: Vec<u8>)
        requires
            self.wf(),
        ensures
            r@ == crate::bits::bytes_of_bits(self.stream().bits),
    {
        bv_to_bytes(&self.bits)
    }

    /// The finalizing pass.  With nothing recorded the stream stands
    /// untouched; otherwise the sorted, deduplicated string table is
    /// prepended and every occurrence's minimal-width table index is
    /// inserted at its recorded position, same-position occurrences keeping
    /// their call order.
    pub fn finalize(&mut self) -> (r: Result<(), EncodeError>)
        requires
            old(self).wf(),
        ensures
            final(self).wf(),
            r is Ok <==> finalize_bits(old(self).stream()).len() <= CAP_BITS,
            r is Ok ==> final(self).stream() == (EncOut {
                bits: finalize_bits(old(self).stream()),
                occs: Seq::empty(),
            }),
            r is Err ==> final(self).stream() == old(self).stream() && r == Err::<
                (),
                EncodeError,
            >(EncodeError::TooLarge),
    {
        let ghost occs = old(self).stream().occs;
        let ghost bits0 = old(self).stream().bits;
        let n_occ: usize = self.strs.len();
        if n_occ == 0 {
            proof {
                assert(occs =~= Seq::<Occ>::empty());
                assert(self.stream() =~= (EncOut {
                    bits: finalize_bits(old(self).stream()),
                    occs: Seq::empty(),
                }));
            }
            return Ok(());
        }
        let mut tbl: Vec<String> = Vec::new();
        proof {
            assert(occs.take(0) =~= Seq::<Occ>::empty());
            assert(table_view(tbl@) =~= table_of(occs.take(0)));
        }
        let mut i: usize = 0;
        while i < n_occ
            invariant
                i <= n_occ,
                *self == *old(self),
                old(self).wf(),
                n_occ == self.strs@.len(),
                occs == old(self).stream().occs,
                strictly_sorted(table_view(tbl@)),
                table_view(tbl@) == table_of(occs.take(i as int)),
            decreases n_occ - i,
        {
            proof {
                lemma_table_of_step(occs, i as int);
                assert(occs[i as int].text == str_bytes(self.strs@[i as int].text));
                lemma_insert_sorted_keeps_sorted(table_of(occs.take(i as int)), occs[i as int].text);
            }
            insert_string(&mut tbl, &self.strs[i].text);
            i = i + 1;
        }
        let ghost tblv = table_of(occs);
        proof {
            assert(occs.take(n_occ as int) =~= occs);
            lemma_table_of_props(occs);
            assert forall|k: int| 0 <= k < tblv.len() implies (#[trigger] tblv[k]).len()
                <= 0xffff by {
                assert(table_contains(tblv, tblv[k]));
                let j = choose|j: int| 0 <= j < occs.len() && (#[trigger] occs[j]).text == tblv[k];
                assert(str_bytes(old(self).strs@[j].text).len() <= 0xffff);
            }
        }
        let count: usize = tbl.len();
        let w: u64 = compute_index_width(count);
        let ghost total = finalize_bits(old(self).stream());
        proof {
            assert(count == tblv.len());
            assert(total == table_bits(tblv) + splice_bits(bits0, occs, tblv, w, 0));
        }
        let mut nb: BitBuf = bv_new();
        proof {
            assert(tblv.take(0) =~= Seq::<Seq<u8>>::empty());
            assert(bits_of(nb) =~= table_bits(tblv.take(0)));
        }
        let mut e: usize = 0;
        while e < count
            invariant
                e <= count,
                *self == *old(self),
                old(self).wf(),
                count == tbl@.len(),
                occs == old(self).stream().occs,
                bits0 == old(self).stream().bits,
                tblv == table_of(occs),
                table_view(tbl@) == tblv,
                forall|k: int| 0 <= k < tblv.len() ==> (#[trigger] tblv[k]).len() <= 0xffff,
                w <= 64,
                total == finalize_bits(old(self).stream()),
                total == table_bits(tblv) + splice_bits(bits0, occs, tblv, w, 0),
                bits_of(nb) == table_bits(tblv.take(e as int)),
                bits_of(nb).len() <= CAP_BITS,
            decreases count - e,
        {
            let bs: &[u8] = tbl[e].as_str().as_bytes();
            let slen: usize = bs.len();
            proof {
                assert(bs@ == tblv[e as int]);
                lemma_table_bits_step(tblv, e as int);
                lemma_table_bits_mono(tblv, e + 1);
                lemma_byte_seq_bits_len(tblv[e as int]);
                assert(entry_bits(tblv[e as int]).len() == 16 + 8 * slen);
            }
            if !bv_push_bits(&mut nb, slen as u64, 16) {
                return Err(EncodeError::TooLarge);
            }
            let mut k: usize = 0;
            proof {
                assert(tblv[e as int].take(0) =~= Seq::<u8>::empty());
                assert(byte_seq_bits(tblv[e as int].take(0)) =~= Seq::<bool>::empty());
                assert(bits_of(nb) =~= table_bits(tblv.take(e as int)) + bits_le(slen as u64, 16)
                    + byte_seq_bits(tblv[e as int].take(0)));
            }
            while k < slen
                invariant
                    k <= slen,
                    e < count,
                    count == tblv.len(),
                    slen == bs@.len(),
                    bs@ == tblv[e as int],
                    *self == *old(self),
                    old(self).wf(),
                    total == finalize_bits(old(self).stream()),
                    total.len() >= table_bits(tblv).len(),
                    table_bits(tblv).len() >= table_bits(tblv.take(e as int)).len() + 16 + 8
                        * slen,
                    bits_of(nb) == table_bits(tblv.take(e as int)) + bits_le(slen as u64, 16)
                        + byte_seq_bits(tblv[e as int].take(k as int)),
                    bits_of(nb).len() <= CAP_BITS,
                decreases slen - k,
            {
                proof {
                    lemma_byte_seq_bits_len(tblv[e as int].take(k as int));
                }
                let byte: u8 = bs[k];
                if !bv_push_bits(&mut nb, byte as u64, 8) {
                    return Err(EncodeError::TooLarge);
                }
                proof {
                    lemma_byte_seq_bits_step(tblv[e as int], k as int);
                    assert(bits_of(nb) =~= table_bits(tblv.take(e as int)) + bits_le(
                        slen as u64,
                        16,
                    ) + byte_seq_bits(tblv[e as int].take(k + 1)));
                }
                k = k + 1;
            }
            proof {
                assert(tblv[e as int].take(slen as int) =~= tblv[e as int]);
                lemma_table_bits_step(tblv, e as int);
                assert(bits_of(nb) =~= table_bits(tblv.take(e + 1)));
            }
            e = e + 1;
        }
        proof {
            assert(tblv.take(count as int) =~= tblv);
        }
        let blen: usize = bv_len(&self.bits);
        let mut cur: usize = 0;
        let mut j: usize = 0;
        proof {
            assert(occs.skip(0) =~= occs);
        }
        while j < n_occ
            invariant
                j <= n_occ,
                *self == *old(self),
                old(self).wf(),
                n_occ == self.strs@.len(),
                occs == old(self).stream().occs,
                bits0 == old(self).stream().bits,
                blen == bits0.len(),
                tblv == table_of(occs),
                table_view(tbl@) == tblv,
                w <= 64,
                total == finalize_bits(old(self).stream()),
                cur <= blen,
                j > 0 ==> cur as int == occs[j - 1].pos,
                j == 0 ==> cur == 0,
                bits_of(nb) + splice_bits(bits0, occs.skip(j as int), tblv, w, cur as int)
                    == total,
                bits_of(nb).len() <= CAP_BITS,
            decreases n_occ - j,
        {
            let pos: usize = self.strs[j].pos;
            proof {
                assert(occs[j as int].pos == pos as int);
                assert(occs[j as int].pos <= bits0.len());
                if j > 0 {
                    assert(occs[j - 1].pos <= occs[j as int].pos);
                }
                assert(occs.skip(j as int)[0] == occs[j as int]);
                assert(occs.skip(j as int).drop_first() =~= occs.skip(j as int + 1));
            }
            let ghost rest = splice_bits(bits0, occs.skip(j as int + 1), tblv, w, pos as int);
            let ghost idxbits = bits_le(index_of(tblv, occs[j as int].text) as u64, w);
            proof {
                assert(splice_bits(bits0, occs.skip(j as int), tblv, w, cur as int)
                    == bits0.subrange(cur as int, pos as int) + idxbits + rest);
            }
            if !bv_append_range(&mut nb, &self.bits, cur, pos) {
                return Err(EncodeError::TooLarge);
            }
            proof {
                lemma_table_of_props(occs);
                assert(table_contains(tblv, occs[j as int].text));
                assert(occs[j as int].text == str_bytes(self.strs@[j as int].text));
            }
            let idx: usize = find_index(&tbl, &self.strs[j].text);
            if !bv_push_bits(&mut nb, idx as u64, w) {
                return Err(EncodeError::TooLarge);
            }
            proof {
                assert(bits_of(nb) + rest =~= total);
            }
            cur = pos;
            j = j + 1;
        }
        proof {
            assert(occs.skip(n_occ as int) =~= Seq::<Occ>::empty());
            assert(splice_bits(bits0, occs.skip(n_occ as int), tblv, w, cur as int)
                == bits0.subrange(cur as int, bits0.len() as int));
        }
        if !bv_append_range(&mut nb, &self.bits, cur, blen) {
            return Err(EncodeError::TooLarge);
        }
        proof {
            assert(bits_of(nb) =~= total);
        }
        self.bits = nb;
        self.strs = Vec::new();
        proof {
            assert(self.stream().occs =~= Seq::<Occ>::empty());
            assert(self.stream() =~= (EncOut {
                bits: finalize_bits(old(self).stream()),
                occs: Seq::empty(),
            }));
        }
        Ok(())
    }
}

/// Writes the low two bits of a value: a helper for fields declared to pack
/// into two bits.
pub fn as_2bits(jmb: &mut Jmb, v: u64) -> (r: Result<(), EncodeError>)
    requires
        old(jmb).wf(),
    ensures
        final(jmb).wf(),
        r is Ok <==> old(jmb).stream().bits.len() + 2 <= CAP_BITS,
        r is Ok ==> final(jmb).stream() == cat(old(jmb).stream(), bits_out(v, 2)),
        r is Err ==> final(jmb).stream() == old(jmb).stream() && r == Err::<
            (),
            EncodeError,
        >(EncodeError::TooLarge),
{
    jmb.write_bits(v, 2)
}

/// Whether a string value fits the table's 16-bit length field.
fn str_fits(s: &String) -> (r: bool)
    ensures
        r == (str_bytes(*s).len() <= 0xffff),
{
    s.as_str().as_bytes().len() <= 0xffff
}

/// Whether every string value below one argument value fits the table's
/// 16-bit length field.
pub fn check_value_strings(v: &Value) -> (r: bool)
    ensures
        r == value_strings_ok(*v),
    decreases *v,
{
    match v {
        Value::Array { values } => {
            let n: usize = values.len();
            let mut i: usize = 0;
            while i < n
                invariant
                    i <= n,
                    n == values@.len(),
                    (*v == (Value::Array { values: *values })),
                    value_list_strings_ok(values@.take(i as int)),
                decreases n - i,
            {
                proof {
                    assert(decreases_to!(*v => (*v)->values));
                    assert((*v)->values == *values);
                    vstd::std_specs::vec::axiom_vec_index_decreases(*values, i as int);
                }
                if !check_value_strings(&values[i]) {
                    proof {
                        if value_list_strings_ok(values@) {
                            lemma_value_list_ok_index(values@, i as int);
                        }
                    }
                    return false;
                }
                proof {
                    lemma_value_list_step(values@, i as int);
                }
                i = i + 1;
            }
            proof {
                assert(values@.take(n as int) =~= values@);
            }
            true
        },
        Value::Block { block } => str_fits(block),
        Value::Enum { value } => str_fits(value),
        Value::Item { item } => str_fits(item),
        Value::Location { .. } => true,
        Value::Number { number } => match number {
            Number::Simple(_) => true,
            Number::Calc(s) => str_fits(s),
        },
        Value::Particle => true,
        Value::Potion { potion, .. } => str_fits(potion),
        Value::Sound { sound, variaton, source, .. } => {
            let a: bool = str_fits(sound);
            let b: bool = str_fits(variaton);
            let c: bool = str_fits(source);
            a && b && c
        },
        Value::Text { text, .. } => str_fits(text),
        Value::Variable { variable, .. } => str_fits(variable),
        Value::Vector { .. } => true,
        Value::GameValue { selection, .. } => str_fits(selection),
        Value::Error => true,
    }
}

/// Whether every string value below one operation fits.
pub fn check_op_strings(op: &Op) -> (r: bool)
    ensures
        r == named_list_strings_ok(op.values@),
{
    let n: usize = op.values.len();
    let mut i: usize = 0;
    while i < n
        invariant
            i <= n,
            n == op.values@.len(),
            named_list_strings_ok(op.values@.take(i as int)),
        decreases n - i,
    {
        if !check_value_strings(&op.values[i].value) {
            proof {
                if named_list_strings_ok(op.values@) {
                    lemma_named_list_ok_index(op.values@, i as int);
                }
            }
            return false;
        }
        proof {
            lemma_named_list_step(op.values@, i as int);
        }
        i = i + 1;
    }
    proof {
        assert(op.values@.take(n as int) =~= op.values@);
    }
    true
}

/// Whether every string value below one line fits.
pub fn check_line_strings(l: &Line) -> (r: bool)
    ensures
        r == op_list_strings_ok(l.operations@),
{
    let n: usize = l.operations.len();
    let mut i: usize = 0;
    while i < n
        invariant
            i <= n,
            n == l.operations@.len(),
            op_list_strings_ok(l.operations@.take(i as int)),
        decreases n - i,
    {
        if !check_op_strings(&l.operations[i]) {
            proof {
                if op_list_strings_ok(l.operations@) {
                    lemma_op_list_ok_index(l.operations@, i as int);
                }
            }
            return false;
        }
        proof {
            lemma_op_list_step(l.operations@, i as int);
        }
        i = i + 1;
    }
    proof {
        assert(l.operations@.take(n as int) =~= l.operations@);
    }
    true
}

/// Whether every string value anywhere in a module fits the table's 16-bit
/// length field.
pub fn check_module_strings(m: &Module) -> (r: bool)
    ensures
        r == module_strings_ok(*m),
{
    let n: usize = m.handlers.len();
    let mut i: usize = 0;
    while i < n
        invariant
            i <= n,
            n == m.handlers@.len(),
            line_list_strings_ok(m.handlers@.take(i as int)),
        decreases n - i,
    {
        if !check_line_strings(&m.handlers[i]) {
            proof {
                if line_list_strings_ok(m.handlers@) {
                    lemma_line_list_ok_index(m.handlers@, i as int);
                }
            }
            return false;
        }
        proof {
            lemma_line_list_step(m.handlers@, i as int);
        }
        i = i + 1;
    }
    proof {
        assert(m.handlers@.take(n as int) =~= m.handlers@);
    }
    true
}

/// Encodes one numeric argument: no tag of its own; a literal double is its
/// 64-bit pattern, a calculation expression is a recorded string.
pub fn encode_number(jmb: &mut Jmb, n: &Number) -> (r: Result<(), EncodeError>)
    requires
        old(jmb).wf(),
        number_strings_ok(*n),
    ensures
        final(jmb).wf(),
        r is Ok <==> old(jmb).stream().bits.len() + enc_number(*n).bits.len() <= CAP_BITS,
        r is Ok ==> final(jmb).stream() == cat(old(jmb).stream(), enc_number(*n)),
        r is Err ==> r == Err::<(), EncodeError>(EncodeError::TooLarge),
{
    match n {
        Number::Simple(b) => jmb.write_bits(*b, 64),
        Number::Calc(s) => {
            match jmb.serialize_str(s.as_str()) {
                Ok(_) => {
                    proof {
                        assert(enc_number(*n) == str_out(str_bytes(*s)));
                    }
                    Ok(())
                },
                Err(_) => {
                    proof {
                        assert(false);
                    }
                    Err(EncodeError::TooLarge)
                },
            }
        },
    }
}

/// Encodes an array value: its tag, the element count, then the elements.
fn encode_array(jmb: &mut Jmb, values: &Vec<Value>) -> (r: Result<(), EncodeError>)
    requires
        old(jmb).wf(),
        value_list_strings_ok(values@),
    ensures
        final(jmb).wf(),
        r is Ok <==> old(jmb).stream().bits.len() + cat(
            cat(tag_out(0), len_out(values@.len() as int)),
            enc_value_list(values@),
        ).bits.len() <= CAP_BITS,
        r is Ok ==> final(jmb).stream() == cat(
            old(jmb).stream(),
            cat(cat(tag_out(0), len_out(values@.len() as int)), enc_value_list(values@)),
        ),
        r is Err ==> r == Err::<(), EncodeError>(EncodeError::TooLarge),
    decreases *values,
{
    let ghost st0 = old(jmb).stream();
    match jmb.write_bits(0, TAG_FULL_WIDTH) {
        Ok(_) => {},
        Err(e) => {
            return Err(e);
        },
    }
    match jmb.serialize_seq_len(values.len()) {
        Ok(_) => {},
        Err(e) => {
            return Err(e);
        },
    }
    proof {
        lemma_cat_assoc(st0, tag_out(0), len_out(values@.len() as int));
    }
    let ghost base = jmb.stream();
    let n: usize = values.len();
    let mut i: usize = 0;
    while i < n
        invariant
            i <= n,
            n == values@.len(),
            jmb.wf(),
            st0 == old(jmb).stream(),
            value_list_strings_ok(values@),
            base == cat(st0, cat(tag_out(0), len_out(values@.len() as int))),
            base.bits.len() == st0.bits.len() + TAG_FULL_WIDTH + LEN_PREFIX_WIDTH,
            jmb.stream() == cat(base, enc_value_list(values@.take(i as int))),
        decreases n - i,
    {
        proof {
            lemma_value_list_ok_index(values@, i as int);
            vstd::std_specs::vec::axiom_vec_index_decreases(*values, i as int);
        }
        match encode_value(jmb, &values[i]) {
            Ok(_) => {},
            Err(e) => {
                proof {
                    lemma_value_list_step(values@, i as int);
                    lemma_value_list_len_mono(values@, i + 1);
                }
                return Err(e);
            },
        }
        proof {
            lemma_value_list_step(values@, i as int);
            lemma_cat_assoc(
                base,
                enc_value_list(values@.take(i as int)),
                enc_value(values@[i as int]),
            );
        }
        i = i + 1;
    }
    proof {
        assert(values@.take(n as int) =~= values@);
        lemma_cat_assoc(st0, cat(tag_out(0), len_out(values@.len() as int)), enc_value_list(values@));
    }
    Ok(())
}

/// Writes a run of fixed-width fields after a tag: the shared shape of the
/// location and vector payloads.
fn encode_tagged_words(jmb: &mut Jmb, tag: u64, words: &Vec<u64>) -> (r: Result<(), EncodeError>)
    requires
        old(jmb).wf(),
    ensures
        final(jmb).wf(),
        r is Ok <==> old(jmb).stream().bits.len() + TAG_FULL_WIDTH + 64 * words@.len()
            <= CAP_BITS,
        r is Ok ==> final(jmb).stream() == cat(
            old(jmb).stream(),
            cat(tag_out(tag), words_out(words@)),
        ),
        r is Err ==> r == Err::<(), EncodeError>(EncodeError::TooLarge),
{
    let ghost st0 = old(jmb).stream();
    match jmb.write_bits(tag, TAG_FULL_WIDTH) {
        Ok(_) => {},
        Err(e) => {
            proof {
                lemma_words_out_len(words@);
            }
            return Err(e);
        },
    }
    let ghost base = jmb.stream();
    let n: usize = words.len();
    let mut i: usize = 0;
    proof {
        lemma_words_out_len(words@);
        assert(words@.take(0) =~= Seq::<u64>::empty());
        assert(words_out(words@.take(0)) == empty_out());
        lemma_cat_empty(base);
    }
    while i < n
        invariant
            i <= n,
            n == words@.len(),
            jmb.wf(),
            st0 == old(jmb).stream(),
            base == cat(st0, tag_out(tag)),
            base.bits.len() == st0.bits.len() + TAG_FULL_WIDTH,
            words_out(words@).bits.len() == 64 * words@.len(),
            jmb.stream() == cat(base, words_out(words@.take(i as int))),
        decreases n - i,
    {
        match jmb.write_bits(words[i], 64) {
            Ok(_) => {},
            Err(e) => {
                proof {
                    lemma_words_out_len(words@.take(i as int));
                }
                return Err(e);
            },
        }
        proof {
            assert(words@.take(i + 1).drop_last() =~= words@.take(i as int));
            assert(words@.take(i + 1).last() == words@[i as int]);
            lemma_cat_assoc(base, words_out(words@.take(i as int)), bits_out(words@[i as int], 64));
            assert(words_out(words@.take(i + 1)) == cat(
                words_out(words@.take(i as int)),
                bits_out(words@[i as int], 64),
            ));
        }
        i = i + 1;
    }
    proof {
        assert(words@.take(n as int) =~= words@);
        lemma_cat_assoc(st0, tag_out(tag), words_out(words@));
    }
    Ok(())
}

/// Encodes one argument value: its variant tag, then its payload fields in
/// declaration order.
#[verifier::rlimit(100)]
pub fn encode_value(jmb: &mut Jmb, v: &Value) -> (r: Result<(), EncodeError>)
    requires
        old(jmb).wf(),
        value_strings_ok(*v),
    ensures
        final(jmb).wf(),
        r is Ok <==> old(jmb).stream().bits.len() + enc_value(*v).bits.len() <= CAP_BITS,
        r is Ok ==> final(jmb).stream() == cat(old(jmb).stream(), enc_value(*v)),
        r is Err ==> r == Err::<(), EncodeError>(EncodeError::TooLarge),
    decreases *v,
{
    let ghost st0 = old(jmb).stream();
    match v {
        Value::Array { values } => {
            proof {
                assert(decreases_to!(*v => (*v)->values));
                assert((*v)->values == *values);
                assert(enc_value(*v) == cat(
                    cat(tag_out(0), len_out(values@.len() as int)),
                    enc_value_list(values@),
                ));
            }
            encode_array(jmb, values)
        },
        Value::Block { block } => {
            proof {
                assert(enc_value(*v) == cat(tag_out(1), str_out(str_bytes(*block))));
                assert(enc_value(*v).bits.len() == TAG_FULL_WIDTH);
            }
            encode_tagged_str(jmb, 1, block)
        },
        Value::Enum { value } => {
            proof {
                assert(enc_value(*v) == cat(tag_out(2), str_out(str_bytes(*value))));
                assert(enc_value(*v).bits.len() == TAG_FULL_WIDTH);
            }
            encode_tagged_str(jmb, 2, value)
        },
        Value::Item { item } => {
            proof {
                assert(enc_value(*v) == cat(tag_out(3), str_out(str_bytes(*item))));
                assert(enc_value(*v).bits.len() == TAG_FULL_WIDTH);
            }
            encode_tagged_str(jmb, 3, item)
        },
        Value::Location { x, y, z, yaw, pitch } => {
            let mut words: Vec<u64> = Vec::new();
            words.push(*x);
            words.push(*y);
            words.push(*z);
            words.push(*yaw);
            words.push(*pitch);
            proof {
                assert(words@ =~= seq![*x, *y, *z, *yaw, *pitch]);
                assert(enc_value(*v) == cat(tag_out(4), words_out(words@)));
                lemma_words_out_len(words@);
                assert(enc_value(*v).bits.len() == TAG_FULL_WIDTH + 64 * words@.len());
            }
            encode_tagged_words(jmb, 4, &words)
        },
        Value::Number { number } => {
            proof {
                assert(enc_value(*v) == cat(tag_out(5), enc_number(*number)));
            }
            match jmb.write_bits(5, TAG_FULL_WIDTH) {
                Ok(_) => {},
                Err(e) => {
                    return Err(e);
                },
            }
            match encode_number(jmb, number) {
                Ok(_) => {},
                Err(e) => {
                    return Err(e);
                },
            }
            proof {
                lemma_cat_assoc(st0, tag_out(5), enc_number(*number));
            }
            Ok(())
        },
        Value::Particle => {
            proof {
                assert(enc_value(*v) == tag_out(6));
            }
            jmb.write_bits(6, TAG_FULL_WIDTH)
        },
        Value::Potion { potion, amplifier, duration } => {
            proof {
                assert(enc_value(*v) == cat(
                    cat(
                        cat(tag_out(7), str_out(str_bytes(*potion))),
                        bits_out(*amplifier as u16 as u64, 16),
                    ),
                    bits_out(*duration as u16 as u64, 16),
                ));
                assert(enc_value(*v).bits.len() == TAG_FULL_WIDTH + 32);
            }
            encode_potion(jmb, potion, *amplifier, *duration)
        },
        Value::Sound { sound, pitch, volume, variaton, source } => {
            proof {
                assert(enc_value(*v) == cat(
                    cat(
                        cat(cat(tag_out(8), str_out(str_bytes(*sound))), bits_out(*pitch as u64, 32)),
                        bits_out(*volume as u64, 32),
                    ),
                    cat(str_out(str_bytes(*variaton)), str_out(str_bytes(*source))),
                ));
                assert(enc_value(*v).bits.len() == TAG_FULL_WIDTH + 64);
            }
            encode_sound(jmb, sound, *pitch, *volume, variaton, source)
        },
        Value::Text { text, parsing } => {
            let ord: u64 = match *parsing {
                TextParsing::Legacy => 0,
                TextParsing::Plain => 1,
            };
            proof {
                assert(ord == text_parsing_ord(*parsing));
                assert(enc_value(*v) == cat(
                    cat(tag_out(9), str_out(str_bytes(*text))),
                    tag_out(text_parsing_ord(*parsing)),
                ));
                assert(enc_value(*v).bits.len() == 2 * TAG_FULL_WIDTH);
            }
            encode_str_then_tag(jmb, 9, text, ord)
        },
        Value::Variable { variable, scope } => {
            let ord: u64 = match *scope {
                VariableScope::Local => 0,
                VariableScope::Global => 1,
                VariableScope::Save => 2,
            };
            proof {
                assert(ord == variable_scope_ord(*scope));
                assert(enc_value(*v) == cat(
                    cat(tag_out(10), str_out(str_bytes(*variable))),
                    tag_out(variable_scope_ord(*scope)),
                ));
                assert(enc_value(*v).bits.len() == 2 * TAG_FULL_WIDTH);
            }
            encode_str_then_tag(jmb, 10, variable, ord)
        },
        Value::Vector { x, y, z } => {
            let mut words: Vec<u64> = Vec::new();
            words.push(*x);
            words.push(*y);
            words.push(*z);
            proof {
                assert(words@ =~= seq![*x, *y, *z]);
                assert(enc_value(*v) == cat(tag_out(11), words_out(words@)));
                lemma_words_out_len(words@);
                assert(enc_value(*v).bits.len() == TAG_FULL_WIDTH + 64 * words@.len());
            }
            encode_tagged_words(jmb, 11, &words)
        },
        Value::GameValue { game_value, selection } => {
            proof {
                assert(enc_value(*v) == cat(
                    cat(tag_out(12), tag_out(game_value.ordinal as u64)),
                    str_out(str_bytes(*selection)),
                ));
                assert(enc_value(*v).bits.len() == 2 * TAG_FULL_WIDTH);
            }
            encode_game_value(jmb, game_value.ordinal, selection)
        },
        Value::Error => {
            proof {
                assert(enc_value(*v) == tag_out(13));
            }
            jmb.write_bits(13, TAG_FULL_WIDTH)
        },
    }
}

/// Encodes a tag followed by one recorded string.
fn encode_tagged_str(jmb: &mut Jmb, tag: u64, text: &String) -> (r: Result<(), EncodeError>)
    requires
        old(jmb).wf(),
        str_bytes(*text).len() <= 0xffff,
    ensures
        final(jmb).wf(),
        r is Ok <==> old(jmb).stream().bits.len() + TAG_FULL_WIDTH <= CAP_BITS,
        r is Ok ==> final(jmb).stream() == cat(
            old(jmb).stream(),
            cat(tag_out(tag), str_out(str_bytes(*text))),
        ),
        r is Err ==> r == Err::<(), EncodeError>(EncodeError::TooLarge),
{
    let ghost st0 = old(jmb).stream();
    match jmb.write_bits(tag, TAG_FULL_WIDTH) {
        Ok(_) => {},
        Err(e) => {
            return Err(e);
        },
    }
    match jmb.serialize_str(text.as_str()) {
        Ok(_) => {},
        Err(_) => {
            proof {
                assert(false);
            }
            return Err(EncodeError::TooLarge);
        },
    }
    proof {
        lemma_cat_assoc(st0, tag_out(tag), str_out(str_bytes(*text)));
    }
    Ok(())
}

/// Encodes a tag, one recorded string, then a second full-width tag.
fn encode_str_then_tag(jmb: &mut Jmb, tag: u64, text: &String, ord: u64) -> (r: Result<
    (),
    EncodeError,
>)
    requires
        old(jmb).wf(),
        str_bytes(*text).len() <= 0xffff,
    ensures
        final(jmb).wf(),
        r is Ok <==> old(jmb).stream().bits.len() + 2 * TAG_FULL_WIDTH <= CAP_BITS,
        r is Ok ==> final(jmb).stream() == cat(
            old(jmb).stream(),
            cat(cat(tag_out(tag), str_out(str_bytes(*text))), tag_out(ord)),
        ),
        r is Err ==> r == Err::<(), EncodeError>(EncodeError::TooLarge),
{
    let ghost st0 = old(jmb).stream();
    match jmb.write_bits(tag, TAG_FULL_WIDTH) {
        Ok(_) => {},
        Err(e) => {
            return Err(e);
        },
    }
    match jmb.serialize_str(text.as_str()) {
        Ok(_) => {},
        Err(_) => {
            proof {
                assert(false);
            }
            return Err(EncodeError::TooLarge);
        },
    }
    proof {
        lemma_cat_assoc(st0, tag_out(tag), str_out(str_bytes(*text)));
    }
    match jmb.write_bits(ord, TAG_FULL_WIDTH) {
        Ok(_) => {},
        Err(e) => {
            return Err(e);
        },
    }
    proof {
        lemma_cat_assoc(st0, cat(tag_out(tag), str_out(str_bytes(*text))), tag_out(ord));
    }
    Ok(())
}

/// Encodes a potion payload: the tag, the recorded name, and the two signed
/// 16-bit fields as their two's-complement bit patterns.
fn encode_potion(jmb: &mut Jmb, potion: &String, amplifier: i16, duration: i16) -> (r: Result<
    (),
    EncodeError,
>)
    requires
        old(jmb).wf(),
        str_bytes(*potion).len() <= 0xffff,
    ensures
        final(jmb).wf(),
        r is Ok <==> old(jmb).stream().bits.len() + TAG_FULL_WIDTH + 32 <= CAP_BITS,
        r is Ok ==> final(jmb).stream() == cat(
            old(jmb).stream(),
            cat(
                cat(
                    cat(tag_out(7), str_out(str_bytes(*potion))),
                    bits_out(amplifier as u16 as u64, 16),
                ),
                bits_out(duration as u16 as u64, 16),
            ),
        ),
        r is Err ==> r == Err::<(), EncodeError>(EncodeError::TooLarge),
{
    let ghost st0 = old(jmb).stream();
    match jmb.write_bits(7, TAG_FULL_WIDTH) {
        Ok(_) => {},
        Err(e) => {
            return Err(e);
        },
    }
    match jmb.serialize_str(potion.as_str()) {
        Ok(_) => {},
        Err(_) => {
            proof {
                assert(false);
            }
            return Err(EncodeError::TooLarge);
        },
    }
    proof {
        lemma_cat_assoc(st0, tag_out(7), str_out(str_bytes(*potion)));
    }
    match jmb.write_bits(amplifier as u16 as u64, 16) {
        Ok(_) => {},
        Err(e) => {
            return Err(e);
        },
    }
    proof {
        lemma_cat_assoc(
            st0,
            cat(tag_out(7), str_out(str_bytes(*potion))),
            bits_out(amplifier as u16 as u64, 16),
        );
    }
    match jmb.write_bits(duration as u16 as u64, 16) {
        Ok(_) => {},
        Err(e) => {
            return Err(e);
        },
    }
    proof {
        lemma_cat_assoc(
            st0,
            cat(
                cat(tag_out(7), str_out(str_bytes(*potion))),
                bits_out(amplifier as u16 as u64, 16),
            ),
            bits_out(duration as u16 as u64, 16),
        );
    }
    Ok(())
}

/// Encodes a sound payload: the tag, the recorded name, two 32-bit float
/// patterns, then the two recorded trailing strings.
fn encode_sound(
    jmb: &mut Jmb,
    sound: &String,
    pitch: u32,
    volume: u32,
    variaton: &String,
    source: &String,
) -> (r: Result<(), EncodeError>)
    requires
        old(jmb).wf(),
        str_bytes(*sound).len() <= 0xffff,
        str_bytes(*variaton).len() <= 0xffff,
        str_bytes(*source).len() <= 0xffff,
    ensures
        final(jmb).wf(),
        r is Ok <==> old(jmb).stream().bits.len() + TAG_FULL_WIDTH + 64 <= CAP_BITS,
        r is Ok ==> final(jmb).stream() == cat(
            old(jmb).stream(),
            cat(
                cat(
                    cat(cat(tag_out(8), str_out(str_bytes(*sound))), bits_out(pitch as u64, 32)),
                    bits_out(volume as u64, 32),
                ),
                cat(str_out(str_bytes(*variaton)), str_out(str_bytes(*source))),
            ),
        ),
        r is Err ==> r == Err::<(), EncodeError>(EncodeError::TooLarge),
{
    let ghost st0 = old(jmb).stream();
    match jmb.write_bits(8, TAG_FULL_WIDTH) {
        Ok(_) => {},
        Err(e) => {
            return Err(e);
        },
    }
    match jmb.serialize_str(sound.as_str()) {
        Ok(_) => {},
        Err(_) => {
            proof {
                assert(false);
            }
            return Err(EncodeError::TooLarge);
        },
    }
    proof {
        lemma_cat_assoc(st0, tag_out(8), str_out(str_bytes(*sound)));
    }
    match jmb.write_bits(pitch as u64, 32) {
        Ok(_) => {},
        Err(e) => {
            return Err(e);
        },
    }
    proof {
        lemma_cat_assoc(
            st0,
            cat(tag_out(8), str_out(str_bytes(*sound))),
            bits_out(pitch as u64, 32),
        );
    }
    match jmb.write_bits(volume as u64, 32) {
        Ok(_) => {},
        Err(e) => {
            return Err(e);
        },
    }
    proof {
        lemma_cat_assoc(
            st0,
            cat(cat(tag_out(8), str_out(str_bytes(*sound))), bits_out(pitch as u64, 32)),
            bits_out(volume as u64, 32),
        );
    }
    let ghost mid = cat(
        cat(cat(tag_out(8), str_out(str_bytes(*sound))), bits_out(pitch as u64, 32)),
        bits_out(volume as u64, 32),
    );
    match jmb.serialize_str(variaton.as_str()) {
        Ok(_) => {},
        Err(_) => {
            proof {
                assert(false);
            }
            return Err(EncodeError::TooLarge);
        },
    }
    proof {
        lemma_cat_assoc(st0, mid, str_out(str_bytes(*variaton)));
    }
    match jmb.serialize_str(source.as_str()) {
        Ok(_) => {},
        Err(_) => {
            proof {
                assert(false);
            }
            return Err(EncodeError::TooLarge);
        },
    }
    proof {
        lemma_cat_assoc(st0, cat(mid, str_out(str_bytes(*variaton))), str_out(str_bytes(*source)));
        lemma_cat_assoc(mid, str_out(str_bytes(*variaton)), str_out(str_bytes(*source)));
    }
    Ok(())
}

/// Encodes a game-value payload: the tag, the game-value catalog tag in the
/// default width, then the recorded selection string.
fn encode_game_value(jmb: &mut Jmb, ordinal: u16, selection: &String) -> (r: Result<
    (),
    EncodeError,
>)
    requires
        old(jmb).wf(),
        str_bytes(*selection).len() <= 0xffff,
    ensures
        final(jmb).wf(),
        r is Ok <==> old(jmb).stream().bits.len() + 2 * TAG_FULL_WIDTH <= CAP_BITS,
        r is Ok ==> final(jmb).stream() == cat(
            old(jmb).stream(),
            cat(cat(tag_out(12), tag_out(ordinal as u64)), str_out(str_bytes(*selection))),
        ),
        r is Err ==> r == Err::<(), EncodeError>(EncodeError::TooLarge),
{
    let ghost st0 = old(jmb).stream();
    match jmb.write_bits(12, TAG_FULL_WIDTH) {
        Ok(_) => {},
        Err(e) => {
            return Err(e);
        },
    }
    match jmb.write_bits(ordinal as u64, TAG_FULL_WIDTH) {
        Ok(_) => {},
        Err(e) => {
            return Err(e);
        },
    }
    proof {
        lemma_cat_assoc(st0, tag_out(12), tag_out(ordinal as u64));
    }
    match jmb.serialize_str(selection.as_str()) {
        Ok(_) => {},
        Err(_) => {
            proof {
                assert(false);
            }
            return Err(EncodeError::TooLarge);
        },
    }
    proof {
        lemma_cat_assoc(
            st0,
            cat(tag_out(12), tag_out(ordinal as u64)),
            str_out(str_bytes(*selection)),
        );
    }
    Ok(())
}

/// Encodes one named argument: only the value; the name is never written.
pub fn encode_named(jmb: &mut Jmb, nv: &NamedValue) -> (r: Result<(), EncodeError>)
    requires
        old(jmb).wf(),
        value_strings_ok(nv.value),
    ensures
        final(jmb).wf(),
        r is Ok <==> old(jmb).stream().bits.len() + enc_named(*nv).bits.len() <= CAP_BITS,
        r is Ok ==> final(jmb).stream() == cat(old(jmb).stream(), enc_named(*nv)),
        r is Err ==> r == Err::<(), EncodeError>(EncodeError::TooLarge),
{
    encode_value(jmb, &nv.value)
}

/// Encodes one operation: the action tag in its declared 11-bit width, then
/// the argument run behind a length prefix.
pub fn encode_op(jmb: &mut Jmb, op: &Op) -> (r: Result<(), EncodeError>)
    requires
        old(jmb).wf(),
        named_list_strings_ok(op.values@),
    ensures
        final(jmb).wf(),
        r is Ok <==> old(jmb).stream().bits.len() + enc_op(*op).bits.len() <= CAP_BITS,
        r is Ok ==> final(jmb).stream() == cat(old(jmb).stream(), enc_op(*op)),
        r is Err ==> r == Err::<(), EncodeError>(EncodeError::TooLarge),
{
    let ghost st0 = old(jmb).stream();
    match jmb.write_bits(op.action.ordinal as u64, ACTION_TAG_WIDTH) {
        Ok(_) => {},
        Err(e) => {
            return Err(e);
        },
    }
    match jmb.serialize_seq_len(op.values.len()) {
        Ok(_) => {},
        Err(e) => {
            return Err(e);
        },
    }
    proof {
        lemma_cat_assoc(
            st0,
            bits_out(op.action.ordinal as u64, ACTION_TAG_WIDTH),
            len_out(op.values@.len() as int),
        );
    }
    let ghost base = jmb.stream();
    let ghost hdr = cat(
        bits_out(op.action.ordinal as u64, ACTION_TAG_WIDTH),
        len_out(op.values@.len() as int),
    );
    let n: usize = op.values.len();
    let mut i: usize = 0;
    while i < n
        invariant
            i <= n,
            n == op.values@.len(),
            jmb.wf(),
            named_list_strings_ok(op.values@),
            st0 == old(jmb).stream(),
            hdr == cat(
                bits_out(op.action.ordinal as u64, ACTION_TAG_WIDTH),
                len_out(op.values@.len() as int),
            ),
            base == cat(st0, hdr),
            base.bits.len() == st0.bits.len() + ACTION_TAG_WIDTH + LEN_PREFIX_WIDTH,
            jmb.stream() == cat(base, enc_named_list(op.values@.take(i as int))),
        decreases n - i,
    {
        proof {
            lemma_named_list_ok_index(op.values@, i as int);
        }
        match encode_named(jmb, &op.values[i]) {
            Ok(_) => {},
            Err(e) => {
                proof {
                    lemma_named_list_step(op.values@, i as int);
                    lemma_named_list_len_mono(op.values@, i + 1);
                }
                return Err(e);
            },
        }
        proof {
            lemma_named_list_step(op.values@, i as int);
            lemma_cat_assoc(
                base,
                enc_named_list(op.values@.take(i as int)),
                enc_named(op.values@[i as int]),
            );
        }
        i = i + 1;
    }
    proof {
        assert(op.values@.take(n as int) =~= op.values@);
        lemma_cat_assoc(st0, hdr, enc_named_list(op.values@));
    }
    Ok(())
}

/// Encodes one line: its kind tag, its position byte, then the operation run
/// behind a length prefix.
pub fn encode_line(jmb: &mut Jmb, l: &Line) -> (r: Result<(), EncodeError>)
    requires
        old(jmb).wf(),
        op_list_strings_ok(l.operations@),
    ensures
        final(jmb).wf(),
        r is Ok <==> old(jmb).stream().bits.len() + enc_line(*l).bits.len() <= CAP_BITS,
        r is Ok ==> final(jmb).stream() == cat(old(jmb).stream(), enc_line(*l)),
        r is Err ==> r == Err::<(), EncodeError>(EncodeError::TooLarge),
{
    let ghost st0 = old(jmb).stream();
    let ord: u64 = match l.line_type {
        LineType::Process => 0,
        LineType::Function => 1,
        LineType::Event => 2,
    };
    proof {
        assert(ord == line_type_ord(l.line_type));
    }
    match jmb.write_bits(ord, TAG_FULL_WIDTH) {
        Ok(_) => {},
        Err(e) => {
            return Err(e);
        },
    }
    match jmb.write_bits(l.position as u64, 8) {
        Ok(_) => {},
        Err(e) => {
            return Err(e);
        },
    }
    proof {
        lemma_cat_assoc(st0, tag_out(line_type_ord(l.line_type)), bits_out(l.position as u64, 8));
    }
    match jmb.serialize_seq_len(l.operations.len()) {
        Ok(_) => {},
        Err(e) => {
            return Err(e);
        },
    }
    proof {
        lemma_cat_assoc(
            st0,
            cat(tag_out(line_type_ord(l.line_type)), bits_out(l.position as u64, 8)),
            len_out(l.operations@.len() as int),
        );
    }
    let ghost hdr = cat(
        cat(tag_out(line_type_ord(l.line_type)), bits_out(l.position as u64, 8)),
        len_out(l.operations@.len() as int),
    );
    let ghost base = jmb.stream();
    let n: usize = l.operations.len();
    let mut i: usize = 0;
    while i < n
        invariant
            i <= n,
            n == l.operations@.len(),
            jmb.wf(),
            op_list_strings_ok(l.operations@),
            st0 == old(jmb).stream(),
            hdr == cat(
                cat(tag_out(line_type_ord(l.line_type)), bits_out(l.position as u64, 8)),
                len_out(l.operations@.len() as int),
            ),
            base == cat(st0, hdr),
            base.bits.len() == st0.bits.len() + TAG_FULL_WIDTH + 8 + LEN_PREFIX_WIDTH,
            jmb.stream() == cat(base, enc_op_list(l.operations@.take(i as int))),
        decreases n - i,
    {
        proof {
            lemma_op_list_ok_index(l.operations@, i as int);
        }
        match encode_op(jmb, &l.operations[i]) {
            Ok(_) => {},
            Err(e) => {
                proof {
                    lemma_op_list_step(l.operations@, i as int);
                    lemma_op_list_len_mono(l.operations@, i + 1);
                }
                return Err(e);
            },
        }
        proof {
            lemma_op_list_step(l.operations@, i as int);
            lemma_cat_assoc(
                base,
                enc_op_list(l.operations@.take(i as int)),
                enc_op(l.operations@[i as int]),
            );
        }
        i = i + 1;
    }
    proof {
        assert(l.operations@.take(n as int) =~= l.operations@);
        lemma_cat_assoc(st0, hdr, enc_op_list(l.operations@));
    }
    Ok(())
}

/// Encodes a whole module's raw traversal stream: the handler run behind a
/// length prefix.
pub fn encode_module(jmb: &mut Jmb, m: &Module) -> (r: Result<(), EncodeError>)
    requires
        old(jmb).wf(),
        module_strings_ok(*m),
    ensures
        final(jmb).wf(),
        r is Ok <==> old(jmb).stream().bits.len() + enc_module(*m).bits.len() <= CAP_BITS,
        r is Ok ==> final(jmb).stream() == cat(old(jmb).stream(), enc_module(*m)),
        r is Err ==> r == Err::<(), EncodeError>(EncodeError::TooLarge),
{
    let ghost st0 = old(jmb).stream();
    match jmb.serialize_seq_len(m.handlers.len()) {
        Ok(_) => {},
        Err(e) => {
            return Err(e);
        },
    }
    let ghost base = jmb.stream();
    let n: usize = m.handlers.len();
    let mut i: usize = 0;
    while i < n
        invariant
            i <= n,
            n == m.handlers@.len(),
            jmb.wf(),
            line_list_strings_ok(m.handlers@),
            st0 == old(jmb).stream(),
            base == cat(st0, len_out(m.handlers@.len() as int)),
            base.bits.len() == st0.bits.len() + LEN_PREFIX_WIDTH,
            jmb.stream() == cat(base, enc_line_list(m.handlers@.take(i as int))),
        decreases n - i,
    {
        proof {
            lemma_line_list_ok_index(m.handlers@, i as int);
        }
        match encode_line(jmb, &m.handlers[i]) {
            Ok(_) => {},
            Err(e) => {
                proof {
                    lemma_line_list_step(m.handlers@, i as int);
                    lemma_line_list_len_mono(m.handlers@, i + 1);
                }
                return Err(e);
            },
        }
        proof {
            lemma_line_list_step(m.handlers@, i as int);
            lemma_cat_assoc(
                base,
                enc_line_list(m.handlers@.take(i as int)),
                enc_line(m.handlers@[i as int]),
            );
        }
        i = i + 1;
    }
    proof {
        assert(m.handlers@.take(n as int) =~= m.handlers@);
        lemma_cat_assoc(st0, len_out(m.handlers@.len() as int), enc_line_list(m.handlers@));
    }
    Ok(())
}


/// Encodes a whole module into its final byte form: the string table (when
/// any string was recorded), then the traversal bits with every string
/// occurrence replaced by its table index, packed into bytes with the final
/// partial byte zero-filled.
pub fn compile(module: Module) -> (r: Result<Vec<u8>, EncodeError>)
    ensures
        r is Ok <==> module_strings_ok(module) && module_fits(module),
        (r matches Ok(out) ==> out@ == module_bytes(module)),
        r == Err::<Vec<u8>, EncodeError>(EncodeError::StringTooLong) <==> !module_strings_ok(
            module,
        ),
        r == Err::<Vec<u8>, EncodeError>(EncodeError::TooLarge) <==> module_strings_ok(module)
            && !module_fits(module),
{
    if !check_module_strings(&module) {
        return Err(EncodeError::StringTooLong);
    }
    let mut jmb = Jmb::new();
    proof {
        lemma_cat_empty(enc_module(module));
        lemma_enc_module_wf(module);
    }
    match encode_module(&mut jmb, &module) {
        Ok(_) => {},
        Err(_) => {
            proof {
                lemma_finalize_ge_raw(enc_module(module));
            }
            return Err(EncodeError::TooLarge);
        },
    }
    match jmb.finalize() {
        Ok(_) => {},
        Err(_) => {
            return Err(EncodeError::TooLarge);
        },
    }
    let out: Vec<u8> = bv_to_bytes(&jmb.bits);
    proof {
        assert(bits_of(jmb.bits) == module_bits(module));
        assert(out@ == module_bytes(module));
    }
    Ok(out)
}

} // verus!
