//! The variant width resolver.
//!
//! An enumerated tag is written in its default full width unless the
//! enumerated type's declared name matches the pattern `*Wants{N}Bits` — a
//! convention set by the catalog code generation step.  A matching name asks
//! for the tag's ordinal to be written as its low `N` bits.  The digits are
//! read with saturation: any `N` above 64 is reported as 65, since no tag can
//! be wider than 64 bits and the writer refuses any hint above the tag's own
//! width anyway.

use vstd::prelude::*;

use vstd::slice::slice_to_vec;
use vstd::string::StringSliceAdditionalSpecFns;

verus! {

/// Whether a byte is an ASCII decimal digit.
pub open spec fn is_digit(b: u8) -> bool {
    0x30 <= b <= 0x39
}

/// Whether the five bytes at `i` spell `Wants`.
pub open spec fn wants_at(s: Seq<u8>, i: int) -> bool {
    s[i] == 87 && s[i + 1] == 97 && s[i + 2] == 110 && s[i + 3] == 116 && s[i + 4] == 115
}

/// The value of a run of ASCII digits, most significant first, saturated at
/// 65: one past the widest usable tag width.
pub open spec fn digits_val(s: Seq<u8>) -> u64
    decreases s.len(),
{
    if s.len() == 0 {
        0u64
    } else {
        let p = digits_val(s.drop_last());
        let d = s.last() as int - 0x30;
        if p as int * 10 + d > 65 {
            65u64
        } else {
            (p as int * 10 + d) as u64
        }
    }
}

/// Whether the name matches `*Wants{N}Bits` with the `Wants` at `i`: the
/// bytes from `i + 5` up to the final `Bits` are a nonempty run of digits.
pub open spec fn hint_match_at(s: Seq<u8>, i: int) -> bool {
    &&& 0 <= i
    &&& i + 10 <= s.len()
    &&& wants_at(s, i)
    &&& (forall|k: int| i + 5 <= k < s.len() - 4 ==> is_digit(#[trigger] s[k]))
    &&& s[s.len() - 4] == 66
    &&& s[s.len() - 3] == 105
    &&& s[s.len() - 2] == 116
    &&& s[s.len() - 1] == 115
}

/// The declared width, scanning for a matching `Wants` from position `i` on.
pub open spec fn hint_from(s: Seq<u8>, i: int) -> Option<u64>
    decreases s.len() - i,
{
    if i < 0 || i + 10 > s.len() {
        None
    } else if hint_match_at(s, i) {
        Some(digits_val(s.subrange(i + 5, s.len() - 4)))
    } else {
        hint_from(s, i + 1)
    }
}

/// The width hint a declared type name carries, if any.
pub open spec fn width_hint_spec(s: Seq<u8>) -> Option<u64> {
    hint_from(s, 0)
}

/// The width in which a tag with this hint is emitted, when the hint does
/// not exceed the default full width.
pub open spec fn resolved_width(hint: Option<u64>, full: u64) -> u64 {
    match hint {
        Option::None => full,
        Option::Some(n) => n,
    }
}

pub proof fn lemma_hint_from_skip(s: Seq<u8>, i: int)
    requires
        0 <= i,
        i + 10 <= s.len(),
        !hint_match_at(s, i),
    ensures
        hint_from(s, i) == hint_from(s, i + 1),
{
}

/// Whether the name matches the pattern with its `Wants` at byte `i`.
fn match_at(b: &Vec<u8>, i: usize) -> (r: bool)
    requires
        i + 10 <= b@.len(),
    ensures
        r == hint_match_at(b@, i as int),
{
    let n: usize = b.len();
    if !(b[i] == 87 && b[i + 1] == 97 && b[i + 2] == 110 && b[i + 3] == 116 && b[i + 4] == 115) {
        return false;
    }
    if !(b[n - 4] == 66 && b[n - 3] == 105 && b[n - 2] == 116 && b[n - 1] == 115) {
        return false;
    }
    let mut k: usize = i + 5;
    while k < n - 4
        invariant
            i + 5 <= k <= n - 4,
            n == b@.len(),
            i + 10 <= n,
            forall|t: int| i + 5 <= t < k ==> is_digit(#[trigger] b@[t]),
        decreases n - 4 - k,
    {
        let c: u8 = b[k];
        if !(48 <= c && c <= 57) {
            return false;
        }
        k = k + 1;
    }
    true
}

/// The saturated value of the digit run `b[from..to]`.
fn digits_value(b: &Vec<u8>, from: usize, to: usize) -> (r: u64)
    requires
        from <= to <= b@.len(),
        forall|t: int| from <= t < to ==> is_digit(#[trigger] b@[t]),
    ensures
        r == digits_val(b@.subrange(from as int, to as int)),
{
    let mut val: u64 = 0;
    let mut k: usize = from;
    proof {
        assert(b@.subrange(from as int, from as int) =~= Seq::<u8>::empty());
    }
    while k < to
        invariant
            from <= k <= to <= b@.len(),
            forall|t: int| from <= t < to ==> is_digit(#[trigger] b@[t]),
            val == digits_val(b@.subrange(from as int, k as int)),
            val <= 65,
        decreases to - k,
    {
        let c: u8 = b[k];
        let d: u64 = (c - 48) as u64;
        proof {
            assert(b@.subrange(from as int, k + 1).drop_last() =~= b@.subrange(
                from as int,
                k as int,
            ));
            assert(b@.subrange(from as int, k + 1).last() == b@[k as int]);
        }
        if val * 10 + d > 65 {
            val = 65;
        } else {
            val = val * 10 + d;
        }
        k = k + 1;
    }
    val
}

/// The width hint carried by a declared type name: `Some(n)` exactly when
/// the name matches `*Wants{n}Bits`, with `n` saturated at 65.
pub fn width_hint(name: &str) -> (r: Option<u64>)
    ensures
        r == width_hint_spec(name.spec_bytes()),
{
    let b: Vec<u8> = slice_to_vec(name.as_bytes());
    let n: usize = b.len();
    if n < 10 {
        return None;
    }
    let mut i: usize = 0;
    while i <= n - 10
        invariant
            n == b@.len(),
            10 <= n,
            i <= n,
            b@ == name.spec_bytes(),
            hint_from(b@, 0) == hint_from(b@, i as int),
        decreases n - i,
    {
        if match_at(&b, i) {
            proof {
                assert(hint_from(b@, i as int) == Some(
                    digits_val(b@.subrange(i as int + 5, b@.len() - 4)),
                ));
            }
            let v: u64 = digits_value(&b, i + 5, n - 4);
            return Some(v);
        }
        proof {
            lemma_hint_from_skip(b@, i as int);
        }
        i = i + 1;
    }
    None
}

} // verus!
