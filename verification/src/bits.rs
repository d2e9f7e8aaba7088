//! The bit stream: an append-only growable sequence of single bits.
//!
//! The buffer itself is `bitvec`'s `BitVec<u8, Lsb0>`; this module declares it
//! to the verifier, names its contents as a `Seq<bool>`, and builds the small
//! set of verified writing primitives that the encoder uses: append the low
//! `w` bits of an unsigned value (least-significant bit first), append a
//! range copied from another buffer, and read the whole stream out as bytes.

use vstd::prelude::*;

use bitvec::order::Lsb0;
use bitvec::vec::BitVec;

verus! {

/// The growable bit buffer.  It holds `bitvec`'s `BitVec<u8, Lsb0>`, whose
/// declaration the verifier does not take, so the whole struct is opaque and
/// every operation on it is a trusted wrapper around one `BitVec` call.
#[verifier::external_body]
pub struct BitBuf {
    bits: BitVec<u8, Lsb0>,
}

/// The bits a buffer holds, in index order.
pub uninterp spec fn bits_of(v: BitBuf) -> Seq<bool>;

/// Hard ceiling on the stream length, in bits.  It stays well under the
/// largest length a `BitVec<u8, _>` can represent on any platform, so that
/// appends below the ceiling cannot abort inside the buffer.
pub const CAP_BITS: u64 = 0x1000_0000;

/// Relies on `BitVec::new`: a freshly constructed bit-vector is empty.
#[verifier::external_body]
fn bv_new_raw() -> (r: BitBuf)
    ensures
        bits_of(r) == Seq::<bool>::empty(),
{
    BitBuf { bits: BitVec::new() }
}

/// Relies on `BitVec::push`: appends one bit at the back; it aborts only when
/// the length would pass `BitSlice::MAX_BITS` (`usize::MAX >> 3`, which is
/// `0x1fff_ffff` even on a 32-bit platform).
#[verifier::external_body]
fn bv_push_raw(v: &mut BitBuf, b: bool)
    requires
        bits_of(*old(v)).len() < 0x1fff_ffff,
    ensures
        bits_of(*final(v)) == bits_of(*old(v)).push(b),
{
    v.bits.push(b)
}

/// Relies on `BitVec::len`: reports the number of bits held.
#[verifier::external_body]
fn bv_len_raw(v: &BitBuf) -> (r: usize)
    ensures
        r == bits_of(*v).len(),
{
    v.bits.len()
}

/// Relies on `BitSlice`'s `Index<usize>` impl: reads one bit by its index;
/// it panics when the index is out of range, which the `requires` rules out.
#[verifier::external_body]
fn bv_get_raw(v: &BitBuf, i: usize) -> (r: bool)
    requires
        i < bits_of(*v).len(),
    ensures
        r == bits_of(*v)[i as int],
{
    v.bits[i]
}

/// Bit `i` of `v`, counting from the least significant end.
pub open spec fn bit_at(v: u64, i: u64) -> bool {
    (v >> i) & 1u64 == 1u64
}

/// The low `w` bits of `v`, least-significant bit first.
pub open spec fn bits_le(v: u64, w: u64) -> Seq<bool> {
    Seq::new(w as nat, |i: int| bit_at(v, i as u64))
}

/// Bit `i` of the stream as a numeric 0 or 1; positions past the end count 0.
pub open spec fn bit_val(b: Seq<bool>, i: int) -> u8 {
    if 0 <= i < b.len() && b[i] {
        1u8
    } else {
        0u8
    }
}

/// Byte `j` of the packed stream: eight consecutive bits, least-significant
/// bit first, with missing trailing bits read as zero.
pub open spec fn byte_of(b: Seq<bool>, j: int) -> u8 {
    (bit_val(b, 8 * j) + 2 * bit_val(b, 8 * j + 1) + 4 * bit_val(b, 8 * j + 2) + 8 * bit_val(
        b,
        8 * j + 3,
    ) + 16 * bit_val(b, 8 * j + 4) + 32 * bit_val(b, 8 * j + 5) + 64 * bit_val(b, 8 * j + 6) + 128
        * bit_val(b, 8 * j + 7)) as u8
}

/// The whole stream packed into bytes; the unused high bits of a final
/// partial byte are zero-filled.
pub open spec fn bytes_of_bits(b: Seq<bool>) -> Seq<u8> {
    Seq::new((b.len() + 7) / 8, |j: int| byte_of(b, j))
}

/// A fresh, empty bit stream.
pub fn bv_new() -> (r: BitBuf)
    ensures
        bits_of(r) == Seq::<bool>::empty(),
{
    bv_new_raw()
}

/// The current length of the stream, in bits.
pub fn bv_len(v: &BitBuf) -> (r: usize)
    ensures
        r == bits_of(*v).len(),
{
    bv_len_raw(v)
}

/// Appends the low `w` bits of `v`, least-significant bit first.  Returns
/// false (and leaves the stream unchanged) when that would pass the ceiling.
pub fn bv_push_bits(bv: &mut BitBuf, v: u64, w: u64) -> (r: bool)
    requires
        w <= 64,
        bits_of(*old(bv)).len() <= CAP_BITS,
    ensures
        r == (bits_of(*old(bv)).len() + w <= CAP_BITS),
        r ==> bits_of(*final(bv)) == bits_of(*old(bv)) + bits_le(v, w),
        !r ==> bits_of(*final(bv)) == bits_of(*old(bv)),
        bits_of(*final(bv)).len() <= CAP_BITS,
{
    let len: usize = bv_len(bv);
    if (len as u64) > CAP_BITS - w {
        proof {
            assert(bits_of(*bv) + bits_le(v, 0) =~= bits_of(*bv));
        }
        return false;
    }
    let mut k: u64 = 0;
    while k < w
        invariant
            k <= w,
            w <= 64,
            len == bits_of(*old(bv)).len(),
            len as u64 + w <= CAP_BITS,
            bits_of(*bv) == bits_of(*old(bv)) + bits_le(v, k),
        decreases w - k,
    {
        let b: bool = ((v >> k) & 1u64) == 1u64;
        proof {
            assert(bits_of(*bv).len() == len + k);
            assert(bits_le(v, (k + 1) as u64) =~= bits_le(v, k).push(bit_at(v, k)));
            assert((bits_of(*old(bv)) + bits_le(v, k)).push(bit_at(v, k)) =~= bits_of(*old(bv))
                + bits_le(v, k).push(bit_at(v, k)));
        }
        bv_push_raw(bv, b);
        k = k + 1;
    }
    true
}

/// Appends `src[from..to]` to `dst`.  Returns false (and leaves `dst`
/// unchanged) when that would pass the ceiling.
pub fn bv_append_range(dst: &mut BitBuf, src: &BitBuf, from: usize, to: usize) -> (r: bool)
    requires
        from <= to <= bits_of(*src).len(),
        bits_of(*old(dst)).len() <= CAP_BITS,
    ensures
        r == (bits_of(*old(dst)).len() + (to - from) <= CAP_BITS),
        r ==> bits_of(*final(dst)) == bits_of(*old(dst)) + bits_of(*src).subrange(
            from as int,
            to as int,
        ),
        !r ==> bits_of(*final(dst)) == bits_of(*old(dst)),
        bits_of(*final(dst)).len() <= CAP_BITS,
{
    let len: usize = bv_len(dst);
    if ((to - from) as u64) > CAP_BITS - (len as u64) {
        return false;
    }
    let mut i: usize = from;
    while i < to
        invariant
            from <= i <= to <= bits_of(*src).len(),
            len == bits_of(*old(dst)).len(),
            len + (to - from) <= CAP_BITS,
            bits_of(*dst) == bits_of(*old(dst)) + bits_of(*src).subrange(from as int, i as int),
        decreases to - i,
    {
        let b: bool = bv_get_raw(src, i);
        proof {
            assert(bits_of(*src).subrange(from as int, i + 1) =~= bits_of(*src).subrange(
                from as int,
                i as int,
            ).push(bits_of(*src)[i as int]));
            assert((bits_of(*old(dst)) + bits_of(*src).subrange(from as int, i as int)).push(b)
                =~= bits_of(*old(dst)) + bits_of(*src).subrange(from as int, i as int).push(b));
        }
        bv_push_raw(dst, b);
        i = i + 1;
    }
    proof {
        assert(bits_of(*dst) == bits_of(*old(dst)) + bits_of(*src).subrange(
            from as int,
            to as int,
        ));
    }
    true
}

/// Reads one bit, treating positions past the end as zero.
fn bit_or_zero(bv: &BitBuf, i: usize, n: usize) -> (r: bool)
    requires
        n == bits_of(*bv).len(),
    ensures
        r == (bit_val(bits_of(*bv), i as int) == 1u8),
{
    if i < n {
        bv_get_raw(bv, i)
    } else {
        false
    }
}

/// Packs the whole stream into bytes, eight bits per byte with the
/// least-significant bit first; the final partial byte is zero-padded.
#[verifier::rlimit(60)]
pub fn bv_to_bytes(bv: &BitBuf) -> (r: Vec<u8>)
    requires
        bits_of(*bv).len() <= CAP_BITS,
    ensures
        r@ == bytes_of_bits(bits_of(*bv)),
{
    let n: usize = bv_len(bv);
    let nbytes: usize = n / 8 + (if n % 8 != 0 {
        1usize
    } else {
        0usize
    });
    proof {
        assert(nbytes == (bits_of(*bv).len() + 7) / 8);
    }
    let mut out: Vec<u8> = Vec::new();
    let mut j: usize = 0;
    while j < nbytes
        invariant
            j <= nbytes,
            n == bits_of(*bv).len(),
            n <= CAP_BITS,
            nbytes == (bits_of(*bv).len() + 7) / 8,
            out@.len() == j,
            forall|t: int| 0 <= t < j ==> out@[t] == byte_of(bits_of(*bv), t),
        decreases nbytes - j,
    {
        let base: usize = j * 8;
        let b0: u8 = if bit_or_zero(bv, base, n) {
            1
        } else {
            0
        };
        let b1: u8 = if bit_or_zero(bv, base + 1, n) {
            1
        } else {
            0
        };
        let b2: u8 = if bit_or_zero(bv, base + 2, n) {
            1
        } else {
            0
        };
        let b3: u8 = if bit_or_zero(bv, base + 3, n) {
            1
        } else {
            0
        };
        let b4: u8 = if bit_or_zero(bv, base + 4, n) {
            1
        } else {
            0
        };
        let b5: u8 = if bit_or_zero(bv, base + 5, n) {
            1
        } else {
            0
        };
        let b6: u8 = if bit_or_zero(bv, base + 6, n) {
            1
        } else {
            0
        };
        let b7: u8 = if bit_or_zero(bv, base + 7, n) {
            1
        } else {
            0
        };
        let byte: u8 = b0 + 2 * b1 + 4 * b2 + 8 * b3 + 16 * b4 + 32 * b5 + 64 * b6 + 128 * b7;
        proof {
            assert(byte == byte_of(bits_of(*bv), j as int));
        }
        out.push(byte);
        j = j + 1;
    }
    proof {
        assert(out@ =~= bytes_of_bits(bits_of(*bv)));
    }
    out
}

} // verus!
