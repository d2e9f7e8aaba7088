//! The string table: lexicographic order on byte strings, sorted unique
//! insertion, first-match lookup, and the minimum index width.
//!
//! Distinct recorded strings are ordered by their bytes and assigned dense
//! ordinals; an occurrence is later replaced by its ordinal written in the
//! smallest width that can address the whole table.

use vstd::prelude::*;

use vstd::arithmetic::power2::{lemma2_to64, lemma2_to64_rest, lemma_pow2_unfold, pow2};
use vstd::string::StringSliceAdditionalSpecFns;

verus! {

/// Strict lexicographic order on byte strings: a proper prefix comes first,
/// and otherwise the first differing byte decides.
pub open spec fn lex_lt(a: Seq<u8>, b: Seq<u8>) -> bool
    decreases a.len(),
{
    if b.len() == 0 {
        false
    } else if a.len() == 0 {
        true
    } else if a[0] < b[0] {
        true
    } else if a[0] > b[0] {
        false
    } else {
        lex_lt(a.drop_first(), b.drop_first())
    }
}

/// Pairwise strictly ascending, so also free of duplicates.
pub open spec fn strictly_sorted(t: Seq<Seq<u8>>) -> bool {
    forall|i: int, j: int| 0 <= i < j < t.len() ==> lex_lt(#[trigger] t[i], #[trigger] t[j])
}

/// `x` placed into an ascending table, keeping it ascending and dropping a
/// duplicate.
pub open spec fn insert_sorted(t: Seq<Seq<u8>>, x: Seq<u8>) -> Seq<Seq<u8>>
    decreases t.len(),
{
    if t.len() == 0 {
        seq![x]
    } else if x == t[0] {
        t
    } else if lex_lt(x, t[0]) {
        seq![x] + t
    } else {
        seq![t[0]] + insert_sorted(t.drop_first(), x)
    }
}

/// The first position holding `x`, or the table length when absent.
pub open spec fn index_of(t: Seq<Seq<u8>>, x: Seq<u8>) -> int
    decreases t.len(),
{
    if t.len() == 0 {
        0
    } else if t[0] == x {
        0
    } else {
        1 + index_of(t.drop_first(), x)
    }
}

/// Whether the table holds `x` somewhere.
pub open spec fn table_contains(t: Seq<Seq<u8>>, x: Seq<u8>) -> bool {
    exists|i: int| 0 <= i < t.len() && t[i] == x
}

/// The number of binary digits of `n`.
pub open spec fn bit_width(n: nat) -> nat
    decreases n,
{
    if n == 0 {
        0
    } else {
        1 + bit_width(n / 2)
    }
}

/// The minimum width able to address `count` table entries: zero when one
/// string (or none) exists, else the bit count of the largest index.
pub open spec fn index_width(count: nat) -> nat {
    if count <= 1 {
        0
    } else {
        bit_width((count - 1) as nat)
    }
}

pub proof fn lemma_lex_asymmetric(a: Seq<u8>, b: Seq<u8>)
    requires
        lex_lt(a, b),
    ensures
        !lex_lt(b, a),
        a != b,
    decreases a.len(),
{
    if b.len() == 0 {
    } else if a.len() == 0 {
    } else if a[0] == b[0] {
        lemma_lex_asymmetric(a.drop_first(), b.drop_first());
        assert(a != b) by {
            assert(a.drop_first() != b.drop_first());
        }
    }
}

pub proof fn lemma_lex_connected(a: Seq<u8>, b: Seq<u8>)
    requires
        !lex_lt(a, b),
        !lex_lt(b, a),
    ensures
        a == b,
    decreases a.len(),
{
    if a.len() == 0 || b.len() == 0 {
        assert(a =~= b);
    } else if a[0] == b[0] {
        lemma_lex_connected(a.drop_first(), b.drop_first());
        assert(a.drop_first() == b.drop_first());
        assert(a =~= b) by {
            assert(forall|k: int|
                1 <= k < a.len() ==> a[k] == a.drop_first()[k - 1] && b[k] == b.drop_first()[k
                    - 1]);
        }
    }
}

pub proof fn lemma_lex_transitive(a: Seq<u8>, b: Seq<u8>, c: Seq<u8>)
    requires
        lex_lt(a, b),
        lex_lt(b, c),
    ensures
        lex_lt(a, c),
    decreases a.len(),
{
    if b.len() == 0 || c.len() == 0 {
    } else if a.len() == 0 {
    } else {
        if a[0] == b[0] && b[0] == c[0] {
            lemma_lex_transitive(a.drop_first(), b.drop_first(), c.drop_first());
        }
    }
}

/// Equal prefixes do not decide the order: it is settled past them.
pub proof fn lemma_lex_skip(a: Seq<u8>, b: Seq<u8>, i: int)
    requires
        0 <= i <= a.len(),
        i <= b.len(),
        forall|k: int| 0 <= k < i ==> a[k] == b[k],
    ensures
        lex_lt(a, b) == lex_lt(a.skip(i), b.skip(i)),
    decreases i,
{
    if i > 0 {
        assert(a[0] == b[0]);
        lemma_lex_skip(a.drop_first(), b.drop_first(), i - 1);
        assert(a.drop_first().skip(i - 1) =~= a.skip(i));
        assert(b.drop_first().skip(i - 1) =~= b.skip(i));
    } else {
        assert(a.skip(0) =~= a);
        assert(b.skip(0) =~= b);
    }
}

/// Whether `a`'s bytes come strictly before `b`'s in lexicographic order.
pub fn bytes_lt(a: &[u8], b: &[u8]) -> (r: bool)
    ensures
        r == lex_lt(a@, b@),
{
    let na: usize = a.len();
    let nb: usize = b.len();
    let n: usize = if na < nb {
        na
    } else {
        nb
    };
    let mut i: usize = 0;
    while i < n
        invariant
            i <= n,
            na == a@.len(),
            nb == b@.len(),
            n == if na < nb {
                na
            } else {
                nb
            },
            forall|k: int| 0 <= k < i ==> a@[k] == b@[k],
        decreases n - i,
    {
        let x: u8 = a[i];
        let y: u8 = b[i];
        if x != y {
            proof {
                lemma_lex_skip(a@, b@, i as int);
                assert(a@.skip(i as int)[0] == a@[i as int]);
                assert(b@.skip(i as int)[0] == b@[i as int]);
            }
            return x < y;
        }
        i = i + 1;
    }
    proof {
        lemma_lex_skip(a@, b@, n as int);
        if na < nb {
            assert(a@.skip(n as int).len() == 0);
            assert(b@.skip(n as int).len() > 0);
        } else {
            assert(b@.skip(n as int).len() == 0);
        }
    }
    na < nb
}

/// Whether `a` and `b` hold the same bytes.
pub fn bytes_eq(a: &[u8], b: &[u8]) -> (r: bool)
    ensures
        r == (a@ == b@),
{
    let na: usize = a.len();
    let nb: usize = b.len();
    if na != nb {
        return false;
    }
    let mut i: usize = 0;
    while i < na
        invariant
            i <= na,
            na == a@.len(),
            na == b@.len(),
            forall|k: int| 0 <= k < i ==> a@[k] == b@[k],
        decreases na - i,
    {
        if a[i] != b[i] {
            return false;
        }
        i = i + 1;
    }
    proof {
        assert(a@ =~= b@);
    }
    true
}

/// The byte strings a table of strings holds, in order.
pub open spec fn table_view(t: Seq<String>) -> Seq<Seq<u8>> {
    t.map_values(|s: String| vstd::utf8::encode_utf8(s@))
}

/// The first position whose entry does not come before `x`.
fn lower_bound(tbl: &Vec<String>, x: &String) -> (r: usize)
    ensures
        r <= tbl@.len(),
        forall|k: int| 0 <= k < r ==> lex_lt(table_view(tbl@)[k], vstd::utf8::encode_utf8(x@)),
        r < tbl@.len() ==> !lex_lt(table_view(tbl@)[r as int], vstd::utf8::encode_utf8(x@)),
{
    let n: usize = tbl.len();
    let mut i: usize = 0;
    while i < n
        invariant
            i <= n,
            n == tbl@.len(),
            forall|k: int| 0 <= k < i ==> lex_lt(table_view(tbl@)[k], vstd::utf8::encode_utf8(x@)),
        decreases n - i,
    {
        let further: bool = bytes_lt(tbl[i].as_str().as_bytes(), x.as_str().as_bytes());
        if !further {
            return i;
        }
        i = i + 1;
    }
    n
}

/// Places `x` into an ascending table of strings, keeping it ascending and
/// dropping a duplicate.
pub fn insert_string(tbl: &mut Vec<String>, x: &String)
    requires
        strictly_sorted(table_view(old(tbl)@)),
    ensures
        table_view(final(tbl)@) == insert_sorted(
            table_view(old(tbl)@),
            vstd::utf8::encode_utf8(x@),
        ),
{
    let n: usize = tbl.len();
    let i: usize = lower_bound(tbl, x);
    if i < n {
        let same: bool = bytes_eq(tbl[i].as_str().as_bytes(), x.as_str().as_bytes());
        if same {
            proof {
                lemma_insert_sorted_split(
                    table_view(tbl@),
                    vstd::utf8::encode_utf8(x@),
                    i as int,
                );
            }
            return ;
        }
    }
    proof {
        lemma_insert_sorted_split(table_view(tbl@), vstd::utf8::encode_utf8(x@), i as int);
    }
    let ghost before = table_view(tbl@);
    tbl.insert(i, x.clone());
    proof {
        assert(table_view(tbl@) =~= before.subrange(0, i as int) + seq![
            vstd::utf8::encode_utf8(x@),
        ] + before.subrange(i as int, before.len() as int));
    }
}

/// Where the recursive insertion lands, described by the first position the
/// new string does not pass.
pub proof fn lemma_insert_sorted_split(t: Seq<Seq<u8>>, x: Seq<u8>, i: int)
    requires
        strictly_sorted(t),
        0 <= i <= t.len(),
        forall|k: int| 0 <= k < i ==> lex_lt(#[trigger] t[k], x),
        i < t.len() ==> !lex_lt(t[i], x),
    ensures
        insert_sorted(t, x) == if i < t.len() && t[i] == x {
            t
        } else {
            t.subrange(0, i) + seq![x] + t.subrange(i, t.len() as int)
        },
    decreases t.len(),
{
    if t.len() == 0 {
        assert(insert_sorted(t, x) =~= t.subrange(0, i) + seq![x] + t.subrange(i, t.len() as int));
    } else if i == 0 {
        if t[0] == x {
        } else {
            if !lex_lt(x, t[0]) {
                lemma_lex_connected(x, t[0]);
            }
            assert(lex_lt(x, t[0]));
            assert(insert_sorted(t, x) =~= t.subrange(0, 0) + seq![x] + t.subrange(
                0,
                t.len() as int,
            ));
        }
    } else {
        assert(lex_lt(t[0], x));
        lemma_lex_asymmetric(t[0], x);
        let t1 = t.drop_first();
        assert(strictly_sorted(t1)) by {
            assert(forall|p: int, q: int|
                0 <= p < q < t1.len() ==> lex_lt(#[trigger] t1[p], #[trigger] t1[q])) by {
                assert(forall|p: int, q: int|
                    0 <= p < q < t1.len() ==> t1[p] == t[p + 1] && t1[q] == t[q + 1]);
            }
        }
        lemma_insert_sorted_split(t1, x, i - 1);
        if i < t.len() && t[i] == x {
            assert(t1[i - 1] == x);
            assert(insert_sorted(t, x) =~= t);
        } else {
            assert(insert_sorted(t, x) =~= seq![t[0]] + insert_sorted(t1, x));
            assert(insert_sorted(t1, x) == t1.subrange(0, i - 1) + seq![x] + t1.subrange(
                i - 1,
                t1.len() as int,
            ));
            assert(seq![t[0]] + (t1.subrange(0, i - 1) + seq![x] + t1.subrange(
                i - 1,
                t1.len() as int,
            )) =~= t.subrange(0, i) + seq![x] + t.subrange(i, t.len() as int));
        }
    }
}

/// Insertion keeps the table strictly ascending.
pub proof fn lemma_insert_sorted_keeps_sorted(t: Seq<Seq<u8>>, x: Seq<u8>)
    requires
        strictly_sorted(t),
    ensures
        strictly_sorted(insert_sorted(t, x)),
        table_contains(insert_sorted(t, x), x),
        forall|y: Seq<u8>| table_contains(t, y) ==> table_contains(insert_sorted(t, x), y),
        forall|y: Seq<u8>|
            table_contains(insert_sorted(t, x), y) ==> y == x || table_contains(t, y),
    decreases t.len(),
{
    if t.len() == 0 {
        let r = insert_sorted(t, x);
        assert(r[0] == x);
    } else if x == t[0] {
        assert(t[0] == x);
    } else if lex_lt(x, t[0]) {
        let r = seq![x] + t;
        assert(r[0] == x);
        assert(forall|p: int| 0 <= p < t.len() ==> r[p + 1] == t[p]);
        assert(strictly_sorted(r)) by {
            assert(forall|p: int, q: int| 0 <= p < q < r.len() ==> lex_lt(#[trigger] r[p], #[trigger] r[q]))
                by {
                assert forall|p: int, q: int| 0 <= p < q < r.len() implies lex_lt(
                    #[trigger] r[p],
                    #[trigger] r[q],
                ) by {
                    if p == 0 {
                        if q > 1 {
                            lemma_lex_transitive(x, t[0], t[q - 1]);
                        }
                    }
                }
            }
        }
        assert(forall|p: int| 0 <= p < t.len() ==> t[p] == r[p + 1]);
    } else {
        if !lex_lt(t[0], x) {
            lemma_lex_connected(t[0], x);
        }
        assert(lex_lt(t[0], x));
        let t1 = t.drop_first();
        assert(strictly_sorted(t1)) by {
            assert(forall|p: int, q: int|
                0 <= p < q < t1.len() ==> t1[p] == t[p + 1] && t1[q] == t[q + 1]);
        }
        lemma_insert_sorted_keeps_sorted(t1, x);
        let r1 = insert_sorted(t1, x);
        let r = seq![t[0]] + r1;
        assert(insert_sorted(t, x) == r);
        assert(forall|p: int| 0 <= p < r1.len() ==> r[p + 1] == r1[p]);
        assert(forall|p: int| 0 <= p < t1.len() ==> t1[p] == t[p + 1]);
        assert(r[0] == t[0]);
        assert(strictly_sorted(r)) by {
            assert forall|p: int, q: int| 0 <= p < q < r.len() implies lex_lt(
                #[trigger] r[p],
                #[trigger] r[q],
            ) by {
                if p == 0 {
                    let y = r1[q - 1];
                    assert(table_contains(r1, y));
                    if y == x {
                        assert(lex_lt(t[0], x));
                    } else {
                        assert(table_contains(t1, y));
                        let w = choose|w: int| 0 <= w < t1.len() && t1[w] == y;
                        assert(t[w + 1] == y);
                        assert(lex_lt(t[0], y));
                    }
                }
            }
        }
        assert(table_contains(r, x)) by {
            let w = choose|w: int| 0 <= w < r1.len() && r1[w] == x;
            assert(r[w + 1] == x);
        }
        assert(forall|y: Seq<u8>| table_contains(t, y) ==> table_contains(r, y)) by {
            assert forall|y: Seq<u8>| table_contains(t, y) implies table_contains(r, y) by {
                let w = choose|w: int| 0 <= w < t.len() && t[w] == y;
                if w == 0 {
                    assert(r[0] == y);
                } else {
                    assert(t1[w - 1] == y);
                    assert(table_contains(t1, y));
                    let u = choose|u: int| 0 <= u < r1.len() && r1[u] == y;
                    assert(0 <= u + 1 < r.len() && r[u + 1] == y);
                }
            }
        }
        assert(forall|y: Seq<u8>| table_contains(r, y) ==> y == x || table_contains(t, y)) by {
            assert forall|y: Seq<u8>| table_contains(r, y) implies y == x || table_contains(t, y) by {
                let w = choose|w: int| 0 <= w < r.len() && r[w] == y;
                if w == 0 {
                    assert(t[0] == y);
                } else {
                    assert(r1[w - 1] == y);
                    assert(table_contains(insert_sorted(t1, x), y));
                    assert(y == x || table_contains(t1, y));
                    if y != x {
                        let u = choose|u: int| 0 <= u < t1.len() && t1[u] == y;
                        assert(0 <= u + 1 < t.len() && t[u + 1] == y);
                    }
                }
            }
        }
    }
}

/// The first position holding `x`, reached by scanning.
pub proof fn lemma_index_of_found(t: Seq<Seq<u8>>, x: Seq<u8>, i: int)
    requires
        0 <= i < t.len(),
        t[i] == x,
        forall|k: int| 0 <= k < i ==> t[k] != x,
    ensures
        index_of(t, x) == i,
        0 <= index_of(t, x) < t.len(),
    decreases t.len(),
{
    if i > 0 {
        let t1 = t.drop_first();
        assert(forall|k: int| 0 <= k < i - 1 ==> t1[k] == t[k + 1]);
        assert(t1[i - 1] == x);
        lemma_index_of_found(t1, x, i - 1);
    }
}

/// Looks up the first table position holding exactly `x`'s bytes.
pub fn find_index(tbl: &Vec<String>, x: &String) -> (r: usize)
    requires
        table_contains(table_view(tbl@), vstd::utf8::encode_utf8(x@)),
    ensures
        r == index_of(table_view(tbl@), vstd::utf8::encode_utf8(x@)),
        r < tbl@.len(),
{
    let n: usize = tbl.len();
    let mut i: usize = 0;
    while i < n
        invariant
            i <= n,
            n == tbl@.len(),
            table_contains(table_view(tbl@), vstd::utf8::encode_utf8(x@)),
            forall|k: int| 0 <= k < i ==> table_view(tbl@)[k] != vstd::utf8::encode_utf8(x@),
        decreases n - i,
    {
        let same: bool = bytes_eq(tbl[i].as_str().as_bytes(), x.as_str().as_bytes());
        if same {
            proof {
                lemma_index_of_found(table_view(tbl@), vstd::utf8::encode_utf8(x@), i as int);
            }
            return i;
        }
        i = i + 1;
    }
    proof {
        let w = choose|w: int|
            0 <= w < table_view(tbl@).len() && table_view(tbl@)[w] == vstd::utf8::encode_utf8(x@);
        assert(false);
    }
    0
}

pub proof fn lemma_bit_width_le(n: nat, k: nat)
    requires
        n < pow2(k),
    ensures
        bit_width(n) <= k,
    decreases k,
{
    if n == 0 {
    } else {
        if k == 0 {
            assert(pow2(0) == 1) by {
                lemma2_to64();
            }
        } else {
            lemma_pow2_unfold(k);
            lemma_bit_width_le(n / 2, (k - 1) as nat);
        }
    }
}

/// The minimum index width for a table of `count` entries.
pub fn compute_index_width(count: usize) -> (r: u64)
    ensures
        r == index_width(count as nat),
        r <= 64,
{
    if count <= 1 {
        return 0;
    }
    let mut m: usize = count - 1;
    let mut w: u64 = 0;
    proof {
        lemma2_to64_rest();
        assert(((count - 1) as nat) < pow2(64)) by {
            assert(usize::MAX < pow2(64) || usize::MAX < pow2(32));
            if usize::MAX < pow2(32) {
                vstd::arithmetic::power2::lemma_pow2_strictly_increases(32, 64);
            }
        }
        lemma_bit_width_le((count - 1) as nat, 64);
    }
    while m > 0
        invariant
            bit_width((count - 1) as nat) == w + bit_width(m as nat),
            bit_width(m as nat) + w <= 64,
        decreases m,
    {
        m = m / 2;
        w = w + 1;
    }
    w
}

/// A held string is found at its first position.
pub proof fn lemma_index_of_contains(t: Seq<Seq<u8>>, x: Seq<u8>)
    requires
        table_contains(t, x),
    ensures
        0 <= index_of(t, x) < t.len(),
        t[index_of(t, x)] == x,
    decreases t.len(),
{
    if t.len() == 0 {
        let w = choose|w: int| 0 <= w < t.len() && t[w] == x;
        assert(false);
    } else if t[0] == x {
    } else {
        let t1 = t.drop_first();
        let w = choose|w: int| 0 <= w < t.len() && t[w] == x;
        assert(t1[w - 1] == x);
        assert(table_contains(t1, x));
        lemma_index_of_contains(t1, x);
    }
}

} // verus!
