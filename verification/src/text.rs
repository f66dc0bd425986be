//! Equality and ordering of node names, compared byte by byte as `str` does.

use vstd::prelude::*;
use vstd::utf8::encode_utf8;

verus! {

broadcast use vstd::utf8::encode_utf8_decode_utf8;

/// Lexicographic order on byte sequences: the order of `<[u8]>::cmp`.
pub open spec fn bytes_lt(a: Seq<u8>, b: Seq<u8>) -> bool
    decreases a.len(),
{
    if a.len() == 0 {
        b.len() > 0
    } else if b.len() == 0 {
        false
    } else if a[0] != b[0] {
        a[0] < b[0]
    } else {
        bytes_lt(a.drop_first(), b.drop_first())
    }
}

/// The order of `str` on node names: their UTF-8 bytes compared lexicographically.
pub open spec fn name_lt(a: Seq<char>, b: Seq<char>) -> bool {
    bytes_lt(encode_utf8(a), encode_utf8(b))
}

/// No byte sequence precedes itself, and two never precede each other.
pub proof fn lemma_bytes_lt_asymmetric(a: Seq<u8>, b: Seq<u8>)
    ensures
        bytes_lt(a, b) ==> !bytes_lt(b, a),
        !bytes_lt(a, a),
    decreases a.len(),
{
    if a.len() > 0 && b.len() > 0 && a[0] == b[0] {
        lemma_bytes_lt_asymmetric(a.drop_first(), b.drop_first());
    }
    if a.len() > 0 {
        lemma_bytes_lt_asymmetric(a.drop_first(), a.drop_first());
    }
}

/// The byte order is transitive.
pub proof fn lemma_bytes_lt_transitive(a: Seq<u8>, b: Seq<u8>, c: Seq<u8>)
    requires
        bytes_lt(a, b),
        bytes_lt(b, c),
    ensures
        bytes_lt(a, c),
    decreases a.len(),
{
    if a.len() > 0 && b.len() > 0 && c.len() > 0 && a[0] == b[0] && b[0] == c[0] {
        lemma_bytes_lt_transitive(a.drop_first(), b.drop_first(), c.drop_first());
    }
}

/// Of two different byte sequences, one precedes the other.
pub proof fn lemma_bytes_lt_total(a: Seq<u8>, b: Seq<u8>)
    requires
        a != b,
    ensures
        bytes_lt(a, b) || bytes_lt(b, a),
    decreases a.len(),
{
    if a.len() > 0 && b.len() > 0 && a[0] == b[0] {
        if a.drop_first() == b.drop_first() {
            assert(a =~= seq![a[0]] + a.drop_first());
            assert(b =~= seq![b[0]] + b.drop_first());
        }
        lemma_bytes_lt_total(a.drop_first(), b.drop_first());
    } else if a.len() == 0 && b.len() == 0 {
        assert(a =~= b);
    }
}

/// The order on names is a strict total order.
pub proof fn lemma_name_lt_order(a: Seq<char>, b: Seq<char>, c: Seq<char>)
    ensures
        !name_lt(a, a),
        name_lt(a, b) ==> !name_lt(b, a),
        name_lt(a, b) && name_lt(b, c) ==> name_lt(a, c),
        a != b ==> name_lt(a, b) || name_lt(b, a),
{
    lemma_bytes_lt_asymmetric(encode_utf8(a), encode_utf8(b));
    if name_lt(a, b) && name_lt(b, c) {
        lemma_bytes_lt_transitive(encode_utf8(a), encode_utf8(b), encode_utf8(c));
    }
    if a != b {
        assert(encode_utf8(a) != encode_utf8(b)) by {
            if encode_utf8(a) == encode_utf8(b) {
                assert(vstd::utf8::decode_utf8(encode_utf8(a)) == a);
                assert(vstd::utf8::decode_utf8(encode_utf8(b)) == b);
            }
        }
        lemma_bytes_lt_total(encode_utf8(a), encode_utf8(b));
    }
}

/// The outcome of comparing two names.
#[derive(PartialEq, Eq, Structural, Clone, Copy, Debug)]
pub enum NameOrder {
    Less,
    Equal,
    Greater,
}

/// Compares two names as `str::cmp` does.
pub fn compare_names(a: &str, b: &str) -> (r: NameOrder)
    ensures
        r == NameOrder::Less <==> name_lt(a@, b@),
        r == NameOrder::Equal <==> a@ == b@,
        r == NameOrder::Greater <==> name_lt(b@, a@),
{
    let x = a.as_bytes();
    let y = b.as_bytes();
    let ghost xs = x@;
    let ghost ys = y@;
    proof {
        lemma_name_lt_order(a@, b@, b@);
        lemma_name_lt_order(b@, a@, a@);
        assert(xs.skip(0) =~= xs);
        assert(ys.skip(0) =~= ys);
    }
    let mut i: usize = 0;
    while i < x.len() && i < y.len()
        invariant
            xs == x@,
            ys == y@,
            xs == encode_utf8(a@),
            ys == encode_utf8(b@),
            !name_lt(a@, a@),
            !name_lt(b@, b@),
            name_lt(a@, b@) ==> !name_lt(b@, a@),
            a@ != b@ ==> name_lt(a@, b@) || name_lt(b@, a@),
            i <= xs.len(),
            i <= ys.len(),
            xs.subrange(0, i as int) == ys.subrange(0, i as int),
            bytes_lt(xs, ys) == bytes_lt(xs.skip(i as int), ys.skip(i as int)),
            bytes_lt(ys, xs) == bytes_lt(ys.skip(i as int), xs.skip(i as int)),
        decreases xs.len() - i,
    {
        if x[i] < y[i] {
            assert(bytes_lt(xs.skip(i as int), ys.skip(i as int)));
            return NameOrder::Less;
        }
        if x[i] > y[i] {
            assert(bytes_lt(ys.skip(i as int), xs.skip(i as int)));
            return NameOrder::Greater;
        }
        assert(xs.skip(i as int).drop_first() =~= xs.skip(i + 1));
        assert(ys.skip(i as int).drop_first() =~= ys.skip(i + 1));
        assert(xs.subrange(0, i + 1) =~= xs.subrange(0, i as int).push(xs[i as int]));
        assert(ys.subrange(0, i + 1) =~= ys.subrange(0, i as int).push(ys[i as int]));
        i = i + 1;
    }
    if x.len() == y.len() {
        assert(xs =~= xs.subrange(0, i as int));
        assert(ys =~= ys.subrange(0, i as int));
        NameOrder::Equal
    } else if x.len() < y.len() {
        assert(bytes_lt(xs.skip(i as int), ys.skip(i as int)));
        NameOrder::Less
    } else {
        assert(bytes_lt(ys.skip(i as int), xs.skip(i as int)));
        NameOrder::Greater
    }
}

/// Whether two names are equal.
pub fn names_equal(a: &str, b: &str) -> (r: bool)
    ensures
        r == (a@ == b@),
{
    match compare_names(a, b) {
        NameOrder::Equal => true,
        _ => false,
    }
}

/// The byte order is the lexicographic order: `a` precedes `b` exactly when
/// `a` is a proper prefix of `b`, or at the first position where they differ
/// the byte of `a` is the smaller.
pub proof fn law_bytes_lt_is_lexicographic(a: Seq<u8>, b: Seq<u8>)
    ensures
        bytes_lt(a, b) <==> (a.len() < b.len() && a == b.take(a.len() as int)) || exists|k: int|
            0 <= k < a.len() && k < b.len() && a.take(k) == b.take(k) && a[k] < b[k],
    decreases a.len(),
{
    if a.len() == 0 {
        assert(a =~= b.take(0));
    } else if b.len() == 0 {
    } else if a[0] != b[0] {
        if a[0] < b[0] {
            assert(a.take(0) =~= b.take(0));
        }
        assert forall|k: int| 0 <= k < a.len() && k < b.len() && a.take(k) == b.take(k) && a[k]
            < b[k] implies a[0] < b[0] by {
            if k > 0 {
                assert(a.take(k)[0] == b.take(k)[0]);
            }
        }
        if a.len() < b.len() && a == b.take(a.len() as int) {
            assert(a[0] == b.take(a.len() as int)[0]);
        }
    } else {
        let a1 = a.drop_first();
        let b1 = b.drop_first();
        law_bytes_lt_is_lexicographic(a1, b1);
        assert((a.len() < b.len() && a == b.take(a.len() as int)) <==> (a1.len() < b1.len() && a1
            == b1.take(a1.len() as int))) by {
            if a.len() < b.len() && a == b.take(a.len() as int) {
                assert(a1 =~= b1.take(a1.len() as int));
            }
            if a1.len() < b1.len() && a1 == b1.take(a1.len() as int) {
                assert forall|q: int| 0 <= q < a.len() implies a[q] == b.take(a.len() as int)[q] by {
                    if q > 0 {
                        assert(a[q] == a1[q - 1]);
                        assert(a1[q - 1] == b1.take(a1.len() as int)[q - 1]);
                    }
                }
                assert(a =~= b.take(a.len() as int));
            }
        }
        if exists|k: int|
            0 <= k < a.len() && k < b.len() && a.take(k) == b.take(k) && a[k] < b[k] {
            let k = choose|k: int|
                0 <= k < a.len() && k < b.len() && a.take(k) == b.take(k) && a[k] < b[k];
            assert(k != 0);
            assert(a1.take(k - 1) =~= b1.take(k - 1)) by {
                assert forall|q: int| 0 <= q < k - 1 implies a1[q] == b1[q] by {
                    assert(a.take(k)[q + 1] == b.take(k)[q + 1]);
                }
            }
            assert(a1[k - 1] == a[k] && b1[k - 1] == b[k]);
        }
        if exists|k: int|
            0 <= k < a1.len() && k < b1.len() && a1.take(k) == b1.take(k) && a1[k] < b1[k] {
            let k = choose|k: int|
                0 <= k < a1.len() && k < b1.len() && a1.take(k) == b1.take(k) && a1[k] < b1[k];
            assert(a.take(k + 1) =~= b.take(k + 1)) by {
                assert forall|q: int| 0 <= q < k + 1 implies a[q] == b[q] by {
                    if q > 0 {
                        assert(a1.take(k)[q - 1] == b1.take(k)[q - 1]);
                    }
                }
            }
            assert(a[k + 1] == a1[k] && b[k + 1] == b1[k]);
        }
    }
}

/// The order on names is the lexicographic order of their UTF-8 bytes.
pub proof fn law_name_lt_is_byte_lexicographic(a: Seq<char>, b: Seq<char>)
    ensures
        name_lt(a, b) <==> {
            let x = encode_utf8(a);
            let y = encode_utf8(b);
            ||| x.len() < y.len() && x == y.take(x.len() as int)
            ||| exists|k: int| 0 <= k < x.len() && k < y.len() && x.take(k) == y.take(k) && x[k] < y[k]
        },
{
    law_bytes_lt_is_lexicographic(encode_utf8(a), encode_utf8(b));
}

} // verus!
