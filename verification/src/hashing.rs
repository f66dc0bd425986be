//! Hash functions that place virtual nodes and keys on the ring.

use vstd::prelude::*;
use vstd::utf8::encode_utf8;

verus! {

/// The CRC-32 (IEEE) checksum of a byte sequence, as `crc32fast` computes it.
pub uninterp spec fn crc32(data: Seq<u8>) -> u32;

/// Calls `crc32fast::hash`, which runs a fresh `crc32fast::Hasher` over `data`
/// and returns its checksum. Claimed: the result is `crc32(data@)`, that is,
/// it depends on the bytes of `data` alone.
#[verifier::external_body]
fn crc32_checksum(data: &[u8]) -> (h: u32)
    ensures
        h == crc32(data@),
{
    crc32fast::hash(data)
}

/// The ASCII decimal representation of `n`, without leading zeros.
pub open spec fn decimal_digits(n: nat) -> Seq<u8>
    decreases n,
{
    if n < 10 {
        seq![(48 + n) as u8]
    } else {
        decimal_digits(n / 10).push((48 + n % 10) as u8)
    }
}

/// The bytes that identify virtual node `idx` of `node`: the node's UTF-8
/// bytes, a `#`, and the decimal digits of `idx`.
pub open spec fn vnode_label(node: Seq<char>, idx: nat) -> Seq<u8> {
    encode_utf8(node) + seq![35u8] + decimal_digits(idx)
}

/// Position on the ring of virtual node `idx` of `node`.
pub open spec fn vnode_position(node: Seq<char>, idx: nat) -> u32 {
    crc32(vnode_label(node, idx))
}

/// Position on the ring of a key.
pub open spec fn key_position(key: Seq<char>) -> u32 {
    crc32(encode_utf8(key))
}

/// Appends the decimal digits of `n` to `buf`.
fn push_decimal(buf: &mut Vec<u8>, n: usize)
    ensures
        final(buf)@ == old(buf)@ + decimal_digits(n as nat),
    decreases n,
{
    if n >= 10 {
        push_decimal(buf, n / 10);
    }
    let digit: u8 = (n % 10) as u8;
    buf.push(48u8 + digit);
    proof {
        assert(old(buf)@ + decimal_digits(n as nat) =~= final(buf)@) by {
            if n >= 10 {
                assert(decimal_digits(n as nat) == decimal_digits((n / 10) as nat).push(
                    (48 + n % 10) as u8,
                ));
            }
        }
    }
}

/// Computes the ring position of virtual node `idx` of `node`.
pub fn vnode_hash(node: &str, idx: usize) -> (h: u32)
    ensures
        h == vnode_position(node@, idx as nat),
        h == crc32(encode_utf8(node@) + seq![35u8] + decimal_digits(idx as nat)),
{
    let bytes = node.as_bytes();
    let mut buf: Vec<u8> = Vec::new();
    let mut i: usize = 0;
    while i < bytes.len()
        invariant
            bytes@ == encode_utf8(node@),
            i <= bytes@.len(),
            buf@ == bytes@.subrange(0, i as int),
        decreases bytes@.len() - i,
    {
        buf.push(bytes[i]);
        i = i + 1;
        assert(buf@ =~= bytes@.subrange(0, i as int));
    }
    assert(buf@ =~= encode_utf8(node@));
    buf.push(35u8);
    push_decimal(&mut buf, idx);
    assert(buf@ =~= vnode_label(node@, idx as nat));
    crc32_checksum(buf.as_slice())
}

/// Computes the ring position of a key.
pub fn key_hash(key: &str) -> (h: u32)
    ensures
        h == key_position(key@),
        h == crc32(encode_utf8(key@)),
{
    crc32_checksum(key.as_bytes())
}

/// The number that a sequence of ASCII decimal digits spells.
pub open spec fn digits_value(d: Seq<u8>) -> int
    decreases d.len(),
{
    if d.len() == 0 {
        0
    } else {
        digits_value(d.drop_last()) * 10 + (d.last() - 48)
    }
}

/// The decimal digits of `n` are ASCII digits without a leading zero, and
/// they spell `n`.
pub proof fn law_decimal_digits_spell_the_number(n: nat)
    ensures
        decimal_digits(n).len() >= 1,
        forall|i: int|
            0 <= i < decimal_digits(n).len() ==> 48 <= #[trigger] decimal_digits(n)[i] <= 57,
        decimal_digits(n).len() > 1 ==> decimal_digits(n)[0] != 48,
        digits_value(decimal_digits(n)) == n,
    decreases n,
{
    if n >= 10 {
        law_decimal_digits_spell_the_number(n / 10);
        let d = decimal_digits(n);
        assert(d.drop_last() =~= decimal_digits(n / 10));
        assert(d.last() == (48 + n % 10) as u8);
        assert(digits_value(d) == digits_value(decimal_digits(n / 10)) * 10 + (d.last() - 48));
        assert((n / 10) * 10 + n % 10 == n);
        assert(d[0] == decimal_digits(n / 10)[0]);
        if decimal_digits(n / 10).len() == 1 {
            assert(n / 10 >= 1);
            assert(n / 10 < 10) by {
                if n / 10 >= 10 {
                    assert(decimal_digits(n / 10) == decimal_digits(n / 100).push(
                        (48 + (n / 10) % 10) as u8,
                    ));
                    law_decimal_digits_spell_the_number(n / 100);
                }
            }
        }
    } else {
        let d = decimal_digits(n);
        assert(d.drop_last() =~= Seq::<u8>::empty());
        assert(digits_value(d) == digits_value(Seq::<u8>::empty()) * 10 + (d.last() - 48));
    }
}

/// Different numbers have different decimal digits.
pub proof fn lemma_decimal_digits_injective(i: nat, j: nat)
    requires
        decimal_digits(i) == decimal_digits(j),
    ensures
        i == j,
{
    law_decimal_digits_spell_the_number(i);
    law_decimal_digits_spell_the_number(j);
}

/// No byte of the UTF-8 encoding of a text without `#` is the byte of `#`.
pub proof fn lemma_encoding_without_hash_sign(chars: Seq<char>)
    requires
        !chars.contains('#'),
    ensures
        !encode_utf8(chars).contains(35u8),
    decreases chars.len(),
{
    if chars.len() > 0 {
        let c = chars[0];
        let v = c as u32;
        vstd::utf8::char_is_scalar(c);
        assert(c != '#');
        let e = vstd::utf8::encode_scalar(v);
        assert(!e.contains(35u8)) by {
            if vstd::utf8::has_width_1_encoding(v) {
                assert(v != 35u32) by {
                    if v == 35u32 {
                        vstd::utf8::char_u32_cast(c, v);
                        assert((35u32 as char) == '#');
                    }
                }
                assert((v & 0x7F) == v) by (bit_vector)
                    requires
                        v <= 0x7F,
                ;
            } else {
                assert(forall|x: u8| #[trigger] (0x80u8 | x) >= 0x80u8) by (bit_vector);
                assert(forall|x: u8| #[trigger] (0xC0u8 | x) >= 0x80u8) by (bit_vector);
                assert(forall|x: u8| #[trigger] (0xE0u8 | x) >= 0x80u8) by (bit_vector);
                assert(forall|x: u8| #[trigger] (0xF0u8 | x) >= 0x80u8) by (bit_vector);
                if e.contains(35u8) {
                    let k = choose|k: int| 0 <= k < e.len() && e[k] == 35u8;
                    assert(e[k] >= 0x80u8);
                }
            }
        }
        let rest = chars.drop_first();
        assert(!rest.contains('#')) by {
            if rest.contains('#') {
                let k = choose|k: int| 0 <= k < rest.len() && rest[k] == '#';
                assert(chars[k + 1] == '#');
            }
        }
        lemma_encoding_without_hash_sign(rest);
        assert(encode_utf8(chars) == e + encode_utf8(rest));
        if (e + encode_utf8(rest)).contains(35u8) {
            let k = choose|k: int| 0 <= k < (e + encode_utf8(rest)).len() && (e + encode_utf8(
                rest,
            ))[k] == 35u8;
            if k < e.len() {
                assert(e[k] == 35u8);
            } else {
                assert(encode_utf8(rest)[k - e.len()] == 35u8);
            }
        }
    }
}

/// A key's ring position is the checksum of all of its bytes.
pub proof fn law_key_position_hashes_whole_key(key: Seq<char>)
    ensures
        key_position(key) == crc32(encode_utf8(key)),
{
}

/// A virtual node's label is the whole name, `#`, and the index.
pub proof fn law_vnode_label_holds_whole_name(node: Seq<char>, idx: nat)
    ensures
        vnode_label(node, idx).len() == encode_utf8(node).len() + 1 + decimal_digits(idx).len(),
        vnode_label(node, idx).take(encode_utf8(node).len() as int) == encode_utf8(node),
        vnode_label(node, idx)[encode_utf8(node).len() as int] == 35u8,
        vnode_label(node, idx).skip(encode_utf8(node).len() as int + 1) == decimal_digits(idx),
        vnode_position(node, idx) == crc32(vnode_label(node, idx)),
{
    let l = vnode_label(node, idx);
    let n = encode_utf8(node).len() as int;
    assert(l.take(n) =~= encode_utf8(node));
    assert(l.skip(n + 1) =~= decimal_digits(idx));
}

/// Virtual nodes of different names (without `#`) or of different indexes
/// have different labels.
pub proof fn law_vnode_label_injective(a: Seq<char>, i: nat, b: Seq<char>, j: nat)
    requires
        !a.contains('#'),
        !b.contains('#'),
        vnode_label(a, i) == vnode_label(b, j),
    ensures
        a == b,
        i == j,
{
    let x = encode_utf8(a);
    let y = encode_utf8(b);
    let l = vnode_label(a, i);
    lemma_encoding_without_hash_sign(a);
    lemma_encoding_without_hash_sign(b);
    law_vnode_label_holds_whole_name(a, i);
    law_vnode_label_holds_whole_name(b, j);
    if x.len() < y.len() {
        assert(l[x.len() as int] == 35u8);
        assert(l[x.len() as int] == l.take(y.len() as int)[x.len() as int]);
        assert(y[x.len() as int] == 35u8);
        assert(y.contains(35u8));
    } else if y.len() < x.len() {
        assert(l[y.len() as int] == 35u8);
        assert(l[y.len() as int] == l.take(x.len() as int)[y.len() as int]);
        assert(x[y.len() as int] == 35u8);
        assert(x.contains(35u8));
    }
    assert(x == y);
    vstd::utf8::encode_utf8_decode_utf8(a);
    vstd::utf8::encode_utf8_decode_utf8(b);
    lemma_decimal_digits_injective(i, j);
}

} // verus!
