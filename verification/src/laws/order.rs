//! The law that the order of keys by code points is their order by UTF-8 bytes.
use vstd::prelude::*;
use vstd::utf8::*;

use crate::dumps::key_less;

verus! {

/// The order of bytes, by the first that differs; a prefix comes first.
pub open spec fn bytes_less(a: Seq<u8>, b: Seq<u8>) -> bool
    decreases a.len(),
{
    if b.len() == 0 {
        false
    } else if a.len() == 0 {
        true
    } else if a[0] == b[0] {
        bytes_less(a.drop_first(), b.drop_first())
    } else {
        a[0] < b[0]
    }
}

/// Two texts that agree up to `k` compare there.
proof fn lemma_first_difference(a: Seq<u8>, b: Seq<u8>, k: int)
    requires
        0 <= k < a.len(),
        k < b.len(),
        forall|i: int| 0 <= i < k ==> #[trigger] a[i] == b[i],
        a[k] < b[k],
    ensures
        bytes_less(a, b),
        !bytes_less(b, a),
    decreases k,
{
    if k > 0 {
        assert(a[0] == b[0]);
        let x = a.drop_first();
        let y = b.drop_first();
        assert forall|i: int| 0 <= i < k - 1 implies #[trigger] x[i] == y[i] by {
            assert(a[i + 1] == b[i + 1]);
        }
        lemma_first_difference(x, y, k - 1);
    }
}

/// What both texts start with does not count.
proof fn lemma_common_start(p: Seq<u8>, a: Seq<u8>, b: Seq<u8>)
    ensures
        bytes_less(p + a, p + b) == bytes_less(a, b),
    decreases p.len(),
{
    if p.len() == 0 {
        assert(p + a =~= a);
        assert(p + b =~= b);
    } else {
        lemma_common_start(p.drop_first(), a, b);
        assert((p + a).drop_first() =~= p.drop_first() + a);
        assert((p + b).drop_first() =~= p.drop_first() + b);
    }
}

/// The first byte grows with the number of bytes.
proof fn lemma_leading_bytes(x: u32)
    by (bit_vector)
    ensures
        x <= 0x7f ==> leading_byte_width_1(x) == x,
        0xc0 <= leading_byte_width_2(x) <= 0xdf,
        0xe0 <= leading_byte_width_3(x) <= 0xef,
        0xf0 <= leading_byte_width_4(x) <= 0xf7,
{
}

/// Two bytes compare as their code points.
proof fn lemma_two_bytes(x: u32, y: u32)
    by (bit_vector)
    requires
        x < y <= 0x7ff,
    ensures
        leading_byte_width_2(x) < leading_byte_width_2(y) || (leading_byte_width_2(x) == leading_byte_width_2(y)
            && last_continuation_byte(x) < last_continuation_byte(y)),
{
}

/// Three bytes compare as their code points.
proof fn lemma_three_bytes(x: u32, y: u32)
    by (bit_vector)
    requires
        x < y <= 0xffff,
    ensures
        leading_byte_width_3(x) < leading_byte_width_3(y) || (leading_byte_width_3(x) == leading_byte_width_3(y) && (
        second_last_continuation_byte(x) < second_last_continuation_byte(y) || (second_last_continuation_byte(x)
            == second_last_continuation_byte(y) && last_continuation_byte(x) < last_continuation_byte(y)))),
{
}

/// Four bytes compare as their code points.
proof fn lemma_four_bytes(x: u32, y: u32)
    by (bit_vector)
    requires
        x < y <= 0x10ffff,
    ensures
        leading_byte_width_4(x) < leading_byte_width_4(y) || (leading_byte_width_4(x) == leading_byte_width_4(y) && (
        third_last_continuation_byte(x) < third_last_continuation_byte(y) || (third_last_continuation_byte(x)
            == third_last_continuation_byte(y) && (second_last_continuation_byte(x) < second_last_continuation_byte(y)
            || (second_last_continuation_byte(x) == second_last_continuation_byte(y) && last_continuation_byte(x)
            < last_continuation_byte(y)))))),
{
}

/// Where the encodings of two characters differ.
proof fn lemma_scalars_differ(x: u32, y: u32) -> (k: int)
    requires
        is_scalar(x),
        is_scalar(y),
        x < y,
    ensures
        0 <= k < encode_scalar(x).len(),
        k < encode_scalar(y).len(),
        forall|i: int| 0 <= i < k ==> #[trigger] encode_scalar(x)[i] == encode_scalar(y)[i],
        encode_scalar(x)[k] < encode_scalar(y)[k],
{
    let a = encode_scalar(x);
    let b = encode_scalar(y);
    lemma_leading_bytes(x);
    lemma_leading_bytes(y);
    if has_width_2_encoding(x) && has_width_2_encoding(y) {
        lemma_two_bytes(x, y);
    } else if has_width_3_encoding(x) && has_width_3_encoding(y) {
        lemma_three_bytes(x, y);
    } else if has_width_4_encoding(x) {
        lemma_four_bytes(x, y);
    }
    if a[0] < b[0] {
        0
    } else if a[1] < b[1] {
        1
    } else if a[2] < b[2] {
        2
    } else {
        3
    }
}

/// The number of a character fits.
proof fn lemma_scalar(c: char)
    ensures
        (c as u32) as int == c as int,
{
}

/// A text whose first character is less comes first, in code points and in bytes.
proof fn lemma_first_character(a: Seq<char>, b: Seq<char>)
    requires
        a.len() > 0,
        b.len() > 0,
        a[0] < b[0],
    ensures
        bytes_less(encode_utf8(a), encode_utf8(b)),
        !bytes_less(encode_utf8(b), encode_utf8(a)),
{
    let x = a[0] as u32;
    let y = b[0] as u32;
    char_is_scalar(a[0]);
    char_is_scalar(b[0]);
    lemma_scalar(a[0]);
    lemma_scalar(b[0]);
    let k = lemma_scalars_differ(x, y);
    let s = encode_utf8(a);
    let t = encode_utf8(b);
    assert forall|i: int| 0 <= i < k implies #[trigger] s[i] == t[i] by {
        assert(s[i] == encode_scalar(x)[i]);
        assert(t[i] == encode_scalar(y)[i]);
    }
    assert(s[k] == encode_scalar(x)[k]);
    assert(t[k] == encode_scalar(y)[k]);
    lemma_first_difference(s, t, k);
}

/// The order of keys by code points is their order by UTF-8 bytes.
pub proof fn law_key_order_is_byte_order(a: Seq<char>, b: Seq<char>)
    ensures
        key_less(a, b) == bytes_less(encode_utf8(a), encode_utf8(b)),
    decreases a.len(),
{
    if a.len() > 0 && b.len() > 0 {
        if a[0] == b[0] {
            law_key_order_is_byte_order(a.drop_first(), b.drop_first());
            lemma_common_start(
                encode_scalar(a[0] as u32),
                encode_utf8(a.drop_first()),
                encode_utf8(b.drop_first()),
            );
        } else if a[0] < b[0] {
            lemma_first_character(a, b);
        } else {
            lemma_first_character(b, a);
        }
    } else if b.len() > 0 {
        assert(encode_utf8(b).len() > 0);
    }
}

} // verus!
