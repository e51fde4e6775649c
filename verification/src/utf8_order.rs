//! The order of text by the bytes of its UTF-8 encoding is its order by
//! code points.

use crate::order::{compare, lemma_compare_flip, Comparison};
use vstd::prelude::*;
use vstd::utf8::{
    char_is_scalar, encode_scalar, encode_utf8, has_width_1_encoding, has_width_2_encoding,
    has_width_3_encoding, is_scalar, last_continuation_byte, leading_byte_width_1,
    leading_byte_width_2, leading_byte_width_3, leading_byte_width_4,
    second_last_continuation_byte, third_last_continuation_byte,
};

verus! {

/// How the text `a` stands to the text `b` in the lexicographic order of
/// code points.
pub open spec fn compare_text(a: Seq<char>, b: Seq<char>) -> Comparison
    decreases a.len(),
{
    if a.len() == 0 {
        if b.len() == 0 {
            Comparison::Equal
        } else {
            Comparison::Less
        }
    } else if b.len() == 0 {
        Comparison::Greater
    } else if (a[0] as u32) < (b[0] as u32) {
        Comparison::Less
    } else if (a[0] as u32) > (b[0] as u32) {
        Comparison::Greater
    } else {
        compare_text(a.drop_first(), b.drop_first())
    }
}

/// Bytes that are less where two sequences first differ make the sequence
/// less.
proof fn lemma_first_difference(s: Seq<u8>, t: Seq<u8>, k: int)
    requires
        0 <= k < s.len(),
        k < t.len(),
        forall|i: int| 0 <= i < k ==> s[i] == t[i],
        s[k] < t[k],
    ensures
        compare(s, t) is Less,
    decreases k,
{
    if k > 0 {
        assert(s[0] == t[0]);
        assert forall|i: int| 0 <= i < k - 1 implies s.drop_first()[i] == t.drop_first()[i] by {
            assert(s[i + 1] == t[i + 1]);
        }
        lemma_first_difference(s.drop_first(), t.drop_first(), k - 1);
    }
}

/// Sequences that start alike compare as what follows the start.
proof fn lemma_common_start(p: Seq<u8>, s: Seq<u8>, t: Seq<u8>)
    ensures
        compare(p + s, p + t) == compare(s, t),
    decreases p.len(),
{
    if p.len() == 0 {
        assert(p + s =~= s);
        assert(p + t =~= t);
    } else {
        assert((p + s).drop_first() =~= p.drop_first() + s);
        assert((p + t).drop_first() =~= p.drop_first() + t);
        lemma_common_start(p.drop_first(), s, t);
    }
}

/// Of two code points of one byte the lesser has the lesser byte.
proof fn lemma_order_width_1(x: u32, y: u32)
    by (bit_vector)
    requires
        x < y,
        y <= 0x7f,
    ensures
        leading_byte_width_1(x) < leading_byte_width_1(y),
{
}

/// Of two code points of two bytes the lesser has the lesser bytes.
proof fn lemma_order_width_2(x: u32, y: u32)
    by (bit_vector)
    requires
        0x80 <= x,
        x < y,
        y <= 0x7ff,
    ensures
        leading_byte_width_2(x) < leading_byte_width_2(y) || (leading_byte_width_2(x)
            == leading_byte_width_2(y) && last_continuation_byte(x) < last_continuation_byte(y)),
{
}

/// Of two code points of three bytes the lesser has the lesser bytes.
proof fn lemma_order_width_3(x: u32, y: u32)
    by (bit_vector)
    requires
        0x800 <= x,
        x < y,
        y <= 0xffff,
    ensures
        leading_byte_width_3(x) < leading_byte_width_3(y) || (leading_byte_width_3(x)
            == leading_byte_width_3(y) && (second_last_continuation_byte(x)
            < second_last_continuation_byte(y) || (second_last_continuation_byte(x)
            == second_last_continuation_byte(y) && last_continuation_byte(x)
            < last_continuation_byte(y)))),
{
}

/// Of two code points of four bytes the lesser has the lesser bytes.
proof fn lemma_order_width_4(x: u32, y: u32)
    by (bit_vector)
    requires
        0x1_0000 <= x,
        x < y,
        y <= 0x10_ffff,
    ensures
        leading_byte_width_4(x) < leading_byte_width_4(y) || (leading_byte_width_4(x)
            == leading_byte_width_4(y) && (third_last_continuation_byte(x)
            < third_last_continuation_byte(y) || (third_last_continuation_byte(x)
            == third_last_continuation_byte(y) && (second_last_continuation_byte(x)
            < second_last_continuation_byte(y) || (second_last_continuation_byte(x)
            == second_last_continuation_byte(y) && last_continuation_byte(x)
            < last_continuation_byte(y)))))),
{
}

/// The first bytes of code points of more bytes are greater.
proof fn lemma_order_of_widths(x: u32, y: u32)
    by (bit_vector)
    ensures
        x <= 0x7f ==> leading_byte_width_1(x) <= 0x7f,
        0x80 <= y <= 0x7ff ==> 0xc0 <= leading_byte_width_2(y) <= 0xdf,
        0x800 <= y <= 0xffff ==> 0xe0 <= leading_byte_width_3(y) <= 0xef,
        0x1_0000 <= y <= 0x10_ffff ==> 0xf0 <= leading_byte_width_4(y),
{
}

/// Where the encodings of two code points first differ, the lesser code
/// point has the lesser byte.
proof fn lemma_scalar_order(x: u32, y: u32) -> (k: int)
    requires
        is_scalar(x),
        is_scalar(y),
        x < y,
    ensures
        0 <= k < encode_scalar(x).len(),
        k < encode_scalar(y).len(),
        forall|i: int| 0 <= i < k ==> encode_scalar(x)[i] == encode_scalar(y)[i],
        encode_scalar(x)[k] < encode_scalar(y)[k],
{
    lemma_order_of_widths(x, y);
    lemma_order_of_widths(y, x);
    lemma_order_of_widths(x, x);
    lemma_order_of_widths(y, y);
    let a = encode_scalar(x);
    let b = encode_scalar(y);
    if has_width_1_encoding(y) {
        lemma_order_width_1(x, y);
        0
    } else if has_width_1_encoding(x) {
        0
    } else if has_width_2_encoding(y) {
        lemma_order_width_2(x, y);
        if a[0] < b[0] {
            0
        } else {
            1
        }
    } else if has_width_2_encoding(x) {
        0
    } else if has_width_3_encoding(y) {
        lemma_order_width_3(x, y);
        if a[0] < b[0] {
            0
        } else if a[1] < b[1] {
            1
        } else {
            2
        }
    } else if has_width_3_encoding(x) {
        0
    } else {
        lemma_order_width_4(x, y);
        if a[0] < b[0] {
            0
        } else if a[1] < b[1] {
            1
        } else if a[2] < b[2] {
            2
        } else {
            3
        }
    }
}

/// Text stands to text by the bytes of its UTF-8 encoding as it does by its
/// code points.
pub proof fn lemma_utf8_order(a: Seq<char>, b: Seq<char>)
    ensures
        compare(encode_utf8(a), encode_utf8(b)) == compare_text(a, b),
    decreases a.len(),
{
    if a.len() > 0 && b.len() > 0 {
        let x = a[0] as u32;
        let y = b[0] as u32;
        let s = encode_utf8(a);
        let t = encode_utf8(b);
        char_is_scalar(a[0]);
        char_is_scalar(b[0]);
        if x == y {
            lemma_utf8_order(a.drop_first(), b.drop_first());
            lemma_common_start(
                encode_scalar(x),
                encode_utf8(a.drop_first()),
                encode_utf8(b.drop_first()),
            );
        } else if x < y {
            let k = lemma_scalar_order(x, y);
            assert forall|i: int| 0 <= i <= k implies s[i] == encode_scalar(x)[i] && t[i]
                == encode_scalar(y)[i] by {}
            lemma_first_difference(s, t, k);
        } else {
            let k = lemma_scalar_order(y, x);
            assert forall|i: int| 0 <= i <= k implies s[i] == encode_scalar(x)[i] && t[i]
                == encode_scalar(y)[i] by {}
            lemma_first_difference(t, s, k);
            lemma_compare_flip(t, s);
        }
    } else if a.len() > 0 {
        char_is_scalar(a[0]);
        assert(encode_utf8(a).len() > 0);
    } else if b.len() > 0 {
        char_is_scalar(b[0]);
        assert(encode_utf8(b).len() > 0);
    }
}

} // verus!
