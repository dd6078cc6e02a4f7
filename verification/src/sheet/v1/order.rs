//! The order of paths that the sheet format sorts by is the order that the
//! standard library gives `Vec<String>`: vectors compare lexicographically,
//! and strings compare lexicographically by their UTF-8 bytes. Both
//! orders are written out here, and the path order is proved to be the
//! byte order.
use vstd::prelude::*;
use vstd::utf8::{
    encode_scalar, encode_utf8, has_width_1_encoding, has_width_2_encoding, has_width_3_encoding,
    has_width_4_encoding, is_scalar, last_continuation_byte, leading_byte_width_1, leading_byte_width_2,
    leading_byte_width_3, leading_byte_width_4, second_last_continuation_byte, third_last_continuation_byte,
};
use crate::sheet::v1::format::{char_lt, path_lt, text_lt};

verus! {

broadcast use vstd::utf8::group_utf8_lib;

/// Lexicographic order of byte sequences (`[u8]::cmp`): the first bytes
/// that differ decide, else the shorter sequence comes first.
pub open spec fn bytes_lt(a: Seq<u8>, b: Seq<u8>) -> bool
    decreases a.len(),
{
    if a.len() == 0 {
        b.len() > 0
    } else if b.len() == 0 {
        false
    } else if a[0] != b[0] {
        a[0] < b[0]
    } else {
        bytes_lt(a.drop_first(), b.drop_first())
    }
}

/// The order of `Vec<String>`: lexicographic over the strings, each pair of
/// strings by the order of their UTF-8 bytes.
pub open spec fn string_vec_lt(a: Seq<Seq<char>>, b: Seq<Seq<char>>) -> bool
    decreases a.len(),
{
    if a.len() == 0 {
        b.len() > 0
    } else if b.len() == 0 {
        false
    } else if encode_utf8(a[0]) != encode_utf8(b[0]) {
        bytes_lt(encode_utf8(a[0]), encode_utf8(b[0]))
    } else {
        string_vec_lt(a.drop_first(), b.drop_first())
    }
}

proof fn lemma_leads(a: u32)
    by (bit_vector)
    ensures
        has_width_1_encoding(a) ==> leading_byte_width_1(a) <= 0x7F,
        has_width_2_encoding(a) ==> 0xC0 <= leading_byte_width_2(a) <= 0xDF,
        has_width_3_encoding(a) ==> 0xE0 <= leading_byte_width_3(a) <= 0xEF,
        has_width_4_encoding(a) ==> 0xF0 <= leading_byte_width_4(a),
{
}

proof fn lemma_width_1(a: u32, b: u32)
    by (bit_vector)
    requires
        a < b <= 0x7F,
    ensures
        leading_byte_width_1(a) < leading_byte_width_1(b),
{
}

proof fn lemma_width_2(a: u32, b: u32)
    by (bit_vector)
    requires
        0x80 <= a < b <= 0x7FF,
    ensures
        leading_byte_width_2(a) < leading_byte_width_2(b) || (leading_byte_width_2(a) == leading_byte_width_2(b)
            && last_continuation_byte(a) < last_continuation_byte(b)),
{
}

proof fn lemma_width_3(a: u32, b: u32)
    by (bit_vector)
    requires
        0x800 <= a < b <= 0xFFFF,
    ensures
        leading_byte_width_3(a) < leading_byte_width_3(b) || (leading_byte_width_3(a) == leading_byte_width_3(b)
            && second_last_continuation_byte(a) < second_last_continuation_byte(b)) || (leading_byte_width_3(a)
            == leading_byte_width_3(b) && second_last_continuation_byte(a) == second_last_continuation_byte(b)
            && last_continuation_byte(a) < last_continuation_byte(b)),
{
}

proof fn lemma_width_4(a: u32, b: u32)
    by (bit_vector)
    requires
        0x10000 <= a < b <= 0x10FFFF,
    ensures
        leading_byte_width_4(a) < leading_byte_width_4(b) || (leading_byte_width_4(a) == leading_byte_width_4(b)
            && third_last_continuation_byte(a) < third_last_continuation_byte(b)) || (leading_byte_width_4(a)
            == leading_byte_width_4(b) && third_last_continuation_byte(a) == third_last_continuation_byte(b)
            && second_last_continuation_byte(a) < second_last_continuation_byte(b)) || (leading_byte_width_4(a)
            == leading_byte_width_4(b) && third_last_continuation_byte(a) == third_last_continuation_byte(b)
            && second_last_continuation_byte(a) == second_last_continuation_byte(b) && last_continuation_byte(a)
            < last_continuation_byte(b)),
{
}


/// `s` and `t` agree before position `k`, and at `k` the byte of `s` is the
/// smaller.
pub open spec fn first_smaller_at(s: Seq<u8>, t: Seq<u8>, k: int) -> bool {
    0 <= k < s.len() && k < t.len() && s.take(k) == t.take(k) && s[k] < t[k]
}

/// The UTF-8 encoding keeps the order of scalar values: the encoding of the
/// smaller value has the smaller byte where the two first differ.
proof fn lemma_scalar_order(a: u32, b: u32) -> (k: int)
    requires
        is_scalar(a),
        is_scalar(b),
        a < b,
    ensures
        first_smaller_at(encode_scalar(a), encode_scalar(b), k),
{
    let ea = encode_scalar(a);
    let eb = encode_scalar(b);
    lemma_leads(a);
    lemma_leads(b);
    if has_width_1_encoding(a) && has_width_1_encoding(b) {
        lemma_width_1(a, b);
        assert(ea.take(0) =~= eb.take(0));
        0
    } else if has_width_2_encoding(a) && has_width_2_encoding(b) {
        lemma_width_2(a, b);
        if ea[0] < eb[0] {
            assert(ea.take(0) =~= eb.take(0));
            0
        } else {
            assert(ea.take(1) =~= eb.take(1));
            1
        }
    } else if has_width_3_encoding(a) && has_width_3_encoding(b) {
        lemma_width_3(a, b);
        if ea[0] < eb[0] {
            assert(ea.take(0) =~= eb.take(0));
            0
        } else if ea[1] < eb[1] {
            assert(ea.take(1) =~= eb.take(1));
            1
        } else {
            assert(ea.take(2) =~= eb.take(2));
            2
        }
    } else if has_width_4_encoding(a) && has_width_4_encoding(b) {
        lemma_width_4(a, b);
        if ea[0] < eb[0] {
            assert(ea.take(0) =~= eb.take(0));
            0
        } else if ea[1] < eb[1] {
            assert(ea.take(1) =~= eb.take(1));
            1
        } else if ea[2] < eb[2] {
            assert(ea.take(2) =~= eb.take(2));
            2
        } else {
            assert(ea.take(3) =~= eb.take(3));
            3
        }
    } else {
        assert(ea.take(0) =~= eb.take(0));
        0
    }
}

/// Sequences that first differ at `k`, the first with the smaller byte,
/// keep that order whatever follows them.
proof fn lemma_first_smaller(s: Seq<u8>, t: Seq<u8>, x: Seq<u8>, y: Seq<u8>, k: int)
    requires
        first_smaller_at(s, t, k),
    ensures
        bytes_lt(s + x, t + y),
        !bytes_lt(t + y, s + x),
    decreases k,
{
    if k > 0 {
        assert(s[0] == s.take(k)[0] && t[0] == t.take(k)[0]);
        assert((s + x).drop_first() =~= s.drop_first() + x);
        assert((t + y).drop_first() =~= t.drop_first() + y);
        assert(s.drop_first().take(k - 1) =~= s.take(k).drop_first());
        assert(t.drop_first().take(k - 1) =~= t.take(k).drop_first());
        lemma_first_smaller(s.drop_first(), t.drop_first(), x, y, k - 1);
    }
}

/// A common prefix does not change the order.
proof fn lemma_common_prefix(e: Seq<u8>, x: Seq<u8>, y: Seq<u8>)
    ensures
        bytes_lt(e + x, e + y) == bytes_lt(x, y),
    decreases e.len(),
{
    if e.len() == 0 {
        assert(e + x =~= x);
        assert(e + y =~= y);
    } else {
        assert((e + x).drop_first() =~= e.drop_first() + x);
        assert((e + y).drop_first() =~= e.drop_first() + y);
        lemma_common_prefix(e.drop_first(), x, y);
    }
}

/// Texts compare by code point exactly as their UTF-8 bytes compare.
proof fn lemma_text_order_is_byte_order(a: Seq<char>, b: Seq<char>)
    ensures
        text_lt(a, b) == bytes_lt(encode_utf8(a), encode_utf8(b)),
    decreases a.len(),
{
    if a.len() > 0 && b.len() > 0 {
        vstd::utf8::char_is_scalar(a[0]);
        vstd::utf8::char_is_scalar(b[0]);
        let ea = encode_scalar(a[0] as u32);
        let eb = encode_scalar(b[0] as u32);
        assert(encode_utf8(a) == ea + encode_utf8(a.drop_first()));
        assert(encode_utf8(b) == eb + encode_utf8(b.drop_first()));
        if a[0] == b[0] {
            lemma_common_prefix(ea, encode_utf8(a.drop_first()), encode_utf8(b.drop_first()));
            lemma_text_order_is_byte_order(a.drop_first(), b.drop_first());
        } else if (a[0] as u32) < (b[0] as u32) {
            let k = lemma_scalar_order(a[0] as u32, b[0] as u32);
            lemma_first_smaller(ea, eb, encode_utf8(a.drop_first()), encode_utf8(b.drop_first()), k);
            assert(char_lt(a[0], b[0]));
        } else {
            vstd::utf8::char_u32_cast(a[0], a[0] as u32);
            vstd::utf8::char_u32_cast(b[0], b[0] as u32);
            assert((b[0] as u32) < (a[0] as u32));
            let k = lemma_scalar_order(b[0] as u32, a[0] as u32);
            lemma_first_smaller(eb, ea, encode_utf8(b.drop_first()), encode_utf8(a.drop_first()), k);
            assert(!char_lt(a[0], b[0]));
        }
    } else if a.len() > 0 {
        assert(encode_utf8(a) == encode_scalar(a[0] as u32) + encode_utf8(a.drop_first()));
        assert(encode_utf8(b).len() == 0);
    } else if b.len() > 0 {
        assert(encode_utf8(b) == encode_scalar(b[0] as u32) + encode_utf8(b.drop_first()));
        assert(encode_utf8(a).len() == 0);
    }
}

/// The order by which the sheet format sorts paths (`path_lt`, which
/// `compare_paths` computes) is the order of `Vec<String>` in the standard
/// library: lexicographic over the strings, each pair of strings by their
/// UTF-8 bytes.
pub proof fn lemma_path_order_is_string_vec_order(a: Seq<Seq<char>>, b: Seq<Seq<char>>)
    ensures
        path_lt(a, b) == string_vec_lt(a, b),
    decreases a.len(),
{
    if a.len() > 0 && b.len() > 0 {
        if a[0] != b[0] {
            assert(encode_utf8(a[0]) != encode_utf8(b[0])) by {
                if encode_utf8(a[0]) == encode_utf8(b[0]) {
                    assert(vstd::utf8::decode_utf8(encode_utf8(a[0])) == a[0]);
                    assert(vstd::utf8::decode_utf8(encode_utf8(b[0])) == b[0]);
                }
            }
            lemma_text_order_is_byte_order(a[0], b[0]);
        } else {
            lemma_path_order_is_string_vec_order(a.drop_first(), b.drop_first());
        }
    }
}

} // verus!
