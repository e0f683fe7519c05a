//! The bridge between character strings and their UTF-8 bytes: ASCII
//! sequences decode byte for byte, and a byte below 0x80 occurs in an
//! encoding exactly where its character occurs in the string.
use vstd::prelude::*;
use vstd::utf8::char_is_scalar;
use vstd::utf8::char_u32_cast;
use vstd::utf8::decode_utf8;
use vstd::utf8::encode_scalar;
use vstd::utf8::encode_utf8;
use vstd::utf8::encode_utf8_decode_utf8;
use vstd::utf8::is_ascii_chars;
use vstd::utf8::is_ascii_chars_encode_utf8;
use vstd::utf8::is_leading_byte_width_1;
use vstd::utf8::leading_byte_width_1;
use vstd::utf8::valid_utf8;
use crate::ext::string_from_utf8;
use crate::hexnum::hex_digit;
use crate::hexnum::hex_digit_char;
use crate::hexnum::hex_of;
use crate::hexnum::lemma_hex_of_concat;

verus! {

/// The characters an all-ASCII byte sequence decodes to, byte for byte.
pub open spec fn chars_of_ascii(bytes: Seq<u8>) -> Seq<char> {
    Seq::new(bytes.len(), |i: int| bytes[i] as char)
}

/// True when every byte is below 0x80.
pub open spec fn all_ascii_bytes(bytes: Seq<u8>) -> bool {
    forall|i: int| 0 <= i < bytes.len() ==> #[trigger] bytes[i] < 0x80
}

/// An element is in a concatenation exactly when it is in one of the parts.
pub proof fn lemma_concat_contains<A>(a: Seq<A>, b: Seq<A>, x: A)
    ensures
        (a + b).contains(x) <==> a.contains(x) || b.contains(x),
{
    if (a + b).contains(x) {
        let i = choose|i: int| 0 <= i < (a + b).len() && (a + b)[i] == x;
        if i < a.len() {
            assert(a[i] == x);
        } else {
            assert(b[i - a.len()] == x);
        }
    }
    if a.contains(x) {
        let i = choose|i: int| 0 <= i < a.len() && a[i] == x;
        assert((a + b)[i] == x);
    }
    if b.contains(x) {
        let i = choose|i: int| 0 <= i < b.len() && b[i] == x;
        assert((a + b)[a.len() + i] == x);
    }
}

/// A sequence of bytes below 0x80 is valid UTF-8 and decodes byte for
/// byte.
pub proof fn lemma_ascii_bytes_decode(bytes: Seq<u8>)
    requires
        all_ascii_bytes(bytes),
    ensures
        valid_utf8(bytes),
        decode_utf8(bytes) =~= chars_of_ascii(bytes),
    decreases bytes.len(),
{
    if bytes.len() > 0 {
        let b0 = bytes[0];
        assert(b0 < 0x80);
        assert(is_leading_byte_width_1(b0));
        let tail = bytes.subrange(1, bytes.len() as int);
        assert(all_ascii_bytes(tail));
        lemma_ascii_bytes_decode(tail);
        assert(vstd::utf8::pop_first_scalar(bytes) =~= tail);
        assert(valid_utf8(bytes));
        let cp = vstd::utf8::decode_first_codepoint(bytes);
        assert(cp == vstd::utf8::leading_bits_width_1(b0));
        assert(cp == b0) by (bit_vector)
            requires
                cp == (b0 & 0x7F) as u32 && b0 < 0x80,
        ;
        assert(decode_utf8(bytes) == seq![cp as char] + decode_utf8(tail));
        assert(cp as char == b0 as char);
        assert forall|i: int| 0 <= i < bytes.len() implies #[trigger] decode_utf8(bytes)[i]
            == bytes[i] as char by {
            if i > 0 {
                assert(decode_utf8(tail)[i - 1] == tail[i - 1] as char);
                assert(tail[i - 1] == bytes[i]);
            }
        }
    }
}

/// A byte below 0x80 occurs in a string's UTF-8 encoding exactly where the
/// corresponding character occurs in the string.
pub proof fn lemma_utf8_byte_char(chars: Seq<char>, c: char)
    requires
        (c as u32) < 0x80,
    ensures
        encode_utf8(chars).contains(c as u8) <==> chars.contains(c),
    decreases chars.len(),
{
    let b: u8 = c as u8;
    assert(c as u8 == c as u32) by {
        char_is_scalar(c);
    }
    if chars.len() == 0 {
    } else {
        let c0 = chars[0];
        let s: u32 = c0 as u32;
        char_is_scalar(c0);
        let e0 = encode_scalar(s);
        let rest = encode_utf8(chars.drop_first());
        assert(encode_utf8(chars) == e0 + rest);
        lemma_utf8_byte_char(chars.drop_first(), c);
        lemma_concat_contains(e0, rest, b);
        assert(chars =~= seq![c0] + chars.drop_first());
        lemma_concat_contains(seq![c0], chars.drop_first(), c);
        assert(seq![c0].contains(c) <==> c0 == c);
        if s < 0x80 {
            assert(e0 =~= seq![leading_byte_width_1(s)]);
            assert(leading_byte_width_1(s) == s) by (bit_vector)
                requires
                    s < 0x80,
            ;
            assert(e0.contains(b) <==> leading_byte_width_1(s) == b) by {
                if e0.contains(b) {
                    let j = choose|j: int| 0 <= j < e0.len() && e0[j] == b;
                    assert(j == 0);
                }
                if leading_byte_width_1(s) == b {
                    assert(e0[0] == b);
                }
            }
            if leading_byte_width_1(s) == b {
                assert(s == b as u32);
                char_u32_cast(c0, s);
                char_u32_cast(c, s);
                assert(c0 == c);
            }
            if c0 == c {
                assert(s == c as u32);
            }
        } else {
            assert(vstd::utf8::is_scalar(s));
            assert(forall|j: int| 0 <= j < e0.len() ==> #[trigger] e0[j] >= 0x80) by {
                lemma_encode_scalar_high(s);
            }
            assert(!e0.contains(b)) by {
                if e0.contains(b) {
                    let j = choose|j: int| 0 <= j < e0.len() && e0[j] == b;
                }
            }
            assert(c0 != c);
        }
    }
}

/// Every byte of the encoding of a scalar at or above 0x80 is itself at or
/// above 0x80.
proof fn lemma_encode_scalar_high(s: u32)
    requires
        vstd::utf8::is_scalar(s),
        s >= 0x80,
    ensures
        forall|j: int| 0 <= j < encode_scalar(s).len() ==> #[trigger] encode_scalar(s)[j] >= 0x80,
{
    assert(vstd::utf8::leading_byte_width_2(s) >= 0x80) by (bit_vector);
    assert(vstd::utf8::leading_byte_width_3(s) >= 0x80) by (bit_vector);
    assert(vstd::utf8::leading_byte_width_4(s) >= 0x80) by (bit_vector);
    assert(vstd::utf8::last_continuation_byte(s) >= 0x80) by (bit_vector);
    assert(vstd::utf8::second_last_continuation_byte(s) >= 0x80) by (bit_vector);
    assert(vstd::utf8::third_last_continuation_byte(s) >= 0x80) by (bit_vector);
}

/// The UTF-8 encoding of a concatenation is the concatenation of the
/// encodings.
pub proof fn lemma_encode_utf8_concat(a: Seq<char>, b: Seq<char>)
    ensures
        encode_utf8(a + b) =~= encode_utf8(a) + encode_utf8(b),
    decreases a.len(),
{
    if a.len() == 0 {
        assert(a + b =~= b);
        assert(encode_utf8(a) =~= Seq::<u8>::empty());
    } else {
        lemma_encode_utf8_concat(a.drop_first(), b);
        assert((a + b).drop_first() =~= a.drop_first() + b);
        assert((a + b)[0] == a[0]);
        assert(encode_utf8(a + b) == encode_scalar((a + b)[0] as u32) + encode_utf8(
            (a + b).drop_first(),
        ));
    }
}

/// An all-ASCII string's encoding is the string, byte for byte.
pub proof fn lemma_ascii_encode(chars: Seq<char>)
    requires
        is_ascii_chars(chars),
    ensures
        encode_utf8(chars) =~= Seq::new(chars.len(), |i: int| chars[i] as u8),
        all_ascii_bytes(encode_utf8(chars)),
        chars_of_ascii(encode_utf8(chars)) =~= chars,
{
    is_ascii_chars_encode_utf8(chars);
    assert forall|i: int| 0 <= i < chars.len() implies ((chars[i] as u8) < 0x80 && (
    chars[i] as u8) as char == chars[i]) by {
        char_is_scalar(chars[i]);
        assert((chars[i] as u32) < 0x80);
        char_u32_cast(chars[i], chars[i] as u32);
        assert((chars[i] as u8) as char == (chars[i] as u32) as char);
    }
}

/// Builds the string whose characters are the given ASCII bytes.
pub(crate) fn ascii_string(bytes: Vec<u8>) -> (r: String)
    requires
        all_ascii_bytes(bytes@),
    ensures
        r@ =~= chars_of_ascii(bytes@),
        is_ascii_chars(r@),
        encode_utf8(r@) =~= bytes@,
{
    let ghost gbytes = bytes@;
    proof {
        lemma_ascii_bytes_decode(gbytes);
    }
    match string_from_utf8(bytes) {
        Some(s) => {
            proof {
                encode_utf8_decode_utf8(s@);
                assert(decode_utf8(encode_utf8(s@)) == s@);
                assert(s@ =~= chars_of_ascii(gbytes));
                assert forall|i: int| 0 <= i < s@.len() implies '\0' <= #[trigger] s@[i]
                    <= '\u{7f}' by {
                    assert(s@[i] == gbytes[i] as char);
                    char_u32_cast(gbytes[i] as char, gbytes[i] as u32);
                }
                lemma_ascii_encode(s@);
            }
            s
        },
        None => {
            proof {
                assert(false);
            }
            String::new()
        },
    }
}

/// For an ASCII string `p`, being a byte prefix at the encoding level and
/// a character prefix at the string level are the same.
pub proof fn lemma_ascii_prefix(p: Seq<char>, s: Seq<char>)
    requires
        is_ascii_chars(p),
    ensures
        encode_utf8(p).is_prefix_of(encode_utf8(s)) <==> p.is_prefix_of(s),
    decreases p.len(),
{
    if p.len() == 0 {
        assert(encode_utf8(p) =~= Seq::<u8>::empty());
        assert(encode_utf8(p).is_prefix_of(encode_utf8(s)));
        assert(p =~= s.subrange(0, 0));
        assert(p.is_prefix_of(s));
    } else {
        if p.is_prefix_of(s) {
            let t = s.skip(p.len() as int);
            assert(s =~= p + t);
            lemma_encode_utf8_concat(p, t);
            assert(encode_utf8(p) =~= (encode_utf8(p) + encode_utf8(t)).subrange(
                0,
                encode_utf8(p).len() as int,
            ));
            assert(encode_utf8(p).is_prefix_of(encode_utf8(s)));
        }
        if encode_utf8(p).is_prefix_of(encode_utf8(s)) {
            let c0 = p[0];
            char_is_scalar(c0);
            assert((c0 as u32) < 0x80);
            assert(encode_scalar(c0 as u32) =~= seq![(c0 as u32) as u8]) by {
                let u: u32 = c0 as u32;
                assert(leading_byte_width_1(u) == u as u8) by (bit_vector)
                    requires
                        u < 0x80,
                ;
            }
            assert(encode_utf8(p) == encode_scalar(c0 as u32) + encode_utf8(p.drop_first()));
            assert(encode_utf8(p)[0] == (c0 as u32) as u8);
            lemma_encode_len_zero(p);
            lemma_encode_len_zero(s);
            assert(encode_utf8(s).len() >= encode_utf8(p).len() > 0);
            assert(s.len() > 0);
            let s0 = s[0];
            char_is_scalar(s0);
            assert(encode_utf8(s) == encode_scalar(s0 as u32) + encode_utf8(s.drop_first()));
            assert(encode_utf8(s)[0] == encode_utf8(p)[0]);
            if (s0 as u32) >= 0x80 {
                lemma_encode_scalar_high(s0 as u32);
                assert(encode_scalar(s0 as u32)[0] >= 0x80);
                assert(encode_utf8(s)[0] >= 0x80);
                assert(false);
            }
            assert(encode_scalar(s0 as u32) =~= seq![(s0 as u32) as u8]) by {
                let u: u32 = s0 as u32;
                assert(leading_byte_width_1(u) == u as u8) by (bit_vector)
                    requires
                        u < 0x80,
                ;
            }
            assert((s0 as u32) as u8 == (c0 as u32) as u8);
            assert(s0 as u32 == c0 as u32) by {
                let a: u32 = s0 as u32;
                let b: u32 = c0 as u32;
                assert(a as u8 == b as u8 && a < 0x80 && b < 0x80 ==> a == b) by (bit_vector);
            }
            assert(s0 == c0) by {
                char_u32_cast(s0, s0 as u32);
                char_u32_cast(c0, c0 as u32);
            }
            let pt = p.drop_first();
            let st = s.drop_first();
            assert(encode_utf8(pt) =~= encode_utf8(p).skip(1));
            assert(encode_utf8(st) =~= encode_utf8(s).skip(1));
            assert(is_ascii_chars(pt)) by {
                assert(forall|i: int| 0 <= i < pt.len() ==> #[trigger] pt[i] == p[i + 1]);
            }
            assert(encode_utf8(pt).is_prefix_of(encode_utf8(st))) by {
                assert(encode_utf8(pt) =~= encode_utf8(st).subrange(
                    0,
                    encode_utf8(pt).len() as int,
                ));
            }
            lemma_ascii_prefix(pt, st);
            assert(pt.is_prefix_of(st));
            assert forall|i: int| 0 <= i < p.len() implies #[trigger] p[i] == s[i] by {
                if i > 0 {
                    assert(pt[i - 1] == p[i]);
                    assert(st[i - 1] == s[i]);
                    assert(pt[i - 1] == st.subrange(0, pt.len() as int)[i - 1]);
                }
            }
            assert(p.len() <= s.len());
            assert(p =~= s.subrange(0, p.len() as int));
            assert(p.is_prefix_of(s));
        }
    }
}

/// A string whose UTF-8 bytes are all ASCII is the byte-for-byte reading
/// of those bytes.
pub proof fn lemma_ascii_bytes_chars(chars: Seq<char>)
    requires
        all_ascii_bytes(encode_utf8(chars)),
    ensures
        chars =~= chars_of_ascii(encode_utf8(chars)),
        is_ascii_chars(chars),
{
    encode_utf8_decode_utf8(chars);
    lemma_ascii_bytes_decode(encode_utf8(chars));
    assert(chars =~= chars_of_ascii(encode_utf8(chars)));
    assert forall|i: int| 0 <= i < chars.len() implies '\0' <= #[trigger] chars[i]
        <= '\u{7f}' by {
        assert(chars[i] == encode_utf8(chars)[i] as char);
        char_u32_cast(encode_utf8(chars)[i] as char, encode_utf8(chars)[i] as u32);
    }
}

/// A string encodes to no bytes exactly when it has no characters.
pub proof fn lemma_encode_len_zero(chars: Seq<char>)
    ensures
        encode_utf8(chars).len() == 0 <==> chars.len() == 0,
{
    if chars.len() > 0 {
        char_is_scalar(chars[0]);
        assert(encode_scalar(chars[0] as u32).len() >= 1);
        assert(encode_utf8(chars) == encode_scalar(chars[0] as u32) + encode_utf8(
            chars.drop_first(),
        ));
    }
}

/// Reports whether two strings hold the same characters.
pub fn str_eq(a: &str, b: &str) -> (r: bool)
    ensures
        r == (a@ == b@),
{
    let r = crate::bytesx::bytes_eq(a.as_bytes(), b.as_bytes());
    proof {
        if r {
            encode_utf8_decode_utf8(a@);
            encode_utf8_decode_utf8(b@);
            assert(encode_utf8(a@) == encode_utf8(b@));
            assert(a@ == b@);
        } else {
            if a@ == b@ {
                assert(encode_utf8(a@) =~= encode_utf8(b@));
            }
        }
    }
    r
}

/// Reads an even-length lowercase hexadecimal string as bytes.
pub fn hex_str_to_bytes(s: &str) -> (r: Vec<u8>)
    requires
        s@.len() % 2 == 0,
        forall|i: int| 0 <= i < s@.len() ==> crate::hexnum::is_hex_char(#[trigger] s@[i]),
    ensures
        r@ =~= crate::hexnum::bytes_of_hex(s@),
{
    proof {
        assert forall|i: int| 0 <= i < s@.len() implies '\0' <= #[trigger] s@[i] <= '\u{7f}' by {
            crate::hexnum::lemma_hex_char_ascii(s@[i]);
            char_u32_cast(s@[i], s@[i] as u32);
        }
        lemma_ascii_encode(s@);
    }
    let b = s.as_bytes();
    let n: usize = b.len();
    proof {
        assert(b@ =~= Seq::new(s@.len(), |i: int| s@[i] as u8));
    }
    let mut out: Vec<u8> = Vec::new();
    let mut i: usize = 0;
    while i < n
        invariant
            n == b@.len() == s@.len(),
            s@.len() % 2 == 0,
            forall|k: int| 0 <= k < s@.len() ==> crate::hexnum::is_hex_char(#[trigger] s@[k]),
            b@ =~= Seq::new(s@.len(), |k: int| s@[k] as u8),
            i % 2 == 0,
            0 <= i <= n,
            out@ =~= crate::hexnum::bytes_of_hex(s@.take(i as int)),
        decreases n - i,
    {
        proof {
            assert(i + 1 < n);
        }
        let b0: u8 = *vstd::slice::slice_index_get(b, i);
        let b1: u8 = *vstd::slice::slice_index_get(b, i + 1);
        proof {
            assert(crate::hexnum::is_hex_char(s@[i as int]));
            assert(crate::hexnum::is_hex_char(s@[i + 1]));
            assert(b0 == s@[i as int] as u8);
            assert(b1 == s@[i + 1] as u8);
        }
        let v0: u8 = if b0 <= 0x39 {
            b0 - 0x30
        } else {
            b0 - 0x61 + 10
        };
        let v1: u8 = if b1 <= 0x39 {
            b1 - 0x30
        } else {
            b1 - 0x61 + 10
        };
        proof {
            assert(v0 == crate::hexnum::hex_char_val(s@[i as int]));
            assert(v1 == crate::hexnum::hex_char_val(s@[i + 1]));
        }
        out.push(v0 * 16 + v1);
        proof {
            let prev = s@.take(i as int);
            let two = seq![s@[i as int], s@[i + 1]];
            assert(s@.take(i + 2) =~= prev + two);
            crate::hexnum::lemma_bytes_of_hex_concat(prev, two);
            assert(two.skip(2) =~= Seq::<char>::empty());
            assert(crate::hexnum::bytes_of_hex(Seq::<char>::empty()) =~= Seq::<u8>::empty());
            assert(crate::hexnum::bytes_of_hex(two) =~= seq![
                (crate::hexnum::hex_char_val(two[0]) * 16 + crate::hexnum::hex_char_val(two[1])) as u8,
            ] + crate::hexnum::bytes_of_hex(two.skip(2)));
            assert(out@ =~= crate::hexnum::bytes_of_hex(s@.take(i + 2)));
        }
        i = i + 2;
    }
    proof {
        assert(i == n);
        assert(s@.take(n as int) =~= s@);
    }
    out
}

/// One lowercase hexadecimal digit, as its ASCII byte.
fn hex_digit_ex(v: u8) -> (r: u8)
    requires
        v < 16,
    ensures
        r == hex_digit(v),
        r < 0x80,
{
    if v < 10 {
        0x30 + v
    } else {
        0x57 + v
    }
}

/// Writes a byte string as its lowercase hexadecimal numeral.
pub fn bytes_to_hex(s: &[u8]) -> (r: String)
    ensures
        r@ =~= hex_of(s@),
        is_ascii_chars(r@),
{
    let n: usize = s.len();
    let mut out: Vec<u8> = Vec::new();
    let mut i: usize = 0;
    while i < n
        invariant
            0 <= i <= n,
            n == s@.len(),
            all_ascii_bytes(out@),
            out@.len() == 2 * i,
            chars_of_ascii(out@) =~= hex_of(s@.take(i as int)),
        decreases n - i,
    {
        let b: u8 = *vstd::slice::slice_index_get(s, i);
        let hi = hex_digit_ex(b / 16);
        let lo = hex_digit_ex(b % 16);
        out.push(hi);
        out.push(lo);
        proof {
            let prev = s@.take(i as int);
            let one = seq![s@[i as int]];
            assert(s@.take(i + 1) =~= prev + one);
            lemma_hex_of_concat(prev, one);
            assert(one.drop_first() =~= Seq::<u8>::empty());
            assert(hex_of(Seq::<u8>::empty()) =~= Seq::<char>::empty());
            assert(one[0] == s@[i as int]);
            assert(hex_of(one) =~= seq![
                hex_digit_char((s@[i as int] / 16) as u8),
                hex_digit_char((s@[i as int] % 16) as u8),
            ] + hex_of(Seq::<u8>::empty()));
            assert(hex_of(one) =~= seq![
                hex_digit_char((s@[i as int] / 16) as u8),
                hex_digit_char((s@[i as int] % 16) as u8),
            ]);
            assert(chars_of_ascii(out@) =~= hex_of(s@.take(i + 1)));
        }
        i = i + 1;
    }
    proof {
        assert(s@.take(n as int) =~= s@);
    }
    ascii_string(out)
}

} // verus!
