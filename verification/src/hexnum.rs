//! Lowercase hexadecimal and decimal numerals, as byte and character
//! sequences, with the conversions the object format needs.
use vstd::prelude::*;
use vstd::arithmetic::div_mod::lemma_fundamental_div_mod;

verus! {

/// ASCII code of the lowercase hexadecimal digit for a value below sixteen.
pub open spec fn hex_digit(v: u8) -> u8
    recommends
        v < 16,
{
    if v < 10 {
        (0x30 + v) as u8
    } else {
        (0x57 + v) as u8
    }
}

/// The lowercase hexadecimal digit for a value below sixteen, as a character.
pub open spec fn hex_digit_char(v: u8) -> char
    recommends
        v < 16,
{
    hex_digit(v) as char
}

/// True when `b` is the ASCII code of a lowercase hexadecimal digit.
pub open spec fn is_hex_byte(b: u8) -> bool {
    (0x30 <= b && b <= 0x39) || (0x61 <= b && b <= 0x66)
}

/// True when `c` is a lowercase hexadecimal digit.
pub open spec fn is_hex_char(c: char) -> bool {
    ('0' <= c && c <= '9') || ('a' <= c && c <= 'f')
}

/// Numeric value of the lowercase hexadecimal digit `c`.
pub open spec fn hex_char_val(c: char) -> u8
    recommends
        is_hex_char(c),
{
    if c <= '9' {
        ((c as u32) - 0x30) as u8
    } else {
        ((c as u32) - 0x61 + 10) as u8
    }
}

/// The lowercase hexadecimal numeral of a byte sequence: two digits per
/// byte, high nibble first.
pub open spec fn hex_of(s: Seq<u8>) -> Seq<char>
    decreases s.len(),
{
    if s.len() == 0 {
        Seq::empty()
    } else {
        seq![
            hex_digit_char((s[0] / 16) as u8),
            hex_digit_char((s[0] % 16) as u8),
        ] + hex_of(s.drop_first())
    }
}

/// The bytes denoted by a sequence of hexadecimal digit pairs.
pub open spec fn bytes_of_hex(h: Seq<char>) -> Seq<u8>
    decreases h.len(),
{
    if h.len() < 2 {
        Seq::empty()
    } else {
        seq![(hex_char_val(h[0]) * 16 + hex_char_val(h[1])) as u8] + bytes_of_hex(h.skip(2))
    }
}

/// Each digit of a hexadecimal numeral is a lowercase hexadecimal digit,
/// and the numeral has two digits per byte.
pub proof fn lemma_hex_of_shape(s: Seq<u8>)
    ensures
        hex_of(s).len() == 2 * s.len(),
        forall|i: int| 0 <= i < hex_of(s).len() ==> is_hex_char(#[trigger] hex_of(s)[i]),
    decreases s.len(),
{
    if s.len() > 0 {
        lemma_hex_of_shape(s.drop_first());
        assert(hex_of(s)[0] == hex_digit_char((s[0] / 16) as u8));
        assert(is_hex_char(hex_digit_char((s[0] / 16) as u8)));
        assert(is_hex_char(hex_digit_char((s[0] % 16) as u8)));
        assert forall|i: int| 0 <= i < hex_of(s).len() implies is_hex_char(
            #[trigger] hex_of(s)[i],
        ) by {
            if i >= 2 {
                assert(hex_of(s)[i] == hex_of(s.drop_first())[i - 2]);
            }
        }
    }
}

/// The hexadecimal numeral distributes over concatenation.
pub proof fn lemma_hex_of_concat(a: Seq<u8>, b: Seq<u8>)
    ensures
        hex_of(a + b) =~= hex_of(a) + hex_of(b),
    decreases a.len(),
{
    if a.len() == 0 {
        assert(a + b =~= b);
        assert(hex_of(a) =~= Seq::empty());
    } else {
        lemma_hex_of_concat(a.drop_first(), b);
        assert((a + b).drop_first() =~= a.drop_first() + b);
        assert(hex_of(a + b) =~= seq![
            hex_digit_char(((a + b)[0] / 16) as u8),
            hex_digit_char(((a + b)[0] % 16) as u8),
        ] + hex_of((a + b).drop_first()));
        assert((a + b)[0] == a[0]);
    }
}

/// Encoding the bytes denoted by an even-length hexadecimal numeral yields
/// the numeral back.
pub proof fn lemma_hex_of_bytes_of(h: Seq<char>)
    requires
        h.len() % 2 == 0,
        forall|i: int| 0 <= i < h.len() ==> is_hex_char(#[trigger] h[i]),
    ensures
        hex_of(bytes_of_hex(h)) =~= h,
    decreases h.len(),
{
    if h.len() > 0 {
        assert(is_hex_char(h[0]));
        assert(is_hex_char(h[1]));
        let hv: u8 = hex_char_val(h[0]);
        let lv: u8 = hex_char_val(h[1]);
        assert(hv < 16 && lv < 16);
        let b: u8 = (hv * 16 + lv) as u8;
        assert(b / 16 == hv && b % 16 == lv) by (nonlinear_arith)
            requires
                hv < 16 && lv < 16 && b == hv * 16 + lv,
        ;
        lemma_hex_digit_val_inverse(h[0]);
        lemma_hex_digit_val_inverse(h[1]);
        let t = h.skip(2);
        assert(forall|i: int| 0 <= i < t.len() ==> is_hex_char(#[trigger] t[i]));
        lemma_hex_of_bytes_of(t);
        assert(bytes_of_hex(h).drop_first() =~= bytes_of_hex(t));
    }
}

/// Decoding digit pairs distributes over concatenation at a pair
/// boundary.
pub proof fn lemma_bytes_of_hex_concat(a: Seq<char>, b: Seq<char>)
    requires
        a.len() % 2 == 0,
    ensures
        bytes_of_hex(a + b) =~= bytes_of_hex(a) + bytes_of_hex(b),
    decreases a.len(),
{
    if a.len() == 0 {
        assert(a + b =~= b);
        assert(bytes_of_hex(a) =~= Seq::<u8>::empty());
    } else {
        assert(a.len() >= 2);
        lemma_bytes_of_hex_concat(a.skip(2), b);
        assert((a + b).skip(2) =~= a.skip(2) + b);
        assert((a + b)[0] == a[0] && (a + b)[1] == a[1]);
        assert((a + b).len() >= 2);
    }
}

/// A numeral of digit pairs denotes one byte for each pair.
pub proof fn lemma_bytes_of_hex_len(h: Seq<char>)
    ensures
        h.len() % 2 == 0 ==> bytes_of_hex(h).len() == h.len() / 2,
    decreases h.len(),
{
    if h.len() >= 2 {
        lemma_bytes_of_hex_len(h.skip(2));
    }
}

/// A digit character is recovered from its value.
proof fn lemma_hex_digit_val_inverse(c: char)
    requires
        is_hex_char(c),
    ensures
        hex_char_val(c) < 16,
        hex_digit_char(hex_char_val(c)) == c,
{
}

/// Hexadecimal digits lie in the ASCII range.
pub proof fn lemma_hex_char_ascii(c: char)
    requires
        is_hex_char(c),
    ensures
        (c as u32) < 0x80,
{
}

/// True when `b` is the ASCII code of a decimal digit.
pub open spec fn is_dec_byte(b: u8) -> bool {
    0x30 <= b && b <= 0x39
}

/// The shortest decimal numeral of `n`, as ASCII bytes.
pub open spec fn dec_bytes(n: nat) -> Seq<u8>
    decreases n,
{
    if n < 10 {
        seq![(0x30 + n) as u8]
    } else {
        dec_bytes(n / 10).push((0x30 + n % 10) as u8)
    }
}

/// The shortest decimal numeral of `n`, as characters.
pub open spec fn dec_chars(n: nat) -> Seq<char>
    decreases n,
{
    if n < 10 {
        seq![((0x30 + n) as u8) as char]
    } else {
        dec_chars(n / 10).push(((0x30 + n % 10) as u8) as char)
    }
}

/// The decimal numeral reads the same as bytes and as characters.
pub proof fn lemma_dec_chars_bytes(n: nat)
    ensures
        dec_chars(n).len() == dec_bytes(n).len(),
        forall|i: int|
            0 <= i < dec_bytes(n).len() ==> #[trigger] dec_chars(n)[i] == dec_bytes(n)[i] as char,
    decreases n,
{
    if n >= 10 {
        lemma_dec_chars_bytes(n / 10);
        assert(forall|i: int|
            0 <= i < dec_bytes(n / 10).len() ==> #[trigger] dec_chars(n)[i] == dec_chars(n / 10)[i]
                && dec_bytes(n)[i] == dec_bytes(n / 10)[i]);
    }
}

/// True when every byte of `s` is a decimal digit.
pub open spec fn is_dec_seq(s: Seq<u8>) -> bool {
    forall|i: int| 0 <= i < s.len() ==> is_dec_byte(#[trigger] s[i])
}

/// The value of a decimal numeral (most significant digit first).
pub open spec fn dec_val(s: Seq<u8>) -> int
    decreases s.len(),
{
    if s.len() == 0 {
        0
    } else {
        dec_val(s.drop_last()) * 10 + s.last() - 0x30
    }
}

/// A decimal numeral is nonempty, has only digits, and no leading zero
/// except for the numeral of zero itself.
pub proof fn lemma_dec_bytes_shape(n: nat)
    ensures
        dec_bytes(n).len() >= 1,
        is_dec_seq(dec_bytes(n)),
        n > 0 ==> dec_bytes(n)[0] != 0x30,
    decreases n,
{
    if n >= 10 {
        lemma_dec_bytes_shape(n / 10);
        let s = dec_bytes(n);
        let p = dec_bytes(n / 10);
        assert(s == p.push((0x30 + n % 10) as u8));
        assert(forall|i: int| 0 <= i < p.len() ==> s[i] == #[trigger] p[i]);
        assert(is_dec_byte(s[s.len() - 1]));
    }
}

/// The value of the decimal numeral of `n` is `n`.
pub proof fn lemma_dec_val_of_dec_bytes(n: nat)
    ensures
        dec_val(dec_bytes(n)) == n,
    decreases n,
{
    if n < 10 {
        let s = dec_bytes(n);
        assert(s =~= seq![(0x30 + n) as u8]);
        assert(s.drop_last() =~= Seq::<u8>::empty());
        assert(dec_val(s.drop_last()) == 0);
        assert(s.last() == (0x30 + n) as u8);
        assert((0x30 + n) as u8 == 0x30 + n);
        assert(dec_val(s) == n);
    } else {
        lemma_dec_val_of_dec_bytes(n / 10);
        let s = dec_bytes(n);
        let d: u8 = (0x30 + n % 10) as u8;
        assert(s == dec_bytes(n / 10).push(d));
        assert(s.drop_last() =~= dec_bytes(n / 10));
        assert(s.last() == d);
        assert(n % 10 < 10);
        assert(d - 0x30 == n % 10);
        assert(dec_val(s) == (n / 10) * 10 + n % 10);
        lemma_fundamental_div_mod(n as int, 10);
    }
}

/// Once a prefix of a numeral is worth at least six, appending any bytes
/// cannot bring the value below it.
pub proof fn lemma_dec_val_prefix(s: Seq<u8>, i: int)
    requires
        0 <= i <= s.len(),
        dec_val(s.take(i)) >= 6,
    ensures
        dec_val(s) >= dec_val(s.take(i)),
    decreases s.len() - i,
{
    if i < s.len() {
        let t = s.take(i + 1);
        assert(t.drop_last() =~= s.take(i));
        assert(t.last() == s[i]);
        assert(dec_val(t) == dec_val(s.take(i)) * 10 + s[i] - 0x30);
        assert(s[i] >= 0 && 0x30 == 48);
        assert(dec_val(t) >= dec_val(s.take(i)) * 10 - 48);
        assert(dec_val(t) >= dec_val(s.take(i)));
        lemma_dec_val_prefix(s, i + 1);
    } else {
        assert(s.take(i) =~= s);
    }
}

/// Writes `n` as its shortest decimal numeral.
pub fn u64_to_dec(n: u64) -> (r: Vec<u8>)
    ensures
        r@ =~= dec_bytes(n as nat),
    decreases n,
{
    if n < 10 {
        let mut v: Vec<u8> = Vec::new();
        v.push(0x30u8 + (n as u8));
        v
    } else {
        let mut v: Vec<u8> = u64_to_dec(n / 10);
        v.push(0x30u8 + ((n % 10) as u8));
        v
    }
}

/// Parses a decimal numeral.  Returns its value exactly when the input is a
/// nonempty, all-digit numeral whose value fits the machine's word.
pub fn parse_dec(s: &[u8]) -> (r: Option<usize>)
    ensures
        match r {
            Some(v) => s@.len() > 0 && is_dec_seq(s@) && dec_val(s@) == v as int,
            None => s@.len() == 0 || !is_dec_seq(s@) || dec_val(s@) > usize::MAX as int,
        },
{
    if s.len() == 0 {
        return None;
    }
    let n: usize = s.len();
    let mut acc: usize = 0;
    let mut i: usize = 0;
    while i < n
        invariant
            0 < n == s@.len(),
            0 <= i <= n,
            is_dec_seq(s@.take(i as int)),
            acc as int == dec_val(s@.take(i as int)),
        decreases n - i,
    {
        let b: u8 = *vstd::slice::slice_index_get(s, i);
        if b < 0x30 || b > 0x39 {
            assert(!is_dec_byte(s@[i as int]));
            return None;
        }
        let d: usize = (b - 0x30) as usize;
        proof {
            assert(s@.take(i + 1).drop_last() =~= s@.take(i as int));
            assert(s@.take(i + 1).last() == s@[i as int]);
            assert(dec_val(s@.take(i + 1)) == acc as int * 10 + d);
        }
        if acc > (usize::MAX - d) / 10 {
            proof {
                assert(acc as int * 10 + d > usize::MAX as int) by (nonlinear_arith)
                    requires
                        acc as int > (usize::MAX as int - d) / 10,
                        0 <= d <= 9,
                ;
                assert(dec_val(s@.take(i + 1)) >= 6);
                lemma_dec_val_prefix(s@, i + 1);
                assert(s@.take(n as int) =~= s@);
            }
            return None;
        }
        proof {
            assert(acc as int * 10 + d <= usize::MAX as int) by (nonlinear_arith)
                requires
                    acc as int <= (usize::MAX as int - d) / 10,
                    0 <= d <= 9,
            ;
        }
        acc = acc * 10 + d;
        i = i + 1;
    }
    proof {
        assert(s@.take(n as int) =~= s@);
    }
    Some(acc)
}

} // verus!
