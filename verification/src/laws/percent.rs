//! Percent-encoding and its decoding.

use crate::percent::{
    decoded, decoded_bytes, hex_digit, hex_pair, lemma_next_character, lossy_utf8, next_character,
    replaced, spaced_bytes, unescaped, unescaped_bytes,
};
use vstd::prelude::*;
use vstd::utf8::*;

verus! {

/// A hexadecimal digit, in capitals.
pub open spec fn hex_char(d: int) -> u8 {
    if d < 10 {
        ('0' as u8 + d) as u8
    } else {
        ('A' as u8 + d - 10) as u8
    }
}

/// Every byte as a `%` and two hexadecimal digits.
pub open spec fn percent_encoded(bytes: Seq<u8>) -> Seq<u8>
    decreases bytes.len(),
{
    if bytes.len() == 0 {
        Seq::empty()
    } else {
        seq!['%' as u8, hex_char(bytes[0] as int / 16), hex_char(bytes[0] as int % 16)]
            + percent_encoded(bytes.skip(1))
    }
}

/// At that place stand a `%` and two hexadecimal digits, in any case, for a byte.
pub open spec fn encodes_byte(code: Seq<u8>, at: int, b: u8) -> bool {
    code[at] == '%' as u8 && hex_pair(code[at + 1], code[at + 2]) == Some(b)
}

/// `code` is some bytes, each as a `%` and two hexadecimal digits in any case.
pub open spec fn encodes(code: Seq<u8>, bytes: Seq<u8>) -> bool {
    &&& code.len() == 3 * bytes.len()
    &&& forall|i: int| 0 <= i < bytes.len() ==> encodes_byte(code, 3 * i, #[trigger] bytes[i])
}

proof fn lemma_hex_char(d: int)
    requires
        0 <= d < 16,
    ensures
        hex_digit(hex_char(d)) == Some(d as u8),
        hex_char(d) < 128,
{
}

/// [`percent_encoded`] is one way to encode bytes.
pub proof fn percent_encoding_encodes(bytes: Seq<u8>)
    ensures
        encodes(percent_encoded(bytes), bytes),
    decreases bytes.len(),
{
    if bytes.len() > 0 {
        let b = bytes[0];
        let rest = bytes.skip(1);
        let code = percent_encoded(bytes);
        percent_encoding_encodes(rest);
        lemma_hex_char(b as int / 16);
        lemma_hex_char(b as int % 16);
        assert forall|i: int| 0 <= i < bytes.len() implies encodes_byte(
            code,
            3 * i,
            #[trigger] bytes[i],
        ) by {
            if i > 0 {
                let shorter = percent_encoded(rest);
                assert(rest[i - 1] == bytes[i]);
                assert(code[3 * i] == shorter[3 * (i - 1)]);
                assert(code[3 * i + 1] == shorter[3 * (i - 1) + 1]);
                assert(code[3 * i + 2] == shorter[3 * (i - 1) + 2]);
            }
        }
    }
}

/// An encoding has no `+`.
proof fn lemma_no_plus(code: Seq<u8>, bytes: Seq<u8>)
    requires
        encodes(code, bytes),
    ensures
        spaced_bytes(code) == code,
{
    assert forall|j: int| 0 <= j < code.len() implies #[trigger] code[j] != '+' as u8 by {
        let i = j / 3;
        assert(encodes_byte(code, 3 * i, bytes[i]));
        assert(j == 3 * i || j == 3 * i + 1 || j == 3 * i + 2);
    }
}

proof fn lemma_code_first(code: Seq<u8>, bytes: Seq<u8>, more: Seq<u8>)
    requires
        encodes(code, bytes),
    ensures
        unescaped_bytes(code + more) == bytes + unescaped_bytes(more),
    decreases bytes.len(),
{
    let all = code + more;
    if bytes.len() > 0 {
        let b = bytes[0];
        let rest = bytes.skip(1);
        let shorter = code.skip(3);
        assert(encodes_byte(code, 0, bytes[0]));
        assert forall|i: int| 0 <= i < rest.len() implies encodes_byte(
            shorter,
            3 * i,
            #[trigger] rest[i],
        ) by {
            assert(rest[i] == bytes[i + 1]);
            assert(shorter[3 * i] == code[3 * (i + 1)]);
            assert(shorter[3 * i + 1] == code[3 * (i + 1) + 1]);
            assert(shorter[3 * i + 2] == code[3 * (i + 1) + 2]);
        }
        lemma_code_first(shorter, rest, more);
        assert(all.skip(3) == shorter + more);
        assert(seq![b] + (rest + unescaped_bytes(more)) == bytes + unescaped_bytes(more));
    } else {
        assert(all == more);
        assert(bytes + unescaped_bytes(more) == unescaped_bytes(more));
    }
}

/// Decoding gives back the bytes that were encoded, in whatever case their digits
/// are, and what is to be decoded after them.
pub proof fn decoding_undoes_encoding(code: Seq<u8>, bytes: Seq<u8>, more: Seq<u8>)
    requires
        encodes(code, bytes),
    ensures
        unescaped_bytes(code) == bytes,
        decoded_bytes(code) == bytes,
        unescaped_bytes(code + more) == bytes + unescaped_bytes(more),
        decoded_bytes(code + more) == bytes + decoded_bytes(more),
{
    let none = Seq::<u8>::empty();
    lemma_no_plus(code, bytes);
    lemma_code_first(code, bytes, none);
    assert(code + none == code);
    assert(bytes + unescaped_bytes(none) == bytes);
    lemma_code_first(code, bytes, more);
    lemma_code_first(code, bytes, spaced_bytes(more));
    assert(spaced_bytes(code + more) == spaced_bytes(code) + spaced_bytes(more));
}

proof fn lemma_percent_encoded_is_ascii(bytes: Seq<u8>)
    ensures
        forall|i: int| 0 <= i < percent_encoded(bytes).len() ==> #[trigger] percent_encoded(
            bytes,
        )[i] < 128,
    decreases bytes.len(),
{
    if bytes.len() > 0 {
        lemma_percent_encoded_is_ascii(bytes.skip(1));
        lemma_hex_char(bytes[0] as int / 16);
        lemma_hex_char(bytes[0] as int % 16);
        assert forall|i: int| 0 <= i < percent_encoded(bytes).len() implies #[trigger] percent_encoded(
            bytes,
        )[i] < 128 by {
            if i >= 3 {
                assert(percent_encoded(bytes)[i] == percent_encoded(bytes.skip(1))[i - 3]);
            }
        }
    }
}

/// A text with every byte of it percent-encoded.
pub open spec fn percent_text(s: Seq<char>) -> Seq<char> {
    let code = percent_encoded(encode_utf8(s));
    Seq::new(code.len(), |i: int| code[i] as char)
}

/// Every text, of whatever characters, comes back out of its percent-encoding,
/// in whatever case the digits are.
pub proof fn decoding_gives_back_every_text(code: Seq<char>, s: Seq<char>)
    requires
        encodes(encode_utf8(code), encode_utf8(s)),
    ensures
        decoded(code) == s,
        unescaped(code) == s,
{
    decoding_undoes_encoding(encode_utf8(code), encode_utf8(s), Seq::empty());
    text_in_utf8_is_read_as_it_is(s);
}

/// [`percent_text`] is one way to encode a text.
pub proof fn percent_text_encodes(s: Seq<char>)
    ensures
        encodes(encode_utf8(percent_text(s)), encode_utf8(s)),
        decoded(percent_text(s)) == s,
        unescaped(percent_text(s)) == s,
{
    let bytes = encode_utf8(s);
    let code = percent_encoded(bytes);
    let text = percent_text(s);
    lemma_percent_encoded_is_ascii(bytes);
    assert forall|i: int| 0 <= i < text.len() implies '\0' <= #[trigger] text[i] <= '\u{7f}' by {
        assert(code[i] < 128);
    }
    is_ascii_chars_encode_utf8(text);
    assert forall|i: int| 0 <= i < code.len() implies encode_utf8(text)[i] == code[i] by {
        assert(code[i] < 128);
        assert(text[i] as u8 == encode_utf8(text)[i]);
    }
    assert(encode_utf8(text) == code);
    percent_encoding_encodes(bytes);
    decoding_gives_back_every_text(text, s);
}

proof fn lemma_high_bits(y: u8)
    by (bit_vector)
    ensures
        0x80u8 | y >= 0x80u8,
        0xc0u8 | y >= 0x80u8,
        0xe0u8 | y >= 0x80u8,
        0xf0u8 | y >= 0x80u8,
{
}

proof fn lemma_low_bits(v: u32)
    by (bit_vector)
    requires
        v <= 0x7f,
    ensures
        v & 0x7f == v,
{
}

/// The UTF-8 of a character holds no other ASCII character.
proof fn lemma_char_bytes(c: char, x: u8)
    requires
        x < 128,
        c != x as char,
    ensures
        forall|i: int|
            0 <= i < encode_scalar(c as u32).len() ==> #[trigger] encode_scalar(c as u32)[i] != x,
{
    let v = c as u32;
    if has_width_1_encoding(v) {
        lemma_low_bits(v);
    } else {
        lemma_high_bits((v & 0x3F) as u8);
        lemma_high_bits(((v >> 6) & 0x3F) as u8);
        lemma_high_bits(((v >> 12) & 0x3F) as u8);
        lemma_high_bits(((v >> 6) & 0x1F) as u8);
        lemma_high_bits(((v >> 12) & 0x0F) as u8);
        lemma_high_bits(((v >> 18) & 0x7) as u8);
    }
}

/// The UTF-8 of two texts, one after the other.
proof fn lemma_encode_add(a: Seq<char>, b: Seq<char>)
    ensures
        encode_utf8(a + b) == encode_utf8(a) + encode_utf8(b),
    decreases a.len(),
{
    if a.len() > 0 {
        lemma_encode_add(a.drop_first(), b);
        assert((a + b)[0] == a[0]);
        assert((a + b).drop_first() == a.drop_first() + b);
        assert(encode_utf8(a + b) == encode_scalar(a[0] as u32) + encode_utf8(
            a.drop_first() + b,
        ));
        assert(encode_utf8(a) == encode_scalar(a[0] as u32) + encode_utf8(a.drop_first()));
    } else {
        assert(a + b == b);
        assert(encode_utf8(a) + encode_utf8(b) == encode_utf8(b));
    }
}

/// The text with each `+` made a space.
pub open spec fn spaced(s: Seq<char>) -> Seq<char> {
    Seq::new(
        s.len(),
        |i: int|
            if s[i] == '+' {
                ' '
            } else {
                s[i]
            },
    )
}

/// Making each `+` a space can be done before or after encoding in UTF-8.
proof fn lemma_spaced_utf8(s: Seq<char>)
    ensures
        spaced_bytes(encode_utf8(s)) == encode_utf8(spaced(s)),
    decreases s.len(),
{
    if s.len() > 0 {
        let c = s[0];
        let rest = s.drop_first();
        let start = encode_scalar(c as u32);
        lemma_spaced_utf8(rest);
        assert(encode_utf8(s) == start + encode_utf8(rest));
        assert(spaced(s).drop_first() == spaced(rest));
        assert(encode_utf8(spaced(s)) == encode_scalar(spaced(s)[0] as u32) + encode_utf8(
            spaced(rest),
        ));
        assert(spaced_bytes(start) == encode_scalar(spaced(s)[0] as u32)) by {
            if c == '+' {
                lemma_low_bits('+' as u32);
                lemma_low_bits(' ' as u32);
                assert(start == seq!['+' as u8]);
                assert(encode_scalar(' ' as u32) == seq![' ' as u8]);
            } else {
                lemma_char_bytes(c, '+' as u8);
            }
        }
        assert(spaced_bytes(start + encode_utf8(rest)) == spaced_bytes(start) + spaced_bytes(
            encode_utf8(rest),
        ));
    } else {
        assert(encode_utf8(s) == Seq::<u8>::empty());
        assert(spaced(s) == s);
    }
}

proof fn lemma_no_percent_utf8(s: Seq<char>)
    requires
        !s.contains('%'),
    ensures
        forall|i: int|
            0 <= i < encode_utf8(s).len() ==> #[trigger] encode_utf8(s)[i] != '%' as u8,
    decreases s.len(),
{
    if s.len() > 0 {
        let rest = s.drop_first();
        assert(s.contains(s[0]));
        assert(!rest.contains('%')) by {
            if rest.contains('%') {
                let k = choose|k: int| 0 <= k < rest.len() && rest[k] == '%';
                assert(s[k + 1] == '%');
            }
        }
        lemma_no_percent_utf8(rest);
        lemma_char_bytes(s[0], '%' as u8);
        let start = encode_scalar(s[0] as u32);
        assert forall|i: int| 0 <= i < encode_utf8(s).len() implies #[trigger] encode_utf8(s)[i]
            != '%' as u8 by {
            if i < start.len() {
                assert(encode_utf8(s)[i] == start[i]);
            } else {
                assert(encode_utf8(s)[i] == encode_utf8(rest)[i - start.len()]);
            }
        }
    }
}

proof fn lemma_no_percent_first(bytes: Seq<u8>, more: Seq<u8>)
    requires
        forall|i: int| 0 <= i < bytes.len() ==> #[trigger] bytes[i] != '%' as u8,
    ensures
        unescaped_bytes(bytes + more) == bytes + unescaped_bytes(more),
    decreases bytes.len(),
{
    let all = bytes + more;
    if bytes.len() > 0 {
        let rest = bytes.skip(1);
        assert(forall|i: int| 0 <= i < rest.len() ==> rest[i] == bytes[i + 1]);
        lemma_no_percent_first(rest, more);
        assert(all[0] == bytes[0]);
        assert(all.skip(1) == rest + more);
        assert(seq![bytes[0]] + (rest + unescaped_bytes(more)) == bytes + unescaped_bytes(more));
    } else {
        assert(all == more);
        assert(bytes + unescaped_bytes(more) == unescaped_bytes(more));
    }
}

/// A character stays the first whatever bytes follow it.
proof fn lemma_first_kept(bytes: Seq<u8>, more: Seq<u8>)
    requires
        valid_first_scalar(bytes),
    ensures
        valid_first_scalar(bytes + more),
        decode_first_scalar(bytes + more) == decode_first_scalar(bytes),
        pop_first_scalar(bytes + more) == pop_first_scalar(bytes) + more,
{
    let n = length_of_first_scalar(bytes);
    assert(forall|i: int| 0 <= i < n ==> (bytes + more)[i] == bytes[i]);
    assert((bytes + more)[0] == bytes[0]);
    assert(length_of_first_scalar(bytes + more) == n);
}

/// Bytes that hold a text in UTF-8 are read as that text, and then what follows
/// them is read, whatever bytes it is.
pub proof fn text_in_utf8_comes_through(a: Seq<char>, more: Seq<u8>)
    ensures
        lossy_utf8(encode_utf8(a) + more) == a + lossy_utf8(more),
    decreases a.len(),
{
    let bytes = encode_utf8(a);
    if a.len() > 0 {
        let rest = a.drop_first();
        encode_utf8_first_scalar(a);
        char_u32_cast(a[0], decode_first_scalar(bytes));
        assert(pop_first_scalar(bytes) == encode_utf8(rest));
        lemma_first_kept(bytes, more);
        text_in_utf8_comes_through(rest, more);
        assert(seq![a[0]] + (rest + lossy_utf8(more)) == a + lossy_utf8(more));
    } else {
        assert(bytes + more == more);
        assert(a + lossy_utf8(more) == lossy_utf8(more));
    }
}

/// Bytes that are a text in UTF-8 are read as that text.
pub proof fn text_in_utf8_is_read_as_it_is(s: Seq<char>)
    ensures
        lossy_utf8(encode_utf8(s)) == s,
{
    let none = Seq::<u8>::empty();
    text_in_utf8_comes_through(s, none);
    assert(encode_utf8(s) + none == encode_utf8(s));
    assert(s + lossy_utf8(none) == s);
}

/// Bytes in UTF-8 are read as the text they encode.
pub proof fn valid_utf8_is_decoded(bytes: Seq<u8>)
    requires
        valid_utf8(bytes),
    ensures
        lossy_utf8(bytes) == decode_utf8(bytes),
{
    decode_utf8_encode_utf8(bytes);
    text_in_utf8_is_read_as_it_is(decode_utf8(bytes));
}

/// A text with no `%` stands for itself where it stands, but for each `+` in a
/// query, which is a space; what is to be decoded after it follows.
pub proof fn text_without_escapes_comes_through(a: Seq<char>, b: Seq<char>)
    requires
        !a.contains('%'),
    ensures
        unescaped_bytes(encode_utf8(a + b)) == encode_utf8(a) + unescaped_bytes(encode_utf8(b)),
        decoded_bytes(encode_utf8(a + b)) == encode_utf8(spaced(a)) + decoded_bytes(
            encode_utf8(b),
        ),
        unescaped(a + b) == a + unescaped(b),
        decoded(a + b) == spaced(a) + decoded(b),
{
    lemma_encode_add(a, b);
    lemma_no_percent_utf8(a);
    lemma_no_percent_first(encode_utf8(a), encode_utf8(b));
    lemma_spaced_utf8(a);
    assert(!spaced(a).contains('%')) by {
        if spaced(a).contains('%') {
            let k = choose|k: int| 0 <= k < spaced(a).len() && spaced(a)[k] == '%';
            assert(a[k] == '%');
        }
    }
    lemma_no_percent_utf8(spaced(a));
    lemma_no_percent_first(encode_utf8(spaced(a)), spaced_bytes(encode_utf8(b)));
    assert(spaced_bytes(encode_utf8(a) + encode_utf8(b)) == spaced_bytes(encode_utf8(a))
        + spaced_bytes(encode_utf8(b)));
    text_in_utf8_comes_through(a, unescaped_bytes(encode_utf8(b)));
    text_in_utf8_comes_through(spaced(a), decoded_bytes(encode_utf8(b)));
}

/// A text with no `%` stands for itself, `+` and all; in a query it does so where
/// it has no `+`.
pub proof fn plain_text_is_decoded_to_itself(s: Seq<char>)
    requires
        !s.contains('%'),
    ensures
        unescaped(s) == s,
        decoded(s) == spaced(s),
        !s.contains('+') ==> decoded(s) == s,
{
    let none = Seq::<char>::empty();
    text_without_escapes_comes_through(s, none);
    assert(encode_utf8(none) == Seq::<u8>::empty());
    assert(s + none == s);
    assert(unescaped_bytes(encode_utf8(none)) == Seq::<u8>::empty());
    assert(spaced_bytes(encode_utf8(none)) == encode_utf8(none));
    assert(s + unescaped(none) == s);
    assert(spaced(s) + decoded(none) == spaced(s));
    if !s.contains('+') {
        assert forall|i: int| 0 <= i < s.len() implies spaced(s)[i] == s[i] by {
            assert(s.contains(s[i]));
        }
        assert(spaced(s) == s);
    }
}

/// An ASCII byte at the start of a text in UTF-8 is its first character.
proof fn lemma_ascii_first(s: Seq<char>)
    requires
        s.len() > 0,
        encode_utf8(s)[0] < 128,
    ensures
        encode_utf8(s) == seq![encode_utf8(s)[0]] + encode_utf8(s.drop_first()),
{
    char_is_scalar(s[0]);
    let v = s[0] as u32;
    let start = encode_scalar(v);
    assert(encode_utf8(s) == start + encode_utf8(s.drop_first()));
    assert(encode_utf8(s)[0] == start[0]);
    if !has_width_1_encoding(v) {
        lemma_high_bits(((v >> 6) & 0x1F) as u8);
        lemma_high_bits(((v >> 12) & 0x0F) as u8);
        lemma_high_bits(((v >> 18) & 0x7) as u8);
    }
}

/// Whether a text begins with a `%` and two hexadecimal digits.
spec fn begins_with_escape(s: Seq<char>) -> bool {
    let bytes = encode_utf8(s);
    bytes.len() > 2 && bytes[0] == '%' as u8 && hex_pair(bytes[1], bytes[2]) is Some
}

proof fn lemma_escape_first(s: Seq<char>)
    requires
        begins_with_escape(s),
    ensures
        s.len() >= 3,
        encode_utf8(s).len() == 3 + encode_utf8(s.skip(3)).len(),
        unescaped_bytes(encode_utf8(s)).len() > 0,
        unescaped_bytes(encode_utf8(s)).skip(1) == unescaped_bytes(encode_utf8(s.skip(3))),
{
    let bytes = encode_utf8(s);
    lemma_ascii_first(s);
    let second = s.drop_first();
    assert(encode_utf8(second)[0] == bytes[1]);
    assert(encode_utf8(second).len() > 0);
    lemma_ascii_first(second);
    let third = second.drop_first();
    assert(encode_utf8(third)[0] == bytes[2]);
    lemma_ascii_first(third);
    assert(third.drop_first() == s.skip(3));
    assert(bytes.skip(3) == encode_utf8(s.skip(3)));
    let b = hex_pair(bytes[1], bytes[2])->0;
    assert((seq![b] + unescaped_bytes(bytes.skip(3))).skip(1) == unescaped_bytes(bytes.skip(3)));
}

/// A character that begins no escape is read as it is.
proof fn lemma_character_first(s: Seq<char>)
    requires
        s.len() > 0,
        !begins_with_escape(s),
    ensures
        unescaped_bytes(encode_utf8(s)) == encode_utf8(seq![s[0]]) + unescaped_bytes(
            encode_utf8(s.drop_first()),
        ),
        valid_first_scalar(unescaped_bytes(encode_utf8(s))),
        unescaped(s) == seq![s[0]] + unescaped(s.drop_first()),
{
    let first = seq![s[0]];
    let rest = s.drop_first();
    assert(s == first + rest);
    lemma_encode_add(first, rest);
    if first.contains('%') {
        assert(s[0] == '%');
        lemma_low_bits('%' as u32);
        assert(encode_utf8(first.drop_first()) == Seq::<u8>::empty());
        assert(encode_utf8(first) == seq!['%' as u8]);
        assert(encode_utf8(s).skip(1) == encode_utf8(rest));
    } else {
        lemma_no_percent_utf8(first);
        lemma_no_percent_first(encode_utf8(first), encode_utf8(rest));
    }
    encode_utf8_first_scalar(first);
    lemma_first_kept(encode_utf8(first), unescaped_bytes(encode_utf8(rest)));
    text_in_utf8_comes_through(first, unescaped_bytes(encode_utf8(rest)));
}

/// Bytes from an escape up to the next character all come from escapes.
proof fn lemma_escapes_first(s: Seq<char>, k: int)
    requires
        1 <= k <= unescaped_bytes(encode_utf8(s)).len(),
        begins_with_escape(s),
        forall|j: int|
            1 <= j < k ==> !valid_first_scalar(
                #[trigger] unescaped_bytes(encode_utf8(s)).skip(j),
            ),
    ensures
        3 * k <= s.len(),
        encode_utf8(s).len() == 3 * k + encode_utf8(s.skip(3 * k)).len(),
        unescaped_bytes(encode_utf8(s)).skip(k) == unescaped_bytes(encode_utf8(s.skip(3 * k))),
    decreases k,
{
    let bytes = unescaped_bytes(encode_utf8(s));
    let rest = s.skip(3);
    let after = unescaped_bytes(encode_utf8(rest));
    lemma_escape_first(s);
    if k > 1 {
        assert(!valid_first_scalar(bytes.skip(1)));
        assert(after.len() > 0);
        assert(rest.len() > 0) by {
            if rest.len() == 0 {
                assert(encode_utf8(rest) == Seq::<u8>::empty());
            }
        }
        if !begins_with_escape(rest) {
            lemma_character_first(rest);
        }
        assert forall|j: int| 1 <= j < k - 1 implies !valid_first_scalar(
            #[trigger] after.skip(j),
        ) by {
            assert(after.skip(j) == bytes.skip(j + 1));
        }
        lemma_escapes_first(rest, k - 1);
        assert(rest.skip(3 * (k - 1)) == s.skip(3 * k));
        assert(after.skip(k - 1) == bytes.skip(k));
    }
}

/// A U+FFFD takes three bytes.
proof fn lemma_replaced_len(bytes: Seq<u8>, n: nat)
    requires
        n <= bytes.len(),
    ensures
        encode_utf8(Seq::new(n, |i: int| '\u{fffd}')).len() <= 3 * bytes.len(),
    decreases n,
{
    let text = Seq::new(n, |i: int| '\u{fffd}');
    if n > 0 {
        let shorter = Seq::new((n - 1) as nat, |i: int| '\u{fffd}');
        assert(text.drop_first() == shorter);
        lemma_replaced_len(bytes.skip(1), (n - 1) as nat);
    }
}

proof fn lemma_first_len(bytes: Seq<u8>)
    requires
        valid_first_scalar(bytes),
    ensures
        encode_utf8(seq![decode_first_scalar(bytes) as char]).len() == length_of_first_scalar(
            bytes,
        ),
        length_of_first_scalar(bytes) <= bytes.len(),
{
    let n = length_of_first_scalar(bytes);
    let start = take_first_scalar(bytes);
    assert(start.len() == n);
    assert(forall|i: int| 0 <= i < n ==> start[i] == bytes[i]);
    assert(start[0] == bytes[0]);
    assert(pop_first_scalar(start) == Seq::<u8>::empty());
    assert(valid_utf8(pop_first_scalar(start)));
    assert(valid_utf8(start));
    decode_utf8_first_scalar(start);
    let text = seq![decode_first_scalar(bytes) as char];
    assert(encode_utf8(text.drop_first()) == Seq::<u8>::empty());
    assert(take_first_scalar(start) == start);
}

proof fn lemma_never_longer(s: Seq<char>)
    ensures
        encode_utf8(unescaped(s)).len() <= encode_utf8(s).len(),
    decreases s.len(),
{
    let bytes = unescaped_bytes(encode_utf8(s));
    if s.len() == 0 {
        assert(encode_utf8(s) == Seq::<u8>::empty());
        assert(unescaped(s) == s);
    } else if !begins_with_escape(s) {
        let rest = s.drop_first();
        lemma_character_first(s);
        lemma_never_longer(rest);
        lemma_encode_add(seq![s[0]], unescaped(rest));
        lemma_encode_add(seq![s[0]], rest);
        assert(s == seq![s[0]] + rest);
    } else {
        lemma_escape_first(s);
        let (start, k) = if valid_first_scalar(bytes) {
            (seq![decode_first_scalar(bytes) as char], length_of_first_scalar(bytes))
        } else {
            let n = next_character(bytes) as int;
            (replaced(bytes.take(n)), n)
        };
        if valid_first_scalar(bytes) {
            lemma_first_len(bytes);
            assert forall|j: int| 1 <= j < k implies !valid_first_scalar(
                #[trigger] bytes.skip(j),
            ) by {
                assert(bytes.skip(j)[0] == bytes[j]);
                assert(is_continuation_byte(bytes[j]));
            }
            assert(pop_first_scalar(bytes) == bytes.skip(k));
        } else {
            lemma_next_character(bytes);
            assert(bytes.take(k).len() == k);
            lemma_replaced_len(bytes.take(k), start.len());
            assert(start == Seq::new(start.len(), |i: int| '\u{fffd}'));
        }
        lemma_escapes_first(s, k);
        let rest = s.skip(3 * k);
        lemma_never_longer(rest);
        assert(unescaped(s) == start + unescaped(rest));
        lemma_encode_add(start, unescaped(rest));
    }
}

/// Decoding never makes a text longer, counted in bytes, not even where characters
/// stand in for bytes that are not UTF-8.
pub proof fn decoding_never_lengthens_a_text(s: Seq<char>)
    ensures
        encode_utf8(unescaped(s)).len() <= encode_utf8(s).len(),
        encode_utf8(decoded(s)).len() <= encode_utf8(s).len(),
{
    lemma_never_longer(s);
    lemma_never_longer(spaced(s));
    lemma_spaced_utf8(s);
}

pub proof fn lemma_percent_text(s: Seq<char>)
    ensures
        forall|i: int|
            0 <= i < percent_text(s).len() ==> {
                let c = #[trigger] percent_text(s)[i];
                c == '%' || '0' <= c <= '9' || 'A' <= c <= 'F'
            },
        s.len() > 0 ==> percent_text(s).len() > 0,
{
    let bytes = encode_utf8(s);
    lemma_percent_bytes(bytes);
    if s.len() > 0 {
        encode_utf8_first_scalar(s);
        assert(bytes.len() > 0);
    }
}

proof fn lemma_percent_bytes(bytes: Seq<u8>)
    ensures
        forall|i: int|
            0 <= i < percent_encoded(bytes).len() ==> {
                let b = #[trigger] percent_encoded(bytes)[i];
                b == '%' as u8 || '0' as u8 <= b <= '9' as u8 || 'A' as u8 <= b <= 'F' as u8
            },
        bytes.len() > 0 ==> percent_encoded(bytes).len() > 0,
    decreases bytes.len(),
{
    if bytes.len() > 0 {
        let rest = bytes.skip(1);
        lemma_percent_bytes(rest);
        assert forall|i: int| 0 <= i < percent_encoded(bytes).len() implies {
            let b = #[trigger] percent_encoded(bytes)[i];
            b == '%' as u8 || '0' as u8 <= b <= '9' as u8 || 'A' as u8 <= b <= 'F' as u8
        } by {
            if i >= 3 {
                assert(percent_encoded(bytes)[i] == percent_encoded(rest)[i - 3]);
            }
        }
    }
}

/// The hexadecimal digits, small and in capitals, have their places for values; no
/// other byte is a digit.
pub proof fn a_digit_stands_for_its_place(b: u8, d: int)
    requires
        0 <= d < 16,
    ensures
        hex_digit(b) == Some(d as u8) <==> b == "0123456789abcdef"@[d] as u8 || b
            == "0123456789ABCDEF"@[d] as u8,
        hex_digit(b) matches Some(value) ==> value < 16,
{
    reveal_strlit("0123456789abcdef");
    reveal_strlit("0123456789ABCDEF");
}

/// Two digits stand for a byte, the high one first; a byte that is no digit makes
/// them stand for none.
pub proof fn two_digits_stand_for_a_byte(high: u8, low: u8, b: u8)
    ensures
        hex_pair(high, low) == Some(b) <==> hex_digit(high) == Some((b / 16) as u8) && hex_digit(
            low,
        ) == Some((b % 16) as u8),
        hex_pair(high, low) is None <==> hex_digit(high) is None || hex_digit(low) is None,
{
}

/// A byte other than `%`, and a `%` with no two digits after it, stand for
/// themselves; in a query a `+` is a space.
pub proof fn a_byte_that_begins_no_escape_stays(b: u8, more: Seq<u8>)
    requires
        b != '%' as u8 || more.len() < 2 || hex_pair(more[0], more[1]) is None,
    ensures
        unescaped_bytes(seq![b] + more) == seq![b] + unescaped_bytes(more),
        decoded_bytes(seq![b] + more) == seq![
            if b == '+' as u8 {
                ' ' as u8
            } else {
                b
            },
        ] + decoded_bytes(more),
{
    let all = seq![b] + more;
    assert(all.skip(1) == more);
    let c = if b == '+' as u8 {
        ' ' as u8
    } else {
        b
    };
    let spaced_more = spaced_bytes(more);
    assert(spaced_bytes(all) == seq![c] + spaced_more);
    assert((seq![c] + spaced_more).skip(1) == spaced_more);
}

/// Nothing stands for nothing.
pub proof fn nothing_is_decoded_to_nothing()
    ensures
        unescaped_bytes(Seq::empty()) == Seq::<u8>::empty(),
        decoded_bytes(Seq::empty()) == Seq::<u8>::empty(),
        lossy_utf8(Seq::empty()) == Seq::<char>::empty(),
{
    assert(spaced_bytes(Seq::empty()) == Seq::<u8>::empty());
}

/// A stretch of bytes in which no character begins is read as U+FFFD, once or more,
/// but no more often than it has bytes; and what follows it, from the next
/// character on, is read as if it stood alone.
pub proof fn bytes_between_characters_are_replaced(stretch: Seq<u8>, more: Seq<u8>)
    requires
        stretch.len() > 0,
        forall|j: int|
            0 <= j < stretch.len() ==> !valid_first_scalar(#[trigger] (stretch + more).skip(j)),
        more.len() > 0 ==> valid_first_scalar(more),
    ensures
        lossy_utf8(stretch + more) == lossy_utf8(stretch) + lossy_utf8(more),
        1 <= lossy_utf8(stretch).len() <= stretch.len(),
        forall|i: int|
            0 <= i < lossy_utf8(stretch).len() ==> #[trigger] lossy_utf8(stretch)[i]
                == '\u{fffd}',
{
    let all = stretch + more;
    let n = stretch.len() as int;
    assert(all.skip(0) == all);
    assert(all.skip(n) == more);
    lemma_next_is(all, n);
    assert forall|j: int| 0 <= j < n implies !valid_first_scalar(#[trigger] stretch.skip(j)) by {
        if valid_first_scalar(stretch.skip(j)) {
            lemma_first_kept(stretch.skip(j), more);
            assert(stretch.skip(j) + more == all.skip(j));
        }
    }
    assert(stretch.skip(0) == stretch);
    assert(stretch.skip(n) == Seq::<u8>::empty());
    lemma_next_is(stretch, n);
    assert(all.take(n) == stretch);
    assert(stretch.take(n) == stretch);
    assert(lossy_utf8(stretch.skip(n)) == Seq::<char>::empty());
    assert(lossy_utf8(stretch) == replaced(stretch));
}

proof fn lemma_next_is(bytes: Seq<u8>, n: int)
    requires
        0 <= n <= bytes.len(),
        forall|j: int| 0 <= j < n ==> !valid_first_scalar(#[trigger] bytes.skip(j)),
        n < bytes.len() ==> valid_first_scalar(bytes.skip(n)),
    ensures
        next_character(bytes) == n,
    decreases n,
{
    assert(bytes.skip(0) == bytes);
    if n > 0 {
        let rest = bytes.skip(1);
        assert(!valid_first_scalar(bytes.skip(0)));
        assert forall|j: int| 0 <= j < n - 1 implies !valid_first_scalar(
            #[trigger] rest.skip(j),
        ) by {
            assert(rest.skip(j) == bytes.skip(j + 1));
        }
        assert(rest.skip(n - 1) == bytes.skip(n));
        lemma_next_is(rest, n - 1);
    }
}

} // verus!
