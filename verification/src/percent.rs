//! Percent-decoding of `mailto:` URIs, and bytes read as text.

use vstd::prelude::*;
use vstd::utf8::*;

verus! {

/// Where the first whole character in some bytes begins; their number where they
/// hold none.
pub open spec fn next_character(bytes: Seq<u8>) -> nat
    decreases bytes.len(),
{
    if bytes.len() == 0 || valid_first_scalar(bytes) {
        0
    } else {
        1 + next_character(bytes.skip(1))
    }
}

/// No character begins before the next.
pub proof fn lemma_next_character(bytes: Seq<u8>)
    ensures
        next_character(bytes) <= bytes.len(),
        forall|j: int|
            0 <= j < next_character(bytes) ==> !valid_first_scalar(#[trigger] bytes.skip(j)),
    decreases bytes.len(),
{
    assert(bytes.skip(0) == bytes);
    if bytes.len() > 0 && !valid_first_scalar(bytes) {
        let rest = bytes.skip(1);
        lemma_next_character(rest);
        assert forall|j: int| 0 <= j < next_character(bytes) implies !valid_first_scalar(
            #[trigger] bytes.skip(j),
        ) by {
            if j > 0 {
                assert(rest.skip(j - 1) == bytes.skip(j));
            }
        }
    }
}

/// How many U+FFFD the standard library puts in the place of bytes that hold no
/// character.
pub uninterp spec fn replacements(bytes: Seq<u8>) -> nat;

/// What stands in the place of bytes that hold no character: one U+FFFD or more,
/// but no more than there are bytes.
pub open spec fn replaced(bytes: Seq<u8>) -> Seq<char> {
    let n = replacements(bytes);
    Seq::new(
        if n < 1 {
            1
        } else if n > bytes.len() {
            bytes.len()
        } else {
            n
        },
        |i: int| '\u{fffd}',
    )
}

/// Bytes as text: every character in UTF-8 is kept, and what stands between two of
/// them is replaced.
pub open spec fn lossy_utf8(bytes: Seq<u8>) -> Seq<char>
    decreases bytes.len(),
{
    if bytes.len() == 0 {
        Seq::empty()
    } else if valid_first_scalar(bytes) {
        seq![decode_first_scalar(bytes) as char] + lossy_utf8(pop_first_scalar(bytes))
    } else {
        let n = next_character(bytes) as int;
        proof {
            lemma_next_character(bytes);
        }
        replaced(bytes.take(n)) + lossy_utf8(bytes.skip(n))
    }
}

/// Bytes that are not UTF-8 leave a U+FFFD behind.
pub proof fn lemma_invalid_is_replaced(bytes: Seq<u8>)
    requires
        !valid_utf8(bytes),
    ensures
        lossy_utf8(bytes).contains('\u{fffd}'),
    decreases bytes.len(),
{
    if valid_first_scalar(bytes) {
        let rest = lossy_utf8(pop_first_scalar(bytes));
        lemma_invalid_is_replaced(pop_first_scalar(bytes));
        let k = choose|k: int| 0 <= k < rest.len() && rest[k] == '\u{fffd}';
        assert(lossy_utf8(bytes)[k + 1] == '\u{fffd}');
    } else {
        lemma_next_character(bytes);
        let n = next_character(bytes) as int;
        assert(bytes.take(n).len() == n);
        assert(replaced(bytes.take(n))[0] == '\u{fffd}');
        assert(lossy_utf8(bytes)[0] == '\u{fffd}');
    }
}

/// The value of an ASCII hexadecimal digit.
pub open spec fn hex_digit(b: u8) -> Option<u8> {
    if '0' as u8 <= b <= '9' as u8 {
        Some((b - '0' as u8) as u8)
    } else if 'a' as u8 <= b <= 'f' as u8 {
        Some((b - 'a' as u8 + 10) as u8)
    } else if 'A' as u8 <= b <= 'F' as u8 {
        Some((b - 'A' as u8 + 10) as u8)
    } else {
        None
    }
}

/// The byte that two hexadecimal digits after a `%` stand for.
pub open spec fn hex_pair(high: u8, low: u8) -> Option<u8> {
    match (hex_digit(high), hex_digit(low)) {
        (Some(h), Some(l)) => Some((16 * h + l) as u8),
        _ => None,
    }
}

/// The bytes with each `%` and its two digits made one byte. A `%` that no two
/// digits follow stays.
pub open spec fn unescaped_bytes(bytes: Seq<u8>) -> Seq<u8>
    decreases bytes.len(),
{
    if bytes.len() == 0 {
        Seq::empty()
    } else if bytes[0] == '%' as u8 && bytes.len() > 2 && hex_pair(bytes[1], bytes[2]) is Some {
        seq![hex_pair(bytes[1], bytes[2])->0] + unescaped_bytes(bytes.skip(3))
    } else {
        seq![bytes[0]] + unescaped_bytes(bytes.skip(1))
    }
}

/// The bytes with each `+` made a space.
pub open spec fn spaced_bytes(bytes: Seq<u8>) -> Seq<u8> {
    Seq::new(
        bytes.len(),
        |i: int|
            if bytes[i] == '+' as u8 {
                ' ' as u8
            } else {
                bytes[i]
            },
    )
}

/// The bytes of a query with each `+` made a space, and then each `%` and its
/// two digits made one byte.
pub open spec fn decoded_bytes(bytes: Seq<u8>) -> Seq<u8> {
    unescaped_bytes(spaced_bytes(bytes))
}

/// The text that a percent-encoded text stands for, outside a query: a `+` is a
/// `+`.
pub open spec fn unescaped(s: Seq<char>) -> Seq<char> {
    lossy_utf8(unescaped_bytes(encode_utf8(s)))
}

/// The text that a percent-encoded text stands for, in a query: a `+` is a space.
pub open spec fn decoded(s: Seq<char>) -> Seq<char> {
    lossy_utf8(decoded_bytes(encode_utf8(s)))
}

/// Reads bytes as text: `String::from_utf8_lossy` of the standard library, which
/// is documented to replace any invalid sequence with U+FFFD, and only those: a
/// character in UTF-8 comes through wherever it stands, and the bytes between two
/// of them come out as U+FFFD, each for one byte or more. How many there are for
/// such a stretch is left to the name `replacements`.
#[verifier::external_body]
pub(crate) fn from_utf8_lossy(bytes: &[u8]) -> (r: String)
    ensures
        r@ == lossy_utf8(bytes@),
        0 < bytes@.len() == next_character(bytes@) ==> r@.len() == replacements(bytes@),
{
    String::from_utf8_lossy(bytes).into_owned()
}

fn read_hex_digit(b: u8) -> (r: Option<u8>)
    ensures
        r == hex_digit(b),
        r matches Some(d) ==> d < 16,
{
    if '0' as u8 <= b && b <= '9' as u8 {
        Some(b - '0' as u8)
    } else if 'a' as u8 <= b && b <= 'f' as u8 {
        Some(b - 'a' as u8 + 10)
    } else if 'A' as u8 <= b && b <= 'F' as u8 {
        Some(b - 'A' as u8 + 10)
    } else {
        None
    }
}

fn read_hex_pair(high: u8, low: u8) -> (r: Option<u8>)
    ensures
        r == hex_pair(high, low),
{
    match (read_hex_digit(high), read_hex_digit(low)) {
        (Some(h), Some(l)) => Some(16 * h + l),
        _ => None,
    }
}

/// `%20` back to bytes.
pub fn unescape_bytes(bytes: &[u8]) -> (r: Vec<u8>)
    ensures
        r@ == unescaped_bytes(bytes@),
{
    let mut r: Vec<u8> = Vec::new();
    let mut i: usize = 0;
    assert(bytes@.skip(0) == bytes@);
    while i < bytes.len()
        invariant
            i <= bytes.len(),
            r@ + unescaped_bytes(bytes@.skip(i as int)) == unescaped_bytes(bytes@),
        decreases bytes.len() - i,
    {
        let ghost rest = bytes@.skip(i as int);
        let ghost before = r@;
        if bytes[i] == '%' as u8 && bytes.len() - i > 2 {
            if let Some(b) = read_hex_pair(bytes[i + 1], bytes[i + 2]) {
                r.push(b);
                proof {
                    assert(rest.skip(3) == bytes@.skip(i + 3));
                    assert(unescaped_bytes(rest) == seq![b] + unescaped_bytes(rest.skip(3)));
                    assert(before + unescaped_bytes(rest) == r@ + unescaped_bytes(rest.skip(3)));
                }
                i = i + 3;
                continue ;
            }
        }
        let b = bytes[i];
        r.push(b);
        proof {
            assert(rest.skip(1) == bytes@.skip(i + 1));
            assert(unescaped_bytes(rest) == seq![b] + unescaped_bytes(rest.skip(1)));
            assert(before + unescaped_bytes(rest) == r@ + unescaped_bytes(rest.skip(1)));
        }
        i = i + 1;
    }
    assert(unescaped_bytes(bytes@.skip(i as int)) == Seq::<u8>::empty());
    r
}

fn space_bytes(bytes: &[u8]) -> (r: Vec<u8>)
    ensures
        r@ == spaced_bytes(bytes@),
{
    let mut r: Vec<u8> = Vec::new();
    let mut i: usize = 0;
    while i < bytes.len()
        invariant
            i <= bytes.len(),
            r@ == spaced_bytes(bytes@).take(i as int),
        decreases bytes.len() - i,
    {
        r.push(
            if bytes[i] == '+' as u8 {
                ' ' as u8
            } else {
                bytes[i]
            },
        );
        i = i + 1;
    }
    r
}

/// `%20` and `+` back to bytes.
pub fn decode_bytes(bytes: &[u8]) -> (r: Vec<u8>)
    ensures
        r@ == decoded_bytes(bytes@),
{
    unescape_bytes(space_bytes(bytes).as_slice())
}

/// `%20` back to characters. Bytes that are not UTF-8 leave a U+FFFD behind.
pub fn percent_unescape(s: &str) -> (r: String)
    ensures
        r@ == unescaped(s@),
        !valid_utf8(unescaped_bytes(encode_utf8(s@))) ==> r@.contains('\u{fffd}'),
{
    let bytes = unescape_bytes(s.as_bytes());
    proof {
        if !valid_utf8(bytes@) {
            lemma_invalid_is_replaced(bytes@);
        }
    }
    from_utf8_lossy(bytes.as_slice())
}

/// `%20` and `+` back to characters, for a mailto query. Bytes that are not UTF-8
/// leave a U+FFFD behind.
pub fn percent_decode(s: &str) -> (r: String)
    ensures
        r@ == decoded(s@),
        !valid_utf8(decoded_bytes(encode_utf8(s@))) ==> r@.contains('\u{fffd}'),
{
    let bytes = decode_bytes(s.as_bytes());
    proof {
        if !valid_utf8(bytes@) {
            lemma_invalid_is_replaced(bytes@);
        }
    }
    from_utf8_lossy(bytes.as_slice())
}

} // verus!
