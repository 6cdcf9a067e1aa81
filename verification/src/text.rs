//! Text as sequences of characters: white space, ASCII case, pieces and joins.
//!
//! Every executable function here is held to a mathematical definition over
//! `Seq<char>`; the rest of the library states its contracts with those.

use vstd::prelude::*;

verus! {

/// A character with the Unicode `White_Space` property.
pub open spec fn white_space(c: char) -> bool {
    ||| '\u{9}' <= c <= '\u{d}'
    ||| c == ' '
    ||| c == '\u{85}'
    ||| c == '\u{a0}'
    ||| c == '\u{1680}'
    ||| '\u{2000}' <= c <= '\u{200a}'
    ||| c == '\u{2028}'
    ||| c == '\u{2029}'
    ||| c == '\u{202f}'
    ||| c == '\u{205f}'
    ||| c == '\u{3000}'
}

/// The text from its first character that is not white space.
pub open spec fn trimmed_start(s: Seq<char>) -> Seq<char>
    decreases s.len(),
{
    if s.len() > 0 && white_space(s[0]) {
        trimmed_start(s.drop_first())
    } else {
        s
    }
}

/// The text up to its last character that is not white space.
pub open spec fn trimmed_end(s: Seq<char>) -> Seq<char>
    decreases s.len(),
{
    if s.len() > 0 && white_space(s.last()) {
        trimmed_end(s.drop_last())
    } else {
        s
    }
}

/// The text without the white space around it.
pub open spec fn trimmed(s: Seq<char>) -> Seq<char> {
    trimmed_end(trimmed_start(s))
}

/// An ASCII capital as its small letter; every other character as it is.
pub open spec fn lower_char(c: char) -> char {
    if 'A' <= c <= 'Z' {
        (c as u32 + 32) as char
    } else {
        c
    }
}

/// The text with its ASCII capitals made small.
pub open spec fn lowered(s: Seq<char>) -> Seq<char> {
    Seq::new(s.len(), |i: int| lower_char(s[i]))
}

/// The same text, but for the case of ASCII letters.
pub open spec fn same_but_case(a: Seq<char>, b: Seq<char>) -> bool {
    lowered(a) == lowered(b)
}

/// `s` begins with `prefix`, but for the case of ASCII letters.
pub open spec fn begins_but_case(s: Seq<char>, prefix: Seq<char>) -> bool {
    prefix.len() <= s.len() && same_but_case(s.take(prefix.len() as int), prefix)
}

/// What parts one piece of a text from the next.
#[derive(Clone, Copy)]
pub enum Separator {
    /// One given character.
    Char(char),
    /// A carriage return or a line feed.
    LineBreak,
    /// A comma or any white space.
    CommaOrSpace,
}

impl Separator {
    /// Whether a character is a separator.
    pub open spec fn parts(self, c: char) -> bool {
        match self {
            Separator::Char(own) => c == own,
            Separator::LineBreak => c == '\r' || c == '\n',
            Separator::CommaOrSpace => c == ',' || white_space(c),
        }
    }
}

/// Where the first separator stands: the number of characters before it, or
/// the length of the text where there is none.
pub open spec fn cut(s: Seq<char>, sep: Separator) -> nat
    decreases s.len(),
{
    if s.len() == 0 || sep.parts(s[0]) {
        0
    } else {
        1 + cut(s.drop_first(), sep)
    }
}

/// The pieces between the separators, empty ones included.
pub open spec fn pieces(s: Seq<char>, sep: Separator) -> Seq<Seq<char>>
    decreases s.len(),
{
    let n = cut(s, sep) as int;
    if n < s.len() {
        seq![s.take(n)] + pieces(s.skip(n + 1), sep)
    } else {
        seq![s]
    }
}

/// The text before the first `c`, or all of it.
pub open spec fn before(s: Seq<char>, c: char) -> Seq<char> {
    s.take(cut(s, Separator::Char(c)) as int)
}

/// The text after the first `c`; empty where there is none.
pub open spec fn after(s: Seq<char>, c: char) -> Seq<char> {
    let n = cut(s, Separator::Char(c)) as int;
    if n < s.len() {
        s.skip(n + 1)
    } else {
        Seq::empty()
    }
}

/// The number of characters up to and including the last `c`, or 0.
pub open spec fn last_past(s: Seq<char>, c: char) -> nat
    decreases s.len(),
{
    if s.len() == 0 || s.last() == c {
        s.len()
    } else {
        last_past(s.drop_last(), c)
    }
}

/// The parts one after another, with `sep` between them.
pub open spec fn joined(parts: Seq<Seq<char>>, sep: Seq<char>) -> Seq<char>
    decreases parts.len(),
{
    if parts.len() == 0 {
        Seq::empty()
    } else if parts.len() == 1 {
        parts[0]
    } else {
        joined(parts.drop_last(), sep) + sep + parts.last()
    }
}

/// One decimal digit.
pub open spec fn digit(d: nat) -> char {
    ('0' as nat + d) as char
}

/// A number in decimal digits.
pub open spec fn decimal(n: nat) -> Seq<char>
    decreases n,
{
    if n < 10 {
        seq![digit(n)]
    } else {
        decimal(n / 10).push(digit(n % 10))
    }
}

/// Trimming, as a function to map over pieces.
pub open spec fn trimming() -> spec_fn(Seq<char>) -> Seq<char> {
    |s: Seq<char>| trimmed(s)
}

/// Whether there is any text, as a test to filter pieces by.
pub open spec fn not_empty() -> spec_fn(Seq<char>) -> bool {
    |s: Seq<char>| s.len() > 0
}

/// Appends one character: `String::push` of the standard library, which is
/// documented to append the given `char` to the end of the string.
pub assume_specification[ String::push ](s: &mut String, c: char)
    ensures
        final(s)@ == old(s)@.push(c),
;

/// Whether a character has the Unicode `White_Space` property.
pub fn is_white_space(c: char) -> (b: bool)
    ensures
        b == white_space(c),
{
    ('\u{9}' <= c && c <= '\u{d}') || c == ' ' || c == '\u{85}' || c == '\u{a0}' || c == '\u{1680}'
        || ('\u{2000}' <= c && c <= '\u{200a}') || c == '\u{2028}' || c == '\u{2029}' || c
        == '\u{202f}' || c == '\u{205f}' || c == '\u{3000}'
}

/// An ASCII capital as its small letter; every other character as it is.
pub fn to_lower_char(c: char) -> (r: char)
    ensures
        r == lower_char(c),
{
    if 'A' <= c && c <= 'Z' {
        ((c as u8) + 32) as char
    } else {
        c
    }
}

impl Separator {
    /// Whether a character is a separator.
    pub fn splits_at(self, c: char) -> (b: bool)
        ensures
            b == self.parts(c),
    {
        match self {
            Separator::Char(own) => c == own,
            Separator::LineBreak => c == '\r' || c == '\n',
            Separator::CommaOrSpace => c == ',' || is_white_space(c),
        }
    }
}

/// The characters of a text.
pub fn chars_of(s: &str) -> (v: Vec<char>)
    ensures
        v@ == s@,
{
    let mut v: Vec<char> = Vec::new();
    for c in it: s.chars()
        invariant
            v@ == it.seq().take(it.index()),
    {
        v.push(c);
    }
    v
}

pub proof fn lemma_trimmed_start(s: Seq<char>, n: int)
    requires
        0 <= n <= s.len(),
        forall|k: int| 0 <= k < n ==> white_space(#[trigger] s[k]),
        n < s.len() ==> !white_space(s[n]),
    ensures
        trimmed_start(s) == s.skip(n),
    decreases n,
{
    if n > 0 {
        let rest = s.drop_first();
        assert(forall|k: int| 0 <= k < n - 1 ==> rest[k] == s[k + 1]);
        lemma_trimmed_start(rest, n - 1);
        assert(rest.skip(n - 1) == s.skip(n));
    } else {
        assert(s.skip(0) == s);
    }
}

pub proof fn lemma_trimmed_end(s: Seq<char>, n: int)
    requires
        0 <= n <= s.len(),
        forall|k: int| n <= k < s.len() ==> white_space(#[trigger] s[k]),
        n > 0 ==> !white_space(s[n - 1]),
    ensures
        trimmed_end(s) == s.take(n),
    decreases s.len() - n,
{
    if n < s.len() {
        let rest = s.drop_last();
        assert(forall|k: int| 0 <= k < rest.len() ==> rest[k] == s[k]);
        lemma_trimmed_end(rest, n);
        assert(rest.take(n) == s.take(n));
    } else {
        assert(s.take(n) == s);
    }
}

/// Trimming at the start takes white space away, and all of it.
pub proof fn lemma_trimmed_start_shape(s: Seq<char>)
    ensures
        ({
            let n = s.len() - trimmed_start(s).len();
            &&& 0 <= n
            &&& trimmed_start(s) == s.skip(n)
            &&& forall|k: int| 0 <= k < n ==> white_space(#[trigger] s[k])
            &&& n < s.len() ==> !white_space(s[n])
        }),
    decreases s.len(),
{
    if s.len() > 0 && white_space(s[0]) {
        let rest = s.drop_first();
        lemma_trimmed_start_shape(rest);
        let n = s.len() - trimmed_start(s).len();
        assert(rest.skip(n - 1) == s.skip(n));
        assert forall|k: int| 0 <= k < n implies white_space(#[trigger] s[k]) by {
            if k > 0 {
                assert(s[k] == rest[k - 1]);
            }
        }
    } else {
        assert(s.skip(0) == s);
    }
}

/// Trimming at the end takes white space away, and all of it.
pub proof fn lemma_trimmed_end_shape(s: Seq<char>)
    ensures
        ({
            let n = trimmed_end(s).len() as int;
            &&& n <= s.len()
            &&& trimmed_end(s) == s.take(n)
            &&& forall|k: int| n <= k < s.len() ==> white_space(#[trigger] s[k])
            &&& n > 0 ==> !white_space(s[n - 1])
        }),
    decreases s.len(),
{
    if s.len() > 0 && white_space(s.last()) {
        let rest = s.drop_last();
        lemma_trimmed_end_shape(rest);
        let n = trimmed_end(s).len() as int;
        assert(rest.take(n) == s.take(n));
        assert forall|k: int| n <= k < s.len() implies white_space(#[trigger] s[k]) by {
            if k < rest.len() {
                assert(s[k] == rest[k]);
            }
        }
    } else {
        assert(s.take(s.len() as int) == s);
    }
}

/// The text without the white space around it.
pub fn trim<'a>(s: &'a str) -> (r: &'a str)
    ensures
        r@ == trimmed(s@),
{
    let v = chars_of(s);
    let mut start: usize = 0;
    while start < v.len() && is_white_space(v[start])
        invariant
            start <= v.len(),
            forall|k: int| 0 <= k < start ==> white_space(#[trigger] v@[k]),
        decreases v.len() - start,
    {
        start = start + 1;
    }
    let mut end: usize = v.len();
    while end > start && is_white_space(v[end - 1])
        invariant
            start <= end <= v.len(),
            forall|k: int| end <= k < v.len() ==> white_space(#[trigger] v@[k]),
        decreases end,
    {
        end = end - 1;
    }
    proof {
        lemma_trimmed_start(s@, start as int);
        let rest = s@.skip(start as int);
        assert(forall|k: int| 0 <= k < rest.len() ==> rest[k] == v@[k + start]);
        lemma_trimmed_end(rest, end - start);
        assert(rest.take(end - start) == s@.subrange(start as int, end as int));
    }
    s.substring_char(start, end)
}

/// The text with its ASCII capitals made small.
pub fn to_lower(s: &str) -> (r: String)
    ensures
        r@ == lowered(s@),
{
    let mut r = String::new();
    for c in it: s.chars()
        invariant
            r@ == lowered(it.seq().take(it.index())),
    {
        let ghost before = r@;
        r.push(to_lower_char(c));
        assert(r@ =~= lowered(it.seq().take(it.index() + 1)));
    }
    assert(s@.take(s@.len() as int) == s@);
    r
}

pub proof fn lemma_same_but_case_len(a: Seq<char>, b: Seq<char>)
    requires
        same_but_case(a, b),
    ensures
        a.len() == b.len(),
{
    assert(lowered(a).len() == lowered(b).len());
}

/// Whether two texts are the same but for the case of ASCII letters.
pub fn eq_ignoring_case(a: &str, b: &str) -> (r: bool)
    ensures
        r == same_but_case(a@, b@),
{
    let a_lower = to_lower(a);
    let b_lower = to_lower(b);
    a_lower == b_lower
}

/// Whether a text begins with `prefix`, but for the case of ASCII letters.
pub fn begins_ignoring_case(s: &str, prefix: &str) -> (r: bool)
    ensures
        r == begins_but_case(s@, prefix@),
{
    let n = prefix.unicode_len();
    if s.unicode_len() < n {
        return false;
    }
    assert(s@.subrange(0, n as int) == s@.take(n as int));
    eq_ignoring_case(s.substring_char(0, n), prefix)
}

/// A text that begins with a prefix has its characters, but for their case.
pub proof fn lemma_begins(s: Seq<char>, prefix: Seq<char>)
    requires
        begins_but_case(s, prefix),
    ensures
        forall|k: int|
            0 <= k < prefix.len() ==> lower_char(#[trigger] s[k]) == lower_char(prefix[k]),
{
    let start = s.take(prefix.len() as int);
    assert forall|k: int| 0 <= k < prefix.len() implies lower_char(#[trigger] s[k]) == lower_char(
        prefix[k],
    ) by {
        assert(lowered(start)[k] == lowered(prefix)[k]);
        assert(start[k] == s[k]);
    }
}

pub proof fn lemma_cut(s: Seq<char>, sep: Separator)
    ensures
        cut(s, sep) <= s.len(),
        forall|k: int| 0 <= k < cut(s, sep) ==> !sep.parts(#[trigger] s[k]),
        cut(s, sep) < s.len() ==> sep.parts(s[cut(s, sep) as int]),
    decreases s.len(),
{
    if s.len() > 0 && !sep.parts(s[0]) {
        let rest = s.drop_first();
        lemma_cut(rest, sep);
        assert forall|k: int| 0 <= k < cut(s, sep) implies !sep.parts(#[trigger] s[k]) by {
            if k > 0 {
                assert(s[k] == rest[k - 1]);
            }
        }
    }
}

/// A place with no separator before it, and one at it or the end of the text,
/// is where the text is cut.
pub proof fn lemma_cut_is(s: Seq<char>, sep: Separator, n: int)
    requires
        0 <= n <= s.len(),
        forall|k: int| 0 <= k < n ==> !sep.parts(#[trigger] s[k]),
        n < s.len() ==> sep.parts(s[n]),
    ensures
        cut(s, sep) == n,
{
    lemma_cut(s, sep);
    let found = cut(s, sep) as int;
    if found < n {
        assert(!sep.parts(s[found]));
    }
    if n < found {
        assert(!sep.parts(s[n]));
    }
}

/// Where the first separator at or after `from` stands, or the length.
pub fn find_from(v: &Vec<char>, from: usize, sep: Separator) -> (r: usize)
    requires
        from <= v.len(),
    ensures
        r == from + cut(v@.skip(from as int), sep),
        from <= r <= v.len(),
        r < v.len() ==> sep.parts(v@[r as int]),
{
    let ghost rest = v@.skip(from as int);
    let mut i: usize = from;
    while i < v.len() && !sep.splits_at(v[i])
        invariant
            from <= i <= v.len(),
            rest == v@.skip(from as int),
            forall|k: int| 0 <= k < i - from ==> !sep.parts(#[trigger] rest[k]),
        decreases v.len() - i,
    {
        assert(rest[i - from] == v@[i as int]);
        i = i + 1;
    }
    proof {
        lemma_cut_is(rest, sep, i - from);
    }
    i
}

pub proof fn lemma_pieces_step(s: Seq<char>, sep: Separator, from: int)
    requires
        0 <= from <= s.len(),
    ensures
        ({
            let at = from + cut(s.skip(from), sep);
            pieces(s.skip(from), sep) == if at < s.len() {
                seq![s.subrange(from, at)] + pieces(s.skip(at + 1), sep)
            } else {
                seq![s.subrange(from, s.len() as int)]
            }
        }),
{
    let rest = s.skip(from);
    let n = cut(rest, sep) as int;
    lemma_cut(rest, sep);
    assert(rest.take(n) == s.subrange(from, from + n));
    if n < rest.len() {
        assert(rest.skip(n + 1) == s.skip(from + n + 1));
    }
    assert(rest == s.subrange(from, s.len() as int));
}

/// The pieces of a text between its separators, empty ones included.
pub fn split<'a>(s: &'a str, sep: Separator) -> (r: Vec<&'a str>)
    ensures
        r.deep_view() == pieces(s@, sep),
{
    let v = chars_of(s);
    let mut r: Vec<&'a str> = Vec::new();
    let mut start: usize = 0;
    assert(s@.skip(0) == s@);
    loop
        invariant
            v@ == s@,
            start <= v.len(),
            r.deep_view() + pieces(s@.skip(start as int), sep) == pieces(s@, sep),
        decreases v.len() - start,
    {
        let ghost before = r.deep_view();
        let end = find_from(&v, start, sep);
        let piece = s.substring_char(start, end);
        r.push(piece);
        proof {
            lemma_pieces_step(s@, sep, start as int);
            assert(r.deep_view() == before.push(piece@));
        }
        if end == v.len() {
            assert(r.deep_view() == pieces(s@, sep));
            return r;
        }
        start = end + 1;
    }
}

/// A text parted at the first `c`: what stands before it and what after.
pub fn split_first<'a>(s: &'a str, c: char) -> (r: (&'a str, &'a str))
    ensures
        r.0@ == before(s@, c),
        r.1@ == after(s@, c),
{
    let v = chars_of(s);
    let at = find_from(&v, 0, Separator::Char(c));
    assert(v@.skip(0) == s@);
    assert(s@.subrange(0, at as int) == s@.take(at as int));
    let next = if at < v.len() {
        at + 1
    } else {
        at
    };
    assert(s@.subrange(next as int, s@.len() as int) == after(s@, c));
    (s.substring_char(0, at), s.substring_char(next, v.len()))
}

pub proof fn lemma_cut_contains(s: Seq<char>, c: char)
    ensures
        s.contains(c) <==> cut(s, Separator::Char(c)) < s.len(),
{
    let sep = Separator::Char(c);
    lemma_cut(s, sep);
    if cut(s, sep) < s.len() {
        assert(s[cut(s, sep) as int] == c);
    } else if s.contains(c) {
        let k = choose|k: int| 0 <= k < s.len() && s[k] == c;
        assert(!sep.parts(s[k]));
    }
}

/// Whether a character occurs in a text.
pub fn contains_char(s: &str, c: char) -> (r: bool)
    ensures
        r == s@.contains(c),
{
    let v = chars_of(s);
    let at = find_from(&v, 0, Separator::Char(c));
    proof {
        assert(v@.skip(0) == s@);
        lemma_cut_contains(s@, c);
    }
    at < v.len()
}

/// One past the last `c`, or 0 where there is none.
pub fn find_last_past(v: &Vec<char>, c: char) -> (r: usize)
    ensures
        r == last_past(v@, c),
        r <= v.len(),
        r > 0 ==> v@[r - 1] == c,
{
    let mut n: usize = v.len();
    assert(v@.take(n as int) == v@);
    while n > 0 && v[n - 1] != c
        invariant
            n <= v.len(),
            last_past(v@.take(n as int), c) == last_past(v@, c),
        decreases n,
    {
        assert(v@.take(n as int).drop_last() == v@.take(n - 1));
        assert(v@.take(n as int).last() == v@[n - 1]);
        n = n - 1;
    }
    assert(n > 0 ==> v@.take(n as int).last() == v@[n - 1]);
    n
}

/// The parts one after another, with `sep` between them.
pub fn join(parts: &Vec<String>, sep: &str) -> (r: String)
    ensures
        r@ == joined(parts.deep_view(), sep@),
{
    let ghost texts = parts.deep_view();
    let mut r = String::new();
    let mut i: usize = 0;
    while i < parts.len()
        invariant
            i <= parts.len(),
            texts == parts.deep_view(),
            r@ == joined(texts.take(i as int), sep@),
        decreases parts.len() - i,
    {
        let ghost head = texts.take(i + 1);
        assert(head.drop_last() == texts.take(i as int));
        assert(head.last() == parts@[i as int]@);
        if i > 0 {
            r.append(sep);
        }
        r.append(parts[i].as_str());
        assert(r@ == joined(head, sep@));
        i = i + 1;
    }
    assert(texts.take(i as int) == texts);
    r
}

/// A number in decimal digits.
pub fn to_decimal(n: u16) -> (r: String)
    ensures
        r@ == decimal(n as nat),
    decreases n,
{
    let mut r = if n < 10 {
        String::new()
    } else {
        to_decimal(n / 10)
    };
    r.push(('0' as u8 + (n % 10) as u8) as char);
    r
}

/// One more piece, kept or not and then mapped.
pub proof fn lemma_filter_map_push<A, B>(
    s: Seq<A>,
    i: int,
    keep: spec_fn(A) -> bool,
    f: spec_fn(A) -> B,
)
    requires
        0 <= i < s.len(),
    ensures
        s.take(i + 1).filter(keep).map_values(f) == if keep(s[i]) {
            s.take(i).filter(keep).map_values(f).push(f(s[i]))
        } else {
            s.take(i).filter(keep).map_values(f)
        },
{
    reveal(Seq::filter);
    let head = s.take(i + 1);
    assert(head.drop_last() == s.take(i));
    assert(head.last() == s[i]);
}

/// One more piece, kept or not.
pub proof fn lemma_filter_push<A>(s: Seq<A>, a: A, keep: spec_fn(A) -> bool)
    ensures
        s.push(a).filter(keep) == if keep(a) {
            s.filter(keep).push(a)
        } else {
            s.filter(keep)
        },
{
    reveal(Seq::filter);
    assert(s.push(a).drop_last() == s);
}

/// One more piece, mapped and then kept or not.
pub proof fn lemma_map_filter_push<A, B>(
    s: Seq<A>,
    i: int,
    f: spec_fn(A) -> B,
    keep: spec_fn(B) -> bool,
)
    requires
        0 <= i < s.len(),
    ensures
        s.take(i + 1).map_values(f).filter(keep) == if keep(f(s[i])) {
            s.take(i).map_values(f).filter(keep).push(f(s[i]))
        } else {
            s.take(i).map_values(f).filter(keep)
        },
{
    reveal(Seq::filter);
    let head = s.take(i + 1).map_values(f);
    assert(head.drop_last() == s.take(i).map_values(f));
    assert(head.last() == f(s[i]));
}

} // verus!
