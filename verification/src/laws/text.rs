//! What each operation on texts does, in terms of the texts it is given.

use crate::laws::unfolding::{
    blank, lemma_joined_add, lemma_pieces_add, nothing_is_left_of_white_space,
};
use crate::text::{
    after, before, begins_but_case, decimal, joined, last_past, lemma_cut_is, lemma_trimmed_end,
    lemma_trimmed_start, lower_char, lowered, pieces, same_but_case, trimmed, white_space,
    Separator,
};
use vstd::prelude::*;

verus! {

/// Trimming takes away the white space on both sides, all of it, and nothing else.
pub proof fn trimming_gives_what_stands_between_white_space(
    left: Seq<char>,
    middle: Seq<char>,
    right: Seq<char>,
)
    requires
        forall|k: int| 0 <= k < left.len() ==> white_space(#[trigger] left[k]),
        forall|k: int| 0 <= k < right.len() ==> white_space(#[trigger] right[k]),
        middle.len() > 0 ==> !white_space(middle[0]) && !white_space(middle.last()),
    ensures
        trimmed(left + middle + right) == middle,
{
    let s = left + middle + right;
    let n = left.len() as int;
    let m = middle.len() as int;
    if m > 0 {
        assert(forall|k: int| 0 <= k < n ==> s[k] == left[k]);
        assert(s[n] == middle[0]);
        lemma_trimmed_start(s, n);
        let rest = s.skip(n);
        assert(rest == middle + right);
        assert(forall|k: int| m <= k < rest.len() ==> rest[k] == right[k - m]);
        assert(rest[m - 1] == middle.last());
        lemma_trimmed_end(rest, m);
        assert(rest.take(m) == middle);
    } else {
        assert forall|k: int| 0 <= k < s.len() implies white_space(#[trigger] s[k]) by {
            if k < n {
                assert(s[k] == left[k]);
            } else {
                assert(s[k] == right[k - n]);
            }
        }
        assert(blank(s));
        nothing_is_left_of_white_space(s);
    }
}

/// Lowering goes character by character.
pub proof fn lowering_goes_character_by_character(s: Seq<char>)
    ensures
        lowered(s).len() == s.len(),
        forall|i: int| 0 <= i < s.len() ==> #[trigger] lowered(s)[i] == lower_char(s[i]),
{
}

/// Two texts are the same but for case where each pair of their characters is.
pub proof fn case_is_ignored_character_by_character(a: Seq<char>, b: Seq<char>)
    ensures
        same_but_case(a, b) <==> a.len() == b.len() && forall|i: int|
            0 <= i < a.len() ==> lower_char(#[trigger] a[i]) == lower_char(b[i]),
{
    if same_but_case(a, b) {
        assert(lowered(a).len() == lowered(b).len());
        assert forall|i: int| 0 <= i < a.len() implies lower_char(#[trigger] a[i]) == lower_char(
            b[i],
        ) by {
            assert(lowered(a)[i] == lowered(b)[i]);
        }
    } else if a.len() == b.len() && forall|i: int|
        0 <= i < a.len() ==> lower_char(#[trigger] a[i]) == lower_char(b[i]) {
        assert forall|i: int| 0 <= i < a.len() implies lowered(a)[i] == lowered(b)[i] by {
            assert(lower_char(a[i]) == lower_char(b[i]));
        }
        assert(lowered(a) == lowered(b));
    }
}

/// A text begins with another, but for case, where it is that text in some case
/// and then any other.
pub proof fn a_text_begins_with_its_start(start: Seq<char>, rest: Seq<char>, prefix: Seq<char>)
    requires
        start.len() == prefix.len(),
    ensures
        begins_but_case(start + rest, prefix) <==> same_but_case(start, prefix),
{
    assert((start + rest).take(start.len() as int) == start);
}

/// A text shorter than another does not begin with it.
pub proof fn a_shorter_text_begins_with_no_longer_one(s: Seq<char>, prefix: Seq<char>)
    requires
        s.len() < prefix.len(),
    ensures
        !begins_but_case(s, prefix),
{
}

/// A text without a separator is one piece.
pub proof fn a_text_without_a_separator_is_one_piece(s: Seq<char>, c: char)
    ensures
        !s.contains(c) ==> pieces(s, Separator::Char(c)) == seq![s],
        !s.contains('\r') && !s.contains('\n') ==> pieces(s, Separator::LineBreak) == seq![s],
        !s.contains(',') && (forall|k: int| 0 <= k < s.len() ==> !white_space(#[trigger] s[k]))
            ==> pieces(s, Separator::CommaOrSpace) == seq![s],
{
    let n = s.len() as int;
    if !s.contains(c) {
        assert forall|k: int| 0 <= k < n implies !Separator::Char(c).parts(#[trigger] s[k]) by {
            assert(s.contains(s[k]));
        }
        lemma_cut_is(s, Separator::Char(c), n);
    }
    if !s.contains('\r') && !s.contains('\n') {
        assert forall|k: int| 0 <= k < n implies !Separator::LineBreak.parts(#[trigger] s[k]) by {
            assert(s.contains(s[k]));
        }
        lemma_cut_is(s, Separator::LineBreak, n);
    }
    if !s.contains(',') && (forall|k: int| 0 <= k < s.len() ==> !white_space(#[trigger] s[k])) {
        assert forall|k: int| 0 <= k < n implies !Separator::CommaOrSpace.parts(
            #[trigger] s[k],
        ) by {
            assert(s.contains(s[k]));
        }
        lemma_cut_is(s, Separator::CommaOrSpace, n);
    }
}

/// Each separator parts the pieces before it from those after it.
pub proof fn a_separator_parts_the_pieces(a: Seq<char>, c: char, b: Seq<char>)
    ensures
        pieces(a + seq![c] + b, Separator::Char(c)) == pieces(a, Separator::Char(c)) + pieces(
            b,
            Separator::Char(c),
        ),
        c == '\r' || c == '\n' ==> pieces(a + seq![c] + b, Separator::LineBreak) == pieces(
            a,
            Separator::LineBreak,
        ) + pieces(b, Separator::LineBreak),
        c == ',' || white_space(c) ==> pieces(a + seq![c] + b, Separator::CommaOrSpace) == pieces(
            a,
            Separator::CommaOrSpace,
        ) + pieces(b, Separator::CommaOrSpace),
{
    lemma_pieces_add(a, c, b, Separator::Char(c));
    if c == '\r' || c == '\n' {
        lemma_pieces_add(a, c, b, Separator::LineBreak);
    }
    if c == ',' || white_space(c) {
        lemma_pieces_add(a, c, b, Separator::CommaOrSpace);
    }
}

/// The first of a character parts a text in two; without it there is no second.
pub proof fn the_first_of_a_character_parts_a_text(a: Seq<char>, c: char, b: Seq<char>)
    requires
        !a.contains(c),
    ensures
        before(a + seq![c] + b, c) == a,
        after(a + seq![c] + b, c) == b,
        before(a, c) == a,
        after(a, c) == Seq::<char>::empty(),
{
    let sep = Separator::Char(c);
    let all = a + seq![c] + b;
    let n = a.len() as int;
    assert forall|k: int| 0 <= k < n implies !sep.parts(#[trigger] a[k]) by {
        assert(a.contains(a[k]));
    }
    assert forall|k: int| 0 <= k < n implies !sep.parts(#[trigger] all[k]) by {
        assert(all[k] == a[k]);
    }
    assert(all[n] == c);
    lemma_cut_is(all, sep, n);
    lemma_cut_is(a, sep, n);
    assert(all.take(n) == a);
    assert(all.skip(n + 1) == b);
    assert(a.take(n) == a);
}

/// The last of a character has none after it.
pub proof fn the_last_of_a_character_is_found(a: Seq<char>, c: char, b: Seq<char>)
    requires
        !b.contains(c),
    ensures
        last_past(a + seq![c] + b, c) == a.len() + 1,
        last_past(b, c) == 0,
    decreases b.len(),
{
    let all = a + seq![c] + b;
    if b.len() > 0 {
        let shorter = b.drop_last();
        assert(b.contains(b.last()));
        assert(!shorter.contains(c)) by {
            if shorter.contains(c) {
                let k = choose|k: int| 0 <= k < shorter.len() && shorter[k] == c;
                assert(b[k] == c);
            }
        }
        assert(all.last() == b.last());
        assert(all.drop_last() == a + seq![c] + shorter);
        the_last_of_a_character_is_found(a, c, shorter);
    } else {
        assert(all.last() == c);
    }
}

/// Joining puts the separator between the parts and nowhere else.
pub proof fn joining_puts_the_separator_between(
    a: Seq<Seq<char>>,
    b: Seq<Seq<char>>,
    part: Seq<char>,
    sep: Seq<char>,
)
    ensures
        joined(Seq::empty(), sep) == Seq::<char>::empty(),
        joined(seq![part], sep) == part,
        a.len() > 0 && b.len() > 0 ==> joined(a + b, sep) == joined(a, sep) + sep + joined(b, sep),
{
    if a.len() > 0 && b.len() > 0 {
        lemma_joined_add(a, b, sep);
    }
}

/// The number that decimal digits stand for.
pub open spec fn number(digits: Seq<char>) -> int
    decreases digits.len(),
{
    if digits.len() == 0 {
        0
    } else {
        10 * number(digits.drop_last()) + (digits.last() as int - '0' as int)
    }
}

/// A number in decimal is written in digits that stand for it, the first of which
/// is a 0 for no number but 0.
pub proof fn decimal_digits_stand_for_their_number(n: nat)
    ensures
        number(decimal(n)) == n,
        decimal(n).len() > 0,
        forall|i: int| 0 <= i < decimal(n).len() ==> '0' <= #[trigger] decimal(n)[i] <= '9',
        decimal(n)[0] == '0' ==> n == 0,
    decreases n,
{
    let text = decimal(n);
    if n < 10 {
        assert(text.drop_last() == Seq::<char>::empty());
        assert(number(text.drop_last()) == 0);
    } else {
        decimal_digits_stand_for_their_number(n / 10);
        assert(text.drop_last() == decimal(n / 10));
        assert(text[0] == decimal(n / 10)[0]);
    }
}

} // verus!
