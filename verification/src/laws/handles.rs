//! How the handles of a header value are read.

use crate::laws::offers::text_outside_the_brackets_is_skipped;
use crate::laws::unfolding::lemma_pieces_add;
use crate::text::{
    begins_but_case, lemma_cut, lemma_cut_contains, lemma_cut_is, lemma_filter_push, pieces,
    trimmed, white_space, Separator,
};
use crate::unsubscribe::{all_handles, bracketed, comment_end, handles, known_scheme};
use vstd::prelude::*;

verus! {

/// No value has no handle, and one value has its own.
pub proof fn no_value_has_no_handle(value: Seq<char>)
    ensures
        all_handles(Seq::empty()) == Seq::<Seq<char>>::empty(),
        all_handles(seq![value]) == handles(value),
{
    assert(seq![value].drop_last() == Seq::<Seq<char>>::empty());
    assert(all_handles(seq![value].drop_last()) + handles(value) == handles(value));
}

/// A scheme that a handle can have without brackets.
pub open spec fn has_known_scheme(handle: Seq<char>) -> bool {
    begins_but_case(handle, "mailto:"@) || begins_but_case(handle, "http://"@) || begins_but_case(
        handle,
        "https://"@,
    )
}

/// A text without brackets, commas and white space is a handle where it has a known
/// scheme, and nothing otherwise.
pub proof fn a_bare_text_is_a_handle_by_its_scheme(value: Seq<char>)
    requires
        !value.contains('<'),
        !value.contains(','),
        forall|k: int| 0 <= k < value.len() ==> !white_space(#[trigger] value[k]),
    ensures
        handles(value) == if has_known_scheme(value) {
            seq![value]
        } else {
            Seq::empty()
        },
{
    assert forall|k: int| 0 <= k < value.len() implies !Separator::CommaOrSpace.parts(
        #[trigger] value[k],
    ) by {
        assert(value.contains(value[k]));
    }
    lemma_cut_is(value, Separator::CommaOrSpace, value.len() as int);
    let none = Seq::<Seq<char>>::empty();
    assert(none.filter(known_scheme()) == none) by {
        reveal(Seq::filter);
    }
    lemma_filter_push(none, value, known_scheme());
    assert(pieces(value, Separator::CommaOrSpace) == none.push(value));
    assert(none.push(value) == seq![value]);
}

/// Bare handles stand one after another, parted by a comma or white space.
pub proof fn bare_handles_stand_one_after_another(a: Seq<char>, c: char, b: Seq<char>)
    requires
        !a.contains('<'),
        !b.contains('<'),
        c == ',' || white_space(c),
    ensures
        handles(a + seq![c] + b) == handles(a) + handles(b),
{
    let all = a + seq![c] + b;
    let sep = Separator::CommaOrSpace;
    assert(!all.contains('<')) by {
        if all.contains('<') {
            let k = choose|k: int| 0 <= k < all.len() && all[k] == '<';
            if k < a.len() {
                assert(a[k] == '<');
            } else if k > a.len() {
                assert(b[k - a.len() - 1] == '<');
            }
        }
    }
    lemma_pieces_add(a, c, b, sep);
    Seq::filter_distributes_over_add(pieces(a, sep), pieces(b, sep), known_scheme());
}

/// A bracket that is never closed holds no handle, and neither does what follows
/// it.
pub proof fn an_unclosed_bracket_holds_no_handle(inside: Seq<char>)
    requires
        !inside.contains('>'),
    ensures
        bracketed(seq!['<'] + inside) == Seq::<Seq<char>>::empty(),
        handles(seq!['<'] + inside) == Seq::<Seq<char>>::empty(),
{
    let value = seq!['<'] + inside;
    assert(value[0] == '<');
    assert(value.contains('<'));
    assert(value.skip(1) == inside);
    lemma_cut(inside, Separator::Char('>'));
    lemma_cut_contains(inside, '>');
}

/// A value is read for its brackets where it has one, and for bare handles
/// otherwise.
pub proof fn a_bracket_makes_a_value_bracketed(left: Seq<char>, right: Seq<char>)
    ensures
        handles(left + seq!['<'] + right) == bracketed(left + seq!['<'] + right),
{
    assert((left + seq!['<'] + right)[left.len() as int] == '<');
}

/// Text outside the brackets holds no handle by itself.
pub proof fn text_without_brackets_holds_no_bracketed_handle(text: Seq<char>)
    requires
        !text.contains('<'),
        !text.contains('('),
    ensures
        bracketed(text) == Seq::<Seq<char>>::empty(),
    decreases text.len(),
{
    if text.len() > 0 {
        let rest = text.skip(1);
        assert(text.contains(text[0]));
        assert forall|c: char| rest.contains(c) implies text.contains(c) by {
            let k = choose|k: int| 0 <= k < rest.len() && rest[k] == c;
            assert(text[k + 1] == c);
        }
        text_without_brackets_holds_no_bracketed_handle(rest);
    }
}

/// How many comments a text opens more than it closes.
pub open spec fn balance(s: Seq<char>) -> int
    decreases s.len(),
{
    if s.len() == 0 {
        0
    } else {
        balance(s.drop_last()) + if s.last() == '(' {
            1int
        } else if s.last() == ')' {
            -1
        } else {
            0
        }
    }
}

proof fn lemma_balance_first(s: Seq<char>, n: int)
    requires
        0 < n <= s.len(),
    ensures
        balance(s.take(n)) == balance(s.drop_first().take(n - 1)) + if s[0] == '(' {
            1int
        } else if s[0] == ')' {
            -1
        } else {
            0
        },
    decreases n,
{
    let t = s.take(n);
    let rest = s.drop_first().take(n - 1);
    assert(t.last() == s[n - 1]);
    assert(t.drop_last() == s.take(n - 1));
    if n > 1 {
        lemma_balance_first(s, n - 1);
        assert(rest.last() == s[n - 1]);
        assert(rest.drop_last() == s.drop_first().take(n - 2));
    } else {
        assert(t.drop_last() == Seq::<char>::empty());
        assert(rest == Seq::<char>::empty());
    }
}

/// A place where as many comments are closed as are open, and none before it.
pub open spec fn closes_at(s: Seq<char>, depth: nat, n: int) -> bool {
    &&& 0 < n <= s.len()
    &&& depth + balance(s.take(n)) == 0
    &&& forall|m: int| 0 <= m < n ==> depth + balance(#[trigger] s.take(m)) > 0
}

/// A comment ends where it is balanced for the first time; it never does where it
/// is balanced nowhere.
pub proof fn a_comment_ends_where_it_is_balanced(s: Seq<char>, depth: nat, n: int)
    requires
        depth > 0,
    ensures
        closes_at(s, depth, n) <==> n >= 0 && comment_end(s, depth) == Some(n as nat),
    decreases s.len(),
{
    assert(s.take(0) == Seq::<char>::empty());
    if s.len() > 0 {
        let rest = s.drop_first();
        let step: int = if s[0] == '(' {
            1
        } else if s[0] == ')' {
            -1
        } else {
            0
        };
        lemma_balance_first(s, 1);
        assert(rest.take(0) == Seq::<char>::empty());
        if depth + step == 0 {
            assert(depth + balance(s.take(1)) == 0);
            if closes_at(s, depth, n) {
                assert(n == 1) by {
                    if n > 1 {
                        assert(depth + balance(s.take(1)) > 0);
                    }
                }
            }
            if n == 1 {
                assert forall|m: int| 0 <= m < n implies depth + balance(#[trigger] s.take(m))
                    > 0 by {}
                assert(closes_at(s, depth, n));
            }
        } else {
            let within = (depth + step) as nat;
            a_comment_ends_where_it_is_balanced(rest, within, n - 1);
            if closes_at(s, depth, n) {
                assert(n > 1);
                lemma_balance_first(s, n);
                assert forall|m: int| 0 <= m < n - 1 implies within + balance(
                    #[trigger] rest.take(m),
                ) > 0 by {
                    lemma_balance_first(s, m + 1);
                    assert(depth + balance(s.take(m + 1)) > 0);
                }
                assert(closes_at(rest, within, n - 1));
            }
            if closes_at(rest, within, n - 1) {
                lemma_balance_first(s, n);
                assert forall|m: int| 0 <= m < n implies depth + balance(#[trigger] s.take(m))
                    > 0 by {
                    if m > 0 {
                        lemma_balance_first(s, m);
                        assert(within + balance(rest.take(m - 1)) > 0);
                    }
                }
                assert(closes_at(s, depth, n));
            }
        }
    }
}

/// One handle, in brackets or bare.
pub proof fn bare_or_bracketed_handles_of_one_value(handle: Seq<char>, in_brackets: bool)
    requires
        trimmed(handle) == handle,
        handle.len() > 0,
        !handle.contains('<'),
        !handle.contains('>'),
        !in_brackets ==> has_known_scheme(handle) && !handle.contains(',') && forall|k: int|
            0 <= k < handle.len() ==> !white_space(#[trigger] handle[k]),
    ensures
        handles(
            if in_brackets {
                seq!['<'] + handle + seq!['>']
            } else {
                handle
            },
        ) == seq![handle],
{
    if in_brackets {
        let none = Seq::<char>::empty();
        text_outside_the_brackets_is_skipped(none, handle, none);
        assert(none + seq!['<'] + handle + seq!['>'] + none == seq!['<'] + handle + seq!['>']);
        assert(bracketed(none) == Seq::<Seq<char>>::empty());
        assert(seq![handle] + bracketed(none) == seq![handle]);
    } else {
        a_bare_text_is_a_handle_by_its_scheme(handle);
    }
}

} // verus!
