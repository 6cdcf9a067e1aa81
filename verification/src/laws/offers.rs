//! What the headers of a message offer, and the key of its list.

use crate::laws::percent::text_in_utf8_is_read_as_it_is;
use crate::laws::text::the_last_of_a_character_is_found;
use crate::laws::unfolding::{
    lemma_pieces_add, lemma_pieces_have_no_separator, lemma_trimmed_fixed,
    trimming_again_changes_nothing,
};
use crate::mailto::target_of;
use crate::message::{HeaderText, MessageText};
use crate::text::{
    begins_but_case, cut, last_past, lemma_cut, lemma_cut_contains, lemma_cut_is, lemma_filter_push,
    lower_char, lowered, not_empty, pieces, same_but_case, trimmed, trimmed_end, trimmed_start,
    white_space, Separator,
};
use crate::unsubscribe::{
    all_handles, bracketed, comment_end, first, handles, header_values, known_scheme,
    lemma_comment_end, list_key, named, offers_in, offers_of, page, promises_one_click, secure,
    skipped, unfolded, value_in, writable,
};
use vstd::prelude::*;
use vstd::utf8::*;

verus! {

/// A text that holds no bracket and starts no comment is skipped.
proof fn lemma_outside_is_skipped(outside: Seq<char>, rest: Seq<char>)
    requires
        !outside.contains('<'),
        !outside.contains('('),
    ensures
        bracketed(outside + rest) == bracketed(rest),
    decreases outside.len(),
{
    let value = outside + rest;
    if outside.len() > 0 {
        let shorter = outside.drop_first();
        assert(outside.contains(outside[0]));
        assert forall|c: char| shorter.contains(c) implies outside.contains(c) by {
            let k = choose|k: int| 0 <= k < shorter.len() && shorter[k] == c;
            assert(outside[k + 1] == c);
        }
        assert(value[0] == outside[0]);
        assert(value.skip(1) == shorter + rest);
        lemma_outside_is_skipped(shorter, rest);
    } else {
        assert(value == rest);
    }
}

/// What stands before the first bracket is skipped, and the bracketed handle
/// comes first.
pub proof fn text_outside_the_brackets_is_skipped(
    outside: Seq<char>,
    handle: Seq<char>,
    rest: Seq<char>,
)
    requires
        !outside.contains('<'),
        !outside.contains('('),
        !handle.contains('>'),
    ensures
        handles(outside + seq!['<'] + handle + seq!['>'] + rest) == if trimmed(handle).len() > 0 {
            seq![trimmed(handle)] + bracketed(rest)
        } else {
            bracketed(rest)
        },
{
    let value = outside + seq!['<'] + handle + seq!['>'] + rest;
    assert(value[outside.len() as int] == '<');
    assert(value.contains('<'));
    let inside = handle + seq!['>'] + rest;
    let opened = seq!['<'] + inside;
    assert(value == outside + opened);
    lemma_outside_is_skipped(outside, opened);
    assert(opened[0] == '<');
    assert(opened.skip(1) == inside);
    let m = handle.len() as int;
    assert(inside[m] == '>');
    assert forall|k: int| 0 <= k < m implies !Separator::Char('>').parts(#[trigger] inside[k]) by {
        assert(inside[k] == handle[k]);
        assert(handle.contains(handle[k]));
    }
    lemma_cut_is(inside, Separator::Char('>'), m);
    assert(inside.take(m) == handle);
    assert(inside.skip(m + 1) == rest);
}

/// A text that is one comment, from its `(` to the `)` that closes it.
pub open spec fn is_comment(text: Seq<char>) -> bool {
    text.len() > 0 && text[0] == '(' && comment_end(text.skip(1), 1) == Some(
        (text.len() - 1) as nat,
    )
}

/// What is in a comment does not depend on what follows it.
proof fn lemma_comment_end_kept(s: Seq<char>, depth: nat, rest: Seq<char>)
    requires
        comment_end(s, depth) is Some,
    ensures
        comment_end(s + rest, depth) == comment_end(s, depth),
    decreases s.len(),
{
    assert((s + rest)[0] == s[0]);
    assert((s + rest).drop_first() == s.drop_first() + rest);
    if !(s[0] == ')' && depth <= 1) {
        let within = if s[0] == '(' {
            depth + 1
        } else if s[0] == ')' {
            (depth - 1) as nat
        } else {
            depth
        };
        lemma_comment_end_kept(s.drop_first(), within, rest);
    }
}

/// A comment outside the brackets is skipped, whatever is in it: brackets there
/// hold no handle.
pub proof fn a_comment_is_skipped(outside: Seq<char>, comment: Seq<char>, rest: Seq<char>)
    requires
        !outside.contains('<'),
        !outside.contains('('),
        is_comment(comment),
    ensures
        bracketed(outside + comment + rest) == bracketed(rest),
        rest.contains('<') ==> handles(outside + comment + rest) == handles(rest),
{
    let value = comment + rest;
    assert(outside + comment + rest == outside + value);
    lemma_outside_is_skipped(outside, value);
    assert(value[0] == '(');
    assert(value.skip(1) == comment.skip(1) + rest);
    lemma_comment_end_kept(comment.skip(1), 1, rest);
    assert(value.skip(comment.len() as int) == rest);
    if rest.contains('<') {
        let k = choose|k: int| 0 <= k < rest.len() && rest[k] == '<';
        assert((outside + value)[outside.len() + comment.len() + k] == '<');
    }
}

proof fn lemma_no_parenthesis(inside: Seq<char>)
    requires
        !inside.contains('('),
        !inside.contains(')'),
    ensures
        comment_end(inside + seq![')'], 1) == Some((inside.len() + 1) as nat),
    decreases inside.len(),
{
    let s = inside + seq![')'];
    if inside.len() > 0 {
        let shorter = inside.drop_first();
        assert(inside.contains(inside[0]));
        assert forall|c: char| shorter.contains(c) implies inside.contains(c) by {
            let k = choose|k: int| 0 <= k < shorter.len() && shorter[k] == c;
            assert(inside[k + 1] == c);
        }
        assert(s[0] == inside[0]);
        assert(s.drop_first() == shorter + seq![')']);
        lemma_no_parenthesis(shorter);
    } else {
        assert(s[0] == ')');
    }
}

/// A text in parentheses that holds none is a comment.
pub proof fn a_text_in_parentheses_is_a_comment(inside: Seq<char>)
    requires
        !inside.contains('('),
        !inside.contains(')'),
    ensures
        is_comment(seq!['('] + inside + seq![')']),
{
    let text = seq!['('] + inside + seq![')'];
    assert(text.skip(1) == inside + seq![')']);
    lemma_no_parenthesis(inside);
}

/// A `(` that is never closed hides nothing.
pub proof fn an_unclosed_parenthesis_is_skipped_alone(rest: Seq<char>)
    requires
        comment_end(rest, 1) is None,
    ensures
        bracketed(seq!['('] + rest) == bracketed(rest),
        rest.contains('<') ==> handles(seq!['('] + rest) == handles(rest),
{
    let value = seq!['('] + rest;
    assert(value[0] == '(');
    assert(value.skip(1) == rest);
    if rest.contains('<') {
        let k = choose|k: int| 0 <= k < rest.len() && rest[k] == '<';
        assert(value[k + 1] == '<');
    }
}

/// Every `<` has a `>` after it.
pub open spec fn closes_its_brackets(value: Seq<char>) -> bool {
    forall|i: int|
        0 <= i < value.len() && value[i] == '<' ==> (#[trigger] value.skip(i)).contains('>')
}

proof fn lemma_closed_from(value: Seq<char>, m: int)
    requires
        closes_its_brackets(value),
        !value.contains('('),
        0 <= m <= value.len(),
    ensures
        closes_its_brackets(value.skip(m)),
        !value.skip(m).contains('('),
{
    let rest = value.skip(m);
    assert forall|i: int| 0 <= i < rest.len() && rest[i] == '<' implies (
    #[trigger] rest.skip(i)).contains('>') by {
        assert(value[m + i] == '<');
        assert(value.skip(m + i).contains('>'));
        assert(rest.skip(i) == value.skip(m + i));
    }
    if rest.contains('(') {
        let k = choose|k: int| 0 <= k < rest.len() && rest[k] == '(';
        assert(value[m + k] == '(');
    }
}

/// Bracketed handles of a text that leaves none open come before those of what
/// follows it.
pub proof fn the_handles_of_what_follows_come_after(value: Seq<char>, more: Seq<char>)
    requires
        closes_its_brackets(value),
        !value.contains('('),
    ensures
        bracketed(value + more) == bracketed(value) + bracketed(more),
    decreases value.len(),
{
    let all = value + more;
    if value.len() == 0 {
        assert(all == more);
        assert(bracketed(value) + bracketed(more) == bracketed(more));
    } else if value[0] == '<' {
        let sep = Separator::Char('>');
        let inside = value.skip(1);
        let end = cut(inside, sep) as int;
        lemma_cut(inside, sep);
        assert(value.skip(0).contains('>'));
        assert(inside.contains('>')) by {
            let k = choose|k: int| 0 <= k < value.skip(0).len() && value.skip(0)[k] == '>';
            assert(value[k] == '>');
            assert(inside[k - 1] == '>');
        }
        lemma_cut_contains(inside, '>');
        assert(all[0] == '<');
        assert(all.skip(1) == inside + more);
        assert forall|k: int| 0 <= k < end implies !sep.parts(#[trigger] (inside + more)[k]) by {
            assert((inside + more)[k] == inside[k]);
        }
        assert((inside + more)[end] == inside[end]);
        lemma_cut_is(inside + more, sep, end);
        let rest = inside.skip(end + 1);
        assert(rest == value.skip(end + 2));
        lemma_closed_from(value, end + 2);
        the_handles_of_what_follows_come_after(rest, more);
        assert((inside + more).take(end) == inside.take(end));
        assert((inside + more).skip(end + 1) == rest + more);
        let handle = trimmed(inside.take(end));
        if handle.len() > 0 {
            assert(seq![handle] + (bracketed(rest) + bracketed(more)) == bracketed(value)
                + bracketed(more));
        }
    } else {
        assert(value.contains(value[0]));
        assert(all[0] == value[0]);
        assert(all.skip(1) == value.skip(1) + more);
        lemma_closed_from(value, 1);
        the_handles_of_what_follows_come_after(value.skip(1), more);
    }
}

proof fn lemma_no_bare_handle_in_nothing()
    ensures
        seq![Seq::<char>::empty()].filter(known_scheme()) == Seq::<Seq<char>>::empty(),
{
    let none = Seq::<char>::empty();
    reveal(Seq::filter);
    reveal_strlit("mailto:");
    reveal_strlit("http://");
    reveal_strlit("https://");
    assert(!known_scheme()(none));
    assert(seq![none].drop_last() == Seq::<Seq<char>>::empty());
    assert(seq![none].drop_last().filter(known_scheme()) == Seq::<Seq<char>>::empty());
}

/// Two values written as one, with a comma between them, have the handles of the
/// first and then those of the second. Both are bracketed or both are bare, and a
/// bracketed first one leaves no bracket and no comment open.
pub proof fn two_values_written_as_one_have_the_handles_of_both(a: Seq<char>, b: Seq<char>)
    requires
        a.contains('<') <==> b.contains('<'),
        a.contains('<') ==> closes_its_brackets(a) && !a.contains('('),
    ensures
        handles(a + ", "@ + b) == handles(a) + handles(b),
{
    reveal_strlit(", ");
    let all = a + ", "@ + b;
    assert(", "@ == seq![',', ' ']);
    if a.contains('<') {
        let k = choose|k: int| 0 <= k < a.len() && a[k] == '<';
        assert(all[k] == '<');
        let rest = ", "@ + b;
        assert(all == a + rest);
        the_handles_of_what_follows_come_after(a, rest);
        assert(!", "@.contains('<') && !", "@.contains('('));
        lemma_outside_is_skipped(", "@, b);
    } else {
        if all.contains('<') {
            let k = choose|k: int| 0 <= k < all.len() && all[k] == '<';
            if k < a.len() {
                assert(a[k] == '<');
            } else if k >= a.len() + 2 {
                assert(b[k - a.len() - 2] == '<');
            }
        }
        let sep = Separator::CommaOrSpace;
        let none = Seq::<char>::empty();
        let rest = none + seq![' '] + b;
        assert(all == a + seq![','] + rest);
        lemma_pieces_add(a, ',', rest, sep);
        lemma_pieces_add(none, ' ', b, sep);
        assert(pieces(none, sep) == seq![none]);
        Seq::filter_distributes_over_add(pieces(a, sep), pieces(rest, sep), known_scheme());
        Seq::filter_distributes_over_add(seq![none], pieces(b, sep), known_scheme());
        lemma_no_bare_handle_in_nothing();
        assert(Seq::<Seq<char>>::empty() + handles(b) == handles(b));
    }
}

/// A value with no bracket that is one handle of a known scheme is that handle.
pub proof fn a_bare_handle_is_taken_as_it_is(value: Seq<char>)
    requires
        !value.contains('<'),
        forall|k: int|
            0 <= k < value.len() ==> !Separator::CommaOrSpace.parts(#[trigger] value[k]),
        known_scheme()(value),
    ensures
        handles(value) == seq![value],
{
    reveal(Seq::filter);
    lemma_cut_is(value, Separator::CommaOrSpace, value.len() as int);
    let all = pieces(value, Separator::CommaOrSpace);
    assert(all == seq![value]);
    assert(all.drop_last() == Seq::<Seq<char>>::empty());
    assert(all.drop_last().filter(known_scheme()) == Seq::<Seq<char>>::empty());
}

proof fn lemma_bracketed_trimmed(value: Seq<char>)
    ensures
        forall|i: int|
            0 <= i < bracketed(value).len() ==> {
                let handle = #[trigger] bracketed(value)[i];
                handle.len() > 0 && trimmed(handle) == handle
            },
    decreases value.len(),
{
    if value.len() > 0 && value[0] == '<' {
        let inside = value.skip(1);
        let end = cut(inside, Separator::Char('>')) as int;
        if end < inside.len() {
            let handle = trimmed(inside.take(end));
            let more = bracketed(inside.skip(end + 1));
            lemma_bracketed_trimmed(inside.skip(end + 1));
            trimming_again_changes_nothing(inside.take(end));
            if handle.len() > 0 {
                assert forall|i: int| 0 <= i < bracketed(value).len() implies {
                    let handle = #[trigger] bracketed(value)[i];
                    handle.len() > 0 && trimmed(handle) == handle
                } by {
                    if i > 0 {
                        assert(bracketed(value)[i] == more[i - 1]);
                    }
                }
            }
        }
    } else if value.len() > 0 {
        lemma_comment_end(value.skip(1), 1);
        let rest = value.skip(skipped(value) as int);
        lemma_bracketed_trimmed(rest);
        assert(bracketed(value) == bracketed(rest));
    }
}

proof fn lemma_bare_trimmed(parts: Seq<Seq<char>>)
    requires
        forall|i: int, k: int|
            0 <= i < parts.len() && 0 <= k < parts[i].len() ==> !Separator::CommaOrSpace.parts(
                #[trigger] parts[i][k],
            ),
    ensures
        forall|i: int|
            0 <= i < parts.filter(known_scheme()).len() ==> {
                let handle = #[trigger] parts.filter(known_scheme())[i];
                handle.len() > 0 && trimmed(handle) == handle
            },
    decreases parts.len(),
{
    reveal(Seq::filter);
    if parts.len() > 0 {
        let earlier = parts.drop_last();
        assert forall|i: int, k: int|
            0 <= i < earlier.len() && 0 <= k < earlier[i].len() implies !Separator::CommaOrSpace.parts(
            #[trigger] earlier[i][k],
        ) by {
            assert(earlier[i] == parts[i]);
            assert(!Separator::CommaOrSpace.parts(parts[i][k]));
        }
        lemma_bare_trimmed(earlier);
        let last = parts[parts.len() - 1];
        if known_scheme()(last) {
            reveal_strlit("mailto:");
            reveal_strlit("http://");
            reveal_strlit("https://");
            assert(last.len() > 0);
            assert(!Separator::CommaOrSpace.parts(parts[parts.len() - 1][0]));
            assert(!Separator::CommaOrSpace.parts(parts[parts.len() - 1][last.len() - 1]));
            lemma_trimmed_fixed(last);
            let had = earlier.filter(known_scheme());
            let kept = parts.filter(known_scheme());
            assert(kept == had.push(last));
            assert forall|i: int| 0 <= i < kept.len() implies {
                let handle = #[trigger] kept[i];
                handle.len() > 0 && trimmed(handle) == handle
            } by {
                if i < had.len() {
                    assert(kept[i] == had[i]);
                } else {
                    assert(kept[i] == last);
                }
            }
        } else {
            assert(parts.filter(known_scheme()) == earlier.filter(known_scheme()));
        }
    }
}

/// Every handle that is read is some text, with no white space around it.
pub proof fn every_handle_is_trimmed(value: Seq<char>)
    ensures
        forall|i: int|
            0 <= i < handles(value).len() ==> {
                let handle = #[trigger] handles(value)[i];
                handle.len() > 0 && trimmed(handle) == handle
            },
{
    lemma_bracketed_trimmed(value);
    lemma_pieces_have_no_separator(value, Separator::CommaOrSpace);
    lemma_bare_trimmed(pieces(value, Separator::CommaOrSpace));
}

proof fn lemma_first(hs: Seq<Seq<char>>, test: spec_fn(Seq<char>) -> bool)
    ensures
        first(hs, test) matches Some(h) ==> hs.contains(h) && test(h),
        first(hs, test) is None <==> forall|i: int| 0 <= i < hs.len() ==> !test(#[trigger] hs[i]),
    decreases hs.len(),
{
    if hs.len() > 0 {
        let earlier = hs.drop_last();
        lemma_first(earlier, test);
        assert(forall|i: int| 0 <= i < earlier.len() ==> earlier[i] == hs[i]);
        if let Some(h) = first(earlier, test) {
            let i = choose|i: int| 0 <= i < earlier.len() && earlier[i] == h;
            assert(hs[i] == h);
        }
        if test(hs.last()) {
            assert(test(hs[hs.len() - 1]));
        }
    }
}

proof fn lemma_first_kept(a: Seq<Seq<char>>, b: Seq<Seq<char>>, test: spec_fn(Seq<char>) -> bool)
    ensures
        first(a, test) is Some ==> first(a + b, test) == first(a, test),
    decreases b.len(),
{
    if b.len() > 0 {
        lemma_first_kept(a, b.drop_last(), test);
        assert((a + b).drop_last() == a + b.drop_last());
    } else {
        assert(a + b == a);
    }
}

/// The handles of more values follow those of the values before them.
pub proof fn the_handles_of_more_values_follow(a: Seq<Seq<char>>, b: Seq<Seq<char>>)
    ensures
        all_handles(a + b) == all_handles(a) + all_handles(b),
    decreases b.len(),
{
    if b.len() > 0 {
        the_handles_of_more_values_follow(a, b.drop_last());
        assert((a + b).drop_last() == a + b.drop_last());
        assert((a + b).last() == b.last());
        assert(all_handles(a + b) == all_handles(a) + all_handles(b));
    } else {
        assert(a + b == a);
        assert(all_handles(b) == Seq::<Seq<char>>::empty());
        assert(all_handles(a) + all_handles(b) == all_handles(a));
    }
}

/// The one-click promise holds only for an https handle that the headers name,
/// and only when the post header makes it.
pub proof fn one_click_is_promised_and_https(
    list_unsubscribe: Seq<Seq<char>>,
    post: Option<Seq<char>>,
    list_id: Option<Seq<char>>,
)
    ensures
        offers_of(list_unsubscribe, post, list_id) matches Some(offers) ==> (
        offers.one_click matches Some(url) ==> {
            &&& promises_one_click(post)
            &&& begins_but_case(url, "https://"@)
            &&& all_handles(list_unsubscribe).contains(url)
        }),
{
    lemma_first(all_handles(list_unsubscribe), secure());
}

/// Case and surrounding space of the post header are forgiven: two that differ
/// in nothing else offer the same.
pub proof fn case_and_space_of_the_post_header_are_forgiven(
    list_unsubscribe: Seq<Seq<char>>,
    post: Seq<char>,
    other: Seq<char>,
    list_id: Option<Seq<char>>,
)
    requires
        same_but_case(trimmed(post), trimmed(other)),
    ensures
        offers_of(list_unsubscribe, Some(post), list_id) == offers_of(
            list_unsubscribe,
            Some(other),
            list_id,
        ),
{
}

/// A `mailto:` handle that is offered is one of the headers', and has a target.
pub proof fn an_offered_mailto_has_a_target(
    list_unsubscribe: Seq<Seq<char>>,
    post: Option<Seq<char>>,
    list_id: Option<Seq<char>>,
)
    ensures
        offers_of(list_unsubscribe, post, list_id) matches Some(offers) ==> (
        offers.mailto matches Some(handle) ==> {
            &&& begins_but_case(handle, "mailto:"@)
            &&& target_of(handle) is Some
            &&& all_handles(list_unsubscribe).contains(handle)
        }),
{
    lemma_first(all_handles(list_unsubscribe), writable());
}

/// A page that is offered is an http or https handle of the headers.
pub proof fn an_offered_page_is_a_web_handle(
    list_unsubscribe: Seq<Seq<char>>,
    post: Option<Seq<char>>,
    list_id: Option<Seq<char>>,
)
    ensures
        offers_of(list_unsubscribe, post, list_id) matches Some(offers) ==> (
        offers.web matches Some(url) ==> page()(url) && all_handles(list_unsubscribe).contains(
            url,
        )),
{
    lemma_first(all_handles(list_unsubscribe), page());
}

/// A message offers nothing exactly where none of its handles can be written to
/// or opened.
pub proof fn nothing_is_offered_without_a_usable_handle(
    list_unsubscribe: Seq<Seq<char>>,
    post: Option<Seq<char>>,
    list_id: Option<Seq<char>>,
)
    ensures
        offers_of(list_unsubscribe, post, list_id) is None <==> forall|i: int|
            0 <= i < all_handles(list_unsubscribe).len() ==> {
                let handle = #[trigger] all_handles(list_unsubscribe)[i];
                !writable()(handle) && !page()(handle)
            },
{
    let all = all_handles(list_unsubscribe);
    lemma_first(all, writable());
    lemma_first(all, page());
    lemma_first(all, secure());
}

/// Only a list that offers nothing but a page sends the user to the browser:
/// where there is no direct route there is a page. Where there is the one-click
/// route there is a page too.
pub proof fn the_browser_is_the_last_resort(
    list_unsubscribe: Seq<Seq<char>>,
    post: Option<Seq<char>>,
    list_id: Option<Seq<char>>,
)
    ensures
        offers_of(list_unsubscribe, post, list_id) matches Some(offers) ==> {
            &&& !offers.is_direct() ==> offers.web is Some
            &&& offers.one_click is Some ==> offers.web is Some
        },
{
    let all = all_handles(list_unsubscribe);
    lemma_first(all, page());
    lemma_first(all, secure());
    if let Some(url) = first(all, secure()) {
        let i = choose|i: int| 0 <= i < all.len() && all[i] == url;
        assert(page()(all[i]));
    }
}

/// Without the promise of the post header no list is one-click; every other
/// offer stays as it is.
pub proof fn without_the_promise_there_is_no_one_click(
    list_unsubscribe: Seq<Seq<char>>,
    post: Option<Seq<char>>,
    list_id: Option<Seq<char>>,
)
    requires
        !promises_one_click(post),
    ensures
        offers_of(list_unsubscribe, post, list_id) == offers_of(list_unsubscribe, None, list_id),
        offers_of(list_unsubscribe, post, list_id) matches Some(offers) ==> offers.one_click
            is None,
{
}

/// The first handle of each kind wins: more values after those that offer
/// something take nothing away and replace nothing.
pub proof fn earlier_handles_win(
    values: Seq<Seq<char>>,
    more: Seq<Seq<char>>,
    post: Option<Seq<char>>,
    list_id: Option<Seq<char>>,
)
    ensures
        offers_of(values, post, list_id) matches Some(offers) ==> {
            &&& offers_of(values + more, post, list_id) matches Some(all)
            &&& offers.one_click is Some ==> all.one_click == offers.one_click
            &&& offers.mailto is Some ==> all.mailto == offers.mailto
            &&& offers.web is Some ==> all.web == offers.web
            &&& all.list_id == offers.list_id
        },
{
    the_handles_of_more_values_follow(values, more);
    let a = all_handles(values);
    let b = all_handles(more);
    lemma_first_kept(a, b, secure());
    lemma_first_kept(a, b, writable());
    lemma_first_kept(a, b, page());
}

proof fn lemma_lower_char(c: char)
    ensures
        lower_char(lower_char(c)) == lower_char(c),
        white_space(lower_char(c)) == white_space(c),
        (lower_char(c) == '<') == (c == '<'),
        (lower_char(c) == '>') == (c == '>'),
{
}

proof fn lemma_trimmed_lowered(s: Seq<char>)
    ensures
        trimmed_start(lowered(s)) == lowered(trimmed_start(s)),
        trimmed_end(lowered(s)) == lowered(trimmed_end(s)),
    decreases s.len(),
{
    if s.len() > 0 {
        lemma_lower_char(s[0]);
        lemma_lower_char(s.last());
        assert(lowered(s)[0] == lower_char(s[0]));
        assert(lowered(s).last() == lower_char(s.last()));
        assert(lowered(s).drop_first() == lowered(s.drop_first()));
        assert(lowered(s).drop_last() == lowered(s.drop_last()));
        lemma_trimmed_lowered(s.drop_first());
        lemma_trimmed_lowered(s.drop_last());
    }
}

/// Trimming and lowering can be done in either order.
pub proof fn trimming_and_lowering_commute(s: Seq<char>)
    ensures
        lowered(trimmed(s)) == trimmed(lowered(s)),
{
    lemma_trimmed_lowered(s);
    lemma_trimmed_lowered(trimmed_start(s));
}

/// The key of a list is in small letters, with no white space around it.
pub proof fn a_list_key_is_lowered_and_trimmed(value: Seq<char>)
    ensures
        lowered(list_key(value)) == list_key(value),
        trimmed(list_key(value)) == list_key(value),
{
    let open = cut(value, Separator::Char('<')) as int;
    let close = last_past(value, '>') - 1;
    let id = if open < value.len() && open < close {
        value.subrange(open + 1, close)
    } else {
        value
    };
    let key = list_key(value);
    assert forall|i: int| 0 <= i < key.len() implies lower_char(#[trigger] key[i]) == key[i] by {
        lemma_lower_char(trimmed(id)[i]);
    }
    assert(lowered(key) == key);
    trimming_and_lowering_commute(trimmed(id));
    trimming_again_changes_nothing(id);
}

proof fn lemma_same_cut(v: Seq<char>, w: Seq<char>)
    requires
        same_but_case(v, w),
    ensures
        cut(v, Separator::Char('<')) == cut(w, Separator::Char('<')),
        last_past(v, '>') == last_past(w, '>'),
        last_past(v, '>') <= v.len(),
    decreases v.len(),
{
    assert(lowered(v).len() == lowered(w).len());
    if v.len() > 0 {
        assert(lowered(v)[0] == lowered(w)[0]);
        assert(lowered(v).last() == lowered(w).last());
        lemma_lower_char(v[0]);
        lemma_lower_char(w[0]);
        lemma_lower_char(v.last());
        lemma_lower_char(w.last());
        assert(lowered(v.drop_first()) == lowered(v).drop_first());
        assert(lowered(w.drop_first()) == lowered(w).drop_first());
        assert(lowered(v.drop_last()) == lowered(v).drop_last());
        assert(lowered(w.drop_last()) == lowered(w).drop_last());
        lemma_same_cut(v.drop_first(), w.drop_first());
        lemma_same_cut(v.drop_last(), w.drop_last());
    }
}

/// A list is remembered by one key however its identifier is capitalised.
pub proof fn a_list_key_ignores_case(value: Seq<char>, other: Seq<char>)
    requires
        same_but_case(value, other),
    ensures
        list_key(value) == list_key(other),
{
    lemma_same_cut(value, other);
    assert(lowered(value).len() == lowered(other).len());
    let open = cut(value, Separator::Char('<')) as int;
    let close = last_past(value, '>') - 1;
    let (a, b) = if open < value.len() && open < close {
        (value.subrange(open + 1, close), other.subrange(open + 1, close))
    } else {
        (value, other)
    };
    if open < value.len() && open < close {
        assert(lowered(a) == lowered(value).subrange(open + 1, close));
        assert(lowered(b) == lowered(other).subrange(open + 1, close));
    }
    trimming_and_lowering_commute(a);
    trimming_and_lowering_commute(b);
}

/// The identifier is what stands in the brackets, whatever name comes before it.
pub proof fn a_list_key_is_what_stands_in_the_brackets(name: Seq<char>, id: Seq<char>)
    requires
        !name.contains('<'),
    ensures
        list_key(name + seq!['<'] + id + seq!['>']) == lowered(trimmed(id)),
{
    let value = name + seq!['<'] + id + seq!['>'];
    let n = name.len() as int;
    assert(value[n] == '<');
    assert forall|k: int| 0 <= k < n implies !Separator::Char('<').parts(#[trigger] value[k]) by {
        assert(value[k] == name[k]);
        assert(name.contains(name[k]));
    }
    lemma_cut_is(value, Separator::Char('<'), n);
    assert(value.last() == '>');
    assert(value.subrange(n + 1, value.len() - 1) == id);
}

/// Header names are matched whatever their case.
pub proof fn header_names_ignore_case(message: MessageText, name: Seq<char>, other: Seq<char>)
    requires
        same_but_case(name, other),
    ensures
        header_values(message, name) == header_values(message, other),
{
    assert(named(message.raw, name) =~= named(message.raw, other));
}

/// The bytes of a header's value are read back as they were given, whatever is
/// in them: a header with a value in UTF-8 adds that value, as one line.
pub proof fn a_header_value_is_read_back(
    message: MessageText,
    header: HeaderText,
    value: Seq<char>,
)
    requires
        0 <= header.start <= header.end <= message.raw.len(),
        message.raw.subrange(header.start, header.end) == encode_utf8(value),
        unfolded(value).len() > 0,
    ensures
        header_values(
            MessageText { raw: message.raw, headers: message.headers.push(header) },
            header.name,
        ) == header_values(message, header.name).push(unfolded(value)),
{
    let raw = message.raw;
    lemma_filter_push(message.headers, header, named(raw, header.name));
    let earlier = message.headers.filter(named(raw, header.name));
    text_in_utf8_is_read_as_it_is(value);
    assert(earlier.push(header).map_values(value_in(raw)) == earlier.map_values(
        value_in(raw),
    ).push(unfolded(value)));
    lemma_filter_push(earlier.map_values(value_in(raw)), unfolded(value), not_empty());
}

/// A message without a `List-Unsubscribe` value offers nothing, whatever else it
/// says.
pub proof fn without_the_header_nothing_is_offered(message: MessageText)
    requires
        header_values(message, "List-Unsubscribe"@).len() == 0,
    ensures
        offers_in(message) is None,
{
    let none = header_values(message, "List-Unsubscribe"@);
    assert(all_handles(none) == Seq::<Seq<char>>::empty());
}

/// A header of any other name changes nothing of what a message offers.
pub proof fn other_headers_change_nothing(message: MessageText, header: HeaderText)
    requires
        !same_but_case(header.name, "List-Unsubscribe"@),
        !same_but_case(header.name, "List-Unsubscribe-Post"@),
        !same_but_case(header.name, "List-Id"@),
    ensures
        offers_in(MessageText { raw: message.raw, headers: message.headers.push(header) })
            == offers_in(message),
{
    lemma_filter_push(message.headers, header, named(message.raw, "List-Unsubscribe"@));
    lemma_filter_push(message.headers, header, named(message.raw, "List-Unsubscribe-Post"@));
    lemma_filter_push(message.headers, header, named(message.raw, "List-Id"@));
}

/// The key is what stands from the first `<` to the last `>` after it, whatever comes
/// before and after; without such a pair it is the whole value.
pub proof fn a_list_key_stands_from_the_first_bracket_to_the_last(
    name: Seq<char>,
    id: Seq<char>,
    tail: Seq<char>,
)
    requires
        !name.contains('<'),
    ensures
        !tail.contains('>') ==> list_key(name + seq!['<'] + id + seq!['>'] + tail) == lowered(
            trimmed(id),
        ),
        !tail.contains('>') ==> list_key(name + seq!['<'] + tail) == lowered(
            trimmed(name + seq!['<'] + tail),
        ),
        list_key(name) == lowered(trimmed(name)),
{
    let n = name.len() as int;
    assert forall|k: int| 0 <= k < n implies !Separator::Char('<').parts(#[trigger] name[k]) by {
        assert(name.contains(name[k]));
    }
    lemma_cut_is(name, Separator::Char('<'), n);
    if !tail.contains('>') {
        let value = name + seq!['<'] + id + seq!['>'] + tail;
        assert(value[n] == '<');
        assert forall|k: int| 0 <= k < n implies !Separator::Char('<').parts(
            #[trigger] value[k],
        ) by {
            assert(value[k] == name[k]);
        }
        lemma_cut_is(value, Separator::Char('<'), n);
        the_last_of_a_character_is_found(name + seq!['<'] + id, '>', tail);
        let close = n + 1 + id.len();
        assert(value.subrange(n + 1, close as int) == id);
        let unclosed = name + seq!['<'] + tail;
        assert(unclosed[n] == '<');
        assert forall|k: int| 0 <= k < n implies !Separator::Char('<').parts(
            #[trigger] unclosed[k],
        ) by {
            assert(unclosed[k] == name[k]);
        }
        lemma_cut_is(unclosed, Separator::Char('<'), n);
        lemma_last_past_before(name + seq!['<'], tail);
        lemma_last_past_bound(name + seq!['<'], '>');
    }
}

proof fn lemma_last_past_bound(s: Seq<char>, c: char)
    ensures
        last_past(s, c) <= s.len(),
    decreases s.len(),
{
    if s.len() > 0 && s.last() != c {
        lemma_last_past_bound(s.drop_last(), c);
    }
}

/// The last `>` stands before a text that has none.
proof fn lemma_last_past_before(s: Seq<char>, tail: Seq<char>)
    requires
        !tail.contains('>'),
    ensures
        last_past(s + tail, '>') == last_past(s, '>'),
    decreases tail.len(),
{
    if tail.len() > 0 {
        let shorter = tail.drop_last();
        assert(tail.contains(tail.last()));
        if shorter.contains('>') {
            let k = choose|k: int| 0 <= k < shorter.len() && shorter[k] == '>';
            assert(tail[k] == '>');
        }
        assert((s + tail).last() == tail.last());
        assert((s + tail).drop_last() == s + shorter);
        lemma_last_past_before(s, shorter);
    } else {
        assert(s + tail == s);
    }
}

} // verus!
