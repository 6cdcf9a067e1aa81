//! The targets of `mailto:` handles.

use crate::laws::percent::{
    lemma_percent_text, percent_text, percent_text_encodes, plain_text_is_decoded_to_itself,
};
use crate::laws::unfolding::{
    lemma_trimmed_ends, lemma_trimmed_fixed, trimming_again_changes_nothing,
};
use crate::mailto::{
    address_text, after_scheme, all_addresses, field_addresses, fields, has_at, key_and_value,
    last_value, leading_addresses, target_of, to_addresses, TargetText,
};
use crate::percent::decoded;
use crate::text::{
    after, before, begins_but_case, lemma_cut, lemma_cut_contains, lemma_cut_is, lowered, not_empty,
    pieces, same_but_case, trimmed, trimmed_end, trimmed_start, trimming, white_space, Separator,
};
use vstd::prelude::*;

verus! {

proof fn lemma_filter_holds(s: Seq<Seq<char>>, keep: spec_fn(Seq<char>) -> bool)
    ensures
        forall|i: int| 0 <= i < s.filter(keep).len() ==> keep(#[trigger] s.filter(keep)[i]),
    decreases s.len(),
{
    reveal(Seq::filter);
    if s.len() > 0 {
        lemma_filter_holds(s.drop_last(), keep);
    }
}

proof fn lemma_to_addresses_have_at(fields: Seq<(Seq<char>, Seq<char>)>)
    ensures
        forall|i: int|
            0 <= i < to_addresses(fields).len() ==> (#[trigger] to_addresses(fields)[i]).contains(
                '@',
            ),
    decreases fields.len(),
{
    if fields.len() > 0 {
        lemma_to_addresses_have_at(fields.drop_last());
        let list = fields.last().1;
        lemma_filter_holds(
            pieces(list, Separator::Char(',')).map_values(trimming()),
            has_at(),
        );
        let earlier = to_addresses(fields.drop_last());
        assert forall|i: int| 0 <= i < to_addresses(fields).len() implies (
        #[trigger] to_addresses(fields)[i]).contains('@') by {
            if i < earlier.len() {
                assert(to_addresses(fields)[i] == earlier[i]);
            } else {
                assert(to_addresses(fields)[i] == field_addresses(list)[i - earlier.len()]);
                assert(has_at()(field_addresses(list)[i - earlier.len()]));
            }
        }
    }
}

/// Every address that a `mailto:` URI is read to name has an `@`.
pub proof fn every_address_has_an_at(rest: Seq<char>)
    ensures
        forall|i: int|
            0 <= i < all_addresses(rest).len() ==> (#[trigger] all_addresses(rest)[i]).contains('@'),
{
    let list = before(rest, '?');
    lemma_filter_holds(
        pieces(list, Separator::Char(',')).map_values(address_text()),
        has_at(),
    );
    lemma_to_addresses_have_at(fields(after(rest, '?')));
    let leading = leading_addresses(list);
    assert forall|i: int| 0 <= i < all_addresses(rest).len() implies (
    #[trigger] all_addresses(rest)[i]).contains('@') by {
        if i < leading.len() {
            assert(all_addresses(rest)[i] == leading[i]);
            assert(has_at()(leading[i]));
        } else {
            assert(all_addresses(rest)[i] == to_addresses(fields(after(rest, '?')))[i
                - leading.len()]);
        }
    }
}

/// No address, no target; and a `mailto:` URI with an address has one.
pub proof fn a_target_needs_an_address(uri: Seq<char>)
    ensures
        target_of(uri) is Some <==> (after_scheme(uri, "mailto:"@) matches Some(rest)
            && all_addresses(rest).len() > 0),
{
}

/// A text that is no `mailto:` URI, whatever it holds, has no target.
pub proof fn another_text_has_no_target(uri: Seq<char>)
    requires
        !begins_but_case(trimmed(uri), "mailto:"@),
    ensures
        target_of(uri) is None,
{
}

/// A subject is always sent, and a body.
pub proof fn a_subject_is_always_sent(uri: Seq<char>)
    ensures
        target_of(uri) matches Some(target) ==> {
            &&& trimmed(target.subject).len() > 0
            &&& trimmed(target.body).len() > 0
        },
{
    reveal_strlit("Unsubscribe");
    let word = "Unsubscribe"@;
    assert(word[0] == 'U');
    assert(word.last() == 'e');
    lemma_trimmed_fixed(word);
}

/// White space around a `mailto:` URI makes no difference.
pub proof fn space_around_a_mailto_is_ignored(uri: Seq<char>)
    ensures
        target_of(trimmed(uri)) == target_of(uri),
{
    trimming_again_changes_nothing(uri);
}

proof fn lemma_trimmed_add(scheme: Seq<char>, rest: Seq<char>)
    requires
        scheme.len() > 0,
        !white_space(scheme[0]),
        !white_space(scheme.last()),
    ensures
        trimmed(scheme + rest) == scheme + trimmed_end(rest),
    decreases rest.len(),
{
    let all = scheme + rest;
    assert(all[0] == scheme[0]);
    assert(trimmed_start(all) == all);
    if rest.len() > 0 {
        assert(all.last() == rest.last());
        if white_space(rest.last()) {
            lemma_trimmed_add(scheme, rest.drop_last());
            let shorter = scheme + rest.drop_last();
            assert(all.drop_last() == shorter);
            assert(shorter[0] == scheme[0]);
            assert(trimmed_start(shorter) == shorter);
        }
    } else {
        assert(all == scheme);
        assert(scheme + trimmed_end(rest) == scheme);
    }
}

/// The scheme of a `mailto:` URI can be written in any case.
pub proof fn the_case_of_the_scheme_is_ignored(scheme: Seq<char>, rest: Seq<char>)
    requires
        same_but_case(scheme, "mailto:"@),
    ensures
        target_of(scheme + rest) == target_of("mailto:"@ + rest),
{
    reveal_strlit("mailto:");
    let plain = "mailto:"@;
    assert(lowered(scheme).len() == lowered(plain).len());
    assert(lowered(scheme)[0] == lowered(plain)[0]);
    assert(lowered(scheme)[6] == lowered(plain)[6]);
    lemma_trimmed_add(scheme, rest);
    lemma_trimmed_add(plain, rest);
    let tail = trimmed_end(rest);
    assert((scheme + tail).take(7) == scheme);
    assert((plain + tail).take(7) == plain);
    assert((scheme + tail).skip(7) == tail);
    assert((plain + tail).skip(7) == tail);
}

/// A `mailto:` URI with one address, a subject and a body, the latter two
/// percent-encoded.
pub open spec fn mailto_uri(address: Seq<char>, subject: Seq<char>, body: Seq<char>) -> Seq<char> {
    "mailto:"@ + address + seq!['?'] + "subject="@ + percent_text(subject) + seq!['&'] + "body="@
        + percent_text(body)
}

/// The pieces of two texts with a separator between them, the first without any.
proof fn lemma_pieces_pair(a: Seq<char>, c: char, b: Seq<char>)
    requires
        !a.contains(c),
    ensures
        pieces(a + seq![c] + b, Separator::Char(c)) == seq![a] + pieces(b, Separator::Char(c)),
        before(a + seq![c] + b, c) == a,
        after(a + seq![c] + b, c) == b,
{
    let all = a + seq![c] + b;
    let n = a.len() as int;
    assert(all[n] == c);
    assert forall|k: int| 0 <= k < n implies !Separator::Char(c).parts(#[trigger] all[k]) by {
        assert(all[k] == a[k]);
        assert(a.contains(a[k]));
    }
    lemma_cut_is(all, Separator::Char(c), n);
    assert(all.take(n) == a);
    assert(all.skip(n + 1) == b);
}

pub proof fn lemma_pieces_one(a: Seq<char>, c: char)
    requires
        !a.contains(c),
    ensures
        pieces(a, Separator::Char(c)) == seq![a],
{
    lemma_cut_contains(a, c);
    lemma_cut(a, Separator::Char(c));
}

pub proof fn lemma_filter_all<A>(s: Seq<A>, keep: spec_fn(A) -> bool)
    requires
        forall|i: int| 0 <= i < s.len() ==> keep(#[trigger] s[i]),
    ensures
        s.filter(keep) == s,
    decreases s.len(),
{
    reveal(Seq::filter);
    if s.len() > 0 {
        let earlier = s.drop_last();
        assert(forall|i: int| 0 <= i < earlier.len() ==> earlier[i] == s[i]);
        lemma_filter_all(earlier, keep);
        assert(keep(s[s.len() - 1]));
        assert(earlier.push(s.last()) == s);
    }
}

/// The query of [`mailto_uri`].
spec fn query_of(subject: Seq<char>, body: Seq<char>) -> Seq<char> {
    ("subject="@ + percent_text(subject)) + seq!['&'] + ("body="@ + percent_text(body))
}

proof fn lemma_uri_parts(address: Seq<char>, subject: Seq<char>, body: Seq<char>)
    requires
        body.len() > 0,
    ensures
        after_scheme(mailto_uri(address, subject, body), "mailto:"@) == Some(
            address + seq!['?'] + query_of(subject, body),
        ),
{
    reveal_strlit("mailto:");
    let uri = mailto_uri(address, subject, body);
    let rest = address + seq!['?'] + query_of(subject, body);
    let code = percent_text(body);
    lemma_percent_text(body);
    assert(uri == "mailto:"@ + rest);
    assert(uri.last() == code[code.len() - 1]);
    assert(uri[0] == 'm');
    lemma_trimmed_fixed(uri);
    assert(uri.take(7) == "mailto:"@);
    assert(uri.skip(7) == rest);
}

pub proof fn lemma_one_address(address: Seq<char>)
    requires
        address.contains('@'),
        trimmed(address) == address,
        !address.contains(','),
        !address.contains('%'),
    ensures
        leading_addresses(address) == seq![address],
{
    lemma_pieces_one(address, ',');
    plain_text_is_decoded_to_itself(address);
    let listed = pieces(address, Separator::Char(',')).map_values(address_text());
    assert(listed == seq![address]);
    assert forall|i: int| 0 <= i < listed.len() implies has_at()(#[trigger] listed[i]) by {}
    lemma_filter_all(listed, has_at());
}

pub proof fn lemma_pair(key: Seq<char>, text: Seq<char>)
    requires
        !key.contains('&'),
        !key.contains('='),
    ensures
        !(key + seq!['='] + percent_text(text)).contains('&'),
        before(key + seq!['='] + percent_text(text), '=') == key,
        decoded(after(key + seq!['='] + percent_text(text), '=')) == text,
{
    let code = percent_text(text);
    let pair = key + seq!['='] + code;
    lemma_percent_text(text);
    lemma_pieces_pair(key, '=', code);
    percent_text_encodes(text);
    assert forall|k: int| 0 <= k < pair.len() implies pair[k] != '&' by {
        if k < key.len() {
            assert(pair[k] == key[k]);
            assert(key.contains(key[k]));
        } else if k > key.len() {
            assert(pair[k] == code[k - key.len() - 1]);
        }
    }
}

proof fn lemma_pair_literals(subject: Seq<char>, body: Seq<char>)
    ensures
        query_of(subject, body) == ("subject"@ + seq!['='] + percent_text(subject)) + seq!['&'] + (
        "body"@ + seq!['='] + percent_text(body)),
        !"subject"@.contains('&'),
        !"subject"@.contains('='),
        !"body"@.contains('&'),
        !"body"@.contains('='),
{
    reveal_strlit("subject=");
    reveal_strlit("body=");
    reveal_strlit("subject");
    reveal_strlit("body");
    assert("subject="@ == "subject"@ + seq!['=']);
    assert("body="@ == "body"@ + seq!['=']);
}

proof fn lemma_query_fields(subject: Seq<char>, body: Seq<char>)
    ensures
        fields(query_of(subject, body)) == seq![("subject"@, subject), ("body"@, body)],
{
    let first_pair = "subject"@ + seq!['='] + percent_text(subject);
    let second_pair = "body"@ + seq!['='] + percent_text(body);
    lemma_pair_literals(subject, body);
    lemma_pair("subject"@, subject);
    lemma_pair("body"@, body);
    lemma_pieces_pair(first_pair, '&', second_pair);
    lemma_pieces_one(second_pair, '&');
    let pairs = pieces(query_of(subject, body), Separator::Char('&'));
    assert(pairs == seq![first_pair, second_pair]);
    assert(first_pair.len() > 0 && second_pair.len() > 0);
    assert forall|i: int| 0 <= i < pairs.len() implies not_empty()(#[trigger] pairs[i]) by {}
    lemma_filter_all(pairs, not_empty());
    assert(key_and_value()(first_pair) == ("subject"@, subject));
    assert(key_and_value()(second_pair) == ("body"@, body));
    assert(pairs.map_values(key_and_value()) == seq![("subject"@, subject), ("body"@, body)]);
}

proof fn lemma_two_fields(subject: Seq<char>, body: Seq<char>)
    ensures
        ({
            let read = seq![("subject"@, subject), ("body"@, body)];
            &&& last_value(read, "subject"@) == subject
            &&& last_value(read, "body"@) == body
            &&& to_addresses(read) == Seq::<Seq<char>>::empty()
        }),
{
    reveal_strlit("subject");
    reveal_strlit("body");
    reveal_strlit("to");
    let read = seq![("subject"@, subject), ("body"@, body)];
    let earlier = read.drop_last();
    assert(earlier == seq![("subject"@, subject)]);
    let none = earlier.drop_last();
    assert(none == Seq::<(Seq<char>, Seq<char>)>::empty());
    assert(lowered("body"@).len() != lowered("subject"@).len());
    assert(lowered("body"@).len() != lowered("to"@).len());
    assert(lowered("subject"@).len() != lowered("to"@).len());
    assert(last_value(earlier, "subject"@) == subject);
    assert(to_addresses(none) == Seq::<Seq<char>>::empty());
    assert(to_addresses(earlier) == Seq::<Seq<char>>::empty());
}

/// Whatever subject and body are percent-encoded into a `mailto:` URI, the
/// target has them, and the address.
pub proof fn subject_and_body_come_through(
    address: Seq<char>,
    subject: Seq<char>,
    body: Seq<char>,
)
    requires
        address.contains('@'),
        trimmed(address) == address,
        !address.contains('?'),
        !address.contains(','),
        !address.contains('%'),
        trimmed(subject).len() > 0,
        trimmed(body).len() > 0,
    ensures
        target_of(mailto_uri(address, subject, body)) == Some(
            TargetText { to: address, subject, body },
        ),
{
    lemma_trimmed_ends(body);
    lemma_uri_parts(address, subject, body);
    lemma_pieces_pair(address, '?', query_of(subject, body));
    lemma_one_address(address);
    lemma_query_fields(subject, body);
    lemma_two_fields(subject, body);
    let rest = address + seq!['?'] + query_of(subject, body);
    assert(all_addresses(rest) == seq![address]);
}

} // verus!
