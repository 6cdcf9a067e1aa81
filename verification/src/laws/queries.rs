//! The query of a `mailto:` URI and the addresses in it: what each field and each
//! address does to the target.

use crate::laws::mailto::{lemma_filter_all, lemma_one_address, lemma_pair, lemma_pieces_one};
use crate::laws::percent::{lemma_percent_text, percent_text, plain_text_is_decoded_to_itself};
use crate::laws::text::{
    case_is_ignored_character_by_character, the_first_of_a_character_parts_a_text,
    trimming_gives_what_stands_between_white_space,
};
use crate::laws::unfolding::{blank, lemma_pieces_add, lemma_trimmed_ends};
use crate::mailto::{
    address_text, after_scheme, all_addresses, field_addresses, fields, has_at, key_and_value,
    last_value, leading_addresses, target_of, to_addresses, TargetText,
};
use crate::percent::{decoded, unescaped};
use crate::text::{
    after, joined, lemma_filter_push, not_empty, pieces, same_but_case, trimmed, trimming,
    white_space, Separator,
};
use vstd::prelude::*;

verus! {

/// What follows the scheme of a `mailto:` URI is what stands after it, in whatever
/// case it is and whatever white space is around the URI. Every other text has
/// no such rest.
pub proof fn the_rest_is_what_follows_the_scheme(
    left: Seq<char>,
    scheme: Seq<char>,
    rest: Seq<char>,
    right: Seq<char>,
)
    requires
        blank(left),
        blank(right),
        rest.len() > 0 ==> !white_space(rest.last()),
        scheme.len() == 7,
        !white_space(scheme[0]),
        !white_space(scheme.last()),
    ensures
        after_scheme(left + scheme + rest + right, "mailto:"@) == if same_but_case(
            scheme,
            "mailto:"@,
        ) {
            Some(rest)
        } else {
            None
        },
{
    reveal_strlit("mailto:");
    let middle = scheme + rest;
    let uri = left + scheme + rest + right;
    assert(uri == left + middle + right);
    assert(middle[0] == scheme[0]);
    assert(middle.last() == if rest.len() > 0 {
        rest.last()
    } else {
        scheme.last()
    });
    trimming_gives_what_stands_between_white_space(left, middle, right);
    assert(middle.take(7) == scheme);
    assert(middle.skip(7) == rest);
}

/// The fields of a query stand one after another, parted by `&`.
pub proof fn the_fields_stand_one_after_another(a: Seq<char>, b: Seq<char>)
    ensures
        fields(a + seq!['&'] + b) == fields(a) + fields(b),
{
    let sep = Separator::Char('&');
    lemma_pieces_add(a, '&', b, sep);
    Seq::filter_distributes_over_add(pieces(a, sep), pieces(b, sep), not_empty());
    let kept_a = pieces(a, sep).filter(not_empty());
    let kept_b = pieces(b, sep).filter(not_empty());
    assert((kept_a + kept_b).map_values(key_and_value()) == kept_a.map_values(key_and_value())
        + kept_b.map_values(key_and_value()));
}

/// A query of nothing has no field.
pub proof fn an_empty_query_has_no_field()
    ensures
        fields(Seq::empty()) == Seq::<(Seq<char>, Seq<char>)>::empty(),
{
    let none = Seq::<char>::empty();
    let no_pairs = Seq::<Seq<char>>::empty();
    lemma_pieces_one(none, '&');
    lemma_filter_push(no_pairs, none, not_empty());
    assert(no_pairs.push(none) == seq![none]);
    assert(no_pairs.filter(not_empty()) == no_pairs) by {
        reveal(Seq::filter);
    }
}

/// A field is a key, and the decoded value that stands after its first `=`; with no
/// `=` the value is empty.
pub proof fn a_field_is_its_key_and_its_decoded_value(key: Seq<char>, value: Seq<char>)
    requires
        !key.contains('&'),
        !key.contains('='),
        !value.contains('&'),
    ensures
        fields(key + seq!['='] + value) == seq![(key, decoded(value))],
        key.len() > 0 ==> fields(key) == seq![(key, Seq::<char>::empty())],
{
    let pair = key + seq!['='] + value;
    assert(!pair.contains('&')) by {
        if pair.contains('&') {
            let k = choose|k: int| 0 <= k < pair.len() && pair[k] == '&';
            if k < key.len() {
                assert(key[k] == '&');
            } else if k > key.len() {
                assert(value[k - key.len() - 1] == '&');
            }
        }
    }
    the_first_of_a_character_parts_a_text(key, '=', value);
    lemma_pieces_one(pair, '&');
    let pairs = seq![pair];
    assert forall|i: int| 0 <= i < pairs.len() implies not_empty()(#[trigger] pairs[i]) by {}
    lemma_filter_all(pairs, not_empty());
    assert(pairs.map_values(key_and_value()) == seq![(key, decoded(value))]);
    if key.len() > 0 {
        lemma_pieces_one(key, '&');
        let keys = seq![key];
        assert forall|i: int| 0 <= i < keys.len() implies not_empty()(#[trigger] keys[i]) by {}
        lemma_filter_all(keys, not_empty());
        plain_text_is_decoded_to_itself(Seq::empty());
        assert(keys.map_values(key_and_value()) == seq![(key, Seq::<char>::empty())]);
    }
}

/// A field with that key, in any case, and none with it after.
pub open spec fn is_last_of(
    read: Seq<(Seq<char>, Seq<char>)>,
    i: int,
    key: Seq<char>,
) -> bool {
    &&& 0 <= i < read.len()
    &&& same_but_case(read[i].0, key)
    &&& forall|j: int| i < j < read.len() ==> !same_but_case((#[trigger] read[j]).0, key)
}

/// No field with that key, in any case.
pub open spec fn is_missing(read: Seq<(Seq<char>, Seq<char>)>, key: Seq<char>) -> bool {
    forall|j: int| 0 <= j < read.len() ==> !same_but_case((#[trigger] read[j]).0, key)
}

proof fn lemma_last_value(read: Seq<(Seq<char>, Seq<char>)>, i: int, key: Seq<char>)
    ensures
        is_last_of(read, i, key) ==> last_value(read, key) == read[i].1,
        is_missing(read, key) ==> last_value(read, key) == Seq::<char>::empty(),
    decreases read.len(),
{
    if read.len() > 0 {
        let earlier = read.drop_last();
        let last = read.len() - 1;
        assert(forall|j: int| 0 <= j < earlier.len() ==> earlier[j] == read[j]);
        assert(read[last] == read.last());
        lemma_last_value(earlier, i, key);
        if is_last_of(read, i, key) && i < last {
            assert(!same_but_case(read[last].0, key));
            assert(is_last_of(earlier, i, key));
        }
        if is_missing(read, key) {
            assert(!same_but_case(read[last].0, key));
            assert(is_missing(earlier, key));
        }
    }
}

/// The fields of a URI, given what follows its scheme.
pub open spec fn query_fields(rest: Seq<char>) -> Seq<(Seq<char>, Seq<char>)> {
    fields(after(rest, '?'))
}

/// The subject that is sent is the decoded value of the last subject field where
/// that is not blank, whatever other fields there are or are not.
pub proof fn the_last_subject_is_sent(uri: Seq<char>, rest: Seq<char>, i: int)
    requires
        after_scheme(uri, "mailto:"@) == Some(rest),
        is_last_of(query_fields(rest), i, "subject"@),
        trimmed(query_fields(rest)[i].1).len() > 0,
    ensures
        target_of(uri) matches Some(target) ==> target.subject == query_fields(rest)[i].1,
{
    lemma_last_value(query_fields(rest), i, "subject"@);
}

/// A list that names no subject, or a blank one, gets the subject `Unsubscribe`.
pub proof fn without_a_subject_it_is_unsubscribe(uri: Seq<char>, rest: Seq<char>, i: int)
    requires
        after_scheme(uri, "mailto:"@) == Some(rest),
        is_missing(query_fields(rest), "subject"@) || (is_last_of(
            query_fields(rest),
            i,
            "subject"@,
        ) && trimmed(query_fields(rest)[i].1).len() == 0),
    ensures
        target_of(uri) matches Some(target) ==> target.subject == "Unsubscribe"@,
{
    lemma_last_value(query_fields(rest), i, "subject"@);
    trimming_gives_what_stands_between_white_space(Seq::empty(), Seq::empty(), Seq::empty());
    assert(Seq::<char>::empty() + Seq::<char>::empty() + Seq::<char>::empty() == Seq::<
        char,
    >::empty());
}

/// The body that is sent is the decoded value of the last body field where that is
/// not blank, whatever other fields there are or are not.
pub proof fn the_last_body_is_sent(uri: Seq<char>, rest: Seq<char>, i: int)
    requires
        after_scheme(uri, "mailto:"@) == Some(rest),
        is_last_of(query_fields(rest), i, "body"@),
        trimmed(query_fields(rest)[i].1).len() > 0,
    ensures
        target_of(uri) matches Some(target) ==> target.body == query_fields(rest)[i].1,
{
    lemma_last_value(query_fields(rest), i, "body"@);
}

/// A list that names no body, or a blank one, gets the subject for a body.
pub proof fn without_a_body_it_is_the_subject(uri: Seq<char>, rest: Seq<char>, i: int)
    requires
        after_scheme(uri, "mailto:"@) == Some(rest),
        is_missing(query_fields(rest), "body"@) || (is_last_of(query_fields(rest), i, "body"@)
            && trimmed(query_fields(rest)[i].1).len() == 0),
    ensures
        target_of(uri) matches Some(target) ==> target.body == target.subject,
{
    lemma_last_value(query_fields(rest), i, "body"@);
    trimming_gives_what_stands_between_white_space(Seq::empty(), Seq::empty(), Seq::empty());
    assert(Seq::<char>::empty() + Seq::<char>::empty() + Seq::<char>::empty() == Seq::<
        char,
    >::empty());
}

/// Fields of any other name change nothing.
pub proof fn other_fields_change_nothing(
    scheme: Seq<char>,
    list: Seq<char>,
    query: Seq<char>,
    key: Seq<char>,
    value: Seq<char>,
)
    requires
        scheme == "mailto:"@,
        !list.contains('?'),
        !key.contains('&'),
        !key.contains('='),
        !value.contains('&'),
        !same_but_case(key, "subject"@),
        !same_but_case(key, "body"@),
        !same_but_case(key, "to"@),
        !white_space((seq!['?'] + query).last()),
        !white_space((seq!['='] + value).last()),
    ensures
        target_of(
            scheme + list + seq!['?'] + query + seq!['&'] + key + seq!['='] + value,
        ) == target_of(scheme + list + seq!['?'] + query),
{
    let none = Seq::<char>::empty();
    let pair = key + seq!['='] + value;
    let longer = query + seq!['&'] + pair;
    let rest = list + seq!['?'] + query;
    let more = list + seq!['?'] + longer;
    reveal_strlit("mailto:");
    assert(scheme + list + seq!['?'] + query == none + scheme + rest + none);
    assert(scheme + list + seq!['?'] + query + seq!['&'] + key + seq!['='] + value == none + scheme
        + more + none);
    assert(rest.last() == (seq!['?'] + query).last());
    assert(more.last() == (seq!['='] + value).last());
    the_rest_is_what_follows_the_scheme(none, scheme, rest, none);
    the_rest_is_what_follows_the_scheme(none, scheme, more, none);
    the_first_of_a_character_parts_a_text(list, '?', query);
    the_first_of_a_character_parts_a_text(list, '?', longer);
    the_fields_stand_one_after_another(query, pair);
    a_field_is_its_key_and_its_decoded_value(key, value);
    let read = fields(query);
    let all = fields(longer);
    assert(all == read.push((key, decoded(value))));
    assert(all.drop_last() == read);
}

/// A subject that is the only field of the query comes through, and is the body
/// too.
pub proof fn a_subject_alone_comes_through(address: Seq<char>, subject: Seq<char>)
    requires
        address.contains('@'),
        trimmed(address) == address,
        !address.contains('?'),
        !address.contains(','),
        !address.contains('%'),
        trimmed(subject).len() > 0,
    ensures
        target_of("mailto:"@ + address + "?subject="@ + percent_text(subject)) == Some(
            TargetText { to: address, subject, body: subject },
        ),
{
    reveal_strlit("?subject=");
    reveal_strlit("subject");
    reveal_strlit("to");
    case_is_ignored_character_by_character("subject"@, "to"@);
    one_field_comes_through(address, "subject"@, subject);
    assert("?subject="@ == seq!['?'] + "subject"@ + seq!['=']);
    assert("mailto:"@ + address + "?subject="@ + percent_text(subject) == "mailto:"@ + address
        + seq!['?'] + "subject"@ + seq!['='] + percent_text(subject));
}

/// A query of one field, percent-encoded: a subject is sent as subject and body, a
/// body goes under the subject `Unsubscribe`, and any other field but `to` leaves
/// both at `Unsubscribe`. A body that is the only field comes through, and the
/// key can be in any case.
pub proof fn one_field_comes_through(address: Seq<char>, key: Seq<char>, text: Seq<char>)
    requires
        address.contains('@'),
        trimmed(address) == address,
        !address.contains('?'),
        !address.contains(','),
        !address.contains('%'),
        !key.contains('&'),
        !key.contains('='),
        !same_but_case(key, "to"@),
        trimmed(text).len() > 0,
    ensures
        target_of(
            "mailto:"@ + address + seq!['?'] + key + seq!['='] + percent_text(text),
        ) == Some(
            TargetText {
                to: address,
                subject: if same_but_case(key, "subject"@) {
                    text
                } else {
                    "Unsubscribe"@
                },
                body: if same_but_case(key, "subject"@) || same_but_case(key, "body"@) {
                    text
                } else {
                    "Unsubscribe"@
                },
            },
        ),
{
    let none = Seq::<char>::empty();
    let code = percent_text(text);
    let pair = key + seq!['='] + code;
    let rest = address + seq!['?'] + pair;
    let uri = "mailto:"@ + address + seq!['?'] + key + seq!['='] + code;
    reveal_strlit("mailto:");
    reveal_strlit("subject");
    reveal_strlit("body");
    lemma_trimmed_ends(text);
    lemma_percent_text(text);
    lemma_pair(key, text);
    assert(uri == none + "mailto:"@ + rest + none);
    assert(rest.last() == code[code.len() - 1]);
    the_rest_is_what_follows_the_scheme(none, "mailto:"@, rest, none);
    the_first_of_a_character_parts_a_text(address, '?', pair);
    assert(!code.contains('&')) by {
        if code.contains('&') {
            let k = choose|k: int| 0 <= k < code.len() && code[k] == '&';
            assert(percent_text(text)[k] == '&');
        }
    }
    a_field_is_its_key_and_its_decoded_value(key, code);
    the_first_of_a_character_parts_a_text(key, '=', code);
    let read = fields(pair);
    assert(read == seq![(key, text)]);
    lemma_last_value(read, 0, "subject"@);
    lemma_last_value(read, 0, "body"@);
    assert(trimmed(none).len() == 0);
    if same_but_case(key, "subject"@) && same_but_case(key, "body"@) {
        case_is_ignored_character_by_character(key, "subject"@);
        case_is_ignored_character_by_character(key, "body"@);
    }
    lemma_one_address(address);
    assert(read == Seq::<(Seq<char>, Seq<char>)>::empty().push((key, text)));
    every_to_field_adds_its_addresses(Seq::empty(), key, text);
    assert(all_addresses(rest) == seq![address]);
}

/// The addresses before the `?` stand one after another, parted by commas.
pub proof fn the_leading_addresses_stand_one_after_another(a: Seq<char>, b: Seq<char>)
    ensures
        leading_addresses(a + seq![','] + b) == leading_addresses(a) + leading_addresses(b),
        field_addresses(a + seq![','] + b) == field_addresses(a) + field_addresses(b),
{
    let sep = Separator::Char(',');
    lemma_pieces_add(a, ',', b, sep);
    let pa = pieces(a, sep);
    let pb = pieces(b, sep);
    assert((pa + pb).map_values(address_text()) == pa.map_values(address_text()) + pb.map_values(
        address_text(),
    ));
    assert((pa + pb).map_values(trimming()) == pa.map_values(trimming()) + pb.map_values(
        trimming(),
    ));
    Seq::filter_distributes_over_add(
        pa.map_values(address_text()),
        pb.map_values(address_text()),
        has_at(),
    );
    Seq::filter_distributes_over_add(
        pa.map_values(trimming()),
        pb.map_values(trimming()),
        has_at(),
    );
}

/// One address is kept, trimmed, where it has an `@`. Before the `?` it is decoded,
/// with a `+` for a `+`; in a `to` field it is decoded already.
pub proof fn one_address_is_kept_where_it_has_an_at(text: Seq<char>)
    requires
        !text.contains(','),
    ensures
        leading_addresses(text) == if trimmed(unescaped(text)).contains('@') {
            seq![trimmed(unescaped(text))]
        } else {
            Seq::empty()
        },
        field_addresses(text) == if trimmed(text).contains('@') {
            seq![trimmed(text)]
        } else {
            Seq::empty()
        },
{
    let none = Seq::<Seq<char>>::empty();
    lemma_pieces_one(text, ',');
    assert(none.filter(has_at()) == none) by {
        reveal(Seq::filter);
    }
    let decoded_one = trimmed(unescaped(text));
    assert(seq![text].map_values(address_text()) == none.push(decoded_one));
    lemma_filter_push(none, decoded_one, has_at());
    assert(none.push(decoded_one) == seq![decoded_one]);
    assert(seq![text].map_values(trimming()) == none.push(trimmed(text)));
    lemma_filter_push(none, trimmed(text), has_at());
    assert(none.push(trimmed(text)) == seq![trimmed(text)]);
}

/// Every `to` field adds its addresses, in order; other fields add none.
pub proof fn every_to_field_adds_its_addresses(
    read: Seq<(Seq<char>, Seq<char>)>,
    key: Seq<char>,
    value: Seq<char>,
)
    ensures
        to_addresses(Seq::empty()) == Seq::<Seq<char>>::empty(),
        same_but_case(key, "to"@) ==> to_addresses(read.push((key, value))) == to_addresses(read)
            + field_addresses(value),
        !same_but_case(key, "to"@) ==> to_addresses(read.push((key, value))) == to_addresses(read),
{
    assert(read.push((key, value)).drop_last() == read);
}

/// The target goes to the addresses before the `?`, then to those of the `to`
/// fields, with a comma between each two. It needs one.
pub proof fn the_target_goes_to_every_address(
    uri: Seq<char>,
    list: Seq<char>,
    query: Seq<char>,
    asked: bool,
)
    requires
        !list.contains('?'),
        after_scheme(uri, "mailto:"@) == Some(
            if asked {
                list + seq!['?'] + query
            } else {
                list
            },
        ),
    ensures
        ({
            let named = if asked {
                leading_addresses(list) + to_addresses(fields(query))
            } else {
                leading_addresses(list)
            };
            match target_of(uri) {
                Some(target) => named.len() > 0 && target.to == joined(named, ", "@),
                None => named.len() == 0,
            }
        }),
{
    the_first_of_a_character_parts_a_text(list, '?', query);
    an_empty_query_has_no_field();
    if !asked {
        assert(leading_addresses(list) + to_addresses(fields(Seq::empty())) == leading_addresses(
            list,
        ));
    }
}

/// An address as it can stand in a URI.
pub open spec fn plain_address(address: Seq<char>) -> bool {
    &&& address.contains('@')
    &&& trimmed(address) == address
    &&& !address.contains('?')
    &&& !address.contains(',')
    &&& !address.contains('%')
}

/// Two texts with a comma between them hold no `?` where neither does.
proof fn lemma_no_question(start: Seq<char>, last: Seq<char>)
    requires
        !start.contains('?'),
        !last.contains('?'),
    ensures
        !(start + seq![','] + last).contains('?'),
{
    let all = start + seq![','] + last;
    if all.contains('?') {
        let k = choose|k: int| 0 <= k < all.len() && all[k] == '?';
        if k < start.len() {
            assert(start[k] == '?');
        } else if k > start.len() {
            assert(last[k - start.len() - 1] == '?');
        }
    }
}

proof fn lemma_plain_address(address: Seq<char>)
    requires
        plain_address(address),
    ensures
        leading_addresses(address) == seq![address],
        !address.contains('?'),
        address.len() > 0,
        !white_space(address.last()),
{
    lemma_one_address(address);
    lemma_trimmed_ends(address);
}

/// One more address at the end of a list.
proof fn lemma_list_step(addresses: Seq<Seq<char>>)
    requires
        addresses.len() > 1,
    ensures
        joined(addresses, ","@) == joined(addresses.drop_last(), ","@) + seq![',']
            + addresses.last(),
        addresses == addresses.drop_last() + seq![addresses.last()],
{
    reveal_strlit(",");
    assert(","@ == seq![',']);
}

proof fn lemma_leading_list(addresses: Seq<Seq<char>>)
    requires
        addresses.len() > 0,
        forall|i: int| 0 <= i < addresses.len() ==> plain_address(#[trigger] addresses[i]),
    ensures
        leading_addresses(joined(addresses, ","@)) == addresses,
        !joined(addresses, ","@).contains('?'),
        joined(addresses, ","@).len() > 0,
        !white_space(joined(addresses, ","@).last()),
    decreases addresses.len(),
{
    let last = addresses[addresses.len() - 1];
    lemma_plain_address(last);
    if addresses.len() > 1 {
        let earlier = addresses.drop_last();
        assert forall|i: int| 0 <= i < earlier.len() implies plain_address(
            #[trigger] earlier[i],
        ) by {
            assert(plain_address(addresses[i]));
        }
        lemma_leading_list(earlier);
        lemma_list_step(addresses);
        let start = joined(earlier, ","@);
        the_leading_addresses_stand_one_after_another(start, last);
        lemma_no_question(start, last);
        assert((start + seq![','] + last).last() == last.last());
    } else {
        assert(addresses == seq![last]);
        assert(joined(addresses, ","@) == last);
    }
}

/// A URI of any number of addresses has a target that goes to all of them, in
/// order, and asks to unsubscribe.
pub proof fn every_address_of_a_uri_is_written_to(addresses: Seq<Seq<char>>)
    requires
        addresses.len() > 0,
        forall|i: int| 0 <= i < addresses.len() ==> plain_address(#[trigger] addresses[i]),
    ensures
        target_of("mailto:"@ + joined(addresses, ","@)) == Some(
            TargetText {
                to: joined(addresses, ", "@),
                subject: "Unsubscribe"@,
                body: "Unsubscribe"@,
            },
        ),
{
    reveal_strlit("mailto:");
    let none = Seq::<char>::empty();
    let list = joined(addresses, ","@);
    let uri = "mailto:"@ + list;
    lemma_leading_list(addresses);
    assert(uri == none + "mailto:"@ + list + none);
    the_rest_is_what_follows_the_scheme(none, "mailto:"@, list, none);
    the_target_goes_to_every_address(uri, list, none, false);
    the_first_of_a_character_parts_a_text(list, '?', none);
    an_empty_query_has_no_field();
    without_a_subject_it_is_unsubscribe(uri, list, 0);
    without_a_body_it_is_the_subject(uri, list, 0);
}

/// An address that stands in a `to` field alone, percent-encoded, is written to.
pub proof fn an_address_in_the_query_is_written_to(address: Seq<char>)
    requires
        address.contains('@'),
        trimmed(address) == address,
        !address.contains(','),
    ensures
        target_of("mailto:?to="@ + percent_text(address)) == Some(
            TargetText { to: address, subject: "Unsubscribe"@, body: "Unsubscribe"@ },
        ),
{
    reveal_strlit("mailto:?to=");
    reveal_strlit("mailto:");
    reveal_strlit("to");
    reveal_strlit("subject");
    reveal_strlit("body");
    let none = Seq::<char>::empty();
    let code = percent_text(address);
    let pair = "to"@ + seq!['='] + code;
    let rest = none + seq!['?'] + pair;
    let uri = "mailto:?to="@ + code;
    lemma_percent_text(address);
    lemma_pair("to"@, address);
    assert(uri == none + "mailto:"@ + rest + none);
    assert(rest.last() == code[code.len() - 1]);
    the_rest_is_what_follows_the_scheme(none, "mailto:"@, rest, none);
    assert(!code.contains('&')) by {
        if code.contains('&') {
            let k = choose|k: int| 0 <= k < code.len() && code[k] == '&';
            assert(percent_text(address)[k] == '&');
        }
    }
    a_field_is_its_key_and_its_decoded_value("to"@, code);
    the_first_of_a_character_parts_a_text("to"@, '=', code);
    let read = fields(pair);
    assert(read == Seq::<(Seq<char>, Seq<char>)>::empty().push(("to"@, address)));
    every_to_field_adds_its_addresses(Seq::empty(), "to"@, address);
    one_address_is_kept_where_it_has_an_at(address);
    one_address_is_kept_where_it_has_an_at(none);
    plain_text_is_decoded_to_itself(none);
    assert(!trimmed(none).contains('@'));
    assert(leading_addresses(none) + to_addresses(read) == seq![address]);
    the_target_goes_to_every_address(uri, none, pair, true);
    the_first_of_a_character_parts_a_text(none, '?', pair);
    case_is_ignored_character_by_character("to"@, "subject"@);
    case_is_ignored_character_by_character("to"@, "body"@);
    assert(is_missing(read, "subject"@));
    assert(is_missing(read, "body"@));
    without_a_subject_it_is_unsubscribe(uri, rest, 0);
    without_a_body_it_is_the_subject(uri, rest, 0);
}

} // verus!
