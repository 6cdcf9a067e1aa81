//! What a message offers, header by header.

use crate::laws::choice::{
    a_route_without_a_handle_is_not_offered, can_be_opened, can_be_posted_to, can_be_written_to,
    each_header_has_its_own_say, is_promise, something_is_offered_where_a_handle_can_be_used,
    the_first_https_handle_is_offered_for_one_click, the_first_mailto_with_a_target_is_offered,
    the_first_page_is_offered,
};
use crate::laws::text::case_is_ignored_character_by_character;
use crate::message::{HeaderText, MessageText};
use crate::percent::lossy_utf8;
use crate::text::{lemma_filter_push, not_empty, same_but_case};
use crate::unsubscribe::{
    all_handles, head, header_values, list_key, named, offers_in, offers_of, unfolded, value_in,
};
use vstd::prelude::*;

verus! {

/// The header lies within the message.
pub open spec fn lies_within(header: HeaderText, raw: Seq<u8>) -> bool {
    0 <= header.start <= header.end <= raw.len()
}

/// A message with one more header.
pub open spec fn with_header(message: MessageText, header: HeaderText) -> MessageText {
    MessageText { raw: message.raw, headers: message.headers.push(header) }
}

/// The values of a name are those of its headers, in order: a message without
/// headers has none, and one more header adds its bytes as text, in one line, where
/// it has that name, lies within the message and is not blank. Any other header
/// adds nothing.
pub proof fn each_header_adds_its_own_value(
    message: MessageText,
    header: HeaderText,
    name: Seq<char>,
)
    ensures
        message.headers.len() == 0 ==> header_values(message, name) == Seq::<Seq<char>>::empty(),
        ({
            let line = unfolded(lossy_utf8(message.raw.subrange(header.start, header.end)));
            header_values(with_header(message, header), name) == if same_but_case(
                header.name,
                name,
            ) && lies_within(header, message.raw) && line.len() > 0 {
                header_values(message, name).push(line)
            } else {
                header_values(message, name)
            }
        }),
{
    let raw = message.raw;
    let line = unfolded(lossy_utf8(raw.subrange(header.start, header.end)));
    lemma_filter_push(message.headers, header, named(raw, name));
    let found = message.headers.filter(named(raw, name));
    if named(raw, name)(header) {
        assert(found.push(header).map_values(value_in(raw)) == found.map_values(
            value_in(raw),
        ).push(line));
        lemma_filter_push(found.map_values(value_in(raw)), line, not_empty());
    }
    if message.headers.len() == 0 {
        assert(message.headers.filter(named(raw, name)).len() == 0) by {
            reveal(Seq::filter);
        }
        assert(found.map_values(value_in(raw)).filter(not_empty()) == Seq::<Seq<char>>::empty())
            by {
            reveal(Seq::filter);
        }
    }
}

/// The handles that the `List-Unsubscribe` headers of a message name.
pub open spec fn message_handles(message: MessageText) -> Seq<Seq<char>> {
    all_handles(header_values(message, "List-Unsubscribe"@))
}

/// Whether the first post header of a message makes the one-click promise.
pub open spec fn message_promises(message: MessageText) -> bool {
    let posts = header_values(message, "List-Unsubscribe-Post"@);
    posts.len() > 0 && is_promise(Some(posts[0]))
}

/// A message offers something exactly where some handle of its `List-Unsubscribe`
/// values can be written to or opened, whether or not it has a post header or a
/// `List-Id`.
pub proof fn a_message_offers_where_a_handle_can_be_used(message: MessageText)
    ensures
        offers_in(message) is Some <==> exists|j: int|
            0 <= j < message_handles(message).len() && (can_be_written_to(
                #[trigger] message_handles(message)[j],
            ) || can_be_opened(message_handles(message)[j])),
{
    let values = header_values(message, "List-Unsubscribe"@);
    something_is_offered_where_a_handle_can_be_used(
        values,
        head(header_values(message, "List-Unsubscribe-Post"@)),
        head(header_values(message, "List-Id"@)),
    );
    assert(message_handles(message) == all_handles(values));
}

/// A message's mail route is its first `mailto:` handle that can be written to.
pub proof fn a_message_offers_its_first_mailto(message: MessageText, i: int)
    requires
        0 <= i < message_handles(message).len(),
        can_be_written_to(message_handles(message)[i]),
        forall|j: int| 0 <= j < i ==> !can_be_written_to(#[trigger] message_handles(message)[j]),
    ensures
        offers_in(message) matches Some(offers) && offers.mailto == Some(
            message_handles(message)[i],
        ),
{
    let values = header_values(message, "List-Unsubscribe"@);
    assert forall|j: int| 0 <= j < i implies !can_be_written_to(
        #[trigger] all_handles(values)[j],
    ) by {
        assert(!can_be_written_to(message_handles(message)[j]));
    }
    the_first_mailto_with_a_target_is_offered(
        values,
        head(header_values(message, "List-Unsubscribe-Post"@)),
        head(header_values(message, "List-Id"@)),
        i,
    );
}

/// A message's page is its first handle of the web.
pub proof fn a_message_offers_its_first_page(message: MessageText, i: int)
    requires
        0 <= i < message_handles(message).len(),
        can_be_opened(message_handles(message)[i]),
        forall|j: int| 0 <= j < i ==> !can_be_opened(#[trigger] message_handles(message)[j]),
    ensures
        offers_in(message) matches Some(offers) && offers.web == Some(message_handles(message)[i]),
{
    let values = header_values(message, "List-Unsubscribe"@);
    assert forall|j: int| 0 <= j < i implies !can_be_opened(#[trigger] all_handles(values)[j]) by {
        assert(!can_be_opened(message_handles(message)[j]));
    }
    the_first_page_is_offered(
        values,
        head(header_values(message, "List-Unsubscribe-Post"@)),
        head(header_values(message, "List-Id"@)),
        i,
    );
}

/// A message that promises one-click offers its first https handle for it; one that
/// does not offers none.
pub proof fn a_message_offers_its_first_https_handle_for_one_click(message: MessageText, i: int)
    ensures
        message_promises(message) && 0 <= i < message_handles(message).len() && can_be_posted_to(
            message_handles(message)[i],
        ) && (forall|j: int|
            0 <= j < i ==> !can_be_posted_to(#[trigger] message_handles(message)[j])) ==> (
        offers_in(message) matches Some(offers) && offers.one_click == Some(
            message_handles(message)[i],
        )),
        !message_promises(message) ==> (offers_in(message) matches Some(offers)
            ==> offers.one_click is None),
{
    let values = header_values(message, "List-Unsubscribe"@);
    let posts = header_values(message, "List-Unsubscribe-Post"@);
    let ids = header_values(message, "List-Id"@);
    assert(message_promises(message) == is_promise(head(posts)));
    if message_promises(message) && 0 <= i < message_handles(message).len() && can_be_posted_to(
        message_handles(message)[i],
    ) && (forall|j: int|
        0 <= j < i ==> !can_be_posted_to(#[trigger] message_handles(message)[j])) {
        assert forall|j: int| 0 <= j < i implies !can_be_posted_to(
            #[trigger] all_handles(values)[j],
        ) by {
            assert(!can_be_posted_to(message_handles(message)[j]));
        }
        the_first_https_handle_is_offered_for_one_click(values, head(posts), head(ids), i);
    }
    if !message_promises(message) {
        a_route_without_a_handle_is_not_offered(
            values,
            head(posts),
            head(ids),
        );
    }
}

/// A message is remembered by the key of its first `List-Id`, and by none where it
/// has no such header.
pub proof fn a_message_is_remembered_by_its_first_list_id(message: MessageText)
    ensures
        offers_in(message) matches Some(offers) ==> {
            let ids = header_values(message, "List-Id"@);
            offers.list_id == if ids.len() > 0 {
                list_key(ids[0])
            } else {
                Seq::empty()
            }
        },
{
}

/// A header with another name than the one given, in any case.
pub open spec fn other_than(name: Seq<char>) -> spec_fn(HeaderText) -> bool {
    |h: HeaderText| !same_but_case(h.name, name)
}

/// A message without its headers of some name.
pub open spec fn without(message: MessageText, name: Seq<char>) -> MessageText {
    MessageText { raw: message.raw, headers: message.headers.filter(other_than(name)) }
}

proof fn lemma_without(raw: Seq<u8>, headers: Seq<HeaderText>, name: Seq<char>, other: Seq<char>)
    ensures
        ({
            let message = MessageText { raw, headers };
            &&& same_but_case(name, other) ==> header_values(without(message, name), other).len()
                == 0
            &&& !same_but_case(name, other) ==> header_values(without(message, name), other)
                == header_values(message, other)
        }),
    decreases headers.len(),
{
    let message = MessageText { raw, headers };
    if headers.len() > 0 {
        let header = headers.last();
        let earlier = headers.drop_last();
        let shorter = MessageText { raw, headers: earlier };
        lemma_without(raw, earlier, name, other);
        assert(headers == earlier.push(header));
        assert(message == with_header(shorter, header));
        lemma_filter_push(earlier, header, other_than(name));
        each_header_adds_its_own_value(shorter, header, other);
        if other_than(name)(header) {
            assert(without(message, name) == with_header(without(shorter, name), header));
            each_header_adds_its_own_value(without(shorter, name), header, other);
        } else {
            assert(without(message, name) == without(shorter, name));
        }
    } else {
        assert(without(message, name).headers.len() == 0) by {
            reveal(Seq::filter);
        }
        let any = HeaderText { name, start: 0, end: 0 };
        each_header_adds_its_own_value(message, any, other);
        each_header_adds_its_own_value(without(message, name), any, other);
    }
}

/// Taking the headers of a name away takes away their values and no others.
pub proof fn headers_taken_away_take_their_values_alone(
    message: MessageText,
    name: Seq<char>,
    other: Seq<char>,
)
    ensures
        header_values(without(message, name), name) == Seq::<Seq<char>>::empty(),
        !same_but_case(name, other) ==> header_values(without(message, name), other)
            == header_values(message, other),
{
    lemma_without(message.raw, message.headers, name, name);
    lemma_without(message.raw, message.headers, name, other);
}

proof fn lemma_names_differ()
    ensures
        !same_but_case("List-Unsubscribe-Post"@, "List-Unsubscribe"@),
        !same_but_case("List-Unsubscribe-Post"@, "List-Id"@),
        !same_but_case("List-Id"@, "List-Unsubscribe"@),
        !same_but_case("List-Id"@, "List-Unsubscribe-Post"@),
{
    reveal_strlit("List-Unsubscribe");
    reveal_strlit("List-Unsubscribe-Post");
    reveal_strlit("List-Id");
    case_is_ignored_character_by_character(
        "List-Unsubscribe-Post"@,
        "List-Unsubscribe"@,
    );
    case_is_ignored_character_by_character(
        "List-Unsubscribe-Post"@,
        "List-Id"@,
    );
    case_is_ignored_character_by_character("List-Id"@, "List-Unsubscribe"@);
    case_is_ignored_character_by_character("List-Id"@, "List-Unsubscribe-Post"@);
}

/// Taking every post header away from a message changes nothing of its offers but
/// the one-click handle.
pub proof fn the_post_header_has_a_say_in_one_click_alone(message: MessageText)
    ensures
        ({
            let less = offers_in(without(message, "List-Unsubscribe-Post"@));
            match offers_in(message) {
                Some(offers) => less matches Some(others) && {
                    &&& others.one_click is None
                    &&& others.mailto == offers.mailto
                    &&& others.web == offers.web
                    &&& others.list_id == offers.list_id
                },
                None => less is None,
            }
        }),
{
    let less = without(message, "List-Unsubscribe-Post"@);
    let values = header_values(message, "List-Unsubscribe"@);
    let posts = header_values(message, "List-Unsubscribe-Post"@);
    let ids = header_values(message, "List-Id"@);
    lemma_names_differ();
    headers_taken_away_take_their_values_alone(
        message,
        "List-Unsubscribe-Post"@,
        "List-Unsubscribe"@,
    );
    headers_taken_away_take_their_values_alone(message, "List-Unsubscribe-Post"@, "List-Id"@);
    assert(offers_in(less) == offers_of(values, None, head(ids)));
    each_header_has_its_own_say(values, head(posts), None, head(ids), head(ids));
    each_header_has_its_own_say(values, None, head(posts), head(ids), head(ids));
    a_message_offers_its_first_https_handle_for_one_click(less, 0);
}

/// Taking every `List-Id` away from a message changes nothing of its offers but the
/// key it is remembered by.
pub proof fn the_list_id_has_a_say_in_the_key_alone(message: MessageText)
    ensures
        ({
            let less = offers_in(without(message, "List-Id"@));
            match offers_in(message) {
                Some(offers) => less matches Some(others) && {
                    &&& others.list_id.len() == 0
                    &&& others.one_click == offers.one_click
                    &&& others.mailto == offers.mailto
                    &&& others.web == offers.web
                },
                None => less is None,
            }
        }),
{
    let less = without(message, "List-Id"@);
    let values = header_values(message, "List-Unsubscribe"@);
    let posts = header_values(message, "List-Unsubscribe-Post"@);
    let ids = header_values(message, "List-Id"@);
    lemma_names_differ();
    headers_taken_away_take_their_values_alone(message, "List-Id"@, "List-Unsubscribe"@);
    headers_taken_away_take_their_values_alone(message, "List-Id"@, "List-Unsubscribe-Post"@);
    assert(offers_in(less) == offers_of(values, head(posts), None));
    each_header_has_its_own_say(values, head(posts), head(posts), head(ids), None);
    each_header_has_its_own_say(values, head(posts), head(posts), None, head(ids));
    a_message_is_remembered_by_its_first_list_id(less);
}

} // verus!
