//! Which of the handles that the headers name is offered for which route.

use crate::laws::handles::{bare_or_bracketed_handles_of_one_value, no_value_has_no_handle};
use crate::mailto::target_of;
use crate::text::{begins_but_case, same_but_case, trimmed, white_space};
use crate::unsubscribe::{
    all_handles, first, list_key, offers_of, page, promises_one_click, secure, writable,
};
use vstd::prelude::*;

verus! {

/// A `mailto:` handle that names someone to write to.
pub open spec fn can_be_written_to(handle: Seq<char>) -> bool {
    begins_but_case(handle, "mailto:"@) && target_of(handle) is Some
}

/// A handle of the web, secure or not.
pub open spec fn can_be_opened(handle: Seq<char>) -> bool {
    begins_but_case(handle, "http://"@) || begins_but_case(handle, "https://"@)
}

/// A handle that a POST can be sent to.
pub open spec fn can_be_posted_to(handle: Seq<char>) -> bool {
    begins_but_case(handle, "https://"@)
}

/// A value of the post header that makes the one-click promise.
pub open spec fn is_promise(post: Option<Seq<char>>) -> bool {
    match post {
        Some(value) => same_but_case(trimmed(value), "List-Unsubscribe=One-Click"@),
        None => false,
    }
}

proof fn lemma_first_index(hs: Seq<Seq<char>>, test: spec_fn(Seq<char>) -> bool, i: int)
    requires
        0 <= i < hs.len(),
        test(hs[i]),
        forall|j: int| 0 <= j < i ==> !test(#[trigger] hs[j]),
    ensures
        first(hs, test) == Some(hs[i]),
    decreases hs.len(),
{
    let earlier = hs.drop_last();
    assert(forall|j: int| 0 <= j < earlier.len() ==> earlier[j] == hs[j]);
    if i < earlier.len() {
        lemma_first_index(earlier, test, i);
    } else {
        lemma_first_none(earlier, test);
    }
}

proof fn lemma_first_none(hs: Seq<Seq<char>>, test: spec_fn(Seq<char>) -> bool)
    requires
        forall|j: int| 0 <= j < hs.len() ==> !test(#[trigger] hs[j]),
    ensures
        first(hs, test) is None,
    decreases hs.len(),
{
    if hs.len() > 0 {
        let earlier = hs.drop_last();
        assert(forall|j: int| 0 <= j < earlier.len() ==> earlier[j] == hs[j]);
        lemma_first_none(earlier, test);
        assert(!test(hs[hs.len() - 1]));
    }
}

/// The mail route is the first `mailto:` handle that can be written to, whatever
/// handles of other kinds stand before or after it.
pub proof fn the_first_mailto_with_a_target_is_offered(
    values: Seq<Seq<char>>,
    post: Option<Seq<char>>,
    list_id: Option<Seq<char>>,
    i: int,
)
    requires
        0 <= i < all_handles(values).len(),
        can_be_written_to(all_handles(values)[i]),
        forall|j: int| 0 <= j < i ==> !can_be_written_to(#[trigger] all_handles(values)[j]),
    ensures
        offers_of(values, post, list_id) matches Some(offers) && offers.mailto == Some(
            all_handles(values)[i],
        ),
{
    let all = all_handles(values);
    assert forall|j: int| 0 <= j < i implies !writable()(#[trigger] all[j]) by {
        assert(!can_be_written_to(all_handles(values)[j]));
    }
    lemma_first_index(all, writable(), i);
}

/// The page is the first handle of the web, whatever handles of other kinds stand
/// before or after it.
pub proof fn the_first_page_is_offered(
    values: Seq<Seq<char>>,
    post: Option<Seq<char>>,
    list_id: Option<Seq<char>>,
    i: int,
)
    requires
        0 <= i < all_handles(values).len(),
        can_be_opened(all_handles(values)[i]),
        forall|j: int| 0 <= j < i ==> !can_be_opened(#[trigger] all_handles(values)[j]),
    ensures
        offers_of(values, post, list_id) matches Some(offers) && offers.web == Some(
            all_handles(values)[i],
        ),
{
    let all = all_handles(values);
    assert forall|j: int| 0 <= j < i implies !page()(#[trigger] all[j]) by {
        assert(!can_be_opened(all_handles(values)[j]));
    }
    lemma_first_index(all, page(), i);
}

/// Where the post header makes the promise, the one-click route is the first https
/// handle, bracketed or bare, whatever handles of other kinds stand before or after
/// it.
pub proof fn the_first_https_handle_is_offered_for_one_click(
    values: Seq<Seq<char>>,
    post: Option<Seq<char>>,
    list_id: Option<Seq<char>>,
    i: int,
)
    requires
        is_promise(post),
        0 <= i < all_handles(values).len(),
        can_be_posted_to(all_handles(values)[i]),
        forall|j: int| 0 <= j < i ==> !can_be_posted_to(#[trigger] all_handles(values)[j]),
    ensures
        offers_of(values, post, list_id) matches Some(offers) && offers.one_click == Some(
            all_handles(values)[i],
        ),
{
    let all = all_handles(values);
    assert forall|j: int| 0 <= j < i implies !secure()(#[trigger] all[j]) by {
        assert(!can_be_posted_to(all_handles(values)[j]));
    }
    lemma_first_index(all, secure(), i);
    assert(promises_one_click(post));
}

/// A route that no handle serves is not offered, and the one-click route is not
/// without the promise.
pub proof fn a_route_without_a_handle_is_not_offered(
    values: Seq<Seq<char>>,
    post: Option<Seq<char>>,
    list_id: Option<Seq<char>>,
)
    ensures
        offers_of(values, post, list_id) matches Some(offers) ==> {
            let all = all_handles(values);
            &&& offers.mailto is None <==> forall|j: int|
                0 <= j < all.len() ==> !can_be_written_to(#[trigger] all[j])
            &&& offers.web is None <==> forall|j: int|
                0 <= j < all.len() ==> !can_be_opened(#[trigger] all[j])
            &&& offers.one_click is None <==> !is_promise(post) || forall|j: int|
                0 <= j < all.len() ==> !can_be_posted_to(#[trigger] all[j])
        },
{
    let all = all_handles(values);
    assert(promises_one_click(post) == is_promise(post));
    lemma_least(all, writable());
    lemma_least(all, page());
    lemma_least(all, secure());
    assert(forall|h: Seq<char>| #[trigger] writable()(h) == can_be_written_to(h));
    assert(forall|h: Seq<char>| #[trigger] page()(h) == can_be_opened(h));
    assert(forall|h: Seq<char>| #[trigger] secure()(h) == can_be_posted_to(h));
}

/// There is a first handle where there is one at all.
proof fn lemma_least(hs: Seq<Seq<char>>, test: spec_fn(Seq<char>) -> bool)
    ensures
        first(hs, test) is None <==> forall|j: int| 0 <= j < hs.len() ==> !test(#[trigger] hs[j]),
    decreases hs.len(),
{
    if hs.len() > 0 {
        let earlier = hs.drop_last();
        lemma_least(earlier, test);
        assert(forall|j: int| 0 <= j < earlier.len() ==> earlier[j] == hs[j]);
        assert(hs[hs.len() - 1] == hs.last());
        if first(hs, test) is None {
            assert forall|j: int| 0 <= j < hs.len() implies !test(#[trigger] hs[j]) by {
                if j < earlier.len() {
                    assert(!test(earlier[j]));
                }
            }
        } else if first(earlier, test) is Some {
            let j = choose|j: int| 0 <= j < earlier.len() && test(#[trigger] earlier[j]);
            assert(test(hs[j]));
        } else {
            assert(test(hs[hs.len() - 1]));
        }
    }
}

/// Something is offered exactly where some handle can be written to or opened. What
/// the other two headers say has no part in that.
pub proof fn something_is_offered_where_a_handle_can_be_used(
    values: Seq<Seq<char>>,
    post: Option<Seq<char>>,
    list_id: Option<Seq<char>>,
)
    ensures
        offers_of(values, post, list_id) is Some <==> exists|j: int|
            0 <= j < all_handles(values).len() && (can_be_written_to(
                #[trigger] all_handles(values)[j],
            ) || can_be_opened(all_handles(values)[j])),
{
    let all = all_handles(values);
    lemma_least(all, writable());
    lemma_least(all, page());
    lemma_least(all, secure());
    assert(forall|h: Seq<char>| #[trigger] writable()(h) == can_be_written_to(h));
    assert(forall|h: Seq<char>| #[trigger] page()(h) == can_be_opened(h));
    assert(forall|h: Seq<char>| #[trigger] secure()(h) == can_be_posted_to(h));
    if exists|j: int|
        0 <= j < all.len() && (can_be_written_to(#[trigger] all[j]) || can_be_opened(all[j])) {
        let j = choose|j: int|
            0 <= j < all.len() && (can_be_written_to(#[trigger] all[j]) || can_be_opened(all[j]));
        assert(writable()(all[j]) || page()(all[j]));
    } else {
        assert forall|j: int| 0 <= j < all.len() implies !writable()(#[trigger] all[j]) by {
            assert(!can_be_written_to(all[j]));
        }
        assert forall|j: int| 0 <= j < all.len() implies !page()(#[trigger] all[j]) by {
            assert(!can_be_opened(all[j]));
        }
        assert forall|j: int| 0 <= j < all.len() implies !secure()(#[trigger] all[j]) by {
            assert(!can_be_opened(all[j]));
        }
    }
}

/// The list is remembered by the key of its `List-Id`; a list without one has none.
pub proof fn the_list_is_remembered_by_its_key(
    values: Seq<Seq<char>>,
    post: Option<Seq<char>>,
    list_id: Seq<char>,
)
    ensures
        offers_of(values, post, Some(list_id)) matches Some(offers) ==> offers.list_id
            == list_key(list_id),
        offers_of(values, post, None) matches Some(offers) ==> offers.list_id == Seq::<
            char,
        >::empty(),
{
}

/// The `List-Id` and the post header have no say in the mail route and the page, nor
/// the `List-Id` in the one-click route.
pub proof fn each_header_has_its_own_say(
    values: Seq<Seq<char>>,
    post: Option<Seq<char>>,
    other_post: Option<Seq<char>>,
    list_id: Option<Seq<char>>,
    other_id: Option<Seq<char>>,
)
    ensures
        offers_of(values, post, list_id) matches Some(offers) ==> {
            &&& offers_of(values, other_post, other_id) matches Some(others)
            &&& offers.mailto == others.mailto
            &&& offers.web == others.web
            &&& is_promise(post) == is_promise(other_post) ==> offers.one_click == others.one_click
            &&& list_id == other_id ==> offers.list_id == others.list_id
        },
{
    something_is_offered_where_a_handle_can_be_used(values, post, list_id);
    something_is_offered_where_a_handle_can_be_used(values, other_post, other_id);
    assert(promises_one_click(post) == is_promise(post));
    assert(promises_one_click(other_post) == is_promise(other_post));
}

/// A list can be left without a browser exactly where it can be written to, or
/// promises one-click for an https handle.
pub proof fn a_direct_route_is_a_mail_or_a_promised_post(
    values: Seq<Seq<char>>,
    post: Option<Seq<char>>,
    list_id: Option<Seq<char>>,
)
    ensures
        offers_of(values, post, list_id) matches Some(offers) ==> {
            let all = all_handles(values);
            offers.is_direct() <==> exists|j: int|
                0 <= j < all.len() && (can_be_written_to(#[trigger] all[j]) || (is_promise(post)
                    && can_be_posted_to(all[j])))
        },
{
    let all = all_handles(values);
    a_route_without_a_handle_is_not_offered(values, post, list_id);
    if let Some(offers) = offers_of(values, post, list_id) {
        if offers.mailto is Some {
            let j = choose|j: int| 0 <= j < all.len() && can_be_written_to(#[trigger] all[j]);
            assert(can_be_written_to(all[j]));
        } else if offers.one_click is Some {
            let j = choose|j: int| 0 <= j < all.len() && can_be_posted_to(#[trigger] all[j]);
            assert(is_promise(post) && can_be_posted_to(all[j]));
        }
    }
}

/// One handle, bracketed or bare, is the handle of its value, and the only one.
pub proof fn one_handle_is_offered_for_what_it_is(
    handle: Seq<char>,
    in_brackets: bool,
    post: Option<Seq<char>>,
    list_id: Option<Seq<char>>,
)
    requires
        can_be_written_to(handle) || can_be_opened(handle),
        trimmed(handle) == handle,
        !handle.contains('<'),
        !handle.contains('>'),
        !in_brackets ==> !handle.contains(',') && forall|k: int|
            0 <= k < handle.len() ==> !white_space(#[trigger] handle[k]),
    ensures
        ({
            let value = if in_brackets {
                seq!['<'] + handle + seq!['>']
            } else {
                handle
            };
            offers_of(seq![value], post, list_id) matches Some(offers) && {
                &&& offers.mailto == if can_be_written_to(handle) {
                    Some(handle)
                } else {
                    None
                }
                &&& offers.web == if can_be_opened(handle) {
                    Some(handle)
                } else {
                    None
                }
                &&& offers.one_click == if is_promise(post) && can_be_posted_to(handle) {
                    Some(handle)
                } else {
                    None
                }
            }
        }),
{
    let value = if in_brackets {
        seq!['<'] + handle + seq!['>']
    } else {
        handle
    };
    reveal_strlit("mailto:");
    reveal_strlit("http://");
    reveal_strlit("https://");
    bare_or_bracketed_handles_of_one_value(handle, in_brackets);
    no_value_has_no_handle(value);
    let all = all_handles(seq![value]);
    assert(all == seq![handle]);
    assert(all[0] == handle);
    a_route_without_a_handle_is_not_offered(seq![value], post, list_id);
    something_is_offered_where_a_handle_can_be_used(seq![value], post, list_id);
    if can_be_written_to(handle) {
        the_first_mailto_with_a_target_is_offered(seq![value], post, list_id, 0);
    }
    if can_be_opened(handle) {
        the_first_page_is_offered(seq![value], post, list_id, 0);
    }
    if is_promise(post) && can_be_posted_to(handle) {
        the_first_https_handle_is_offered_for_one_click(seq![value], post, list_id, 0);
    }
}

} // verus!
