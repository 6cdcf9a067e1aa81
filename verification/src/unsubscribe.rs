//! One-click unsubscribe.
//!
//! A mailing list that wants to be left announces how in its headers
//! (RFC 2369): `List-Unsubscribe` carries one or more `<uri>` handles, a
//! `mailto:` to write to and/or an `https:` page to visit. RFC 8058 adds
//! `List-Unsubscribe-Post: List-Unsubscribe=One-Click`, which promises that
//! a bare POST of that form body to the https handle unsubscribes the
//! recipient with no page, no login and no confirmation in between.

use crate::mailto::target_of;
use crate::message::{HeaderText, Message, MessageText};
use crate::models::{Unsubscribe, UnsubscribeText};
use crate::percent::{from_utf8_lossy, lossy_utf8};
use crate::text::{
    begins_but_case, begins_ignoring_case, chars_of, contains_char, cut, eq_ignoring_case,
    find_from, find_last_past, join, joined, last_past, lemma_begins, lemma_filter_map_push,
    lemma_filter_push, lemma_map_filter_push, lower_char, lowered, not_empty, pieces, same_but_case,
    split, to_lower, trim, trimmed, trimming, Separator,
};
use vstd::prelude::*;

pub use crate::mailto::{parse_mailto, MailtoTarget};
pub use crate::one_click::one_click_post;

verus! {

/// The exact `List-Unsubscribe-Post` value RFC 8058 requires. Anything else
/// is not a one-click promise and the https handle is treated as a page.
pub const ONE_CLICK: &'static str = "List-Unsubscribe=One-Click";

/// A folded header value as one line.
pub open spec fn unfolded(value: Seq<char>) -> Seq<char> {
    joined(
        pieces(value, Separator::LineBreak).map_values(trimming()).filter(not_empty()),
        " "@,
    )
}

/// How many characters a comment still takes, up to and including the `)` that
/// closes the outermost of the `depth` that are open; `None` where none does.
/// Comments nest.
pub open spec fn comment_end(s: Seq<char>, depth: nat) -> Option<nat>
    decreases s.len(),
{
    if s.len() == 0 {
        None
    } else if s[0] == ')' && depth <= 1 {
        Some(1)
    } else {
        let within = if s[0] == '(' {
            depth + 1
        } else if s[0] == ')' {
            (depth - 1) as nat
        } else {
            depth
        };
        match comment_end(s.drop_first(), within) {
            Some(n) => Some(n + 1),
            None => None,
        }
    }
}

/// A comment cannot take more characters than there are.
pub proof fn lemma_comment_end(s: Seq<char>, depth: nat)
    ensures
        comment_end(s, depth) matches Some(n) ==> 0 < n <= s.len(),
    decreases s.len(),
{
    if s.len() > 0 {
        lemma_comment_end(s.drop_first(), depth);
        lemma_comment_end(s.drop_first(), depth + 1);
        if depth > 0 {
            lemma_comment_end(s.drop_first(), (depth - 1) as nat);
        }
    }
}

/// How many characters outside the brackets are skipped at once: a comment, where
/// one starts, and one character otherwise. A `(` that is never closed starts no
/// comment, so the brackets after it count.
pub open spec fn skipped(value: Seq<char>) -> nat {
    if value[0] == '(' {
        match comment_end(value.skip(1), 1) {
            Some(n) => n + 1,
            None => 1,
        }
    } else {
        1
    }
}

/// The handles in `<...>`, in order. Blank ones are skipped, and so is what stands
/// outside the brackets: a comment (`(...)`) with any brackets in it, and every
/// other character. A `<` that is never closed ends the handles.
pub open spec fn bracketed(value: Seq<char>) -> Seq<Seq<char>>
    decreases value.len(),
{
    if value.len() == 0 {
        Seq::empty()
    } else if value[0] == '<' {
        let inside = value.skip(1);
        let end = cut(inside, Separator::Char('>')) as int;
        if end < inside.len() {
            let handle = trimmed(inside.take(end));
            let more = bracketed(inside.skip(end + 1));
            if handle.len() > 0 {
                seq![handle] + more
            } else {
                more
            }
        } else {
            Seq::empty()
        }
    } else {
        proof {
            lemma_comment_end(value.skip(1), 1);
        }
        bracketed(value.skip(skipped(value) as int))
    }
}

/// A scheme that a bare handle can have.
pub open spec fn known_scheme() -> spec_fn(Seq<char>) -> bool {
    |h: Seq<char>|
        begins_but_case(h, "mailto:"@) || begins_but_case(h, "http://"@) || begins_but_case(
            h,
            "https://"@,
        )
}

/// The handles of a `List-Unsubscribe` value, in order. A value without a `<` is
/// read as bare handles separated by commas or white space.
pub open spec fn handles(value: Seq<char>) -> Seq<Seq<char>> {
    if value.contains('<') {
        bracketed(value)
    } else {
        pieces(value, Separator::CommaOrSpace).filter(known_scheme())
    }
}

/// The handles of all values, in order.
pub open spec fn all_handles(values: Seq<Seq<char>>) -> Seq<Seq<char>>
    decreases values.len(),
{
    if values.len() == 0 {
        Seq::empty()
    } else {
        all_handles(values.drop_last()) + handles(values.last())
    }
}

/// The first handle that a test holds of.
pub open spec fn first(handles: Seq<Seq<char>>, test: spec_fn(Seq<char>) -> bool) -> Option<
    Seq<char>,
>
    decreases handles.len(),
{
    if handles.len() == 0 {
        None
    } else if first(handles.drop_last(), test) is Some {
        first(handles.drop_last(), test)
    } else if test(handles.last()) {
        Some(handles.last())
    } else {
        None
    }
}

/// A `mailto:` handle that a request can be written to.
pub open spec fn writable() -> spec_fn(Seq<char>) -> bool {
    |h: Seq<char>| begins_but_case(h, "mailto:"@) && target_of(h) is Some
}

/// An https handle.
pub open spec fn secure() -> spec_fn(Seq<char>) -> bool {
    |h: Seq<char>| begins_but_case(h, "https://"@)
}

/// A handle that a browser can open.
pub open spec fn page() -> spec_fn(Seq<char>) -> bool {
    |h: Seq<char>| begins_but_case(h, "https://"@) || begins_but_case(h, "http://"@)
}

/// A `List-Unsubscribe-Post` value that makes the one-click promise.
pub open spec fn promises_one_click(post: Option<Seq<char>>) -> bool {
    post matches Some(p) && same_but_case(trimmed(p), ONE_CLICK@)
}

/// The identifier out of a `List-Id` value, lowercased.
pub open spec fn list_key(value: Seq<char>) -> Seq<char> {
    let open = cut(value, Separator::Char('<')) as int;
    let close = last_past(value, '>') - 1;
    lowered(
        trimmed(
            if open < value.len() && open < close {
                value.subrange(open + 1, close)
            } else {
                value
            },
        ),
    )
}

/// What the header values offer: the first usable handle of each kind, and
/// nothing where there is none of any kind.
pub open spec fn offers_of(
    list_unsubscribe: Seq<Seq<char>>,
    post: Option<Seq<char>>,
    list_id: Option<Seq<char>>,
) -> Option<UnsubscribeText> {
    let all = all_handles(list_unsubscribe);
    let offers = UnsubscribeText {
        one_click: if promises_one_click(post) {
            first(all, secure())
        } else {
            None
        },
        mailto: first(all, writable()),
        web: first(all, page()),
        list_id: match list_id {
            Some(value) => list_key(value),
            None => Seq::empty(),
        },
    };
    if offers.one_click is None && offers.mailto is None && offers.web is None {
        None
    } else {
        Some(offers)
    }
}

/// A header of that name whose value lies within the message.
pub open spec fn named(raw: Seq<u8>, name: Seq<char>) -> spec_fn(HeaderText) -> bool {
    |h: HeaderText| same_but_case(h.name, name) && 0 <= h.start <= h.end <= raw.len()
}

/// The value of a header, as one line.
pub open spec fn value_in(raw: Seq<u8>) -> spec_fn(HeaderText) -> Seq<char> {
    |h: HeaderText| unfolded(lossy_utf8(raw.subrange(h.start, h.end)))
}

/// The value of every header of that name, unfolded, but for the blank ones.
pub open spec fn header_values(message: MessageText, name: Seq<char>) -> Seq<Seq<char>> {
    message.headers.filter(named(message.raw, name)).map_values(value_in(message.raw)).filter(
        not_empty(),
    )
}

/// The first of some values.
pub open spec fn head(values: Seq<Seq<char>>) -> Option<Seq<char>> {
    if values.len() > 0 {
        Some(values[0])
    } else {
        None
    }
}

/// What a message offers.
pub open spec fn offers_in(message: MessageText) -> Option<UnsubscribeText> {
    offers_of(
        header_values(message, "List-Unsubscribe"@),
        head(header_values(message, "List-Unsubscribe-Post"@)),
        head(header_values(message, "List-Id"@)),
    )
}

/// A folded header value as one line.
pub fn unfold(value: &str) -> (r: String)
    ensures
        r@ == unfolded(value@),
{
    let lines = split(value, Separator::LineBreak);
    let ghost texts = lines.deep_view();
    let mut kept: Vec<String> = Vec::new();
    let mut i: usize = 0;
    while i < lines.len()
        invariant
            i <= lines.len(),
            texts == lines.deep_view(),
            kept.deep_view() == texts.take(i as int).map_values(trimming()).filter(not_empty()),
        decreases lines.len() - i,
    {
        let ghost had = kept.deep_view();
        let line = trim(lines[i]);
        proof {
            lemma_map_filter_push(texts, i as int, trimming(), not_empty());
        }
        if !line.is_empty() {
            let line = line.to_owned();
            kept.push(line);
            assert(kept.deep_view() == had.push(line@));
        }
        i = i + 1;
    }
    assert(texts.take(i as int) == texts);
    join(&kept, " ")
}

/// The identifier out of a `List-Id` value (`Weekly digest <weekly.example.com>`
/// gives `weekly.example.com`), lowercased: the key a list is remembered by.
pub fn list_id_of(value: &str) -> (r: String)
    ensures
        r@ == list_key(value@),
{
    let v = chars_of(value);
    let open = find_from(&v, 0, Separator::Char('<'));
    assert(v@.skip(0) == value@);
    let past = find_last_past(&v, '>');
    let id = if open < v.len() && past > 0 && open < past - 1 {
        value.substring_char(open + 1, past - 1)
    } else {
        value
    };
    to_lower(trim(id))
}

/// One past the `)` that closes the comment whose `(` stands before `from`, or
/// `None` where none does.
fn find_comment_end(v: &Vec<char>, from: usize) -> (r: Option<usize>)
    requires
        0 < from <= v.len(),
    ensures
        match comment_end(v@.skip(from as int), 1) {
            Some(n) => r == Some((from + n) as usize) && from + n <= v.len(),
            None => r is None,
        },
{
    let ghost whole = v@.skip(from as int);
    let mut depth: usize = 1;
    let mut i: usize = from;
    while i < v.len()
        invariant
            0 < from <= i <= v.len(),
            1 <= depth <= i,
            whole == v@.skip(from as int),
            match comment_end(v@.skip(i as int), depth as nat) {
                Some(n) => comment_end(whole, 1) == Some((n + i - from) as nat),
                None => comment_end(whole, 1) is None,
            },
        decreases v.len() - i,
    {
        let ghost rest = v@.skip(i as int);
        assert(rest.drop_first() == v@.skip(i + 1));
        if v[i] == ')' {
            if depth == 1 {
                return Some(i + 1);
            }
            depth = depth - 1;
        } else if v[i] == '(' {
            depth = depth + 1;
        }
        i = i + 1;
    }
    None
}

/// The bracketed handles of a value, in order.
fn bracketed_handles(value: &str) -> (r: Vec<String>)
    ensures
        r.deep_view() == bracketed(value@),
{
    let v = chars_of(value);
    let mut out: Vec<String> = Vec::new();
    let mut from: usize = 0;
    assert(value@.skip(0) == value@);
    while from < v.len()
        invariant
            v@ == value@,
            from <= v.len(),
            out.deep_view() + bracketed(value@.skip(from as int)) == bracketed(value@),
        decreases v.len() - from,
    {
        let ghost had = out.deep_view();
        let ghost rest = value@.skip(from as int);
        assert(rest.skip(1) == value@.skip(from + 1));
        if v[from] == '<' {
            let end = find_from(&v, from + 1, Separator::Char('>'));
            if end == v.len() {
                assert(out.deep_view() == bracketed(value@));
                return out;
            }
            assert(rest.skip(1).take(end - from - 1) == value@.subrange(from + 1, end as int));
            assert(rest.skip(1).skip(end - from) == value@.skip(end + 1));
            let handle = trim(value.substring_char(from + 1, end));
            if !handle.is_empty() {
                let handle = handle.to_owned();
                out.push(handle);
                assert(out.deep_view() == had.push(handle@));
                assert(had.push(handle@) + bracketed(value@.skip(end + 1)) == had + (seq![handle@]
                    + bracketed(value@.skip(end + 1))));
            }
            from = end + 1;
        } else {
            let mut next: usize = from + 1;
            if v[from] == '(' {
                if let Some(past) = find_comment_end(&v, from + 1) {
                    next = past;
                }
            }
            proof {
                lemma_comment_end(rest.skip(1), 1);
                assert(next == from + skipped(rest));
                assert(rest.skip(skipped(rest) as int) == value@.skip(next as int));
            }
            from = next;
        }
    }
    assert(bracketed(value@.skip(from as int)) == Seq::<Seq<char>>::empty());
    out
}

/// The handles of a `List-Unsubscribe` value, in order. RFC 2369 wants each
/// in `<...>`, with comments (`(...)`, whatever is in them) and anything else
/// outside the brackets skipped; a `(` that is never closed is such text by itself.
/// But plenty of real mail writes the bare URL with no brackets at all, so a value
/// without any is read as bare handles separated by commas or white space.
pub fn angle_handles(value: &str) -> (r: Vec<String>)
    ensures
        r.deep_view() == handles(value@),
{
    if contains_char(value, '<') {
        return bracketed_handles(value);
    }
    let parts = split(value, Separator::CommaOrSpace);
    let ghost texts = parts.deep_view();
    let mut out: Vec<String> = Vec::new();
    let mut i: usize = 0;
    while i < parts.len()
        invariant
            i <= parts.len(),
            texts == parts.deep_view(),
            out.deep_view() == texts.take(i as int).filter(known_scheme()),
        decreases parts.len() - i,
    {
        let ghost had = out.deep_view();
        let part = parts[i];
        proof {
            assert(texts.take(i + 1) == texts.take(i as int).push(part@));
            lemma_filter_push(texts.take(i as int), part@, known_scheme());
        }
        if begins_ignoring_case(part, "mailto:") || begins_ignoring_case(part, "http://")
            || begins_ignoring_case(part, "https://") {
            let handle = part.to_owned();
            out.push(handle);
            assert(out.deep_view() == had.push(handle@));
        }
        i = i + 1;
    }
    assert(texts.take(i as int) == texts);
    out
}

/// The schemes of handles exclude one another.
proof fn lemma_schemes_differ(h: Seq<char>)
    ensures
        begins_but_case(h, "mailto:"@) ==> !page()(h) && !secure()(h),
{
    reveal_strlit("mailto:");
    reveal_strlit("http://");
    reveal_strlit("https://");
    if begins_but_case(h, "mailto:"@) {
        lemma_begins(h, "mailto:"@);
        assert(lower_char(h[0]) == 'm');
        if begins_but_case(h, "http://"@) {
            lemma_begins(h, "http://"@);
            assert(lower_char(h[0]) == 'h');
        }
        if begins_but_case(h, "https://"@) {
            lemma_begins(h, "https://"@);
            assert(lower_char(h[0]) == 'h');
        }
    }
}

/// Build the handles from the header values themselves: every
/// `List-Unsubscribe` value, the `List-Unsubscribe-Post` value and the
/// `List-Id`, as they appear in the message.
pub fn from_headers(
    list_unsubscribe: &[String],
    post: Option<&str>,
    list_id: Option<&str>,
) -> (r: Option<Unsubscribe>)
    ensures
        r.deep_view() == offers_of(
            list_unsubscribe.deep_view(),
            post.deep_view(),
            list_id.deep_view(),
        ),
{
    let ghost values = list_unsubscribe.deep_view();
    let mut mailto: Option<String> = None;
    let mut https: Option<String> = None;
    let mut web: Option<String> = None;
    let mut i: usize = 0;
    while i < list_unsubscribe.len()
        invariant
            i <= list_unsubscribe.len(),
            values == list_unsubscribe.deep_view(),
            mailto.deep_view() == first(all_handles(values.take(i as int)), writable()),
            https.deep_view() == first(all_handles(values.take(i as int)), secure()),
            web.deep_view() == first(all_handles(values.take(i as int)), page()),
        decreases list_unsubscribe.len() - i,
    {
        let found = angle_handles(list_unsubscribe[i].as_str());
        let ghost texts = found.deep_view();
        let ghost earlier = all_handles(values.take(i as int));
        proof {
            assert(values.take(i + 1).drop_last() == values.take(i as int));
            assert(all_handles(values.take(i + 1)) == earlier + texts);
            assert(earlier + texts.take(0) == earlier);
        }
        let mut j: usize = 0;
        while j < found.len()
            invariant
                j <= found.len(),
                texts == found.deep_view(),
                mailto.deep_view() == first(earlier + texts.take(j as int), writable()),
                https.deep_view() == first(earlier + texts.take(j as int), secure()),
                web.deep_view() == first(earlier + texts.take(j as int), page()),
            decreases found.len() - j,
        {
            let handle = found[j].as_str();
            let ghost seen = earlier + texts.take(j + 1);
            proof {
                assert(seen.drop_last() == earlier + texts.take(j as int));
                assert(seen.last() == handle@);
                lemma_schemes_differ(handle@);
            }
            if begins_ignoring_case(handle, "mailto:") {
                if mailto.is_none() {
                    if parse_mailto(handle).is_some() {
                        mailto = Some(handle.to_owned());
                    }
                }
            } else if begins_ignoring_case(handle, "https://") {
                if https.is_none() {
                    https = Some(handle.to_owned());
                }
                if web.is_none() {
                    web = Some(handle.to_owned());
                }
            } else if begins_ignoring_case(handle, "http://") && web.is_none() {
                web = Some(handle.to_owned());
            }
            j = j + 1;
        }
        assert(texts.take(j as int) == texts);
        i = i + 1;
    }
    assert(values.take(i as int) == values);
    // RFC 8058: the one-click promise holds only for an https handle, and
    // only when the header says exactly this.
    let promised = match post {
        Some(p) => eq_ignoring_case(trim(p), ONE_CLICK),
        None => false,
    };
    let one_click = if promised {
        https
    } else {
        None
    };
    if one_click.is_none() && mailto.is_none() && web.is_none() {
        return None;
    }
    let list_id = match list_id {
        Some(value) => list_id_of(value),
        None => String::new(),
    };
    Some(Unsubscribe { one_click, mailto, web, list_id })
}

/// The raw, unfolded value of every header of that name. Parsing the `List-*`
/// family as addresses mangles a `mailto:` with a query string, so the bytes
/// that the message was given are read back instead.
pub fn raw_header_values(parsed: &Message, name: &str) -> (r: Vec<String>)
    ensures
        r.deep_view() == header_values(parsed.deep_view(), name@),
{
    let ghost raw = parsed.raw@;
    let ghost headers = parsed.headers.deep_view();
    let mut r: Vec<String> = Vec::new();
    let mut i: usize = 0;
    assert(headers.take(0).filter(named(raw, name@)).map_values(value_in(raw)).filter(not_empty())
        == Seq::<Seq<char>>::empty()) by {
        reveal(Seq::filter);
    }
    while i < parsed.headers.len()
        invariant
            i <= parsed.headers.len(),
            raw == parsed.raw@,
            headers == parsed.headers.deep_view(),
            r.deep_view() == headers.take(i as int).filter(named(raw, name@)).map_values(
                value_in(raw),
            ).filter(not_empty()),
        decreases parsed.headers.len() - i,
    {
        let header = &parsed.headers[i];
        let ghost had = r.deep_view();
        let ghost values = headers.take(i as int).filter(named(raw, name@)).map_values(
            value_in(raw),
        );
        proof {
            lemma_filter_map_push(headers, i as int, named(raw, name@), value_in(raw));
        }
        if eq_ignoring_case(header.name.as_str(), name) && header.start <= header.end && header.end
            <= parsed.raw.len() {
            let bytes = vstd::slice::slice_subrange(parsed.raw.as_slice(), header.start, header.end);
            let value = unfold(from_utf8_lossy(bytes).as_str());
            proof {
                lemma_filter_push(values, value@, not_empty());
            }
            if !value.as_str().is_empty() {
                r.push(value);
                assert(r.deep_view() == had.push(value@));
            }
        }
        i = i + 1;
    }
    assert(headers.take(i as int) == headers);
    r
}

/// Read the unsubscribe handles out of a parsed message's headers, or `None`
/// when the message offers no way to unsubscribe.
pub fn detect(parsed: &Message) -> (r: Option<Unsubscribe>)
    ensures
        r.deep_view() == offers_in(parsed.deep_view()),
{
    let list_unsubscribe = raw_header_values(parsed, "List-Unsubscribe");
    let posts = raw_header_values(parsed, "List-Unsubscribe-Post");
    let list_ids = raw_header_values(parsed, "List-Id");
    let post = if posts.len() > 0 {
        Some(posts[0].as_str())
    } else {
        None
    };
    let list_id = if list_ids.len() > 0 {
        Some(list_ids[0].as_str())
    } else {
        None
    };
    from_headers(list_unsubscribe.as_slice(), post, list_id)
}

} // verus!
