//! `mailto:` handles (RFC 6068): whom to write to, and what.

use crate::percent::{decoded, percent_decode, percent_unescape, unescaped};
use crate::text::{
    after, before, begins_but_case, begins_ignoring_case, contains_char, eq_ignoring_case, join,
    joined, lemma_filter_map_push, lemma_map_filter_push, lemma_same_but_case_len, not_empty,
    pieces, same_but_case, split, split_first, trim, trimmed, trimming, Separator,
};
use vstd::prelude::*;

verus! {

/// Where a `mailto:` handle sends its unsubscribe request.
#[derive(Debug, Clone, PartialEq, Eq)]
pub struct MailtoTarget {
    /// Comma-separated addresses, as the composer takes them.
    pub to: String,
    pub subject: String,
    pub body: String,
}

/// The text of a [`MailtoTarget`].
#[verifier::ext_equal]
pub struct TargetText {
    pub to: Seq<char>,
    pub subject: Seq<char>,
    pub body: Seq<char>,
}

impl DeepView for MailtoTarget {
    type V = TargetText;

    open spec fn deep_view(&self) -> TargetText {
        TargetText { to: self.to@, subject: self.subject@, body: self.body@ }
    }
}

/// What follows the scheme of a URI that has that scheme.
pub open spec fn after_scheme(uri: Seq<char>, scheme: Seq<char>) -> Option<Seq<char>> {
    if begins_but_case(trimmed(uri), scheme) {
        Some(trimmed(uri).skip(scheme.len() as int))
    } else {
        None
    }
}

/// Whether a text can be an address: it has an `@`.
pub open spec fn has_at() -> spec_fn(Seq<char>) -> bool {
    |s: Seq<char>| s.contains('@')
}

/// A percent-encoded address before the `?`, decoded and trimmed.
pub open spec fn address_text() -> spec_fn(Seq<char>) -> Seq<char> {
    |s: Seq<char>| trimmed(unescaped(s))
}

/// The addresses before the `?`: parted by commas, then each decoded.
pub open spec fn leading_addresses(list: Seq<char>) -> Seq<Seq<char>> {
    pieces(list, Separator::Char(',')).map_values(address_text()).filter(has_at())
}

/// The addresses of a `to` field, which is decoded already.
pub open spec fn field_addresses(list: Seq<char>) -> Seq<Seq<char>> {
    pieces(list, Separator::Char(',')).map_values(trimming()).filter(has_at())
}

/// A `key=value` pair as its key and its decoded value.
pub open spec fn key_and_value() -> spec_fn(Seq<char>) -> (Seq<char>, Seq<char>) {
    |pair: Seq<char>| (before(pair, '='), decoded(after(pair, '=')))
}

/// The fields of a query, in order.
pub open spec fn fields(query: Seq<char>) -> Seq<(Seq<char>, Seq<char>)> {
    pieces(query, Separator::Char('&')).filter(not_empty()).map_values(key_and_value())
}

/// The value of the last field of that name; empty where there is none.
pub open spec fn last_value(fields: Seq<(Seq<char>, Seq<char>)>, key: Seq<char>) -> Seq<char>
    decreases fields.len(),
{
    if fields.len() == 0 {
        Seq::empty()
    } else if same_but_case(fields.last().0, key) {
        fields.last().1
    } else {
        last_value(fields.drop_last(), key)
    }
}

/// The addresses of every `to` field, in order.
pub open spec fn to_addresses(fields: Seq<(Seq<char>, Seq<char>)>) -> Seq<Seq<char>>
    decreases fields.len(),
{
    if fields.len() == 0 {
        Seq::empty()
    } else if same_but_case(fields.last().0, "to"@) {
        to_addresses(fields.drop_last()) + field_addresses(fields.last().1)
    } else {
        to_addresses(fields.drop_last())
    }
}

/// Every address that a `mailto:` URI names, given what follows the scheme.
pub open spec fn all_addresses(rest: Seq<char>) -> Seq<Seq<char>> {
    leading_addresses(before(rest, '?')) + to_addresses(fields(after(rest, '?')))
}

/// A text, or another where it is blank.
pub open spec fn unless_blank(s: Seq<char>, other: Seq<char>) -> Seq<char> {
    if trimmed(s).len() == 0 {
        other
    } else {
        s
    }
}

/// The target that a `mailto:` URI stands for.
pub open spec fn target_of(uri: Seq<char>) -> Option<TargetText> {
    match after_scheme(uri, "mailto:"@) {
        None => None,
        Some(rest) => {
            let query = fields(after(rest, '?'));
            let subject = unless_blank(last_value(query, "subject"@), "Unsubscribe"@);
            if all_addresses(rest).len() == 0 {
                None
            } else {
                Some(
                    TargetText {
                        to: joined(all_addresses(rest), ", "@),
                        subject,
                        body: unless_blank(last_value(query, "body"@), subject),
                    },
                )
            }
        },
    }
}

/// What follows the scheme of a URI, or `None` where it has another.
pub fn strip_scheme<'a>(uri: &'a str, scheme: &str) -> (r: Option<&'a str>)
    ensures
        r.deep_view() == after_scheme(uri@, scheme@),
{
    let uri = trim(uri);
    if begins_ignoring_case(uri, scheme) {
        let n = scheme.unicode_len();
        let end = uri.unicode_len();
        assert(uri@.subrange(n as int, end as int) == uri@.skip(n as int));
        Some(uri.substring_char(n, end))
    } else {
        None
    }
}

/// The addresses before the `?`, each decoded on its own.
fn read_leading_addresses(list: &str) -> (r: Vec<String>)
    ensures
        r.deep_view() == leading_addresses(list@),
{
    let parts = split(list, Separator::Char(','));
    let ghost texts = parts.deep_view();
    let mut r: Vec<String> = Vec::new();
    let mut i: usize = 0;
    while i < parts.len()
        invariant
            i <= parts.len(),
            texts == parts.deep_view(),
            r.deep_view() == texts.take(i as int).map_values(address_text()).filter(has_at()),
        decreases parts.len() - i,
    {
        let ghost kept = r.deep_view();
        let address = trim(percent_unescape(parts[i]).as_str()).to_owned();
        proof {
            lemma_map_filter_push(texts, i as int, address_text(), has_at());
        }
        if contains_char(address.as_str(), '@') {
            r.push(address);
            assert(r.deep_view() == kept.push(address@));
        }
        i = i + 1;
    }
    assert(texts.take(i as int) == texts);
    r
}

/// The addresses of a `to` field.
fn read_field_addresses(list: &str) -> (r: Vec<String>)
    ensures
        r.deep_view() == field_addresses(list@),
{
    let parts = split(list, Separator::Char(','));
    let ghost texts = parts.deep_view();
    let mut r: Vec<String> = Vec::new();
    let mut i: usize = 0;
    while i < parts.len()
        invariant
            i <= parts.len(),
            texts == parts.deep_view(),
            r.deep_view() == texts.take(i as int).map_values(trimming()).filter(has_at()),
        decreases parts.len() - i,
    {
        let ghost kept = r.deep_view();
        let address = trim(parts[i]).to_owned();
        proof {
            lemma_map_filter_push(texts, i as int, trimming(), has_at());
        }
        if contains_char(address.as_str(), '@') {
            r.push(address);
            assert(r.deep_view() == kept.push(address@));
        }
        i = i + 1;
    }
    assert(texts.take(i as int) == texts);
    r
}

/// Take a `mailto:` URI apart (RFC 6068): the addresses before `?`, then
/// `subject=`, `body=` and `to=` in the query, percent-decoded. A `+` stands for a
/// space in the query alone.
pub fn parse_mailto(uri: &str) -> (r: Option<MailtoTarget>)
    ensures
        r.deep_view() == target_of(uri@),
{
    proof {
        reveal_strlit("subject");
        reveal_strlit("body");
        reveal_strlit("to");
    }
    let rest = match strip_scheme(uri, "mailto:") {
        Some(rest) => rest,
        None => return None,
    };
    let (addr_part, query) = split_first(rest, '?');
    let mut to = read_leading_addresses(addr_part);
    let mut subject = String::new();
    let mut body = String::new();
    let pairs = split(query, Separator::Char('&'));
    let ghost texts = pairs.deep_view();
    let ghost leading = to.deep_view();
    let mut i: usize = 0;
    assert(texts.take(0).filter(not_empty()).map_values(key_and_value()) == Seq::<
        (Seq<char>, Seq<char>),
    >::empty()) by {
        reveal(Seq::filter);
    }
    while i < pairs.len()
        invariant
            i <= pairs.len(),
            texts == pairs.deep_view(),
            "subject"@.len() == 7,
            "body"@.len() == 4,
            "to"@.len() == 2,
            ({
                let read = texts.take(i as int).filter(not_empty()).map_values(key_and_value());
                &&& subject@ == last_value(read, "subject"@)
                &&& body@ == last_value(read, "body"@)
                &&& to.deep_view() == leading + to_addresses(read)
            }),
        decreases pairs.len() - i,
    {
        let ghost read = texts.take(i as int).filter(not_empty()).map_values(key_and_value());
        let ghost next = texts.take(i + 1).filter(not_empty()).map_values(key_and_value());
        let pair = pairs[i];
        proof {
            lemma_filter_map_push(texts, i as int, not_empty(), key_and_value());
        }
        if !pair.is_empty() {
            let (k, v) = split_first(pair, '=');
            let v = percent_decode(v);
            assert(next == read.push((k@, v@)));
            assert(next.drop_last() == read);
            proof {
                if same_but_case(k@, "subject"@) {
                    lemma_same_but_case_len(k@, "subject"@);
                }
                if same_but_case(k@, "body"@) {
                    lemma_same_but_case_len(k@, "body"@);
                }
                if same_but_case(k@, "to"@) {
                    lemma_same_but_case_len(k@, "to"@);
                }
            }
            if eq_ignoring_case(k, "subject") {
                subject = v;
            } else if eq_ignoring_case(k, "body") {
                body = v;
            } else if eq_ignoring_case(k, "to") {
                let ghost had = to.deep_view();
                let mut more = read_field_addresses(v.as_str());
                let ghost added = more.deep_view();
                to.append(&mut more);
                assert(to.deep_view() == had + added);
                assert(had + added == leading + (to_addresses(read) + added));
            }
        }
        i = i + 1;
    }
    assert(texts.take(i as int) == texts);
    if to.len() == 0 {
        return None;
    }
    if trim(subject.as_str()).is_empty() {
        subject = "Unsubscribe".to_owned();
    }
    if trim(body.as_str()).is_empty() {
        body = subject.clone();
    }
    Some(MailtoTarget { to: join(&to, ", "), subject, body })
}

} // verus!
