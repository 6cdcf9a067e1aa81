//! A parsed message, as far as its headers go: the bytes it was given and where
//! in them each header's value stands.

use vstd::prelude::*;

verus! {

/// One header: its name, and where its value starts and ends in the message.
#[derive(Debug, Clone, PartialEq, Eq)]
pub struct Header {
    pub name: String,
    pub start: usize,
    pub end: usize,
}

/// The root headers of a message, over its bytes.
#[derive(Debug, Clone, PartialEq, Eq)]
pub struct Message {
    pub raw: Vec<u8>,
    pub headers: Vec<Header>,
}

/// The contents of a [`Header`].
#[verifier::ext_equal]
pub struct HeaderText {
    pub name: Seq<char>,
    pub start: int,
    pub end: int,
}

/// The contents of a [`Message`].
#[verifier::ext_equal]
pub struct MessageText {
    pub raw: Seq<u8>,
    pub headers: Seq<HeaderText>,
}

impl DeepView for Header {
    type V = HeaderText;

    open spec fn deep_view(&self) -> HeaderText {
        HeaderText { name: self.name@, start: self.start as int, end: self.end as int }
    }
}

impl DeepView for Message {
    type V = MessageText;

    open spec fn deep_view(&self) -> MessageText {
        MessageText { raw: self.raw@, headers: self.headers.deep_view() }
    }
}

/// The headers that `mail_parser` finds in the bytes of a message, or `None` where
/// it finds none.
pub uninterp spec fn parsed_message(raw: Seq<u8>) -> Option<MessageText>;

/// Parses the headers of a message: `mail_parser::MessageParser::parse_headers`,
/// with every header kept raw (`default_header_raw`, and `header_raw` so that the
/// default takes effect): it reads no body, takes no value apart, and gives `None`
/// where it finds no header. Of what it gives, `Message::headers` (each header by
/// its `name`, `offset_start` and `offset_end`) and `Message::raw_message` are kept.
/// What is claimed is that the same bytes always give the same of these, or never
/// any; that the raw message is the bytes given; and that there is a header, and the
/// value of each lies within the message. Which headers the parser finds is left to
/// the name `parsed_message`.
#[verifier::external_body]
fn parse_with_mail_parser(raw: &[u8]) -> (r: Option<Message>)
    ensures
        r.deep_view() == parsed_message(raw@),
        r matches Some(message) ==> message.raw@ == raw@ && message.well_formed(),
{
    let parsed = mail_parser::MessageParser::new().default_header_raw().header_raw(
        mail_parser::HeaderName::ListUnsubscribe,
    ).parse_headers(raw)?;
    let headers = parsed.headers().iter().map(
        |h| Header { name: h.name().to_string(), start: h.offset_start(), end: h.offset_end() },
    ).collect();
    Some(Message { raw: parsed.raw_message().to_vec(), headers })
}

impl Message {
    /// There is a header, and the value of each lies within the message.
    pub open spec fn well_formed(self) -> bool {
        &&& self.headers@.len() > 0
        &&& forall|i: int|
            0 <= i < self.headers@.len() ==> (#[trigger] self.headers@[i]).start
                <= self.headers@[i].end <= self.raw@.len()
    }

    /// Parses the headers of a message, or `None` where it has none. The message
    /// keeps the bytes it was given.
    pub fn parse(raw: &[u8]) -> (r: Option<Message>)
        ensures
            r.deep_view() == parsed_message(raw@),
            r matches Some(message) ==> message.raw@ == raw@ && message.well_formed(),
    {
        parse_with_mail_parser(raw)
    }
}

} // verus!
