use vireo_mail::mailto::{parse_mailto, strip_scheme};
use vireo_mail::message::{Header, Message};
use vireo_mail::percent::{decode_bytes, percent_decode, percent_unescape, unescape_bytes};
use vireo_mail::unsubscribe::{
    angle_handles, detect, from_headers, list_id_of, raw_header_values, unfold, ONE_CLICK,
};

fn s(v: &[&str]) -> Vec<String> {
    v.iter().map(|x| x.to_string()).collect()
}

#[test]
fn mailto_and_web_handles_are_told_apart() {
    let u = from_headers(
        &s(&["<mailto:leave@list.example?subject=unsubscribe>, <https://list.example/u/1>"]),
        None,
        None,
    )
    .unwrap();
    assert_eq!(u.mailto.as_deref(), Some("mailto:leave@list.example?subject=unsubscribe"));
    assert_eq!(u.web.as_deref(), Some("https://list.example/u/1"));
    assert_eq!(u.one_click, None, "no List-Unsubscribe-Post, no one-click promise");
    assert!(u.list_id.is_empty());
}

#[test]
fn one_click_needs_the_exact_post_header_and_https() {
    let hdr = s(&["<https://list.example/u/1>, <mailto:leave@list.example>"]);
    let u = from_headers(&hdr, Some("List-Unsubscribe=One-Click"), None).unwrap();
    assert_eq!(u.one_click.as_deref(), Some("https://list.example/u/1"));
    let u = from_headers(&hdr, Some("list-unsubscribe=one-click "), None).unwrap();
    assert_eq!(
        u.one_click.as_deref(),
        Some("https://list.example/u/1"),
        "case and space are forgiven"
    );
    let u = from_headers(&hdr, Some("something-else"), None).unwrap();
    assert_eq!(u.one_click, None);
    let u = from_headers(
        &s(&["<http://list.example/u/1>"]),
        Some("List-Unsubscribe=One-Click"),
        None,
    )
    .unwrap();
    assert_eq!(u.one_click, None, "plain http is never one-click");
    assert_eq!(u.web.as_deref(), Some("http://list.example/u/1"));
}

#[test]
fn comments_and_folding_are_skipped() {
    let hdr = s(&[
        "(Use this command to get off the list) <mailto:leave@list.example>,  <https://list.example/leave>",
    ]);
    let u = from_headers(&hdr, None, Some("Weekly digest <weekly.list.example>")).unwrap();
    assert_eq!(u.mailto.as_deref(), Some("mailto:leave@list.example"));
    assert_eq!(u.web.as_deref(), Some("https://list.example/leave"));
    assert_eq!(u.list_id, "weekly.list.example");
    assert_eq!(unfold("<mailto:a@b.c>,\r\n <https://x.y/z>"), "<mailto:a@b.c>, <https://x.y/z>");
}

#[test]
fn bare_handles_without_brackets_are_taken_too() {
    // ArtStation, through Amazon SES: the URL alone, no brackets.
    let hdr = s(&[
        "https://www.artstation.com/unsubscribe/notifications/21d2?kind%5B%5D=project_publish",
    ]);
    let u = from_headers(&hdr, None, None).unwrap();
    assert_eq!(
        u.web.as_deref(),
        Some("https://www.artstation.com/unsubscribe/notifications/21d2?kind%5B%5D=project_publish")
    );
    assert!(!u.direct(), "a page only: the button opens the browser");
    let u =
        from_headers(&s(&["mailto:leave@x.example, https://x.example/u"]), None, None).unwrap();
    assert_eq!(u.mailto.as_deref(), Some("mailto:leave@x.example"));
    assert_eq!(u.web.as_deref(), Some("https://x.example/u"));
    // A bracketed value keeps the strict reading: text outside is not a handle.
    let u = from_headers(&s(&["https://ignored.example <mailto:a@b.c>"]), None, None).unwrap();
    assert_eq!(u.web, None);
}

#[test]
fn a_message_with_no_handles_offers_nothing() {
    assert_eq!(from_headers(&[], None, None), None);
    assert_eq!(from_headers(&s(&["nothing in brackets"]), None, None), None);
    assert_eq!(from_headers(&s(&["<ftp://odd.example/x>"]), None, None), None);
}

#[test]
fn mailto_targets_are_taken_apart() {
    let t = parse_mailto("mailto:leave@list.example?subject=unsubscribe%20me&body=please+go")
        .unwrap();
    assert_eq!(t.to, "leave@list.example");
    assert_eq!(t.subject, "unsubscribe me");
    assert_eq!(t.body, "please go");
    let t = parse_mailto("MAILTO:a@x.example,b@x.example").unwrap();
    assert_eq!(t.to, "a@x.example, b@x.example");
    assert_eq!(t.subject, "Unsubscribe", "a subject is always sent");
    assert_eq!(t.body, "Unsubscribe");
    assert_eq!(parse_mailto("mailto:?subject=x"), None, "no address, no target");
    assert_eq!(parse_mailto("https://x.example"), None);
}

#[test]
fn detect_reads_the_raw_headers_of_a_message() {
    let raw = b"From: Digest <digest@list.example>\r\n\
List-Id: The digest <digest.list.example>\r\n\
List-Unsubscribe: <mailto:leave@list.example?subject=unsubscribe>,\r\n <https://list.example/u/abc>\r\n\
List-Unsubscribe-Post: List-Unsubscribe=One-Click\r\n\
Subject: Hello\r\n\r\nBody\r\n";
    let parsed = Message::parse(raw.as_slice()).unwrap();
    let u = detect(&parsed).unwrap();
    assert_eq!(u.one_click.as_deref(), Some("https://list.example/u/abc"));
    assert_eq!(u.mailto.as_deref(), Some("mailto:leave@list.example?subject=unsubscribe"));
    assert_eq!(u.list_id, "digest.list.example");
    let plain = b"From: a@b.c\r\nSubject: x\r\n\r\nhi\r\n";
    let parsed = Message::parse(plain.as_slice()).unwrap();
    assert_eq!(detect(&parsed), None);
}

#[test]
fn a_parsed_message_keeps_its_bytes_and_header_offsets() {
    let raw = b"From: a@b.c\r\nsubject: Hello\r\n\r\nBody\r\n";
    let parsed = Message::parse(raw.as_slice()).unwrap();
    assert_eq!(parsed.raw, raw.to_vec());
    assert_eq!(parsed.headers.len(), 2);
    assert!(parsed.headers[1].name.eq_ignore_ascii_case("Subject"));
    assert_eq!(raw_header_values(&parsed, "SUBJECT"), s(&["Hello"]));
    assert_eq!(Message::parse(b""), None);
    assert_eq!(Message::parse(b"\r\nBody\r\n"), None);
}

#[test]
fn only_the_headers_of_a_message_are_read() {
    let raw = b"Received: ; 1 1 1 1 1 1 -9223372036854775808\r\n\
Content-Type: multipart/mixed; boundary=\"x\"\r\n\
List-Unsubscribe: <https://l.example/u>\r\n\r\n\
--x\r\nList-Unsubscribe: <https://inner.example>\r\n\r\nhi\r\n--x--\r\n";
    let parsed = Message::parse(raw.as_slice()).unwrap();
    assert_eq!(parsed.raw, raw.to_vec());
    assert_eq!(parsed.headers.len(), 3);
    assert_eq!(raw_header_values(&parsed, "List-Unsubscribe"), s(&["<https://l.example/u>"]));
}

#[test]
fn values_outside_the_message_and_blank_ones_are_left_out() {
    let header = |start: usize, end: usize| Header { name: "X".to_string(), start, end };
    let message = Message {
        raw: b"one\xff\r\n two   \r\n".to_vec(),
        headers: vec![header(0, 10), header(10, 15), header(3, 2), header(4, 99), header(0, 3)],
    };
    assert_eq!(raw_header_values(&message, "x"), s(&["one\u{fffd} two", "one"]));
    assert_eq!(raw_header_values(&message, "y"), s(&[]));
}

#[test]
fn the_first_handle_of_each_kind_wins() {
    let u = from_headers(
        &s(&[
            "<mailto:no-address>, <http://a.example>, <HTTPS://b.example>",
            "<mailto:a@b.c>, <https://c.example>, <MAILTO:d@e.f>",
        ]),
        Some(ONE_CLICK),
        None,
    )
    .unwrap();
    assert_eq!(u.mailto.as_deref(), Some("mailto:a@b.c"));
    assert_eq!(u.web.as_deref(), Some("http://a.example"));
    assert_eq!(u.one_click.as_deref(), Some("HTTPS://b.example"));
    assert!(u.direct());
}

#[test]
fn handles_are_read_in_order() {
    assert_eq!(angle_handles(" x < a > y <> <b> <c"), s(&["a", "b"]));
    assert_eq!(angle_handles("<a"), s(&[]));
    assert_eq!(angle_handles("x > https://y.example"), s(&["https://y.example"]));
    assert_eq!(
        angle_handles("Mailto:a@b,\u{a0}ftp://x http://y\u{3000}HTTPS://z"),
        s(&["Mailto:a@b", "http://y", "HTTPS://z"])
    );
    assert_eq!(angle_handles(""), s(&[]));
}

#[test]
fn unfolding_drops_blank_lines() {
    assert_eq!(unfold(""), "");
    assert_eq!(unfold(" \r\n\t\r\n"), "");
    assert_eq!(unfold("  a b \r c\n\n d "), "a b c d");
    let once = unfold("\u{2003}x\r\n y");
    assert_eq!(once, "x y");
    assert_eq!(unfold(&once), once);
}

#[test]
fn list_keys_are_lowered() {
    assert_eq!(list_id_of("Weekly digest <Weekly.Example.COM>"), "weekly.example.com");
    assert_eq!(list_id_of("  Plain.Example "), "plain.example");
    assert_eq!(list_id_of("a <b> c> d"), "b> c");
    assert_eq!(list_id_of("> odd <"), "> odd <");
    assert_eq!(list_id_of("x <>"), "");
    assert_eq!(list_id_of("<\u{c9}TAGE>"), "\u{c9}tage");
}

#[test]
fn percent_codes_become_characters() {
    assert_eq!(percent_decode("a%20b+c"), "a b c");
    assert_eq!(percent_decode("%C3%A9%e2%82%AC"), "\u{e9}\u{20ac}");
    assert_eq!(percent_decode("caf\u{e9}"), "caf\u{e9}");
    assert_eq!(percent_decode("100%"), "100%");
    assert_eq!(percent_decode("%4"), "%4");
    assert_eq!(percent_decode("%41"), "A");
    assert_eq!(percent_decode("%zz%4g%"), "%zz%4g%");
    assert_eq!(percent_decode("%ff"), "\u{fffd}");
    assert_eq!(decode_bytes(b"%ff%00+"), vec![0xff, 0, 0x20]);
    // No sign stands for a digit.
    assert_eq!(decode_bytes(b"%+5%-5"), b"% 5%-5".to_vec());
    // An escaped plus is a plus.
    assert_eq!(percent_decode("1%2B1+x"), "1+1 x");
    assert_eq!(percent_unescape("1%2b1+x"), "1+1+x");
    assert_eq!(unescape_bytes(b"+%2B%"), b"++%".to_vec());
    assert_eq!(percent_unescape("a%ffb"), "a\u{fffd}b");
}

#[test]
fn every_byte_comes_back_out_of_its_code() {
    for b in 0..=255u8 {
        assert_eq!(decode_bytes(format!("%{b:02X}").as_bytes()), vec![b]);
        assert_eq!(decode_bytes(format!("%{b:02x}").as_bytes()), vec![b]);
    }
}

#[test]
fn mailto_fields_are_matched_in_any_case_and_the_last_wins() {
    let t = parse_mailto(" mailto:A%40x.y?Subject=one&&SUBJECT=two&cc=n@o.p&to=b@x.y,%20c@x.y,nobody ")
        .unwrap();
    assert_eq!(t.to, "A@x.y, b@x.y, c@x.y");
    assert_eq!(t.subject, "two");
    assert_eq!(t.body, "two");
    let t = parse_mailto("mailto:?to=a@b.c&body=%0A+&subject").unwrap();
    assert_eq!(t.to, "a@b.c");
    assert_eq!(t.subject, "Unsubscribe");
    assert_eq!(t.body, "Unsubscribe");
    let t = parse_mailto("mailto:a%2Cb@c.d?body=x=y").unwrap();
    assert_eq!(t.to, "a,b@c.d");
    assert_eq!(t.body, "x=y");
    assert_eq!(parse_mailto("mailto:nobody"), None);
    assert_eq!(parse_mailto("mail"), None);
    assert_eq!(parse_mailto("abcdef\u{e9}"), None);
    assert_eq!(parse_mailto(""), None);
}

#[test]
fn a_plus_stays_in_an_address_and_is_a_space_in_a_query() {
    let t = parse_mailto("mailto:leave+tag@list.example").unwrap();
    assert_eq!(t.to, "leave+tag@list.example");
    assert_eq!(t.subject, "Unsubscribe");
    assert_eq!(t.body, "Unsubscribe");
    let t = parse_mailto("mailto:a+b%2Bc@x.y?subject=d+e&to=f%2Bg@x.y").unwrap();
    assert_eq!(t.to, "a+b+c@x.y, f+g@x.y");
    assert_eq!(t.subject, "d e");
}

#[test]
fn brackets_in_a_comment_hold_no_handle() {
    assert_eq!(
        angle_handles("(was <https://old.example/u>) <https://new.example/u>"),
        s(&["https://new.example/u"])
    );
    assert_eq!(angle_handles("(a (<b>) <c>) x <d> (<e>)<f>"), s(&["d", "f"]));
    // A comment starts outside the brackets only.
    assert_eq!(angle_handles("<a(b> <c)>"), s(&["a(b", "c)"]));
    // Never closed: text like any other.
    assert_eq!(angle_handles("(<a> ((b) <c>"), s(&["a", "c"]));
    assert_eq!(angle_handles(") <a>"), s(&["a"]));
    assert_eq!(angle_handles("(<a>) https://b.example"), s(&[]));
}

#[test]
fn schemes_are_stripped_in_any_case() {
    assert_eq!(strip_scheme("  MailTo:x ", "mailto:"), Some("x"));
    assert_eq!(strip_scheme("mailto:", "MAILTO:"), Some(""));
    assert_eq!(strip_scheme("mailto", "mailto:"), None);
    assert_eq!(strip_scheme("http://x", "mailto:"), None);
    assert_eq!(strip_scheme("abcdef\u{e9}", "mailto:"), None);
}
