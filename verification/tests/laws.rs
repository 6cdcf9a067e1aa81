use vireo_mail::mailto::parse_mailto;
use vireo_mail::message::{Header, Message};
use vireo_mail::nautilus_ext::{path, Host};
use vireo_mail::percent::{percent_decode, percent_unescape};
use vireo_mail::unsubscribe::{
    angle_handles, detect, from_headers, list_id_of, raw_header_values, unfold,
};

fn percent_text(s: &str) -> String {
    s.bytes().map(|b| format!("%{b:02X}")).collect()
}

fn message(fields: &[(&str, &str)]) -> Message {
    let mut raw: Vec<u8> = Vec::new();
    let mut headers: Vec<Header> = Vec::new();
    for (name, value) in fields {
        raw.extend_from_slice(format!("{name}:").as_bytes());
        let start = raw.len();
        raw.extend_from_slice(format!("{value}\r\n").as_bytes());
        headers.push(Header { name: name.to_string(), start, end: raw.len() });
    }
    Message { raw, headers }
}

#[test]
fn every_text_comes_back_out_of_its_percent_encoding() {
    for text in ["", "a b", "50% + more", "caf\u{e9} \u{20ac} \u{1f4e7}", "?&=,\r\n"] {
        assert_eq!(percent_decode(&percent_text(text)), text);
    }
}

#[test]
fn the_digits_of_an_escape_can_be_in_any_case() {
    let text = "50% + caf\u{e9} \u{1f4e7}";
    let small: String = text.bytes().map(|b| format!("%{b:02x}")).collect();
    assert_eq!(percent_decode(&small), text);
    assert_eq!(percent_unescape(&small), text);
    assert_eq!(percent_decode("%c3%A9"), "\u{e9}");
}

#[test]
fn text_before_an_escape_comes_through() {
    for (a, b) in [("abc", "%20d"), ("caf\u{e9}", "%E2%82%ac!"), ("x", ""), ("", "%41")] {
        assert_eq!(percent_decode(&format!("{a}{b}")), format!("{a}{}", percent_decode(b)));
        assert_eq!(percent_unescape(&format!("{a}{b}")), format!("{a}{}", percent_unescape(b)));
    }
    assert_eq!(percent_decode("a+b%41"), "a bA");
    assert_eq!(percent_unescape("a+b%41"), "a+bA");
    // Bytes that are not UTF-8 take nothing away from the text around them.
    assert_eq!(percent_decode("a%ff"), "a\u{fffd}");
    assert_eq!(percent_decode("caf\u{e9}+%ff"), "caf\u{e9} \u{fffd}");
    assert_eq!(percent_decode("x%C3\u{e9}%80y"), "x\u{fffd}\u{e9}\u{fffd}y");
}

/// The character that some bytes begin with.
fn first_char(bytes: &[u8]) -> Option<char> {
    (1..=bytes.len().min(4)).find_map(|n| std::str::from_utf8(&bytes[..n]).ok()?.chars().next())
}

#[test]
fn characters_are_kept_and_what_stands_between_them_is_replaced() {
    let set = [0x41, 0x80, 0x9f, 0xa0, 0xbf, 0xc0, 0xc3, 0xe0, 0xe2, 0xed, 0xf0, 0xf4, 0xff];
    for n in 0..set.len().pow(4) {
        let bytes = [n, n / 13, n / 169, n / 2197].map(|k: usize| set[k % 13]).to_vec();
        let code = |part: &[u8]| -> String { part.iter().map(|b| format!("%{b:02X}")).collect() };
        let mut expected = String::new();
        let mut at = 0;
        while at < bytes.len() {
            if let Some(c) = first_char(&bytes[at..]) {
                expected.push(c);
                at += c.len_utf8();
            } else {
                let start = at;
                while at < bytes.len() && first_char(&bytes[at..]).is_none() {
                    at += 1;
                }
                let stretch = percent_decode(&code(&bytes[start..at]));
                let count = stretch.chars().count();
                assert!(stretch.chars().all(|c| c == '\u{fffd}'));
                assert!(1 <= count && count <= at - start);
                expected.push_str(&stretch);
            }
        }
        assert_eq!(percent_decode(&code(&bytes)), expected, "{bytes:x?}");
    }
}

#[test]
fn decoding_never_lengthens_a_text() {
    for s in ["", "a+b", "%ff", "%ff%fe%80", "%C3\u{e9}%", "%E2%82x%F0%9F%98\u{1f4e7}", "%+5%zz"] {
        assert!(percent_decode(s).len() <= s.len(), "{s:?}");
        assert!(percent_unescape(s).len() <= s.len(), "{s:?}");
    }
}

#[test]
fn both_line_ends_unfold_alike() {
    for (a, b) in [("x", " y"), ("", "z"), ("a\r\n b ", "\tc\n"), ("d", "")] {
        assert_eq!(unfold(&format!("{a}\r\n{b}")), unfold(&format!("{a}\n{b}")));
    }
    assert_eq!(unfold("x\r\n y"), "x y");
    assert_eq!(unfold("x\n y"), "x y");
    for value in ["a\r\n b\r\n\r\n c\r", "\r\r\n\nx\r\n", "none"] {
        assert_eq!(unfold(&value.replace("\r\n", "\n")), unfold(value));
    }
}

#[test]
fn only_a_blank_value_unfolds_to_nothing() {
    for value in ["", " ", "\r\n\t\r\n", "\u{a0}\n\u{3000}", " x", "\r\n.\r\n"] {
        assert_eq!(unfold(value).is_empty(), value.trim().is_empty(), "{value:?}");
    }
}

#[test]
fn two_values_written_as_one_have_the_handles_of_both() {
    for (a, b) in [
        ("<a> x <b>", "<c>, <d>"),
        ("<a<b> >", "(was <c>) <d>"),
        ("https://a.example", "mailto:b@c.d http://e.example"),
        ("", "x"),
    ] {
        let mut both = angle_handles(a);
        both.extend(angle_handles(b));
        assert_eq!(angle_handles(&format!("{a}, {b}")), both);
    }
}

#[test]
fn the_handles_of_more_values_follow() {
    let a = "<mailto:no-address>, <http://a.example>".to_string();
    let b = "<mailto:a@b.c>".to_string();
    let both = from_headers(&[a.clone(), b.clone()], None, None).unwrap();
    assert_eq!(both, from_headers(&[format!("{a}{b}")], None, None).unwrap());
    assert_eq!(both.mailto.as_deref(), Some("mailto:a@b.c"));
    assert_eq!(both.web.as_deref(), Some("http://a.example"));
}

#[test]
fn a_comment_makes_no_difference() {
    let plain = "<https://l.example/u>, <mailto:a@b.c>";
    for comment in ["(x)", "(was <https://old.example>)", "(a (b) <c>)", "("] {
        assert_eq!(angle_handles(&format!("{comment} {plain}")), angle_handles(plain));
    }
}

#[test]
fn a_subject_and_a_body_come_through() {
    for (subject, body) in [("unsubscribe", "please"), ("a & b = c?", "l\u{e9}ave\r\nnow, 100%+")] {
        let uri = format!(
            "mailto:leave+tag@list.example?subject={}&body={}",
            percent_text(subject),
            percent_text(body)
        );
        let target = parse_mailto(&uri).unwrap();
        assert_eq!(target.to, "leave+tag@list.example");
        assert_eq!(target.subject, subject);
        assert_eq!(target.body, body);
    }
}

#[test]
fn the_case_of_a_scheme_and_space_around_it_make_no_difference() {
    let plain = parse_mailto("mailto:a@b.c?subject=x");
    assert!(plain.is_some());
    assert_eq!(parse_mailto("MailTo:a@b.c?subject=x"), plain);
    assert_eq!(parse_mailto("\t mailto:a@b.c?subject=x \r\n"), plain);
}

#[test]
fn a_list_has_one_key_in_any_case() {
    let key = list_id_of("The Digest <Digest.List.Example>");
    assert_eq!(key, "digest.list.example");
    assert_eq!(list_id_of("the digest <DIGEST.LIST.EXAMPLE>"), key);
    assert_eq!(list_id_of(&key), key);
}

#[test]
fn other_headers_and_the_case_of_names_change_nothing() {
    let list = ("List-Unsubscribe", " <mailto:a@b.c?subject=x,y>,\r\n\t<https://l.example/u>");
    let post = ("List-Unsubscribe-Post", " List-Unsubscribe=One-Click");
    let offers = detect(&message(&[list, post])).unwrap();
    assert_eq!(offers.mailto.as_deref(), Some("mailto:a@b.c?subject=x,y"));
    assert_eq!(offers.one_click.as_deref(), Some("https://l.example/u"));
    assert_eq!(detect(&message(&[list, post, ("Subject", " <https://x>")])), Some(offers.clone()));
    let shouted = [("LIST-UNSUBSCRIBE", list.1), ("list-unsubscribe-post", post.1)];
    assert_eq!(detect(&message(&shouted)), Some(offers));
}

#[test]
fn a_value_is_read_back_as_it_was_given() {
    let m = message(&[("X", " a <b?c=d&e> \u{20ac},\r\n  f "), ("X", "  \r\n "), ("X", "g")]);
    let values = raw_header_values(&m, "x");
    assert_eq!(values, vec!["a <b?c=d&e> \u{20ac}, f".to_string(), "g".to_string()]);
}

#[test]
fn only_a_list_with_nothing_but_a_page_needs_the_browser() {
    let one = |value: &str, post: Option<&str>| {
        from_headers(&[value.to_string()], post, None).unwrap()
    };
    let promise = Some(" LIST-unsubscribe=one-click\t");
    let page = one("<https://l.example>", None);
    assert!(!page.direct());
    assert!(page.web.is_some());
    assert_eq!(one("<https://l.example>", Some("no")), page);
    let click = one("<https://l.example>", promise);
    assert!(click.direct());
    assert_eq!(click.web, click.one_click);
    assert!(one("<mailto:a@b.c>", promise).direct());
    assert_eq!(one("<mailto:a@b.c>", promise).one_click, None);
}

#[test]
fn the_sandbox_has_no_say_in_where_the_file_goes() {
    let at = |flatpak: bool, home: &str, data: &str| {
        let host = Host {
            flatpak,
            home: Some(home.as_bytes().to_vec()),
            data: Some(data.as_bytes().to_vec()),
        };
        path(&host).unwrap()
    };
    assert_eq!(at(true, "/h", "/a"), at(true, "/h", "/b"));
    assert_eq!(at(false, "/g", "/a"), at(false, "/h", "/a"));
    assert_ne!(at(true, "/h", "/a"), at(false, "/h", "/a"));
}
