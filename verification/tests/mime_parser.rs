use pantosmime::mime_parser::{
    extract_boundary, get_content_type, get_or_generate_boundary, multipart_boundary_of,
    parse_header, parse_headers, trim_newline, MimeContainer, MimeError,
};
use std::borrow::Cow;

// A simple single-part message.
const SINGLE_EMAIL: &str = "\
Content-Type: text/plain\r\n\
From: test@example.com\r\n\
\r\n\
Hello, this is a test email body.";

// A multipart message taken from the example.
const MULTIPART_EMAIL: &str = "\
MIME-Version: 1.0\r\n\
Content-Type: multipart/mixed; boundary=frontier\r\n\
\r\n\
This is a message with multiple parts in MIME format.\r\n\
--frontier\r\n\
Content-Type: text/plain\r\n\
\r\n\
This is the body of the message.\r\n\
--frontier\r\n\
Content-Type: application/octet-stream\r\n\
Content-Transfer-Encoding: base64\r\n\
\r\n\
PGh0bWw+CiAgPGhlYWQ+CiAgPC9oZWFkPgogIDxib2R5PgogICAgPHA+VGhpcyBpcyB0aGUg\r\n\
Ym9keSBvZiB0aGUgbWVzc2FnZS48L3A+CiAgPC9ib2R5Pgo8L2h0bWw+Cg==\r\n\
--frontier--\r\n";

#[test]
fn test_parse_single_part() {
    let res = MimeContainer::parse_mime_container(SINGLE_EMAIL);
    assert!(res.is_ok(), "Parsing single part failed: {:?}", res);
    let (_remaining, container) = res.unwrap();
    // For non-multipart, parts must be empty.
    assert!(container.parts.is_empty());
    // The body is the entire message body.
    assert_eq!(
        container.body,
        Cow::Borrowed("Hello, this is a test email body.")
    );
    // Header order preserved.
    assert_eq!(container.headers.len(), 2);
    assert_eq!(container.headers[0].0, Cow::Borrowed("Content-Type"));
}

#[test]
fn test_parse_multipart() {
    let res = MimeContainer::parse_mime_container(MULTIPART_EMAIL);
    assert!(res.is_ok(), "Parsing multipart failed: {:?}", res);
    let (_remaining, container) = res.unwrap();
    // For multipart, there should be parts.
    assert!(!container.parts.is_empty());
    // The preamble is stored in the body.
    assert_eq!(
        container.body,
        Cow::Borrowed("This is a message with multiple parts in MIME format.")
    );

    let part1 = &container.parts[0];
    assert!(part1.parts.is_empty());
    assert_eq!(
        part1.body,
        Cow::Borrowed("This is the body of the message.")
    );
    let part2 = &container.parts[1];
    assert_eq!(part2.headers.len(), 2);
    assert!(part2.body.contains("PGh0bWw+CiAgPGhlYWQ+CiAgPC9oZWFkPg"));
}

#[test]
fn test_serialization_single() {
    let (_remaining, container) = MimeContainer::parse_mime_container(SINGLE_EMAIL).unwrap();
    let serialized = container.to_mime_string();
    assert!(serialized.contains("Content-Type: text/plain"));
    assert!(serialized.contains("Hello, this is a test email body."));
}

#[test]
fn test_serialization_multipart() {
    let (_remaining, container) = MimeContainer::parse_mime_container(MULTIPART_EMAIL).unwrap();
    let serialized = container.to_mime_string();
    assert!(serialized.contains("This is a message with multiple parts in MIME format."));
    assert!(serialized.contains("--frontier") || serialized.contains("BOUNDARY-"));
    assert!(serialized.contains("This is the body of the message."));
    assert!(serialized.contains("PGh0bWw+CiAgPGhlYWQ+CiAgPC9oZWFkPg"));
}

#[test]
fn test_round_trip_single() {
    let (_remaining, container) = MimeContainer::parse_mime_container(SINGLE_EMAIL).unwrap();
    let serialized = container.to_mime_string();
    let (_remaining2, container2) = MimeContainer::parse_mime_container(&serialized).unwrap();
    assert_eq!(container, container2, "Round-trip serialization failed");
}

#[test]
fn test_round_trip_multipart() {
    let (_remaining, container) = MimeContainer::parse_mime_container(MULTIPART_EMAIL).unwrap();
    let serialized = container.to_mime_string();
    let (_remaining2, container2) = MimeContainer::parse_mime_container(&serialized).unwrap();
    assert_eq!(container, container2, "Round-trip serialization failed");
}

#[test]
fn test_multipart_against_original() {
    let (_remaining, container) = MimeContainer::parse_mime_container(MULTIPART_EMAIL).unwrap();
    let serialized = container.to_mime_string();
    assert_eq!(
        serialized, MULTIPART_EMAIL,
        "Serialization does not match original"
    );
}

#[test]
fn remaining_text_is_what_follows_the_closing_boundary() {
    let (remaining, _) = MimeContainer::parse_mime_container(MULTIPART_EMAIL).unwrap();
    assert_eq!(remaining, "\r\n");
    let (remaining, _) = MimeContainer::parse_mime_container(SINGLE_EMAIL).unwrap();
    assert_eq!(remaining, "");
}

#[test]
fn folded_header_lines_are_joined_by_one_space() {
    let text = "Subject: one\r\n\t two  \r\n   three\r\nX: y\n\nbody";
    let (_, c) = MimeContainer::parse_mime_container(text).unwrap();
    assert_eq!(
        c.headers,
        vec![
            ("Subject".to_string(), "one two three".to_string()),
            ("X".to_string(), "y".to_string())
        ]
    );
    assert_eq!(c.body, "body");
}

#[test]
fn header_errors() {
    assert_eq!(
        MimeContainer::parse_mime_container("").unwrap_err(),
        MimeError::MissingSeparator
    );
    assert_eq!(
        MimeContainer::parse_mime_container("A: b\r\n").unwrap_err(),
        MimeError::MissingSeparator
    );
    assert_eq!(
        MimeContainer::parse_mime_container("A b\r\n\r\n").unwrap_err(),
        MimeError::MalformedHeader
    );
    assert_eq!(
        MimeContainer::parse_mime_container(": b\r\n\r\n").unwrap_err(),
        MimeError::MalformedHeader
    );
    assert_eq!(
        MimeContainer::parse_mime_container("A: b").unwrap_err(),
        MimeError::MalformedHeader
    );
    assert_eq!(
        MimeContainer::parse_mime_container("A: b\rc\r\n\r\n").unwrap_err(),
        MimeError::MalformedHeader
    );
}

#[test]
fn boundary_errors() {
    let head = "Content-Type: multipart/mixed; boundary=b\r\n\r\n";
    for body in [
        "no boundary here",
        "--b\r\nA: 1\r\n\r\nx\r\n--b--",
        "pre\r\n--bx\r\n",
        "pre\r\n--b\r\nA: 1\r\n\r\nx",
    ] {
        let text = format!("{}{}", head, body);
        assert_eq!(
            MimeContainer::parse_mime_container(&text).unwrap_err(),
            MimeError::BoundaryNotFound,
            "{:?}",
            body
        );
    }
    let text = format!("{}{}", head, "pre\r\n--b\r\nno header\r\n--b--");
    assert_eq!(
        MimeContainer::parse_mime_container(&text).unwrap_err(),
        MimeError::MalformedHeader
    );
}

#[test]
fn boundary_line_may_end_in_blanks_and_a_line_feed() {
    let text = "Content-Type: Multipart/Mixed; BOUNDARY=\"b b\"; x=y\n\n\r\n--b \t\nA: 1\n\nx\n\r\n--b--tail";
    let (rest, c) = MimeContainer::parse_mime_container(text).unwrap();
    assert_eq!(rest, "tail");
    assert_eq!(c.body, "");
    assert_eq!(c.parts.len(), 1);
    assert_eq!(c.parts[0].body, "x");
    assert_eq!(c.parts[0].headers, vec![("A".to_string(), "1".to_string())]);
}

#[test]
fn nested_multipart() {
    let text = "Content-Type: multipart/mixed; boundary=outer\r\n\r\n\
pre\r\n--outer\r\n\
Content-Type: multipart/alternative; boundary='inner'\r\n\r\n\
in\r\n--inner\r\nA: 1\r\n\r\none\r\n--inner--\r\n\r\n--outer--\r\n";
    let (_, c) = MimeContainer::parse_mime_container(text).unwrap();
    assert_eq!(c.parts.len(), 1);
    assert_eq!(c.parts[0].body, "in");
    assert_eq!(c.parts[0].parts.len(), 1);
    assert_eq!(c.parts[0].parts[0].body, "one");
    assert_eq!(c.to_mime_string(), text);
}

#[test]
fn find_header_value_ignores_case_and_takes_the_first() {
    let c = MimeContainer {
        headers: vec![
            ("X-A".to_string(), "1".to_string()),
            ("content-TYPE".to_string(), "text/plain".to_string()),
            ("Content-Type".to_string(), "text/html".to_string()),
        ],
        body: String::new(),
        parts: Vec::new(),
    };
    assert_eq!(c.find_header_value("Content-Type"), Some("text/plain".to_string()));
    assert_eq!(c.find_header_value("x-a"), Some("1".to_string()));
    assert_eq!(c.find_header_value("X-B"), None);
}

#[test]
fn parts_without_a_declared_boundary_get_a_fresh_one() {
    let part = MimeContainer {
        headers: vec![("A".to_string(), "1".to_string())],
        body: "x".to_string(),
        parts: Vec::new(),
    };
    let c = MimeContainer {
        headers: vec![("Content-Type".to_string(), "multipart/mixed".to_string())],
        body: "pre".to_string(),
        parts: vec![part],
    };
    let text = c.to_mime_string();
    let head = "Content-Type: multipart/mixed\r\n\r\npre\r\n--";
    assert!(text.starts_with(head));
    let boundary = &text[head.len()..head.len() + 36];
    assert!(boundary
        .chars()
        .enumerate()
        .all(|(i, ch)| if [8, 13, 18, 23].contains(&i) {
            ch == '-'
        } else {
            ch.is_ascii_hexdigit() && !ch.is_ascii_uppercase()
        }));
    assert_eq!(
        text,
        format!("{}{}\r\nA: 1\r\n\r\nx\r\n--{}--\r\n", head, boundary, boundary)
    );
    assert_ne!(c.to_mime_string(), text);
}

fn chars(s: &str) -> Vec<char> {
    s.chars().collect()
}

fn headers(list: &[(&str, &str)]) -> Vec<(String, String)> {
    list.iter()
        .map(|(a, b)| (a.to_string(), b.to_string()))
        .collect()
}

#[test]
fn the_boundary_is_what_follows_the_key() {
    let cases = [
        ("multipart/mixed; boundary=frontier", Some("frontier")),
        ("multipart/mixed; BOUNDARY=\"a b\"; x", Some("a")),
        ("multipart/mixed; Boundary = x", None),
        ("multipart/mixed; boundary=  'x'  ", Some("x")),
        ("multipart/mixed; boundary=\"x\";charset=y", Some("x")),
        ("multipart/mixed; boundary=x;y", Some("x")),
        ("multipart/mixed; boundary=x\ty", Some("x")),
        ("multipart/mixed; boundary=x\u{a0}y", Some("x")),
        ("boundary=", Some("")),
        ("boundary=\"\"", Some("")),
        ("boundary=a boundary=b", Some("a")),
        ("text/plain", None),
        ("multipart/mixed; boundary", None),
        ("", None),
    ];
    for (value, expected) in cases {
        assert_eq!(
            extract_boundary(value),
            expected.map(|e| e.to_string()),
            "{:?}",
            value
        );
    }
}

#[test]
fn the_first_content_type_decides() {
    let hs = headers(&[
        ("X", "multipart/mixed; boundary=no"),
        ("content-type", "Multipart/Mixed; boundary=one"),
        ("Content-Type", "multipart/mixed; boundary=two"),
    ]);
    assert_eq!(
        get_content_type(&hs),
        Some("Multipart/Mixed; boundary=one".to_string())
    );
    assert_eq!(multipart_boundary_of(&hs), Some(chars("one")));
    assert_eq!(get_or_generate_boundary(&hs), "one");
    let hs = headers(&[("Content-Type", "text/plain; boundary=one")]);
    assert_eq!(multipart_boundary_of(&hs), None);
    assert_eq!(get_or_generate_boundary(&hs), "one");
    let hs = headers(&[("Content-Type", "multipart/mixed")]);
    assert_eq!(multipart_boundary_of(&hs), None);
    assert_eq!(get_or_generate_boundary(&hs).len(), 36);
    assert_eq!(get_content_type(&Vec::new()), None);
    assert_eq!(get_or_generate_boundary(&Vec::new()).len(), 36);
}

#[test]
fn one_line_terminator_is_taken_off() {
    for (text, expected) in [
        ("abc\r\n", "abc"),
        ("abc\n", "abc"),
        ("abc\r\n\r\n", "abc\r\n"),
        ("abc\n\n", "abc\n"),
        ("abc\r", "abc\r"),
        ("abc", "abc"),
        ("\n", ""),
        ("\r\n", ""),
        ("", ""),
    ] {
        assert_eq!(trim_newline(&chars(text)), &chars(expected)[..], "{:?}", text);
    }
}

#[test]
fn a_header_is_a_name_a_colon_and_a_value() {
    let text = chars("skip:Name_1-x:\t  some value \r\n\tmore\n \n\r\nrest");
    assert_eq!(
        parse_header(&text, 5),
        Some(("Name_1-x".to_string(), "some value more ".to_string(), text.len() - 6))
    );
    assert_eq!(
        parse_headers(&text, 5),
        Ok((headers(&[("Name_1-x", "some value more ")]), text.len() - 4))
    );
    assert_eq!(parse_header(&chars("a b: c\n"), 0), None);
    assert_eq!(parse_header(&chars("\u{e4}: c\n"), 0), None);
    assert_eq!(
        parse_header(&chars("a:\n"), 0),
        Some(("a".to_string(), String::new(), 3))
    );
    assert_eq!(
        parse_header(&chars("a:b\n c"), 0),
        Some(("a".to_string(), "b".to_string(), 4))
    );
    assert_eq!(parse_headers(&chars("\nbody"), 0), Ok((Vec::new(), 1)));
    assert_eq!(
        parse_headers(&chars("a:b\n c"), 0),
        Err(MimeError::MalformedHeader)
    );
}

#[test]
fn a_value_folded_onto_an_empty_line_is_written_with_its_space() {
    let (_, first) = MimeContainer::parse_mime_container("X:\r\n folded\r\n\r\nbody").unwrap();
    assert_eq!(first.headers, headers(&[("X", " folded")]));
    let written = first.to_mime_string();
    assert_eq!(written, "X:  folded\r\n\r\nbody");
    let (_, second) = MimeContainer::parse_mime_container(&written).unwrap();
    assert_eq!(second.headers, headers(&[("X", "folded")]));
    assert_eq!(second.to_mime_string(), "X: folded\r\n\r\nbody");
    let (_, third) = MimeContainer::parse_mime_container(&second.to_mime_string()).unwrap();
    assert_eq!(second, third);
}

#[test]
fn a_part_without_a_body_is_not_read_back() {
    let text = "Content-Type: multipart/mixed; boundary=b\r\n\r\n\r\n--b\r\nA: 1\r\n\r\n\r\n\r\n--b--";
    let (_, c) = MimeContainer::parse_mime_container(text).unwrap();
    assert_eq!(c.parts.len(), 1);
    assert_eq!(c.parts[0].body, "");
    assert_eq!(
        MimeContainer::parse_mime_container(&c.to_mime_string()),
        Err(MimeError::MissingSeparator)
    );
}
