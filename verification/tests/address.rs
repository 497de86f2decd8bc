use pantosmime::address::extract_email;

#[test]
fn test_extract_email_variants() {
    let cases = [
        ("John Doe <john@example.com>", Some("john@example.com")),
        ("<jane@example.com>", Some("jane@example.com")),
        ("foo@bar.com", Some("foo@bar.com")),
        ("  <baz@example.org> ", Some("baz@example.org")),
        ("John Doe", None),
        ("John Doe john@example.com", None),
        ("", None),
        ("   ", None),
    ];

    for (input, expected) in cases {
        assert_eq!(
            extract_email(input),
            expected,
            "Failed on input: {:?}",
            input
        );
    }
}

#[test]
fn an_address_is_found_in_each_of_its_forms() {
    for e in ["a@b", "first.last+tag@sub.example.org", "\u{e4}@\u{f6}.de"] {
        assert_eq!(extract_email(e), Some(e));
        assert_eq!(extract_email(&format!("<{}>", e)), Some(e));
        assert_eq!(extract_email(&format!("Some One <{}>", e)), Some(e));
        assert_eq!(extract_email(&format!(" \t\"X\" <{}> trailing ", e)), Some(e));
    }
}

#[test]
fn the_leftmost_group_with_content_is_taken() {
    assert_eq!(extract_email("<>"), None);
    assert_eq!(extract_email("<"), None);
    assert_eq!(extract_email("<a"), None);
    assert_eq!(extract_email("a>"), None);
    assert_eq!(extract_email("x <> <a@b>"), Some("a@b"));
    assert_eq!(extract_email("<a<b>"), Some("a<b"));
    assert_eq!(extract_email("<one> <two>"), Some("one"));
    assert_eq!(extract_email("<no at sign>"), Some("no at sign"));
    assert_eq!(extract_email("<<<<<<"), None);
}

#[test]
fn a_bare_address_has_one_at_sign_between_two_sides() {
    assert_eq!(extract_email("a@b@c"), None);
    assert_eq!(extract_email("@b"), None);
    assert_eq!(extract_email("a@"), None);
    assert_eq!(extract_email("@"), None);
    assert_eq!(extract_email("a b@c"), None);
    assert_eq!(extract_email("a\u{a0}b@c"), None);
    assert_eq!(extract_email("\u{2003}a@b\u{3000}\n"), Some("a@b"));
}
