use openssl::asn1::Asn1Time;
use openssl::bn::{BigNum, MsbOption};
use openssl::cms::CmsContentInfo;
use openssl::hash::MessageDigest;
use openssl::pkcs7::{Pkcs7, Pkcs7Flags};
use openssl::pkey::{PKey, Private};
use openssl::rsa::Rsa;
use openssl::stack::Stack;
use openssl::x509::extension::SubjectAlternativeName;
use openssl::x509::{X509NameBuilder, X509};
use base64::prelude::BASE64_STANDARD;
use base64::Engine;
use pantosmime::milter_callbacks::{
    after_effect, choose_action, Effect, encode_body, encrypt_message, find_signature, is_envelope_header, new_headers,
    on_body, on_eoh, on_eom, on_header, on_mail, on_negotiate, on_rcpt, replacement_for,
    try_get_queue_id,
    update_headers, EomPlan, HeaderChange, MacroStage, MilterAction, MilterContext, Replacement,
    Signature, Status, ENCRYPTED_NOTE, EXTRACTED_NOTE, NOTE_HEADER, NO_QUEUE_ID, QUEUE_ID_MACRO,
    WRAP_WIDTH,
};
use pantosmime::mime_parser::MimeContainer;
use pantosmime::smime::{load_pem_stack, SmimeError};

fn certificate_for(email: &str) -> (X509, PKey<Private>) {
    let key = PKey::from_rsa(Rsa::generate(2048).unwrap()).unwrap();
    let mut name = X509NameBuilder::new().unwrap();
    name.append_entry_by_text("CN", "Someone").unwrap();
    let name = name.build();
    let mut builder = X509::builder().unwrap();
    builder.set_version(2).unwrap();
    let mut serial = BigNum::new().unwrap();
    serial.rand(64, MsbOption::MAYBE_ZERO, false).unwrap();
    builder
        .set_serial_number(&serial.to_asn1_integer().unwrap())
        .unwrap();
    builder.set_subject_name(&name).unwrap();
    builder.set_issuer_name(&name).unwrap();
    builder.set_pubkey(&key).unwrap();
    builder
        .set_not_before(&Asn1Time::days_from_now(0).unwrap())
        .unwrap();
    builder
        .set_not_after(&Asn1Time::days_from_now(30).unwrap())
        .unwrap();
    let ext = SubjectAlternativeName::new()
        .email(email)
        .build(&builder.x509v3_context(None, None))
        .unwrap();
    builder.append_extension(ext).unwrap();
    builder.sign(&key, MessageDigest::sha256()).unwrap();
    (builder.build(), key)
}

fn strings(list: &[&str]) -> Vec<String> {
    list.iter().map(|s| s.to_string()).collect()
}

fn session(sender: &str, recipients: &[&str]) -> Option<MilterContext> {
    let mut context = None;
    assert_eq!(on_mail(&mut context, &strings(&[sender])), Status::Continue);
    for r in recipients {
        assert_eq!(on_rcpt(&mut context, &strings(&[r])), Status::Continue);
    }
    context
}

fn pairs(list: &[(&str, &str)]) -> Vec<(String, String)> {
    list.iter()
        .map(|(a, b)| (a.to_string(), b.to_string()))
        .collect()
}

#[test]
fn negotiation_asks_for_three_capabilities_and_the_queue_identifier() {
    let (asked, status) = on_negotiate();
    assert_eq!(status, Status::Continue);
    assert!(asked.add_header && asked.change_header && asked.replace_body);
    assert_eq!(
        asked.queue_id_stages,
        vec![
            MacroStage::Mail,
            MacroStage::Rcpt,
            MacroStage::Eoh,
            MacroStage::Data,
            MacroStage::Eom
        ]
    );
    assert_eq!(QUEUE_ID_MACRO, "i");
}

#[test]
fn a_session_begins_with_the_sender() {
    let mut context = None;
    assert_eq!(
        on_mail(&mut context, &strings(&["Alice <alice@x>", "SIZE=100"])),
        Status::Continue
    );
    let ctx = context.as_ref().unwrap();
    assert_eq!(ctx.sender(), "alice@x");
    assert_eq!(ctx.action(), None);
    assert!(ctx.recipients().is_empty());
    assert!(ctx.headers().is_empty());
    assert!(ctx.body().is_empty());
    assert_eq!(ctx.queue_id(), None);
}

#[test]
fn a_sender_without_an_address_is_refused() {
    let mut context = None;
    assert_eq!(on_mail(&mut context, &strings(&["Alice"])), Status::Reject);
    assert!(context.is_none());
    assert_eq!(on_mail(&mut context, &Vec::new()), Status::Reject);
    assert!(context.is_none());
    let mut context = session("alice@x", &["bob@y"]);
    assert_eq!(on_mail(&mut context, &strings(&["<>"])), Status::Reject);
    assert_eq!(context.as_ref().unwrap().sender(), "alice@x");
    assert_eq!(context.as_ref().unwrap().recipients(), &strings(&["bob@y"]));
}

#[test]
fn a_new_sender_begins_a_new_session() {
    let mut context = session("alice@x", &["bob@y"]);
    let none: Vec<String> = Vec::new();
    on_header(&mut context, "Content-Type", "text/plain", &strings(&["alice@x"]));
    assert_eq!(on_body(&mut context, b"text"), Status::Continue);
    assert_eq!(on_mail(&mut context, &strings(&["carol@z"])), Status::Continue);
    let ctx = context.as_ref().unwrap();
    assert_eq!(ctx.sender(), "carol@z");
    assert_eq!(ctx.action(), None);
    assert_eq!(ctx.recipients(), &none);
    assert!(ctx.headers().is_empty());
    assert!(ctx.body().is_empty());
}

#[test]
fn recipients_are_kept_in_order_with_duplicates() {
    let mut context = session("alice@x", &[]);
    assert_eq!(on_rcpt(&mut context, &strings(&["<bob@y>"])), Status::Continue);
    assert_eq!(on_rcpt(&mut context, &strings(&["carol@z"])), Status::Continue);
    assert_eq!(on_rcpt(&mut context, &strings(&["Bob <bob@y>"])), Status::Continue);
    assert_eq!(on_rcpt(&mut context, &strings(&["no address"])), Status::Reject);
    assert_eq!(on_rcpt(&mut context, &Vec::new()), Status::Reject);
    assert_eq!(
        context.as_ref().unwrap().recipients(),
        &strings(&["bob@y", "carol@z", "bob@y"])
    );
    let mut none = None;
    assert_eq!(on_rcpt(&mut none, &strings(&["bob@y"])), Status::Reject);
    assert!(none.is_none());
}

#[test]
fn the_sender_takes_precedence_over_the_recipients() {
    let r = strings(&["bob@y"]);
    assert_eq!(
        choose_action(&strings(&["ALICE@X"]), "alice@x", &r),
        Some(MilterAction::Encrypt)
    );
    assert_eq!(
        choose_action(&strings(&["Bob@y"]), "alice@x", &r),
        Some(MilterAction::ExtractKeys)
    );
    assert_eq!(choose_action(&strings(&["carol@z"]), "alice@x", &r), None);
    assert_eq!(choose_action(&Vec::new(), "alice@x", &r), None);
    assert_eq!(
        choose_action(&strings(&["carol@z", "bob@y", "alice@x"]), "alice@x", &r),
        Some(MilterAction::Encrypt)
    );
    assert_eq!(
        choose_action(&strings(&["bob@y", "alice@x"]), "alice@x", &r),
        Some(MilterAction::Encrypt)
    );
    assert_eq!(
        choose_action(&strings(&["carol@z", "bob@y"]), "alice@x", &r),
        Some(MilterAction::ExtractKeys)
    );
    assert_eq!(
        choose_action(&strings(&["carol@z", "BOB@Y"]), "alice@x", &strings(&["dave@w", "bob@y"])),
        Some(MilterAction::ExtractKeys)
    );
    assert_eq!(
        choose_action(&strings(&["carol@z", "alice@x", "bob@y"]), "alice@x", &r),
        Some(MilterAction::Encrypt)
    );
    assert_eq!(
        choose_action(&strings(&["alice@x"]), "alice@x", &strings(&["alice@x"])),
        Some(MilterAction::Encrypt)
    );
    assert_eq!(
        choose_action(&strings(&["alice@x"]), "alice@x", &Vec::new()),
        Some(MilterAction::Encrypt)
    );
}

#[test]
fn a_message_of_ours_to_one_of_ours_is_encrypted() {
    let mut context = session("alice@x", &["bob@y"]);
    assert_eq!(
        on_header(&mut context, "Subject", "hi", &strings(&["bob@y", "alice@x"])),
        Status::Continue
    );
    let ctx = context.as_ref().unwrap();
    assert_eq!(ctx.action(), Some(MilterAction::Encrypt));
    assert!(ctx.headers().is_empty());
}

#[test]
fn the_action_is_decided_at_the_first_header_and_stays() {
    let mut context = session("alice@x", &["bob@y"]);
    assert_eq!(
        on_header(&mut context, "Subject", "x", &strings(&["bob@y"])),
        Status::Continue
    );
    assert_eq!(context.as_ref().unwrap().action(), Some(MilterAction::ExtractKeys));
    assert_eq!(
        on_header(&mut context, "Subject", "x", &strings(&["alice@x"])),
        Status::Continue
    );
    assert_eq!(context.as_ref().unwrap().action(), Some(MilterAction::ExtractKeys));
    assert_eq!(
        on_header(&mut context, "Subject", "x", &Vec::new()),
        Status::Continue
    );
    assert_eq!(context.as_ref().unwrap().action(), Some(MilterAction::ExtractKeys));
}

#[test]
fn a_message_that_is_not_ours_is_accepted_as_it_is() {
    let mut context = session("alice@x", &["bob@y"]);
    assert_eq!(
        on_header(&mut context, "Content-Type", "text/plain", &strings(&["carol@z"])),
        Status::Accept
    );
    let ctx = context.as_ref().unwrap();
    assert_eq!(ctx.action(), None);
    assert!(ctx.headers().is_empty());
    assert_eq!(on_eom(&context), EomPlan::Reject);
    let mut none = None;
    assert_eq!(
        on_header(&mut none, "Content-Type", "text/plain", &strings(&["alice@x"])),
        Status::Reject
    );
}

#[test]
fn only_the_four_content_headers_are_kept() {
    let ours = strings(&["alice@x"]);
    let mut context = session("alice@x", &["bob@y"]);
    let events = [
        ("Received", "from somewhere"),
        ("content-type", "text/plain"),
        ("Subject", "MIME-Version"),
        ("MIME-VERSION", "1.0"),
        ("Content-Type", "text/html"),
        ("Content-Types", "x"),
        ("Content-Disposition", "inline"),
        ("X-Content-Type", "x"),
        ("Content-Transfer-Encoding", "8bit"),
        ("", ""),
    ];
    for (name, value) in events {
        assert_eq!(on_header(&mut context, name, value, &ours), Status::Continue);
    }
    assert_eq!(
        context.as_ref().unwrap().headers(),
        &pairs(&[
            ("content-type", "text/plain"),
            ("MIME-VERSION", "1.0"),
            ("Content-Type", "text/html"),
            ("Content-Disposition", "inline"),
            ("Content-Transfer-Encoding", "8bit"),
        ])
    );
    assert!(is_envelope_header("mime-version"));
    assert!(!is_envelope_header("mime version"));
}

#[test]
fn the_headers_must_hold_a_content_header() {
    let ours = strings(&["alice@x"]);
    assert_eq!(on_eoh(&None), Status::Reject);
    let mut context = session("alice@x", &["bob@y"]);
    assert_eq!(on_eoh(&context), Status::Reject);
    on_header(&mut context, "Subject", "x", &ours);
    assert_eq!(on_eoh(&context), Status::Reject);
    on_header(&mut context, "Mime-Version", "1.0", &ours);
    assert_eq!(on_eoh(&context), Status::Continue);
}

#[test]
fn the_body_grows_piece_by_piece() {
    let mut context = session("alice@x", &["bob@y"]);
    assert_eq!(on_body(&mut context, b"one "), Status::Continue);
    assert_eq!(on_body(&mut context, b""), Status::Continue);
    assert_eq!(on_body(&mut context, b"two"), Status::Continue);
    assert_eq!(context.as_ref().unwrap().body(), b"one two");
    let mut none = None;
    assert_eq!(on_body(&mut none, b"x"), Status::Reject);
    assert!(none.is_none());
}

#[test]
fn the_first_queue_identifier_is_kept() {
    let mut none = None;
    assert_eq!(try_get_queue_id(Some("4F1A"), &mut none), NO_QUEUE_ID);
    assert_eq!(NO_QUEUE_ID, "<none>");
    assert!(none.is_none());
    let mut context = session("alice@x", &[]);
    assert_eq!(try_get_queue_id(None, &mut context), "<none>");
    assert_eq!(context.as_ref().unwrap().queue_id(), None);
    assert_eq!(try_get_queue_id(Some("4F1A"), &mut context), "4F1A");
    assert_eq!(try_get_queue_id(Some("other"), &mut context), "4F1A");
    assert_eq!(try_get_queue_id(None, &mut context), "4F1A");
    assert_eq!(context.as_ref().unwrap().queue_id(), Some("4F1A"));
    assert_eq!(context.as_ref().unwrap().sender(), "alice@x");
}

#[test]
fn headers_are_changed_where_they_differ_and_added_where_they_lack() {
    let ours = strings(&["alice@x"]);
    let mut context = session("alice@x", &["bob@y"]);
    on_header(&mut context, "content-TYPE", "text/plain", &ours);
    on_header(&mut context, "Content-Type", "text/html", &ours);
    on_header(&mut context, "Content-Transfer-Encoding", "base64", &ours);
    let ctx = context.as_ref().unwrap();
    assert_eq!(
        update_headers(ctx, &new_headers()),
        vec![
            HeaderChange::Add { name: "MIME-Version".to_string(), value: "1.0".to_string() },
            HeaderChange::Change {
                name: "content-TYPE".to_string(),
                index: 1,
                value: "application/pkcs7-mime; name=smime.p7m; smime-type=enveloped-data"
                    .to_string()
            },
            HeaderChange::Add {
                name: "Content-Disposition".to_string(),
                value: "attachment; filename=smime.p7m".to_string()
            },
        ]
    );
    assert_eq!(update_headers(ctx, &Vec::new()), Vec::new());
    assert_eq!(
        update_headers(ctx, &pairs(&[("content-type", "text/html"), ("Content-Type", "text/plain")])),
        vec![HeaderChange::Change {
            name: "content-TYPE".to_string(),
            index: 1,
            value: "text/html".to_string()
        }]
    );
    assert_eq!(
        new_headers(),
        pairs(&[
            ("MIME-Version", "1.0"),
            (
                "Content-Type",
                "application/pkcs7-mime; name=smime.p7m; smime-type=enveloped-data"
            ),
            ("Content-Transfer-Encoding", "base64"),
            ("Content-Disposition", "attachment; filename=smime.p7m"),
        ])
    );
}

#[test]
fn the_encoded_body_is_base64_in_lines_of_76() {
    assert_eq!(WRAP_WIDTH, 76);
    assert_eq!(&encode_body(b"hi").unwrap()[..], b"aGk=");
    assert_eq!(&encode_body(b"h").unwrap()[..], b"aA==");
    assert_eq!(&encode_body(b"hi!").unwrap()[..], b"aGkh");
    assert_eq!(&encode_body(&[0xfb, 0xff]).unwrap()[..], b"+/8=");
    assert_eq!(&encode_body(b"").unwrap()[..], b"");
    let data: Vec<u8> = (0..200u8).collect();
    let body = encode_body(&data).unwrap();
    let text = BASE64_STANDARD.encode(&data).into_bytes();
    assert_eq!(text.len(), 268);
    assert_eq!(body.len(), 268 + 3 * 2);
    let mut expected: Vec<u8> = Vec::new();
    for (i, line) in text.chunks(76).enumerate() {
        if i > 0 {
            expected.extend_from_slice(b"\r\n");
        }
        expected.extend_from_slice(line);
    }
    assert_eq!(&body[..], &expected[..]);
    let full = encode_body(&[0u8; 57 * 2]).unwrap();
    assert_eq!(full.len(), 76 * 2 + 2);
    assert!(!full.ends_with(b"\n"));
}

#[test]
fn the_replacement_follows_from_what_encryption_gave() {
    let ours = strings(&["alice@x"]);
    let mut context = session("alice@x", &["bob@y"]);
    on_header(&mut context, "MIME-Version", "1.0", &ours);
    on_header(&mut context, "Content-Type", "text/plain", &ours);
    let ctx = context.as_ref().unwrap();
    assert_eq!(
        replacement_for(ctx, Err(SmimeError::Crypto)),
        Replacement::Reject
    );
    assert_eq!(
        replacement_for(ctx, Err(SmimeError::NoMatchingCertificate)),
        Replacement::Reject
    );
    let data: Vec<u8> = (0..100u8).collect();
    match replacement_for(ctx, Ok(data.clone())) {
        Replacement::Replace { changes, body } => {
            assert_eq!(changes, update_headers(ctx, &new_headers()));
            assert_eq!(changes.len(), 3);
            assert_eq!(body, encode_body(&data).unwrap());
            assert_eq!(body.len(), 136 + 2);
        }
        Replacement::Reject => panic!("refused"),
    }
    match replacement_for(ctx, Ok(Vec::new())) {
        Replacement::Replace { body, .. } => assert!(body.is_empty()),
        Replacement::Reject => panic!("refused"),
    }
}

#[test]
fn an_outbound_message_is_encrypted() {
    let ours = strings(&["alice@x"]);
    let mut context = session("alice@x", &["bob@y"]);
    assert_eq!(
        on_header(&mut context, "Content-Type", "text/plain", &ours),
        Status::Continue
    );
    assert_eq!(on_eoh(&context), Status::Continue);
    assert_eq!(on_body(&mut context, b"hi"), Status::Continue);
    assert_eq!(context.as_ref().unwrap().action(), Some(MilterAction::Encrypt));
    assert_eq!(
        on_eom(&context),
        EomPlan::LoadCertificates { files: strings(&["bob@y.pem"]) }
    );
    let (bob, bob_key) = certificate_for("bob@y");
    let files = vec![bob.to_pem().unwrap()];
    let ctx = context.as_ref().unwrap();
    let (changes, body) = match encrypt_message(ctx, &files) {
        Replacement::Replace { changes, body } => (changes, body),
        Replacement::Reject => panic!("refused"),
    };
    assert_eq!(changes, update_headers(ctx, &new_headers()));
    assert_eq!(changes.len(), 4);
    assert_eq!(
        changes[1],
        HeaderChange::Change {
            name: "Content-Type".to_string(),
            index: 1,
            value: "application/pkcs7-mime; name=smime.p7m; smime-type=enveloped-data".to_string()
        }
    );
    let text = String::from_utf8(body.to_vec()).unwrap();
    let lines: Vec<&str> = text.split("\r\n").collect();
    assert!(lines.len() > 1);
    for line in &lines[..lines.len() - 1] {
        assert_eq!(line.len(), 76);
    }
    assert!(!lines[lines.len() - 1].is_empty() && lines[lines.len() - 1].len() <= 76);
    let der = BASE64_STANDARD.decode(lines.concat().as_bytes()).unwrap();
    let cms = CmsContentInfo::from_der(&der).unwrap();
    assert_eq!(cms.decrypt(&bob_key, &bob).unwrap(), b"hi");
    assert_eq!(NOTE_HEADER, "X-PANTOSMIME");
    assert_eq!(ENCRYPTED_NOTE, "Successfully encrypted plain-text message. Yay!");
}

#[test]
fn encryption_is_refused_without_the_certificates() {
    let ours = strings(&["alice@x"]);
    let mut context = session("alice@x", &["bob@y"]);
    on_header(&mut context, "Content-Type", "text/plain", &ours);
    on_body(&mut context, b"hi");
    let (carol, _) = certificate_for("carol@z");
    let ctx = context.as_ref().unwrap();
    assert!(matches!(encrypt_message(ctx, &Vec::new()), Replacement::Reject));
    assert!(matches!(
        encrypt_message(ctx, &vec![carol.to_pem().unwrap()]),
        Replacement::Reject
    ));
    assert!(matches!(encrypt_message(ctx, &vec![Vec::new()]), Replacement::Reject));
    let (bob, _) = certificate_for("bob@y");
    let undecided = session("alice@x", &["bob@y"]);
    assert!(matches!(
        encrypt_message(undecided.as_ref().unwrap(), &vec![bob.to_pem().unwrap()]),
        Replacement::Reject
    ));
    let mut inbound = session("bob@y", &["alice@x"]);
    on_header(&mut inbound, "Content-Type", "text/plain", &ours);
    assert!(matches!(
        encrypt_message(inbound.as_ref().unwrap(), &vec![bob.to_pem().unwrap()]),
        Replacement::Reject
    ));
}

fn signed_body(signature: &[u8]) -> Vec<u8> {
    let mut encoded = String::new();
    for line in BASE64_STANDARD.encode(signature).into_bytes().chunks(64) {
        encoded.push_str(std::str::from_utf8(line).unwrap());
        encoded.push_str("\r\n");
    }
    format!(
        "This is a signed message.\r\n--sig\r\nContent-Type: text/plain\r\n\r\nHello\r\n\
--sig\r\nContent-Type: Application/PKCS7-Signature; name=smime.p7s\r\n\
Content-Transfer-Encoding: base64\r\n\r\n{}\r\n--sig--\r\n",
        encoded
    )
    .into_bytes()
}

fn inbound(body: &[u8], content_type: &str) -> Option<MilterContext> {
    let ours = strings(&["bob@y"]);
    let mut context = session("alice@x", &["bob@y"]);
    assert_eq!(
        on_header(&mut context, "Content-Type", content_type, &ours),
        Status::Continue
    );
    assert_eq!(on_eoh(&context), Status::Continue);
    for piece in body.chunks(100) {
        assert_eq!(on_body(&mut context, piece), Status::Continue);
    }
    assert_eq!(context.as_ref().unwrap().action(), Some(MilterAction::ExtractKeys));
    context
}

#[test]
fn the_certificates_of_a_signed_message_are_kept() {
    let (alice, key) = certificate_for("alice@x");
    let signature = Pkcs7::sign(&alice, &key, &Stack::new().unwrap(), b"Hello", Pkcs7Flags::DETACHED)
        .unwrap();
    let context = inbound(
        &signed_body(&signature.to_der().unwrap()),
        "multipart/signed; protocol=\"application/pkcs7-signature\"; boundary=\"sig\"",
    );
    match on_eom(&context) {
        EomPlan::StoreChain { file, pem } => {
            assert_eq!(file, "alice@x.pem");
            assert_eq!(pem, alice.to_pem().unwrap());
            let chain = load_pem_stack(&pem).unwrap();
            assert_eq!(chain.len(), 1);
            assert_eq!(chain[0].san_emails, strings(&["alice@x"]));
        }
        other => panic!("{:?}", other),
    }
    assert_eq!(
        EXTRACTED_NOTE,
        "Successfully extracted signature and certificate chain. Yay!"
    );
}

#[test]
fn a_body_that_is_no_utf8_is_read_with_replacement_characters() {
    let (alice, key) = certificate_for("alice@x");
    let signature =
        Pkcs7::sign(&alice, &key, &Stack::new().unwrap(), b"Hello", Pkcs7Flags::DETACHED).unwrap();
    let mut body = vec![0xffu8, b'\r', b'\n', 0xc3];
    body.extend_from_slice(&signed_body(&signature.to_der().unwrap()));
    let context = inbound(&body, "multipart/signed; boundary=sig");
    assert!(matches!(on_eom(&context), EomPlan::StoreChain { .. }));
    let mut body = signed_body(&signature.to_der().unwrap());
    let at = body.len() - 12;
    body[at] = 0xff;
    let context = inbound(&body, "multipart/signed; boundary=sig");
    assert_eq!(on_eom(&context), EomPlan::Reject);
}

#[test]
fn a_signature_of_someone_else_is_refused() {
    let (carol, key) = certificate_for("carol@z");
    let signature = Pkcs7::sign(&carol, &key, &Stack::new().unwrap(), b"Hello", Pkcs7Flags::DETACHED)
        .unwrap();
    let context = inbound(
        &signed_body(&signature.to_der().unwrap()),
        "multipart/signed; boundary=sig",
    );
    assert_eq!(on_eom(&context), EomPlan::Reject);
}

#[test]
fn a_message_that_is_not_signed_is_taken_as_it_is() {
    let context = inbound(b"just text", "text/plain");
    assert_eq!(on_eom(&context), EomPlan::Accept);
    let context = inbound(
        b"pre\r\n--sig\r\nContent-Type: application/pkcs7-signature\r\n\r\nAAAA\r\n--sig--",
        "multipart/mixed; boundary=sig",
    );
    assert_eq!(on_eom(&context), EomPlan::Accept);
}

#[test]
fn a_signed_message_without_a_good_signature_is_refused() {
    let signed = "Multipart/Signed; boundary=sig";
    let context = inbound(b"no boundary", signed);
    assert_eq!(on_eom(&context), EomPlan::Reject);
    let context = inbound(
        b"pre\r\n--sig\r\nContent-Type: text/plain\r\n\r\nx\r\n--sig--",
        signed,
    );
    assert_eq!(on_eom(&context), EomPlan::Reject);
    let context = inbound(
        b"pre\r\n--sig\r\nContent-Type: application/x-pkcs7-signature\r\n\r\n!!!!\r\n--sig--",
        signed,
    );
    assert_eq!(on_eom(&context), EomPlan::Reject);
    let context = inbound(
        b"pre\r\n--sig\r\nContent-Type: application/x-pkcs7-signature\r\n\r\nAAAA\r\n--sig--",
        signed,
    );
    assert_eq!(on_eom(&context), EomPlan::Reject);
    assert_eq!(on_eom(&None), EomPlan::Reject);
    assert_eq!(on_eom(&session("alice@x", &["bob@y"])), EomPlan::Reject);
}

#[test]
fn the_signature_is_the_text_of_the_first_signature_part() {
    let text = "Content-Type: multipart/SIGNED; boundary=b\r\n\r\n\
\r\n--b\r\nContent-Type: text/plain\r\n\r\nAAAA\r\n\
--b\r\nContent-Type: application/x-pkcs7-signature\r\n\r\n QUJD\r\n\tREVG \x0c\r\n\r\n\
--b\r\nContent-Type: application/pkcs7-signature\r\n\r\nZZZZ\r\n--b--";
    let (_, container) = MimeContainer::parse_mime_container(text).unwrap();
    match find_signature(&container) {
        Signature::Text(text) => assert_eq!(text, b"QUJDREVG"),
        _ => panic!("no text"),
    }
    let text = text.replace("multipart/SIGNED", "multipart/mixed");
    let (_, container) = MimeContainer::parse_mime_container(&text).unwrap();
    assert!(matches!(find_signature(&container), Signature::NotSigned));
    let text = text
        .replace("multipart/mixed", "multipart/signed")
        .replace("pkcs7-signature", "pkcs7-mime");
    let (_, container) = MimeContainer::parse_mime_container(&text).unwrap();
    assert!(matches!(find_signature(&container), Signature::Missing));
    let text = text.replace("pkcs7-mime", "pkcs7-signature").replace("QUJD", "QU\u{e4}D");
    let (_, container) = MimeContainer::parse_mime_container(&text).unwrap();
    assert!(matches!(find_signature(&container), Signature::Unreadable));
    let text = text.replace("QU\u{e4}D", "QU\x0bD");
    let (_, container) = MimeContainer::parse_mime_container(&text).unwrap();
    match find_signature(&container) {
        Signature::Text(text) => assert_eq!(text, b"QU\x0bDREVG"),
        _ => panic!("no text"),
    }
}

#[test]
fn a_failed_piece_of_work_refuses_the_message_unless_it_is_the_note() {
    for what in [
        Effect::LoadCertificates,
        Effect::HeaderChange,
        Effect::Body,
        Effect::StoreChain,
    ] {
        assert_eq!(after_effect(what, true), None);
        assert_eq!(after_effect(what, false), Some(Status::Reject));
    }
    assert_eq!(after_effect(Effect::Note, true), Some(Status::Accept));
    assert_eq!(after_effect(Effect::Note, false), Some(Status::Accept));
}
