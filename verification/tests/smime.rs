use openssl::asn1::Asn1Time;
use openssl::bn::{BigNum, MsbOption};
use openssl::cms::CmsContentInfo;
use openssl::hash::MessageDigest;
use openssl::pkcs7::{Pkcs7, Pkcs7Flags};
use openssl::pkey::{PKey, Private};
use openssl::rsa::Rsa;
use openssl::stack::Stack;
use openssl::symm::Cipher;
use openssl::x509::extension::SubjectAlternativeName;
use openssl::x509::{X509NameBuilder, X509};
use pantosmime::smime::{
    certificate_matches, encrypt_data, envelope, extract_certificates_from_p7s,
    find_cert_for_email, is_marked_encrypted, load_pem_stack, pem_file_name,
    recipient_stack_for, write_pem_stack,
    Certificate, ContentCipher, ContentForm, NameKind, SmimeError, SubjectEntry, CONTENT_CIPHER,
    CONTENT_FORM,
};

fn make_cert(cn: Option<&str>, email: Option<&str>, san: Option<&str>) -> (X509, PKey<Private>) {
    let key = PKey::from_rsa(Rsa::generate(2048).unwrap()).unwrap();
    let mut name = X509NameBuilder::new().unwrap();
    name.append_entry_by_text("O", "Example").unwrap();
    if let Some(cn) = cn {
        name.append_entry_by_text("CN", cn).unwrap();
    }
    if let Some(email) = email {
        name.append_entry_by_text("emailAddress", email).unwrap();
    }
    let name = name.build();
    let mut builder = X509::builder().unwrap();
    builder.set_version(2).unwrap();
    let mut serial = BigNum::new().unwrap();
    serial.rand(64, MsbOption::MAYBE_ZERO, false).unwrap();
    builder
        .set_serial_number(&serial.to_asn1_integer().unwrap())
        .unwrap();
    builder.set_subject_name(&name).unwrap();
    builder.set_issuer_name(&name).unwrap();
    builder.set_pubkey(&key).unwrap();
    builder
        .set_not_before(&Asn1Time::days_from_now(0).unwrap())
        .unwrap();
    builder
        .set_not_after(&Asn1Time::days_from_now(30).unwrap())
        .unwrap();
    if let Some(san) = san {
        let ext = SubjectAlternativeName::new()
            .email(san)
            .dns("example.org")
            .build(&builder.x509v3_context(None, None))
            .unwrap();
        builder.append_extension(ext).unwrap();
    }
    builder.sign(&key, MessageDigest::sha256()).unwrap();
    (builder.build(), key)
}

fn plain(der: u8, san: &[&str], subject: &[(NameKind, Option<&str>)]) -> Certificate {
    Certificate {
        der: vec![der],
        san_emails: san.iter().map(|s| s.to_string()).collect(),
        subject: subject
            .iter()
            .map(|(kind, value)| SubjectEntry {
                kind: *kind,
                value: value.map(|v| v.to_string()),
            })
            .collect(),
    }
}

#[test]
fn the_first_certificate_of_the_chain_wins() {
    let by_subject = plain(1, &[], &[(NameKind::EmailAddress, Some("alice@x"))]);
    let by_alt_name = plain(2, &["alice@x"], &[]);
    let chain = vec![by_subject.clone(), by_alt_name.clone()];
    assert_eq!(find_cert_for_email(&chain, "alice@x"), Ok(&by_subject));
    let chain = vec![by_alt_name.clone(), by_subject.clone()];
    assert_eq!(find_cert_for_email(&chain, "alice@x"), Ok(&by_alt_name));
    let other = plain(3, &["bob@y"], &[(NameKind::CommonName, Some("Bob"))]);
    let chain = vec![other, by_subject.clone(), by_alt_name];
    assert_eq!(find_cert_for_email(&chain, "alice@x"), Ok(&by_subject));
}

#[test]
fn a_certificate_names_an_address_in_three_ways() {
    assert!(certificate_matches(
        &plain(1, &["other@x", "Alice@Example.ORG"], &[]),
        "alice@example.org"
    ));
    assert!(certificate_matches(
        &plain(1, &[], &[(NameKind::Other, Some("x")), (NameKind::EmailAddress, Some("ALICE@x"))]),
        "alice@X"
    ));
    assert!(certificate_matches(
        &plain(1, &[], &[(NameKind::CommonName, Some("alice@x"))]),
        "alice@x"
    ));
    assert!(!certificate_matches(
        &plain(1, &["alice@y"], &[(NameKind::Other, Some("alice@x"))]),
        "alice@x"
    ));
    assert!(!certificate_matches(
        &plain(1, &[], &[(NameKind::CommonName, None)]),
        "alice@x"
    ));
    assert!(!certificate_matches(&plain(1, &["alice@x "], &[]), "alice@x"));
}

#[test]
fn no_certificate_for_the_address() {
    let chain = vec![plain(1, &["bob@y"], &[(NameKind::CommonName, Some("Bob"))])];
    assert_eq!(
        find_cert_for_email(&chain, "alice@x"),
        Err(SmimeError::NoMatchingCertificate)
    );
    assert_eq!(
        find_cert_for_email(&Vec::new(), "alice@x"),
        Err(SmimeError::NoMatchingCertificate)
    );
}

#[test]
fn certificates_are_read_from_a_signature() {
    let (cert, key) = make_cert(Some("Alice"), Some("alice@x"), Some("Alice@X"));
    let (ca, _) = make_cert(Some("CA"), None, None);
    let mut more = Stack::new().unwrap();
    more.push(ca.clone()).unwrap();
    let signature = Pkcs7::sign(&cert, &key, &more, b"content", Pkcs7Flags::DETACHED).unwrap();
    let chain = extract_certificates_from_p7s(&signature.to_der().unwrap()).unwrap();
    assert_eq!(chain.len(), 2);
    let found = find_cert_for_email(&chain, "alice@x").unwrap();
    assert_eq!(found.der, cert.to_der().unwrap());
    assert_eq!(found.san_emails, vec!["Alice@X".to_string()]);
    assert_eq!(
        found.subject,
        vec![
            SubjectEntry { kind: NameKind::Other, value: Some("Example".to_string()) },
            SubjectEntry { kind: NameKind::CommonName, value: Some("Alice".to_string()) },
            SubjectEntry { kind: NameKind::EmailAddress, value: Some("alice@x".to_string()) },
        ]
    );
    let other = chain.iter().find(|c| c.der != found.der).unwrap();
    assert_eq!(other.der, ca.to_der().unwrap());
    assert!(other.san_emails.is_empty());
    assert_eq!(
        find_cert_for_email(&chain, "ca"),
        Ok(other)
    );
}

#[test]
fn what_is_no_signature_is_refused() {
    assert_eq!(
        extract_certificates_from_p7s(b"not der"),
        Err(SmimeError::MalformedPkcs7)
    );
    assert_eq!(
        extract_certificates_from_p7s(b""),
        Err(SmimeError::MalformedPkcs7)
    );
    let (cert, _) = make_cert(Some("Alice"), None, None);
    let mut to = Stack::new().unwrap();
    to.push(cert).unwrap();
    let enveloped =
        Pkcs7::encrypt(&to, b"content", Cipher::aes_256_cbc(), Pkcs7Flags::empty()).unwrap();
    assert_eq!(
        extract_certificates_from_p7s(&enveloped.to_der().unwrap()),
        Err(SmimeError::NotSignedData)
    );
    let (cert, key) = make_cert(Some("Alice"), None, None);
    let bare = Pkcs7::sign(
        &cert,
        &key,
        &Stack::new().unwrap(),
        b"content",
        Pkcs7Flags::DETACHED | Pkcs7Flags::NOCERTS,
    )
    .unwrap();
    assert_eq!(
        extract_certificates_from_p7s(&bare.to_der().unwrap()),
        Err(SmimeError::NoCertificates)
    );
}

#[test]
fn a_chain_is_written_and_read_back() {
    let (first, _) = make_cert(Some("First"), None, Some("first@x"));
    let (second, _) = make_cert(Some("Second"), Some("second@x"), None);
    let mut pem = first.to_pem().unwrap();
    pem.extend_from_slice(&second.to_pem().unwrap());
    let chain = load_pem_stack(&pem).unwrap();
    assert_eq!(chain.len(), 2);
    assert_eq!(chain[0].der, first.to_der().unwrap());
    assert_eq!(chain[0].san_emails, vec!["first@x".to_string()]);
    assert_eq!(chain[1].der, second.to_der().unwrap());
    let written = write_pem_stack(&chain).unwrap();
    assert_eq!(written, pem);
    assert_eq!(load_pem_stack(&written).unwrap(), chain);
    assert_eq!(write_pem_stack(&Vec::new()), Ok(Vec::new()));
    assert_eq!(load_pem_stack(b""), Ok(Vec::new()));
}

#[test]
fn a_broken_certificate_is_refused() {
    let (cert, _) = make_cert(Some("First"), None, None);
    let pem = String::from_utf8(cert.to_pem().unwrap()).unwrap();
    let broken = pem.replacen("MII", "!!!", 1);
    assert_eq!(load_pem_stack(broken.as_bytes()), Err(SmimeError::MalformedPem));
    assert_eq!(
        write_pem_stack(&vec![plain(1, &[], &[])]),
        Err(SmimeError::Crypto)
    );
}

#[test]
fn the_file_of_a_chain_is_named_by_the_address() {
    assert_eq!(pem_file_name("bob@y"), "bob@y.pem");
    assert_eq!(pem_file_name(""), ".pem");
}

#[test]
fn content_is_encrypted_for_the_holder_of_the_certificate() {
    let (ca, _) = make_cert(Some("CA"), None, None);
    let (bob, bob_key) = make_cert(Some("Bob"), None, Some("bob@y"));
    let (carol, carol_key) = make_cert(Some("carol@z"), None, None);
    let mut bob_file = ca.to_pem().unwrap();
    bob_file.extend_from_slice(&bob.to_pem().unwrap());
    let der = encrypt_data(
        b"hi",
        &vec!["bob@y".to_string(), "Carol@Z".to_string()],
        &vec![bob_file, carol.to_pem().unwrap()],
    )
    .unwrap();
    assert_ne!(der, b"hi");
    let cms = CmsContentInfo::from_der(&der).unwrap();
    assert_eq!(cms.decrypt(&bob_key, &bob).unwrap(), b"hi");
    let cms = CmsContentInfo::from_der(&der).unwrap();
    assert_eq!(cms.decrypt(&carol_key, &carol).unwrap(), b"hi");
}

#[test]
fn encryption_needs_a_certificate_for_each_recipient() {
    let (bob, _) = make_cert(Some("Bob"), None, Some("bob@y"));
    let file = bob.to_pem().unwrap();
    assert_eq!(
        encrypt_data(b"hi", &vec!["bob@y".to_string()], &Vec::new()),
        Err(SmimeError::MissingCertificates)
    );
    assert_eq!(
        encrypt_data(b"hi", &vec!["alice@x".to_string()], &vec![file.clone()]),
        Err(SmimeError::NoMatchingCertificate)
    );
    assert_eq!(
        encrypt_data(b"hi", &vec!["bob@y".to_string()], &vec![Vec::new()]),
        Err(SmimeError::NoMatchingCertificate)
    );
    let broken = String::from_utf8(file).unwrap().replacen("MII", "!!!", 1);
    assert_eq!(
        encrypt_data(b"hi", &vec!["bob@y".to_string()], &vec![broken.into_bytes()]),
        Err(SmimeError::MalformedPem)
    );
}

#[test]
fn the_stack_holds_the_certificate_of_each_recipient() {
    let (first, _) = make_cert(Some("Other"), None, Some("other@y"));
    let (bob, bob_key) = make_cert(Some("Bob"), None, Some("bob@y"));
    let (carol, carol_key) = make_cert(Some("carol@z"), None, None);
    let (dave, dave_key) = make_cert(Some("Dave"), None, Some("dave@w"));
    let mut bob_file = first.to_pem().unwrap();
    bob_file.extend_from_slice(&bob.to_pem().unwrap());
    let to = vec!["bob@y".to_string(), "carol@z".to_string()];
    let files = vec![bob_file, carol.to_pem().unwrap()];
    let stack = match recipient_stack_for(&to, &files) {
        Ok(stack) => stack,
        Err(e) => panic!("{:?}", e),
    };
    let der = envelope(&stack, b"for two").unwrap();
    let cms = CmsContentInfo::from_der(&der).unwrap();
    assert_eq!(cms.decrypt(&bob_key, &bob).unwrap(), b"for two");
    let cms = CmsContentInfo::from_der(&der).unwrap();
    assert_eq!(cms.decrypt(&carol_key, &carol).unwrap(), b"for two");
    let cms = CmsContentInfo::from_der(&der).unwrap();
    assert!(cms.decrypt(&dave_key, &dave).is_err());
    assert!(matches!(
        recipient_stack_for(&to, &vec![dave.to_pem().unwrap(), carol.to_pem().unwrap()]),
        Err(SmimeError::NoMatchingCertificate)
    ));
    assert!(matches!(
        recipient_stack_for(&to, &vec![carol.to_pem().unwrap()]),
        Err(SmimeError::MissingCertificates)
    ));
    assert!(recipient_stack_for(&Vec::new(), &Vec::new()).is_ok());
}

#[test]
fn content_is_encrypted_as_binary_under_aes_256() {
    assert_eq!(CONTENT_CIPHER, ContentCipher::Aes256Cbc);
    assert_eq!(CONTENT_FORM, ContentForm::Binary);
    let (bob, bob_key) = make_cert(Some("Bob"), None, Some("bob@y"));
    let content = b"line one\nline two\r\n\x00\xff";
    let der = encrypt_data(content, &vec!["bob@y".to_string()], &vec![bob.to_pem().unwrap()])
        .unwrap();
    // the object identifier of aes256-CBC, 2.16.840.1.101.3.4.1.42
    let oid = [0x60u8, 0x86, 0x48, 0x01, 0x65, 0x03, 0x04, 0x01, 0x2a];
    assert!(der.windows(oid.len()).any(|w| w == oid));
    let cms = CmsContentInfo::from_der(&der).unwrap();
    assert_eq!(cms.decrypt(&bob_key, &bob).unwrap(), content);
}

#[test]
fn text_that_marks_a_block_as_encrypted_is_refused() {
    let (cert, _) = make_cert(Some("First"), None, Some("first@x"));
    let pem = String::from_utf8(cert.to_pem().unwrap()).unwrap();
    let marked = pem.replacen(
        "-----BEGIN CERTIFICATE-----\n",
        "-----BEGIN CERTIFICATE-----\nProc-Type: 4,ENCRYPTED\nDEK-Info: AES-256-CBC,00112233445566778899AABBCCDDEEFF\n\n",
        1,
    );
    assert_ne!(marked, pem);
    assert!(is_marked_encrypted(marked.as_bytes()));
    assert_eq!(load_pem_stack(marked.as_bytes()), Err(SmimeError::EncryptedPem));
    assert_eq!(
        encrypt_data(b"hi", &vec!["first@x".to_string()], &vec![marked.into_bytes()]),
        Err(SmimeError::EncryptedPem)
    );
    let noted = format!("Proc-Type: none\n{}", pem);
    assert_eq!(load_pem_stack(noted.as_bytes()), Err(SmimeError::EncryptedPem));
    assert!(is_marked_encrypted(b"Proc-Type:"));
    assert!(is_marked_encrypted(b"xProc-Type:x"));
    for text in ["", "Proc-Type", "proc-type:", "Proc-Type :", "Proc-Typ:e", "roc-Type:P"] {
        assert!(!is_marked_encrypted(text.as_bytes()), "{:?}", text);
    }
    assert!(!is_marked_encrypted(pem.as_bytes()));
    assert_eq!(load_pem_stack(pem.as_bytes()).unwrap().len(), 1);
}
