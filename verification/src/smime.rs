//! Certificates and the operations of S/MIME on them: reading the
//! certificates out of a PKCS#7 signature, finding the certificate for an
//! address, and encrypting for the holders of certificates.
//!
//! The X.509 and CMS work is done by OpenSSL. What this library decides is
//! decided on `Certificate`, which holds a certificate as plain values: its
//! DER encoding, and the names in it that can stand for a mail address.

use crate::text::{eq_ignore_case, same_ignoring_case};
use openssl::cms::CmsContentInfo;
use openssl::error::ErrorStack;
use openssl::pkcs7::Pkcs7;
use openssl::stack::Stack;
use openssl::x509::X509;
use vstd::prelude::*;

verus! {

/// `openssl::error::ErrorStack`, the errors that OpenSSL reports.
#[verifier::external_type_specification]
#[verifier::external_body]
pub struct ExErrorStack(openssl::error::ErrorStack);

/// The certificates of those for whom a message is encrypted, as OpenSSL
/// holds them.
#[verifier::external_body]
pub struct RecipientStack {
    stack: Stack<X509>,
}

/// The cipher under which content is encrypted.
#[derive(Clone, Copy, Debug, PartialEq, Eq, Structural)]
pub enum ContentCipher {
    /// AES with a key of 128 bits, in CBC mode.
    Aes128Cbc,
    /// AES with a key of 192 bits, in CBC mode.
    Aes192Cbc,
    /// AES with a key of 256 bits, in CBC mode.
    Aes256Cbc,
}

/// How content is taken before it is encrypted.
#[derive(Clone, Copy, Debug, PartialEq, Eq, Structural)]
pub enum ContentForm {
    /// As text, which is brought into the canonical form of S/MIME.
    Canonical,
    /// As bytes, of which none is rewritten.
    Binary,
}

/// The kind of an entry of a certificate's subject name.
#[derive(Clone, Copy, Debug, PartialEq, Eq, Structural)]
pub enum NameKind {
    /// The `emailAddress` attribute.
    EmailAddress,
    /// The `CN` attribute.
    CommonName,
    /// Any other attribute.
    Other,
}

/// An entry of a certificate's subject name: its kind, and its value where
/// that can be had as text.
#[derive(Clone, Debug, PartialEq, Eq)]
pub struct SubjectEntry {
    pub kind: NameKind,
    pub value: Option<String>,
}

/// A certificate: its DER encoding, the `rfc822Name` entries of its subject
/// alternative name extension, and the entries of its subject name.
#[derive(Clone, Debug, PartialEq, Eq)]
pub struct Certificate {
    pub der: Vec<u8>,
    pub san_emails: Vec<String>,
    pub subject: Vec<SubjectEntry>,
}

/// What a `SubjectEntry` stands for.
pub struct SubjectEntryModel {
    pub kind: NameKind,
    pub value: Option<Seq<char>>,
}

/// What a `Certificate` stands for.
pub struct CertificateModel {
    pub der: Seq<u8>,
    pub san_emails: Seq<Seq<char>>,
    pub subject: Seq<SubjectEntryModel>,
}

impl View for SubjectEntry {
    type V = SubjectEntryModel;

    open spec fn view(&self) -> SubjectEntryModel {
        SubjectEntryModel { kind: self.kind, value: self.value.deep_view() }
    }
}

/// What a list of subject entries stands for.
pub open spec fn entries_view(entries: Seq<SubjectEntry>) -> Seq<SubjectEntryModel> {
    Seq::new(entries.len(), |i: int| entries[i]@)
}

impl View for Certificate {
    type V = CertificateModel;

    open spec fn view(&self) -> CertificateModel {
        CertificateModel {
            der: self.der@,
            san_emails: self.san_emails.deep_view(),
            subject: entries_view(self.subject@),
        }
    }
}

/// What a chain of certificates stands for.
pub open spec fn chain_view(chain: Seq<Certificate>) -> Seq<CertificateModel> {
    Seq::new(chain.len(), |i: int| chain[i]@)
}

/// What a PKCS#7 structure holds, as far as it matters here.
#[derive(Clone, Debug, PartialEq, Eq)]
pub enum SignedContent {
    /// The structure is no signed data.
    NotSigned,
    /// The structure is signed data without a set of certificates.
    NoCertificates,
    /// The structure is signed data; these are the DER encodings of its
    /// certificates, in the order in which it holds them.
    Certificates(Vec<Vec<u8>>),
}

/// What a `SignedContent` stands for.
pub enum SignedContentModel {
    NotSigned,
    NoCertificates,
    Certificates(Seq<Seq<u8>>),
}

impl View for SignedContent {
    type V = SignedContentModel;

    open spec fn view(&self) -> SignedContentModel {
        match self {
            SignedContent::NotSigned => SignedContentModel::NotSigned,
            SignedContent::NoCertificates => SignedContentModel::NoCertificates,
            SignedContent::Certificates(ders) => SignedContentModel::Certificates(
                ders.deep_view(),
            ),
        }
    }
}

/// Why an S/MIME operation failed.
#[derive(Clone, Copy, Debug, PartialEq, Eq, Structural)]
pub enum SmimeError {
    /// The bytes are no PKCS#7 structure.
    MalformedPkcs7,
    /// The PKCS#7 structure is no signed data.
    NotSignedData,
    /// The signed data holds no certificates.
    NoCertificates,
    /// No certificate of the chain is one for the address.
    NoMatchingCertificate,
    /// The bytes are no list of PEM certificates.
    MalformedPem,
    /// The PEM text holds a header that marks a block as encrypted, which a
    /// certificate is not.
    EncryptedPem,
    /// The input is longer than OpenSSL takes.
    TooLarge,
    /// There is not one certificate file for each recipient.
    MissingCertificates,
    /// OpenSSL failed to encode or to encrypt.
    Crypto,
}

/// The longest input that OpenSSL reads from memory.
pub const MAX_INPUT: usize = 0x7fff_ffff;

/// The certificates on a stack from the bottom up, each in the DER encoding
/// that `X509Ref::to_der` gives of it.
pub uninterp spec fn stack_ders(s: RecipientStack) -> Seq<Seq<u8>>;

/// The text with which the header begins that marks a PEM block as
/// encrypted: `Proc-Type:`.
pub open spec fn encryption_mark() -> Seq<u8> {
    seq![80u8, 114u8, 111u8, 99u8, 45u8, 84u8, 121u8, 112u8, 101u8, 58u8]
}

/// Whether the mark of an encrypted block stands in `pem` at index `i`.
pub open spec fn marked_at(pem: Seq<u8>, i: int) -> bool {
    0 <= i && i + 10 <= pem.len() && pem.subrange(i, i + 10) == encryption_mark()
}

/// Whether `pem` holds the mark of an encrypted block anywhere.
pub open spec fn marked_encrypted(pem: Seq<u8>) -> bool {
    exists|i: int| marked_at(pem, i)
}

/// What OpenSSL reads from the DER encoding of a PKCS#7 structure; nothing
/// where the bytes are no such encoding.
pub uninterp spec fn pkcs7_reading(der: Seq<u8>) -> Option<SignedContentModel>;

/// The certificates that OpenSSL reads from a list of PEM blocks, each in
/// its DER encoding; nothing where it fails on the list.
pub uninterp spec fn pem_certificates(pem: Seq<u8>) -> Option<Seq<Seq<u8>>>;

/// The PEM block that OpenSSL writes for the certificate with this DER
/// encoding; nothing where the bytes are no certificate.
pub uninterp spec fn pem_block(der: Seq<u8>) -> Option<Seq<u8>>;

/// The entries of the subject alternative name extension of the certificate
/// with this DER encoding, each with its text where it is an `rfc822Name`;
/// nothing where the certificate has no such extension, or the bytes are no
/// certificate.
pub uninterp spec fn alt_names_of(der: Seq<u8>) -> Option<Seq<Option<Seq<char>>>>;

/// The entries of the subject name of the certificate with this DER
/// encoding, in order; none where the bytes are no certificate.
pub uninterp spec fn subject_of(der: Seq<u8>) -> Seq<SubjectEntryModel>;

/// `Pkcs7::from_der`, then `Pkcs7Ref::signed` and
/// `Pkcs7SignedRef::certificates`, and `X509Ref::to_der` of each
/// certificate: what the structure holds, or the error of OpenSSL where the
/// bytes are no PKCS#7 structure.
#[verifier::external_body]
fn pkcs7_read(der: &[u8]) -> (r: Result<SignedContent, ErrorStack>)
    ensures
        match r {
            Ok(content) => pkcs7_reading(der@) == Some(content@),
            Err(_) => pkcs7_reading(der@) is None,
        },
{
    let pkcs7 = Pkcs7::from_der(der)?;
    let Some(signed) = pkcs7.signed() else {
        return Ok(SignedContent::NotSigned);
    };
    let Some(certs) = signed.certificates() else {
        return Ok(SignedContent::NoCertificates);
    };
    let ders: Result<Vec<Vec<u8>>, ErrorStack> = certs.iter().map(|c| c.to_der()).collect();
    Ok(SignedContent::Certificates(ders?))
}

/// `X509::stack_from_pem`, and `X509Ref::to_der` of each certificate: the
/// certificates of a list of PEM blocks. The call reads from memory, which
/// OpenSSL does for up to `MAX_INPUT` bytes. It hands OpenSSL no pass
/// phrase, and for a block that is marked as encrypted OpenSSL would ask
/// for one at the terminal; so text with the mark is kept from the call.
#[verifier::external_body]
fn pem_stack_ders(pem: &[u8]) -> (r: Result<Vec<Vec<u8>>, ErrorStack>)
    requires
        pem@.len() <= MAX_INPUT,
        !marked_encrypted(pem@),
    ensures
        match r {
            Ok(ders) => pem_certificates(pem@) == Some(ders.deep_view()),
            Err(_) => pem_certificates(pem@) is None,
        },
{
    X509::stack_from_pem(pem)?.iter().map(|c| c.to_der()).collect()
}

/// `X509::from_der`, then `X509Ref::to_pem`: the certificate as a PEM block.
#[verifier::external_body]
fn der_to_pem(der: &[u8]) -> (r: Result<Vec<u8>, ErrorStack>)
    ensures
        match r {
            Ok(pem) => pem_block(der@) == Some(pem@),
            Err(_) => pem_block(der@) is None,
        },
{
    X509::from_der(der)?.to_pem()
}

/// `X509::from_der`, then `X509Ref::subject_alt_names`, and of each name
/// `GeneralNameRef::email`.
#[verifier::external_body]
fn x509_alt_names(der: &[u8]) -> (r: Option<Vec<Option<String>>>)
    ensures
        r.deep_view() == alt_names_of(der@),
{
    let names = X509::from_der(der).ok()?.subject_alt_names()?;
    Some(names.iter().map(|name| name.email().map(String::from)).collect())
}

/// `X509::from_der`, then `X509Ref::subject_name` and
/// `X509NameRef::entries`: the entries in order, each with its kind by
/// `Asn1ObjectRef::nid` and its value by `Asn1StringRef::as_utf8`.
#[verifier::external_body]
#[allow(deprecated)]
fn x509_subject(der: &[u8]) -> (r: Vec<SubjectEntry>)
    ensures
        entries_view(r@) == subject_of(der@),
{
    let Ok(cert) = X509::from_der(der) else {
        return Vec::new();
    };
    cert.subject_name().entries().map(
        |entry|
            SubjectEntry {
                kind: match entry.object().nid() {
                    openssl::nid::Nid::PKCS9_EMAILADDRESS => NameKind::EmailAddress,
                    openssl::nid::Nid::COMMONNAME => NameKind::CommonName,
                    _ => NameKind::Other,
                },
                value: entry.data().as_utf8().ok().map(|s| s.to_string()),
            },
    ).collect()
}

/// `Stack::new`: an empty stack of certificates.
#[verifier::external_body]
fn recipient_stack_new() -> (r: Result<RecipientStack, ErrorStack>)
    ensures
        r matches Ok(s) ==> stack_ders(s) == Seq::<Seq<u8>>::empty(),
{
    Stack::new().map(|stack| RecipientStack { stack })
}

/// `X509::from_der`, `X509Ref::to_der` and `Stack::push`: reads a
/// certificate from `der`, puts it on top of the stack, and returns the DER
/// encoding of the certificate that it put there. That may be shorter than
/// `der`: OpenSSL reads a certificate from the front of the bytes and does
/// not ask what follows.
#[verifier::external_body]
fn recipient_stack_push(recipients: &mut RecipientStack, der: &[u8]) -> (r: Result<
    Vec<u8>,
    ErrorStack,
>)
    ensures
        r matches Ok(pushed) ==> stack_ders(*final(recipients)) == stack_ders(
            *old(recipients),
        ).push(pushed@),
{
    let cert = X509::from_der(der)?;
    let pushed = cert.to_der()?;
    recipients.stack.push(cert)?;
    Ok(pushed)
}

/// `CmsContentInfo::encrypt`, then `CmsContentInfoRef::to_der`: the content
/// as CMS enveloped data for the holders of the certificates on the stack,
/// under a key drawn for this call, in its DER encoding. The cipher is that
/// of `openssl::symm::Cipher` for the one asked for, and binary content is
/// asked for by `CMSOptions::BINARY`. The call reads the content from
/// memory, which OpenSSL does for up to `MAX_INPUT` bytes. This library
/// encrypts under one cipher and takes content in one form, and the call
/// admits no other.
#[verifier::external_body]
fn cms_encrypt(
    recipients: &RecipientStack,
    content: &[u8],
    cipher: ContentCipher,
    form: ContentForm,
) -> (r: Result<Vec<u8>, ErrorStack>)
    requires
        content@.len() <= MAX_INPUT,
        cipher == CONTENT_CIPHER,
        form == CONTENT_FORM,
{
    let cipher = match cipher {
        ContentCipher::Aes128Cbc => openssl::symm::Cipher::aes_128_cbc(),
        ContentCipher::Aes192Cbc => openssl::symm::Cipher::aes_192_cbc(),
        ContentCipher::Aes256Cbc => openssl::symm::Cipher::aes_256_cbc(),
    };
    let flags = match form {
        ContentForm::Canonical => openssl::cms::CMSOptions::empty(),
        ContentForm::Binary => openssl::cms::CMSOptions::BINARY,
    };
    CmsContentInfo::encrypt(&recipients.stack, content, cipher, flags)?.to_der()
}

/// The `rfc822Name` entries among the entries of a subject alternative name,
/// in order.
pub open spec fn emails_among(names: Seq<Option<Seq<char>>>) -> Seq<Seq<char>>
    decreases names.len(),
{
    if names.len() == 0 {
        Seq::empty()
    } else {
        match names.last() {
            Some(e) => emails_among(names.drop_last()).push(e),
            None => emails_among(names.drop_last()),
        }
    }
}

/// The certificate with this DER encoding, as plain values.
pub open spec fn certificate_of(der: Seq<u8>) -> CertificateModel {
    CertificateModel {
        der,
        san_emails: match alt_names_of(der) {
            Some(names) => emails_among(names),
            None => Seq::empty(),
        },
        subject: subject_of(der),
    }
}

/// The certificates with these DER encodings, as plain values.
pub open spec fn certificates_of(ders: Seq<Seq<u8>>) -> Seq<CertificateModel> {
    Seq::new(ders.len(), |i: int| certificate_of(ders[i]))
}

/// Whether an entry of a subject name names `email`: its kind is
/// `emailAddress` or `CN`, and its value is `email` up to the case of ASCII
/// letters.
pub open spec fn entry_names(entry: SubjectEntryModel, email: Seq<char>) -> bool {
    &&& entry.kind == NameKind::EmailAddress || entry.kind == NameKind::CommonName
    &&& entry.value matches Some(v) && same_ignoring_case(v, email)
}

/// Whether a certificate names `email` in its subject alternative name.
pub open spec fn named_by_alt_name(cert: CertificateModel, email: Seq<char>) -> bool {
    exists|i: int|
        0 <= i < cert.san_emails.len() && same_ignoring_case(#[trigger] cert.san_emails[i], email)
}

/// Whether a certificate names `email` in its subject name.
pub open spec fn named_by_subject(cert: CertificateModel, email: Seq<char>) -> bool {
    exists|i: int| 0 <= i < cert.subject.len() && entry_names(#[trigger] cert.subject[i], email)
}

/// Whether a certificate is one for `email`.
pub open spec fn certifies(cert: CertificateModel, email: Seq<char>) -> bool {
    named_by_alt_name(cert, email) || named_by_subject(cert, email)
}

/// The place of the first certificate of the chain, from `from` on, that is
/// one for `email`.
pub open spec fn first_for_from(chain: Seq<CertificateModel>, email: Seq<char>, from: int) -> Option<
    int,
>
    decreases chain.len() - from,
{
    if from < 0 || from >= chain.len() {
        None
    } else if certifies(chain[from], email) {
        Some(from)
    } else {
        first_for_from(chain, email, from + 1)
    }
}

/// The place of the first certificate of the chain that is one for `email`.
pub open spec fn first_for(chain: Seq<CertificateModel>, email: Seq<char>) -> Option<int> {
    first_for_from(chain, email, 0)
}

/// `first_for_from` gives the first place at or after `from` whose
/// certificate is one for `email`, and nothing where there is none.
pub proof fn lemma_first_for_from(chain: Seq<CertificateModel>, email: Seq<char>, from: int)
    requires
        0 <= from,
    ensures
        match first_for_from(chain, email, from) {
            Some(i) => from <= i < chain.len() && certifies(chain[i], email) && forall|k: int|
                from <= k < i ==> !certifies(#[trigger] chain[k], email),
            None => forall|k: int| from <= k < chain.len() ==> !certifies(#[trigger] chain[k], email),
        },
    decreases chain.len() - from,
{
    if from < chain.len() && !certifies(chain[from], email) {
        lemma_first_for_from(chain, email, from + 1);
    }
}

/// Whether the certificate is one for `email`.
pub fn certificate_matches(cert: &Certificate, email: &str) -> (r: bool)
    ensures
        r == certifies(cert@, email@),
{
    let mut i: usize = 0;
    while i < cert.san_emails.len()
        invariant
            i <= cert.san_emails@.len(),
            forall|k: int|
                0 <= k < i ==> !same_ignoring_case(#[trigger] cert@.san_emails[k], email@),
        decreases cert.san_emails@.len() - i,
    {
        if eq_ignore_case(cert.san_emails[i].as_str(), email) {
            assert(same_ignoring_case(cert@.san_emails[i as int], email@));
            return true;
        }
        i += 1;
    }
    let mut j: usize = 0;
    while j < cert.subject.len()
        invariant
            j <= cert.subject@.len(),
            !named_by_alt_name(cert@, email@),
            forall|k: int| 0 <= k < j ==> !entry_names(#[trigger] cert@.subject[k], email@),
        decreases cert.subject@.len() - j,
    {
        let entry = &cert.subject[j];
        let kind_fits = match entry.kind {
            NameKind::EmailAddress => true,
            NameKind::CommonName => true,
            NameKind::Other => false,
        };
        if kind_fits {
            if let Some(value) = &entry.value {
                if eq_ignore_case(value.as_str(), email) {
                    assert(entry_names(cert@.subject[j as int], email@));
                    return true;
                }
            }
        }
        j += 1;
    }
    false
}

/// Finds the first certificate in the chain that is one for the address: one
/// that names it in its subject alternative name, or in an `emailAddress` or
/// `CN` entry of its subject name.
pub fn find_cert_for_email<'a>(certs: &'a Vec<Certificate>, email: &str) -> (r: Result<
    &'a Certificate,
    SmimeError,
>)
    ensures
        match r {
            Ok(cert) => first_for(chain_view(certs@), email@) matches Some(i) && *cert
                == certs@[i],
            Err(e) => e == SmimeError::NoMatchingCertificate && first_for(
                chain_view(certs@),
                email@,
            ) is None,
        },
{
    let mut i: usize = 0;
    while i < certs.len()
        invariant
            i <= certs@.len(),
            first_for(chain_view(certs@), email@) == first_for_from(
                chain_view(certs@),
                email@,
                i as int,
            ),
        decreases certs@.len() - i,
    {
        if certificate_matches(&certs[i], email) {
            return Ok(&certs[i]);
        }
        i += 1;
    }
    Err(SmimeError::NoMatchingCertificate)
}

/// Of two certificates of a chain that are both for the address, the later
/// one is never the one found: the first in chain order wins, whether it
/// names the address in its subject alternative name or only in its subject
/// name.
pub proof fn law_first_in_chain_wins(
    chain: Seq<CertificateModel>,
    email: Seq<char>,
    i: int,
    j: int,
)
    requires
        0 <= i < j < chain.len(),
        certifies(chain[i], email),
        certifies(chain[j], email),
    ensures
        first_for(chain, email) matches Some(found) && found <= i && found != j && certifies(
            chain[found],
            email,
        ),
{
    lemma_first_for_from(chain, email, 0);
}

/// The addresses among the entries of a subject alternative name, in order.
fn alt_name_emails(names: &Vec<Option<String>>) -> (r: Vec<String>)
    ensures
        r.deep_view() == emails_among(names.deep_view()),
{
    let mut out: Vec<String> = Vec::new();
    let mut i: usize = 0;
    assert(out.deep_view() =~= emails_among(names.deep_view().take(0)));
    while i < names.len()
        invariant
            i <= names@.len(),
            out.deep_view() == emails_among(names.deep_view().take(i as int)),
        decreases names@.len() - i,
    {
        let ghost before = out.deep_view();
        proof {
            let next = names.deep_view().take(i + 1);
            assert(next.drop_last() =~= names.deep_view().take(i as int));
            assert(next.last() == names@[i as int].deep_view());
        }
        match &names[i] {
            Some(e) => {
                out.push(e.clone());
                assert(out.deep_view() =~= before.push(e@));
            },
            None => {},
        }
        i += 1;
    }
    assert(names.deep_view().take(names@.len() as int) =~= names.deep_view());
    out
}

/// The certificate with this DER encoding, as plain values.
pub fn describe(der: Vec<u8>) -> (r: Certificate)
    ensures
        r@ == certificate_of(der@),
{
    let san_emails = match x509_alt_names(der.as_slice()) {
        Some(names) => alt_name_emails(&names),
        None => Vec::new(),
    };
    let subject = x509_subject(der.as_slice());
    let r = Certificate { der, san_emails, subject };
    assert(r@.san_emails =~= certificate_of(der@).san_emails);
    r
}

/// The certificates with these DER encodings, as plain values, in order.
fn describe_all(ders: Vec<Vec<u8>>) -> (r: Vec<Certificate>)
    ensures
        chain_view(r@) == certificates_of(ders.deep_view()),
{
    let mut chain: Vec<Certificate> = Vec::new();
    let mut i: usize = 0;
    while i < ders.len()
        invariant
            i <= ders@.len(),
            chain@.len() == i,
            forall|k: int| 0 <= k < i ==> (#[trigger] chain@[k])@ == certificate_of(ders@[k]@),
        decreases ders@.len() - i,
    {
        let der = vstd::slice::slice_to_vec(ders[i].as_slice());
        chain.push(describe(der));
        i += 1;
    }
    proof {
        assert forall|k: int| 0 <= k < ders@.len() implies #[trigger] ders.deep_view()[k]
            == ders@[k]@ by {
            assert(ders.deep_view()[k] =~= ders@[k]@);
        }
        assert(chain_view(chain@) =~= certificates_of(ders.deep_view()));
    }
    chain
}

/// The chain that a PKCS#7 signature holds, or why it holds none: the bytes
/// must encode a PKCS#7 structure that is signed data and holds
/// certificates.
pub open spec fn signature_chain(der: Seq<u8>) -> Result<Seq<CertificateModel>, SmimeError> {
    match pkcs7_reading(der) {
        None => Err(SmimeError::MalformedPkcs7),
        Some(SignedContentModel::NotSigned) => Err(SmimeError::NotSignedData),
        Some(SignedContentModel::NoCertificates) => Err(SmimeError::NoCertificates),
        Some(SignedContentModel::Certificates(ders)) => Ok(certificates_of(ders)),
    }
}

/// Extracts the signer's certificate and the intermediates from the DER
/// content of a PKCS#7 signature. All certificates of the signed data are
/// returned, in the order in which it holds them. No signature is verified.
pub fn extract_certificates_from_p7s(der_data: &[u8]) -> (r: Result<Vec<Certificate>, SmimeError>)
    ensures
        match r {
            Ok(chain) => signature_chain(der_data@) == Ok::<_, SmimeError>(chain_view(chain@)),
            Err(e) => signature_chain(der_data@) == Err::<Seq<CertificateModel>, _>(e),
        },
{
    match pkcs7_read(der_data) {
        Err(_) => Err(SmimeError::MalformedPkcs7),
        Ok(SignedContent::NotSigned) => Err(SmimeError::NotSignedData),
        Ok(SignedContent::NoCertificates) => Err(SmimeError::NoCertificates),
        Ok(SignedContent::Certificates(ders)) => Ok(describe_all(ders)),
    }
}

/// The chain that the content of a file of PEM certificates holds, or why it
/// holds none.
pub open spec fn pem_chain(pem: Seq<u8>) -> Result<Seq<CertificateModel>, SmimeError> {
    if pem.len() > MAX_INPUT {
        Err(SmimeError::TooLarge)
    } else if marked_encrypted(pem) {
        Err(SmimeError::EncryptedPem)
    } else {
        match pem_certificates(pem) {
            None => Err(SmimeError::MalformedPem),
            Some(ders) => Ok(certificates_of(ders)),
        }
    }
}

/// Whether `pem` holds the mark of an encrypted block.
pub fn is_marked_encrypted(pem: &[u8]) -> (r: bool)
    ensures
        r == marked_encrypted(pem@),
{
    let n = pem.len();
    if n < 10 {
        return false;
    }
    let mut i: usize = 0;
    while i <= n - 10
        invariant
            10 <= n == pem@.len(),
            i <= n - 10 + 1,
            forall|k: int| 0 <= k < i ==> !marked_at(pem@, k),
        decreases n - i,
    {
        let ghost piece = pem@.subrange(i as int, i + 10);
        if pem[i] == 80 && pem[i + 1] == 114 && pem[i + 2] == 111 && pem[i + 3] == 99 && pem[i
            + 4] == 45 && pem[i + 5] == 84 && pem[i + 6] == 121 && pem[i + 7] == 112 && pem[i
            + 8] == 101 && pem[i + 9] == 58 {
            assert(piece =~= encryption_mark());
            assert(marked_at(pem@, i as int));
            return true;
        }
        proof {
            if marked_at(pem@, i as int) {
                assert(piece[0] == 80 && piece[1] == 114 && piece[2] == 111 && piece[3] == 99
                    && piece[4] == 45);
                assert(piece[5] == 84 && piece[6] == 121 && piece[7] == 112 && piece[8] == 101
                    && piece[9] == 58);
            }
        }
        i += 1;
    }
    false
}

/// Whether two byte strings are the same.
fn same_bytes(a: &[u8], b: &[u8]) -> (r: bool)
    ensures
        r == (a@ == b@),
{
    if a.len() != b.len() {
        return false;
    }
    let mut i: usize = 0;
    while i < a.len()
        invariant
            i <= a@.len(),
            a@.len() == b@.len(),
            forall|k: int| 0 <= k < i ==> a@[k] == b@[k],
        decreases a@.len() - i,
    {
        if a[i] != b[i] {
            return false;
        }
        i += 1;
    }
    assert(a@ =~= b@);
    true
}

/// Reads a certificate chain from the content of a file of PEM
/// certificates. Text that marks a block as encrypted is refused: a
/// certificate is not encrypted, and there is no pass phrase to read it by.
pub fn load_pem_stack(pem: &[u8]) -> (r: Result<Vec<Certificate>, SmimeError>)
    ensures
        match r {
            Ok(chain) => pem_chain(pem@) == Ok::<_, SmimeError>(chain_view(chain@)),
            Err(e) => pem_chain(pem@) == Err::<Seq<CertificateModel>, _>(e),
        },
{
    if pem.len() > MAX_INPUT {
        return Err(SmimeError::TooLarge);
    }
    if is_marked_encrypted(pem) {
        return Err(SmimeError::EncryptedPem);
    }
    match pem_stack_ders(pem) {
        Err(_) => Err(SmimeError::MalformedPem),
        Ok(ders) => Ok(describe_all(ders)),
    }
}

/// The PEM blocks of the first `n` certificates of a chain, one behind the
/// other; nothing where one of them is no certificate.
pub open spec fn pem_of(chain: Seq<CertificateModel>, n: nat) -> Option<Seq<u8>>
    decreases n,
{
    if n == 0 || n > chain.len() {
        Some(Seq::empty())
    } else {
        match (pem_of(chain, (n - 1) as nat), pem_block(chain[n - 1].der)) {
            (Some(before), Some(block)) => Some(before + block),
            _ => None,
        }
    }
}

/// Where the first `n` certificates have no PEM form, the whole chain has
/// none.
proof fn lemma_pem_of_fails(chain: Seq<CertificateModel>, n: nat)
    requires
        n <= chain.len(),
        pem_of(chain, n) is None,
    ensures
        pem_of(chain, chain.len()) is None,
    decreases chain.len() - n,
{
    if n < chain.len() {
        lemma_pem_of_fails(chain, n + 1);
    }
}

/// Writes a certificate chain as the content of a file of PEM certificates,
/// one block for each certificate, in order.
pub fn write_pem_stack(stack: &Vec<Certificate>) -> (r: Result<Vec<u8>, SmimeError>)
    ensures
        match r {
            Ok(pem) => pem_of(chain_view(stack@), stack@.len()) == Some(pem@),
            Err(e) => e == SmimeError::Crypto && pem_of(chain_view(stack@), stack@.len()) is None,
        },
{
    let mut out: Vec<u8> = Vec::new();
    let mut i: usize = 0;
    while i < stack.len()
        invariant
            i <= stack@.len(),
            pem_of(chain_view(stack@), i as nat) == Some(out@),
        decreases stack@.len() - i,
    {
        match der_to_pem(stack[i].der.as_slice()) {
            Ok(pem) => {
                let mut pem = pem;
                out.append(&mut pem);
            },
            Err(_) => {
                proof {
                    lemma_pem_of_fails(chain_view(stack@), (i + 1) as nat);
                }
                return Err(SmimeError::Crypto);
            },
        }
        i += 1;
    }
    Ok(out)
}

/// The name of the file that holds the certificate chain for `email`: the
/// address, then `.pem`.
pub open spec fn pem_file(email: Seq<char>) -> Seq<char> {
    email + seq!['.', 'p', 'e', 'm']
}

/// The name of the file that holds the certificate chain for `email`.
pub fn pem_file_name(email: &str) -> (r: String)
    ensures
        r@ == pem_file(email@),
{
    let mut name = email.to_owned();
    name.push('.');
    name.push('p');
    name.push('e');
    name.push('m');
    assert(name@ =~= pem_file(email@));
    name
}

/// The certificate for one recipient: the first of the chain in the
/// recipient's file that is one for the address, in its DER encoding.
pub open spec fn recipient_certificate(email: Seq<char>, file: Seq<u8>) -> Result<
    Seq<u8>,
    SmimeError,
> {
    match pem_chain(file) {
        Err(e) => Err(e),
        Ok(chain) => match first_for(chain, email) {
            None => Err(SmimeError::NoMatchingCertificate),
            Some(i) => Ok(chain[i].der),
        },
    }
}

/// The certificates for the recipients from the `i`th on, or the error of
/// the first recipient that has none.
pub open spec fn recipient_certificates(to: Seq<Seq<char>>, chains: Seq<Seq<u8>>, i: int) -> Result<
    Seq<Seq<u8>>,
    SmimeError,
>
    decreases to.len() - i,
{
    if i < 0 || i >= to.len() || i >= chains.len() {
        Ok(Seq::empty())
    } else {
        match recipient_certificate(to[i], chains[i]) {
            Err(e) => Err(e),
            Ok(der) => match recipient_certificates(to, chains, i + 1) {
                Err(e) => Err(e),
                Ok(more) => Ok(seq![der] + more),
            },
        }
    }
}

/// Whether encryption gets as far as OpenSSL, and with what it fails
/// before.
pub open spec fn encryption_ready(content: Seq<u8>, to: Seq<Seq<char>>, chains: Seq<Seq<u8>>) -> Result<
    Seq<Seq<u8>>,
    SmimeError,
> {
    if to.len() != chains.len() {
        Err(SmimeError::MissingCertificates)
    } else if content.len() > MAX_INPUT {
        Err(SmimeError::TooLarge)
    } else {
        recipient_certificates(to, chains, 0)
    }
}

/// The certificates `ders`, then what `rest` says of the recipients behind
/// them.
pub open spec fn with_ders_before(ders: Seq<Seq<u8>>, rest: Result<Seq<Seq<u8>>, SmimeError>) -> Result<
    Seq<Seq<u8>>,
    SmimeError,
> {
    match rest {
        Ok(more) => Ok(ders + more),
        Err(e) => Err(e),
    }
}

/// The certificates for the recipients, or why there are none: there must
/// be one file for each recipient, and in each a certificate for the
/// address.
pub open spec fn recipients_ready(to: Seq<Seq<char>>, chains: Seq<Seq<u8>>) -> Result<
    Seq<Seq<u8>>,
    SmimeError,
> {
    if to.len() != chains.len() {
        Err(SmimeError::MissingCertificates)
    } else {
        recipient_certificates(to, chains, 0)
    }
}

/// Puts the certificate of each recipient on a stack, in the order of the
/// recipients: for each the first certificate of the chain in the
/// recipient's file that is one for the address. Without one file for each
/// recipient it fails at once. Else it fails with the error of the first
/// recipient without a certificate, unless OpenSSL fails before.
pub fn recipient_stack_for(to: &Vec<String>, chains: &Vec<Vec<u8>>) -> (r: Result<
    RecipientStack,
    SmimeError,
>)
    ensures
        match r {
            Ok(s) => recipients_ready(to.deep_view(), chains.deep_view()) == Ok::<_, SmimeError>(
                stack_ders(s),
            ),
            Err(e) => e == SmimeError::Crypto || recipients_ready(
                to.deep_view(),
                chains.deep_view(),
            ) == Err::<Seq<Seq<u8>>, _>(e),
        },
        to@.len() != chains@.len() ==> (r matches Err(e) && e == SmimeError::MissingCertificates),
{
    if to.len() != chains.len() {
        return Err(SmimeError::MissingCertificates);
    }
    let mut recipients = match recipient_stack_new() {
        Ok(s) => s,
        Err(_) => {
            return Err(SmimeError::Crypto);
        },
    };
    let mut i: usize = 0;
    proof {
        lemma_ders_before_nothing(
            recipient_certificates(to.deep_view(), chains.deep_view(), 0),
        );
    }
    while i < to.len()
        invariant
            i <= to@.len(),
            to@.len() == chains@.len(),
            recipient_certificates(to.deep_view(), chains.deep_view(), 0) == with_ders_before(
                stack_ders(recipients),
                recipient_certificates(to.deep_view(), chains.deep_view(), i as int),
            ),
        decreases to@.len() - i,
    {
        assert(to.deep_view()[i as int] == to@[i as int]@);
        assert(chains.deep_view()[i as int] =~= chains@[i as int]@);
        let chain = match load_pem_stack(chains[i].as_slice()) {
            Ok(chain) => chain,
            Err(e) => {
                return Err(e);
            },
        };
        let cert = match find_cert_for_email(&chain, to[i].as_str()) {
            Ok(cert) => cert,
            Err(e) => {
                return Err(e);
            },
        };
        let der = &cert.der;
        let ghost before = stack_ders(recipients);
        proof {
            let k = first_for(chain_view(chain@), to@[i as int]@)->0;
            lemma_first_for_from(chain_view(chain@), to@[i as int]@, 0);
            assert(chain_view(chain@)[k].der == der@);
            assert(recipient_certificate(to.deep_view()[i as int], chains.deep_view()[i as int])
                == Ok::<_, SmimeError>(der@));
            assert(recipient_certificates(to.deep_view(), chains.deep_view(), i as int)
                == with_ders_before(
                seq![der@],
                recipient_certificates(to.deep_view(), chains.deep_view(), i + 1),
            ));
        }
        match recipient_stack_push(&mut recipients, der.as_slice()) {
            Err(_) => {
                return Err(SmimeError::Crypto);
            },
            Ok(pushed) => {
                // what stands on the stack must be the certificate that was found
                if !same_bytes(pushed.as_slice(), der.as_slice()) {
                    return Err(SmimeError::Crypto);
                }
            },
        }
        proof {
            lemma_ders_before_one(
                before,
                der@,
                recipient_certificates(to.deep_view(), chains.deep_view(), i + 1),
            );
        }
        i += 1;
    }
    proof {
        assert(stack_ders(recipients) + Seq::<Seq<u8>>::empty() =~= stack_ders(recipients));
    }
    Ok(recipients)
}

/// With no certificates before, what is said of the recipients stays.
proof fn lemma_ders_before_nothing(rest: Result<Seq<Seq<u8>>, SmimeError>)
    ensures
        with_ders_before(Seq::empty(), rest) == rest,
{
    match rest {
        Ok(more) => {
            assert(Seq::<Seq<u8>>::empty() + more =~= more);
        },
        Err(e) => {},
    }
}

/// The certificates `before`, then one more, then the rest, are `before`
/// with that one, then the rest.
proof fn lemma_ders_before_one(
    before: Seq<Seq<u8>>,
    der: Seq<u8>,
    rest: Result<Seq<Seq<u8>>, SmimeError>,
)
    ensures
        with_ders_before(before, with_ders_before(seq![der], rest)) == with_ders_before(
            before.push(der),
            rest,
        ),
{
    match rest {
        Ok(more) => {
            assert(before + (seq![der] + more) =~= before.push(der) + more);
        },
        Err(e) => {},
    }
}

/// The cipher under which a message is encrypted.
pub const CONTENT_CIPHER: ContentCipher = ContentCipher::Aes256Cbc;

/// How the body of a message is taken: as it is, byte for byte.
pub const CONTENT_FORM: ContentForm = ContentForm::Binary;

/// Encrypts `content` for the holders of the certificates on the stack, as
/// CMS enveloped data under AES-256-CBC with a key drawn for this call. The
/// content is taken as binary. Returns the DER encoding. Content that is
/// longer than OpenSSL takes is refused; else OpenSSL says whether the call
/// succeeds.
pub fn envelope(recipients: &RecipientStack, content: &[u8]) -> (r: Result<Vec<u8>, SmimeError>)
    ensures
        content@.len() > MAX_INPUT ==> r == Err::<Vec<u8>, _>(SmimeError::TooLarge),
        r matches Err(e) ==> e == SmimeError::Crypto || (e == SmimeError::TooLarge
            && content@.len() > MAX_INPUT),
{
    if content.len() > MAX_INPUT {
        return Err(SmimeError::TooLarge);
    }
    match cms_encrypt(recipients, content, CONTENT_CIPHER, CONTENT_FORM) {
        Ok(der) => Ok(der),
        Err(_) => Err(SmimeError::Crypto),
    }
}

/// Encrypts `content` as CMS enveloped data under AES-256-CBC, with a fresh
/// key, for the given recipients. For each recipient `chains` holds, at the
/// same place, the content of the file with the certificate chain for that
/// address; the certificate used is the first of the chain that is one for
/// the address. The content is taken as binary: nothing in it is rewritten
/// before it is encrypted. Returns the DER encoding.
///
/// The call succeeds only with a certificate for each recipient. Where it
/// fails, it fails with the error of the first recipient without a
/// certificate, unless OpenSSL fails before. What is handed to OpenSSL is
/// the stack that `recipient_stack_for` makes of these certificates, and the
/// content.
pub fn encrypt_data(content: &[u8], to: &Vec<String>, chains: &Vec<Vec<u8>>) -> (r: Result<
    Vec<u8>,
    SmimeError,
>)
    ensures
        match r {
            Ok(_) => encryption_ready(content@, to.deep_view(), chains.deep_view()) is Ok,
            Err(e) => e == SmimeError::Crypto || encryption_ready(
                content@,
                to.deep_view(),
                chains.deep_view(),
            ) == Err::<Seq<Seq<u8>>, _>(e),
        },
        to@.len() != chains@.len() ==> r == Err::<Vec<u8>, _>(SmimeError::MissingCertificates),
        to@.len() == chains@.len() && content@.len() > MAX_INPUT ==> r == Err::<Vec<u8>, _>(
            SmimeError::TooLarge,
        ),
{
    if to.len() != chains.len() {
        return Err(SmimeError::MissingCertificates);
    }
    if content.len() > MAX_INPUT {
        return Err(SmimeError::TooLarge);
    }
    match recipient_stack_for(to, chains) {
        Err(e) => Err(e),
        Ok(recipients) => envelope(&recipients, content),
    }
}

} // verus!
