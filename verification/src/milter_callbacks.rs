//! The decisions of a milter session. Each event of the protocol is
//! answered by one function, which takes the session context and says how
//! to go on; whatever has to be read, written or sent is done by the caller.

use crate::address::{
    extract_email, extracted,
};
use crate::buffer::{
    buffer_bytes, buffer_slice,
};
use crate::encoding::{
    base64_decode, base64_decoding, base64_encode, base64_encoding, base64_len, lossy_text,
    text_of_bytes,
};
use crate::mime_parser::{
    body_of, content_type_name, get_content_type, header_value, lemma_container_view, Container,
    Header, MimeContainer, containers_view,
};
use crate::smime::{
    chain_view, encrypt_data, encryption_ready, extract_certificates_from_p7s, find_cert_for_email,
    first_for, pem_file, pem_file_name, pem_of, signature_chain, write_pem_stack, Certificate,
    CertificateModel, SmimeError,
};
use crate::text::{
    chars_of, eq_ignore_case, find, find_chars, lowered, lowered_chars, same_ignoring_case,
};
use crate::wrap::{
    wrap_bytes_crlf, wrapped, wrapped_len,
};
use bytes::BytesMut;
use vstd::prelude::*;
use vstd::string::StringExecFns;

verus! {

/// What is done to a message.
#[derive(Debug, Clone, Copy, PartialEq, Eq, Structural)]
pub enum MilterAction {
    /// The sender is ours: the message is encrypted for its recipients.
    Encrypt,
    /// A recipient is ours: the certificates of a signed message are kept.
    ExtractKeys,
}

/// How the mail server is to go on with a message.
#[derive(Debug, Clone, Copy, PartialEq, Eq, Structural)]
pub enum Status {
    /// Go on with the next event.
    Continue,
    /// Take the message as it is now; no further events are needed.
    Accept,
    /// Refuse the message.
    Reject,
}

/// Context to carry across the steps.
pub struct MilterContext {
    action: Option<MilterAction>,
    sender: String,
    recipients: Vec<String>,
    queue_id: Option<String>,
    headers: Vec<(String, String)>,
    body: BytesMut,
}

/// What a `MilterContext` stands for.
pub struct Session {
    pub action: Option<MilterAction>,
    pub sender: Seq<char>,
    pub recipients: Seq<Seq<char>>,
    pub queue_id: Option<Seq<char>>,
    pub headers: Seq<Header>,
    pub body: Seq<u8>,
}

/// Whether `name` is the name of one of the four headers that describe the
/// content of a message, whatever the case of its letters.
pub open spec fn envelope_header(name: Seq<char>) -> bool {
    ||| same_ignoring_case(name, "MIME-Version"@)
    ||| same_ignoring_case(name, "Content-Type"@)
    ||| same_ignoring_case(name, "Content-Transfer-Encoding"@)
    ||| same_ignoring_case(name, "Content-Disposition"@)
}

/// Whether every header of the list is one of the four content headers.
pub open spec fn envelope_only(headers: Seq<Header>) -> bool {
    forall|i: int| 0 <= i < headers.len() ==> envelope_header(#[trigger] headers[i].0)
}

/// The text of each string of a list.
pub open spec fn texts(list: Seq<String>) -> Seq<Seq<char>> {
    Seq::new(list.len(), |i: int| list[i]@)
}

impl View for MilterContext {
    type V = Session;

    closed spec fn view(&self) -> Session {
        Session {
            action: self.action,
            sender: self.sender@,
            recipients: texts(self.recipients@),
            queue_id: match self.queue_id {
                Some(id) => Some(id@),
                None => None,
            },
            headers: self.headers.deep_view(),
            body: buffer_bytes(self.body),
        }
    }
}

/// What a session, if there is one, stands for.
pub open spec fn session_of(context: Option<MilterContext>) -> Option<Session> {
    match context {
        Some(c) => Some(c@),
        None => None,
    }
}

/// A session as it begins: the sender is known, nothing else is.
pub open spec fn new_session(sender: Seq<char>) -> Session {
    Session {
        action: None,
        sender,
        recipients: Seq::empty(),
        queue_id: None,
        headers: Seq::empty(),
        body: Seq::empty(),
    }
}

/// Whether the entry of the list of addresses that we answer for is the
/// address of one of the recipients, whatever the case of its letters.
pub open spec fn names_recipient(entry: Seq<char>, recipients: Seq<Seq<char>>) -> bool {
    exists|i: int| 0 <= i < recipients.len() && same_ignoring_case(#[trigger] recipients[i], entry)
}

/// Whether one of the addresses that we answer for is the sender, whatever
/// the case of its letters.
pub open spec fn answers_for_sender(responsible: Seq<Seq<char>>, sender: Seq<char>) -> bool {
    exists|i: int|
        0 <= i < responsible.len() && same_ignoring_case(#[trigger] responsible[i], sender)
}

/// Whether one of the addresses that we answer for is one of the
/// recipients.
pub open spec fn answers_for_recipient(
    responsible: Seq<Seq<char>>,
    recipients: Seq<Seq<char>>,
) -> bool {
    exists|i: int|
        0 <= i < responsible.len() && names_recipient(#[trigger] responsible[i], recipients)
}

/// The action for a message. Where we answer for the sender the message is
/// encrypted, also where we answer for a recipient too. Else, where we
/// answer for a recipient, the certificates are kept. Else there is none.
pub open spec fn chosen_action(
    responsible: Seq<Seq<char>>,
    sender: Seq<char>,
    recipients: Seq<Seq<char>>,
) -> Option<MilterAction> {
    if answers_for_sender(responsible, sender) {
        Some(MilterAction::Encrypt)
    } else if answers_for_recipient(responsible, recipients) {
        Some(MilterAction::ExtractKeys)
    } else {
        None
    }
}

/// The session after a header, and the answer to the header. The action is
/// decided at the first header. Where we answer for neither the sender nor a
/// recipient the message is accepted as it is. Else the header is kept if it
/// is one of the four content headers.
pub open spec fn header_step(
    s: Session,
    name: Seq<char>,
    value: Seq<char>,
    responsible: Seq<Seq<char>>,
) -> (Session, Status) {
    let action = if s.action is Some {
        s.action
    } else {
        chosen_action(responsible, s.sender, s.recipients)
    };
    if action is None {
        (s, Status::Accept)
    } else {
        (
            Session {
                action,
                headers: if envelope_header(name) {
                    s.headers.push((name, value))
                } else {
                    s.headers
                },
                ..s
            },
            Status::Continue,
        )
    }
}

/// A change to the headers of a message that the mail server is asked for.
#[derive(Debug, Clone, PartialEq, Eq)]
pub enum HeaderChange {
    /// Give the header of this name, at this place among the headers of that
    /// name, counted from 1, this value.
    Change { name: String, index: u32, value: String },
    /// Add a header.
    Add { name: String, value: String },
}

/// What a `HeaderChange` stands for.
pub enum HeaderChangeModel {
    Change { name: Seq<char>, index: u32, value: Seq<char> },
    Add { name: Seq<char>, value: Seq<char> },
}

impl View for HeaderChange {
    type V = HeaderChangeModel;

    open spec fn view(&self) -> HeaderChangeModel {
        match self {
            HeaderChange::Change { name, index, value } => HeaderChangeModel::Change {
                name: name@,
                index: *index,
                value: value@,
            },
            HeaderChange::Add { name, value } => HeaderChangeModel::Add {
                name: name@,
                value: value@,
            },
        }
    }
}

/// What a list of changes stands for.
pub open spec fn changes_view(changes: Seq<HeaderChange>) -> Seq<HeaderChangeModel> {
    Seq::new(changes.len(), |i: int| changes[i]@)
}

/// The first header of the list whose name is `name`, whatever the case of
/// its letters.
pub open spec fn first_named(headers: Seq<Header>, name: Seq<char>) -> Option<Header>
    decreases headers.len(),
{
    if headers.len() == 0 {
        None
    } else if same_ignoring_case(headers[0].0, name) {
        Some(headers[0])
    } else {
        first_named(headers.drop_first(), name)
    }
}

/// The change that brings about one wanted header: none where the first
/// header of that name has the wanted value already, a change of that header
/// where its value differs, and a new header where there is none of that
/// name.
pub open spec fn change_for(current: Seq<Header>, wanted: Header) -> Option<HeaderChangeModel> {
    match first_named(current, wanted.0) {
        Some(found) => if found.1 != wanted.1 {
            Some(HeaderChangeModel::Change { name: found.0, index: 1, value: wanted.1 })
        } else {
            None
        },
        None => Some(HeaderChangeModel::Add { name: wanted.0, value: wanted.1 }),
    }
}

/// The changes that bring about the wanted headers, in their order.
pub open spec fn header_changes(current: Seq<Header>, wanted: Seq<Header>) -> Seq<
    HeaderChangeModel,
>
    decreases wanted.len(),
{
    if wanted.len() == 0 {
        Seq::empty()
    } else {
        let before = header_changes(current, wanted.drop_last());
        match change_for(current, wanted.last()) {
            Some(change) => before.push(change),
            None => before,
        }
    }
}

/// The headers of an encrypted message.
pub open spec fn rewrite_set() -> Seq<Header> {
    seq![
        ("MIME-Version"@, "1.0"@),
        (
            "Content-Type"@,
            "application/pkcs7-mime; name=smime.p7m; smime-type=enveloped-data"@,
        ),
        ("Content-Transfer-Encoding"@, "base64"@),
        ("Content-Disposition"@, "attachment; filename=smime.p7m"@),
    ]
}

/// The name of the header that says what was done to a message.
pub const NOTE_HEADER: &'static str = "X-PANTOSMIME";

/// What that header says of an encrypted message.
pub const ENCRYPTED_NOTE: &'static str = "Successfully encrypted plain-text message. Yay!";

/// What that header says of a message whose certificates were kept.
pub const EXTRACTED_NOTE: &'static str = "Successfully extracted signature and certificate chain. Yay!";

/// The width at which the encoded body is wrapped.
pub const WRAP_WIDTH: usize = 76;

/// The name of the macro by which the mail server hands over the queue
/// identifier of a message.
pub const QUEUE_ID_MACRO: &'static str = "i";

/// What stands for a queue identifier that is not known.
pub const NO_QUEUE_ID: &'static str = "<none>";

/// A stage of the protocol at which macros can be asked for.
#[derive(Debug, Clone, Copy, PartialEq, Eq, Structural)]
pub enum MacroStage {
    Mail,
    Rcpt,
    Eoh,
    Data,
    Eom,
}

/// What is asked of the mail server when a connection begins.
#[derive(Debug, Clone, PartialEq, Eq)]
pub struct Negotiation {
    /// Headers may be added.
    pub add_header: bool,
    /// Headers may be changed.
    pub change_header: bool,
    /// The body may be replaced.
    pub replace_body: bool,
    /// The stages at which the queue identifier is asked for.
    pub queue_id_stages: Vec<MacroStage>,
}

/// Whether `name` is the name of one of the four content headers.
pub fn is_envelope_header(name: &str) -> (r: bool)
    ensures
        r == envelope_header(name@),
{
    eq_ignore_case(name, "MIME-Version") || eq_ignore_case(name, "Content-Type")
        || eq_ignore_case(name, "Content-Transfer-Encoding") || eq_ignore_case(
        name,
        "Content-Disposition",
    )
}

/// Whether `entry` is the address of one of the recipients.
fn is_recipient(entry: &str, recipients: &Vec<String>) -> (r: bool)
    ensures
        r == names_recipient(entry@, texts(recipients@)),
{
    let mut i: usize = 0;
    while i < recipients.len()
        invariant
            i <= recipients@.len(),
            forall|k: int|
                0 <= k < i ==> !same_ignoring_case(#[trigger] texts(recipients@)[k], entry@),
        decreases recipients@.len() - i,
    {
        if eq_ignore_case(recipients[i].as_str(), entry) {
            assert(same_ignoring_case(texts(recipients@)[i as int], entry@));
            return true;
        }
        i += 1;
    }
    false
}

/// Decides what is done to a message.
pub fn choose_action(responsible: &Vec<String>, sender: &str, recipients: &Vec<String>) -> (r:
    Option<MilterAction>)
    ensures
        r == chosen_action(texts(responsible@), sender@, texts(recipients@)),
{
    let mut i: usize = 0;
    while i < responsible.len()
        invariant
            i <= responsible@.len(),
            forall|k: int|
                0 <= k < i ==> !same_ignoring_case(#[trigger] texts(responsible@)[k], sender@),
        decreases responsible@.len() - i,
    {
        if eq_ignore_case(responsible[i].as_str(), sender) {
            assert(same_ignoring_case(texts(responsible@)[i as int], sender@));
            return Some(MilterAction::Encrypt);
        }
        i += 1;
    }
    let mut j: usize = 0;
    while j < responsible.len()
        invariant
            j <= responsible@.len(),
            !answers_for_sender(texts(responsible@), sender@),
            forall|k: int|
                0 <= k < j ==> !names_recipient(
                    #[trigger] texts(responsible@)[k],
                    texts(recipients@),
                ),
        decreases responsible@.len() - j,
    {
        if is_recipient(responsible[j].as_str(), recipients) {
            assert(names_recipient(texts(responsible@)[j as int], texts(recipients@)));
            return Some(MilterAction::ExtractKeys);
        }
        j += 1;
    }
    None
}

/// The capabilities that a session needs: to add headers, to change headers
/// and to replace the body; and the stages at which it wants to learn the
/// queue identifier.
pub fn on_negotiate() -> (r: (Negotiation, Status))
    ensures
        r.0.add_header && r.0.change_header && r.0.replace_body,
        r.0.queue_id_stages@ == seq![
            MacroStage::Mail,
            MacroStage::Rcpt,
            MacroStage::Eoh,
            MacroStage::Data,
            MacroStage::Eom,
        ],
        r.1 == Status::Continue,
{
    let stages = vec![
        MacroStage::Mail,
        MacroStage::Rcpt,
        MacroStage::Eoh,
        MacroStage::Data,
        MacroStage::Eom,
    ];
    (
        Negotiation {
            add_header: true,
            change_header: true,
            replace_body: true,
            queue_id_stages: stages,
        },
        Status::Continue,
    )
}

impl MilterContext {
    /// What holds of every context: the sender is not empty, and only content
    /// headers are kept.
    #[verifier::type_invariant]
    closed spec fn well_formed(self) -> bool {
        &&& self.sender@.len() > 0
        &&& envelope_only(self.headers.deep_view())
    }

    /// The action, once it is decided.
    pub fn action(&self) -> (r: Option<MilterAction>)
        ensures
            r == self@.action,
    {
        self.action
    }

    /// The address of the sender, which is never empty.
    pub fn sender(&self) -> (r: &str)
        ensures
            r@ == self@.sender,
            r@.len() > 0,
    {
        proof {
            use_type_invariant(self);
        }
        self.sender.as_str()
    }

    /// The addresses of the recipients, in the order in which they came.
    pub fn recipients(&self) -> (r: &Vec<String>)
        ensures
            texts(r@) == self@.recipients,
    {
        &self.recipients
    }

    /// The queue identifier, once it is known.
    pub fn queue_id(&self) -> (r: Option<&str>)
        ensures
            match r {
                Some(id) => self@.queue_id == Some(id@),
                None => self@.queue_id is None,
            },
    {
        match &self.queue_id {
            Some(id) => Some(id.as_str()),
            None => None,
        }
    }

    /// The headers that were kept, in the order in which they came. Each is
    /// one of the four content headers.
    pub fn headers(&self) -> (r: &Vec<(String, String)>)
        ensures
            r.deep_view() == self@.headers,
            envelope_only(r.deep_view()),
    {
        proof {
            use_type_invariant(self);
        }
        &self.headers
    }

    /// The body as far as it has come.
    pub fn body(&self) -> (r: &[u8])
        ensures
            r@ == self@.body,
    {
        buffer_slice(&self.body)
    }
}

/// The queue identifier of the session for the log. The first identifier
/// that the mail server hands over is kept for the session; where there is
/// no session, or none was handed over yet, `<none>` stands for it.
pub fn try_get_queue_id(queue_macro: Option<&str>, context: &mut Option<MilterContext>) -> (r:
    String)
    ensures
        match session_of(*old(context)) {
            None => session_of(*final(context)) is None && r@ == NO_QUEUE_ID@,
            Some(s) => {
                let id = match s.queue_id {
                    Some(id) => Some(id),
                    None => match queue_macro {
                        Some(m) => Some(m@),
                        None => None,
                    },
                };
                &&& session_of(*final(context)) == Some(Session { queue_id: id, ..s })
                &&& r@ == match id {
                    Some(id) => id,
                    None => NO_QUEUE_ID@,
                }
            },
        },
{
    match context.take() {
        None => String::from_str(NO_QUEUE_ID),
        Some(ctx) => {
            proof {
                use_type_invariant(&ctx);
            }
            let mut ctx = ctx;
            if ctx.queue_id.is_none() {
                ctx.queue_id = match queue_macro {
                    Some(m) => Some(String::from_str(m)),
                    None => None,
                };
            }
            let r = match &ctx.queue_id {
                Some(id) => id.clone(),
                None => String::from_str(NO_QUEUE_ID),
            };
            *context = Some(ctx);
            r
        },
    }
}

/// The sender is announced. Where the first argument holds an address a
/// session begins with it; else the message is refused.
pub fn on_mail(context: &mut Option<MilterContext>, args: &Vec<String>) -> (r: Status)
    ensures
        match (
            if args@.len() > 0 {
                extracted(args@[0]@)
            } else {
                None
            }
        ) {
            Some(sender) => r == Status::Continue && session_of(*final(context)) == Some(
                new_session(sender),
            ),
            None => r == Status::Reject && *final(context) == *old(context),
        },
{
    if args.len() == 0 {
        return Status::Reject;
    }
    match extract_email(args[0].as_str()) {
        None => Status::Reject,
        Some(mail) => {
            let sender = String::from_str(mail);
            proof {
                crate::address::lemma_extracted_not_empty(args@[0]@);
            }
            let ctx = MilterContext {
                action: None,
                sender,
                recipients: Vec::new(),
                queue_id: None,
                headers: Vec::new(),
                body: BytesMut::new(),
            };
            assert(ctx@.recipients =~= Seq::<Seq<char>>::empty());
            assert(ctx@.headers =~= Seq::<Header>::empty());
            *context = Some(ctx);
            Status::Continue
        },
    }
}

/// A recipient is announced. Where there is a session and the first
/// argument holds an address, the address is added to the recipients; else
/// the message is refused.
pub fn on_rcpt(context: &mut Option<MilterContext>, args: &Vec<String>) -> (r: Status)
    ensures
        match (
            session_of(*old(context)),
            if args@.len() > 0 {
                extracted(args@[0]@)
            } else {
                None
            },
        ) {
            (Some(s), Some(recipient)) => r == Status::Continue && session_of(*final(context))
                == Some(Session { recipients: s.recipients.push(recipient), ..s }),
            _ => r == Status::Reject && session_of(*final(context)) == session_of(*old(context)),
        },
{
    if args.len() == 0 {
        return Status::Reject;
    }
    match context.take() {
        None => Status::Reject,
        Some(ctx) => {
            proof {
                use_type_invariant(&ctx);
            }
            let mut ctx = ctx;
            match extract_email(args[0].as_str()) {
                None => {
                    *context = Some(ctx);
                    Status::Reject
                },
                Some(mail) => {
                    let ghost before = ctx@;
                    let MilterContext { action, sender, recipients, queue_id, headers, body } = ctx;
                    let mut recipients = recipients;
                    recipients.push(String::from_str(mail));
                    let ctx = MilterContext { action, sender, recipients, queue_id, headers, body };
                    assert(ctx@.recipients =~= before.recipients.push(mail@));
                    *context = Some(ctx);
                    Status::Continue
                },
            }
        },
    }
}

/// A header comes. Without a session the message is refused. At the first
/// header the action is decided; where we answer for neither the sender nor
/// a recipient, the message is accepted as it is. The header is kept if it
/// is one of the four content headers.
pub fn on_header(
    context: &mut Option<MilterContext>,
    name: &str,
    value: &str,
    responsible: &Vec<String>,
) -> (r: Status)
    ensures
        match session_of(*old(context)) {
            None => r == Status::Reject && session_of(*final(context)) is None,
            Some(s) => (session_of(*final(context))->0, r) == header_step(
                s,
                name@,
                value@,
                texts(responsible@),
            ) && session_of(*final(context)) is Some,
        },
{
    match context.take() {
        None => Status::Reject,
        Some(ctx) => {
            proof {
                use_type_invariant(&ctx);
            }
            let mut ctx = ctx;
            if ctx.action.is_none() {
                match choose_action(responsible, ctx.sender.as_str(), &ctx.recipients) {
                    Some(action) => {
                        ctx.action = Some(action);
                    },
                    None => {
                        *context = Some(ctx);
                        return Status::Accept;
                    },
                }
            }
            if is_envelope_header(name) {
                let ghost kept = ctx.headers.deep_view();
                proof {
                    let more = kept.push((name@, value@));
                    assert forall|i: int| 0 <= i < more.len() implies envelope_header(
                        #[trigger] more[i].0,
                    ) by {
                        if i < kept.len() {
                            assert(more[i] == kept[i]);
                        }
                    }
                }
                let MilterContext { action, sender, recipients, queue_id, headers, body } = ctx;
                let mut headers = headers;
                headers.push((String::from_str(name), String::from_str(value)));
                assert(headers.deep_view() =~= kept.push((name@, value@)));
                ctx = MilterContext { action, sender, recipients, queue_id, headers, body };
            }
            *context = Some(ctx);
            Status::Continue
        },
    }
}

/// The headers are over. A session that kept at least one content header
/// goes on; else the message is refused.
pub fn on_eoh(context: &Option<MilterContext>) -> (r: Status)
    ensures
        r == match session_of(*context) {
            Some(s) => if s.headers.len() > 0 {
                Status::Continue
            } else {
                Status::Reject
            },
            None => Status::Reject,
        },
{
    match context {
        Some(ctx) => {
            if ctx.headers.len() == 0 {
                Status::Reject
            } else {
                Status::Continue
            }
        },
        None => Status::Reject,
    }
}

/// A piece of the body comes and is added to the body of the session. A
/// message without a session is refused, and so is one whose body would be
/// longer than this machine can hold.
pub fn on_body(context: &mut Option<MilterContext>, data: &[u8]) -> (r: Status)
    ensures
        match session_of(*old(context)) {
            Some(s) => if s.body.len() + data@.len() <= usize::MAX {
                r == Status::Continue && session_of(*final(context)) == Some(
                    Session { body: s.body + data@, ..s },
                )
            } else {
                r == Status::Reject && session_of(*final(context)) == Some(s)
            },
            None => r == Status::Reject && session_of(*final(context)) is None,
        },
{
    match context.take() {
        None => Status::Reject,
        Some(ctx) => {
            proof {
                use_type_invariant(&ctx);
            }
            let mut ctx = ctx;
            if data.len() > usize::MAX - ctx.body.len() {
                *context = Some(ctx);
                return Status::Reject;
            }
            let MilterContext { action, sender, recipients, queue_id, headers, body } = ctx;
            let mut body = body;
            body.extend_from_slice(data);
            *context = Some(MilterContext { action, sender, recipients, queue_id, headers, body });
            Status::Continue
        },
    }
}

/// The changes that give the message the wanted headers: for each wanted
/// header in turn, a change of the first kept header of that name where its
/// value differs, or a new header where none of that name was kept. Kept
/// headers that are not wanted stay.
pub fn update_headers(ctx: &MilterContext, new_headers: &Vec<(String, String)>) -> (r: Vec<
    HeaderChange,
>)
    ensures
        changes_view(r@) == header_changes(ctx@.headers, new_headers.deep_view()),
{
    let mut changes: Vec<HeaderChange> = Vec::new();
    let mut i: usize = 0;
    assert(new_headers.deep_view().take(0) =~= Seq::<Header>::empty());
    assert(changes_view(changes@) =~= Seq::<HeaderChangeModel>::empty());
    while i < new_headers.len()
        invariant
            i <= new_headers@.len(),
            changes_view(changes@) == header_changes(
                ctx@.headers,
                new_headers.deep_view().take(i as int),
            ),
        decreases new_headers@.len() - i,
    {
        let ghost before = changes_view(changes@);
        proof {
            let next = new_headers.deep_view().take(i + 1);
            assert(next.drop_last() =~= new_headers.deep_view().take(i as int));
            assert(next.last() == new_headers.deep_view()[i as int]);
        }
        let key = new_headers[i].0.as_str();
        let value = new_headers[i].1.as_str();
        match find_named(&ctx.headers, key) {
            Some(at) => {
                if !str_eq(ctx.headers[at].1.as_str(), value) {
                    changes.push(
                        HeaderChange::Change {
                            name: ctx.headers[at].0.clone(),
                            index: 1,
                            value: String::from_str(value),
                        },
                    );
                    assert(changes_view(changes@) =~= before.push(
                        HeaderChangeModel::Change {
                            name: ctx@.headers[at as int].0,
                            index: 1,
                            value: value@,
                        },
                    ));
                }
            },
            None => {
                changes.push(
                    HeaderChange::Add { name: String::from_str(key), value: String::from_str(value) },
                );
                assert(changes_view(changes@) =~= before.push(
                    HeaderChangeModel::Add { name: key@, value: value@ },
                ));
            },
        }
        i += 1;
    }
    assert(new_headers.deep_view().take(new_headers@.len() as int) =~= new_headers.deep_view());
    changes
}

/// Whether two texts are the same.
fn str_eq(a: &str, b: &str) -> (r: bool)
    ensures
        r == (a@ == b@),
{
    let x = a.to_owned();
    let y = b.to_owned();
    x == y
}

/// The place of the first header of the list whose name is `name`.
fn find_named(headers: &Vec<(String, String)>, name: &str) -> (r: Option<usize>)
    ensures
        match r {
            Some(i) => i < headers@.len() && first_named(headers.deep_view(), name@) == Some(
                headers.deep_view()[i as int],
            ),
            None => first_named(headers.deep_view(), name@) is None,
        },
{
    let mut i: usize = 0;
    assert(headers.deep_view().skip(0) =~= headers.deep_view());
    while i < headers.len()
        invariant
            i <= headers@.len(),
            first_named(headers.deep_view(), name@) == first_named(
                headers.deep_view().skip(i as int),
                name@,
            ),
        decreases headers@.len() - i,
    {
        proof {
            let rest = headers.deep_view().skip(i as int);
            assert(rest[0] == headers.deep_view()[i as int]);
            assert(rest.drop_first() =~= headers.deep_view().skip(i + 1));
        }
        if eq_ignore_case(headers[i].0.as_str(), name) {
            return Some(i);
        }
        i += 1;
    }
    None
}

/// The headers of an encrypted message.
pub fn new_headers() -> (r: Vec<(String, String)>)
    ensures
        r.deep_view() == rewrite_set(),
{
    let r = vec![
        (String::from_str("MIME-Version"), String::from_str("1.0")),
        (
            String::from_str("Content-Type"),
            String::from_str("application/pkcs7-mime; name=smime.p7m; smime-type=enveloped-data"),
        ),
        (String::from_str("Content-Transfer-Encoding"), String::from_str("base64")),
        (String::from_str("Content-Disposition"), String::from_str("attachment; filename=smime.p7m")),
    ];
    assert(r.deep_view() =~= rewrite_set());
    r
}

/// Whether the content type names `what`, whatever the case of its letters.
/// `what` is written in lower case.
pub open spec fn mentions(content_type: Seq<char>, what: Seq<char>) -> bool {
    find(lowered(content_type), what) is Some
}

/// Whether a container says of itself that it is a signed message.
pub open spec fn signed_message(c: Container) -> bool {
    match header_value(c.headers, content_type_name()) {
        Some(ct) => mentions(ct, "multipart/signed"@),
        None => false,
    }
}

/// Whether a part says of itself that it is a PKCS#7 signature.
pub open spec fn signature_part(part: Container) -> bool {
    match header_value(part.headers, content_type_name()) {
        Some(ct) => mentions(ct, "application/pkcs7-signature"@) || mentions(
            ct,
            "application/x-pkcs7-signature"@,
        ),
        None => false,
    }
}

/// The place of the first signature part among `parts`, from `from` on.
pub open spec fn signature_from(parts: Seq<Container>, from: int) -> Option<int>
    decreases parts.len() - from,
{
    if from < 0 || from >= parts.len() {
        None
    } else if signature_part(parts[from]) {
        Some(from)
    } else {
        signature_from(parts, from + 1)
    }
}

/// The white space of ASCII: space, tab, line feed, form feed and carriage
/// return.
pub open spec fn ascii_whitespace(c: char) -> bool {
    c == ' ' || c == '\t' || c == '\n' || c == '\x0c' || c == '\r'
}

/// The characters of `s` that are no ASCII white space, as bytes; nothing
/// where one of them is no ASCII character.
pub open spec fn compact_ascii(s: Seq<char>) -> Option<Seq<u8>>
    decreases s.len(),
{
    if s.len() == 0 {
        Some(Seq::empty())
    } else {
        match compact_ascii(s.drop_last()) {
            None => None,
            Some(before) => if ascii_whitespace(s.last()) {
                Some(before)
            } else if (s.last() as u32) < 128 {
                Some(before.push(s.last() as u8))
            } else {
                None
            },
        }
    }
}

/// The signature that a message carries.
#[derive(Debug, Clone, PartialEq, Eq)]
pub enum Signature {
    /// The message does not say that it is signed.
    NotSigned,
    /// The message says that it is signed, and has no signature part.
    Missing,
    /// The signature part holds what cannot be base64 text.
    Unreadable,
    /// The text of the signature part, without white space.
    Text(Vec<u8>),
}

/// What a `Signature` stands for.
pub enum SignatureModel {
    NotSigned,
    Missing,
    Unreadable,
    Text(Seq<u8>),
}

impl View for Signature {
    type V = SignatureModel;

    open spec fn view(&self) -> SignatureModel {
        match self {
            Signature::NotSigned => SignatureModel::NotSigned,
            Signature::Missing => SignatureModel::Missing,
            Signature::Unreadable => SignatureModel::Unreadable,
            Signature::Text(t) => SignatureModel::Text(t@),
        }
    }
}

/// The signature of a message: that of the first part that says that it is a
/// PKCS#7 signature, where the message says that it is signed.
pub open spec fn signature_of(c: Container) -> SignatureModel {
    if !signed_message(c) {
        SignatureModel::NotSigned
    } else {
        match signature_from(c.parts, 0) {
            None => SignatureModel::Missing,
            Some(i) => match compact_ascii(c.parts[i].body) {
                None => SignatureModel::Unreadable,
                Some(text) => SignatureModel::Text(text),
            },
        }
    }
}

/// Whether the content type names `what`.
fn content_type_mentions(content_type: &str, what: &str) -> (r: bool)
    ensures
        r == mentions(content_type@, what@),
{
    let cs = chars_of(content_type);
    let low = lowered_chars(cs.as_slice());
    let pat = chars_of(what);
    find_chars(low.as_slice(), pat.as_slice(), 0).is_some()
}

/// Whether a part says of itself that it is a PKCS#7 signature.
fn is_signature_part(part: &MimeContainer) -> (r: bool)
    ensures
        r == signature_part(part@),
{
    proof {
        lemma_container_view(*part);
    }
    match get_content_type(&part.headers) {
        Some(ct) => content_type_mentions(ct.as_str(), "application/pkcs7-signature")
            || content_type_mentions(ct.as_str(), "application/x-pkcs7-signature"),
        None => false,
    }
}

/// The characters of `s` that are no ASCII white space, as bytes.
fn compact(s: &str) -> (r: Option<Vec<u8>>)
    ensures
        match r {
            Some(b) => compact_ascii(s@) == Some(b@),
            None => compact_ascii(s@) is None,
        },
{
    let cs = chars_of(s);
    let mut out: Vec<u8> = Vec::new();
    let mut i: usize = 0;
    assert(cs@.take(0) =~= Seq::<char>::empty());
    while i < cs.len()
        invariant
            i <= cs@.len(),
            cs@ == s@,
            compact_ascii(cs@.take(i as int)) == Some(out@),
        decreases cs@.len() - i,
    {
        let c = cs[i];
        proof {
            let next = cs@.take(i + 1);
            assert(next.drop_last() =~= cs@.take(i as int));
            assert(next.last() == c);
        }
        if c == ' ' || c == '\t' || c == '\n' || c == '\x0c' || c == '\r' {
        } else if (c as u32) < 128 {
            out.push(c as u8);
        } else {
            proof {
                lemma_compact_ascii_fails(cs@, i + 1);
            }
            return None;
        }
        i += 1;
    }
    assert(cs@.take(cs@.len() as int) =~= cs@);
    Some(out)
}

/// Where a front piece of a text cannot be made into bytes, the text cannot.
proof fn lemma_compact_ascii_fails(s: Seq<char>, n: int)
    requires
        0 <= n <= s.len(),
        compact_ascii(s.take(n)) is None,
    ensures
        compact_ascii(s) is None,
    decreases s.len() - n,
{
    if n < s.len() {
        let next = s.take(n + 1);
        assert(next.drop_last() =~= s.take(n));
        lemma_compact_ascii_fails(s, n + 1);
    } else {
        assert(s.take(n) =~= s);
    }
}

/// Finds the signature that a message carries.
pub fn find_signature(container: &MimeContainer) -> (r: Signature)
    ensures
        r@ == signature_of(container@),
{
    proof {
        lemma_container_view(*container);
    }
    let signed = match get_content_type(&container.headers) {
        Some(ct) => content_type_mentions(ct.as_str(), "multipart/signed"),
        None => false,
    };
    if !signed {
        return Signature::NotSigned;
    }
    let mut i: usize = 0;
    while i < container.parts.len()
        invariant
            i <= container.parts@.len(),
            container@.parts == containers_view(container.parts@),
            signed_message(container@),
            signature_from(container@.parts, 0) == signature_from(container@.parts, i as int),
        decreases container.parts@.len() - i,
    {
        proof {
            lemma_container_view(container.parts@[i as int]);
            assert(container@.parts[i as int] == container.parts@[i as int]@);
        }
        if is_signature_part(&container.parts[i]) {
            return match compact(container.parts[i].body.as_str()) {
                Some(text) => Signature::Text(text),
                None => Signature::Unreadable,
            };
        }
        i += 1;
    }
    Signature::Missing
}

/// What is to be done at the end of a message.
#[derive(Debug, Clone, PartialEq, Eq)]
pub enum EomPlan {
    /// Refuse the message.
    Reject,
    /// Take the message as it is.
    Accept,
    /// Read these files of the certificate directory, one for each
    /// recipient, and have the message encrypted with their content.
    LoadCertificates { files: Vec<String> },
    /// Write this certificate chain to this file of the certificate
    /// directory, then add the note that says so and take the message.
    StoreChain { file: String, pem: Vec<u8> },
}

/// What an `EomPlan` stands for.
pub enum EomPlanModel {
    Reject,
    Accept,
    LoadCertificates { files: Seq<Seq<char>> },
    StoreChain { file: Seq<char>, pem: Seq<u8> },
}

impl View for EomPlan {
    type V = EomPlanModel;

    open spec fn view(&self) -> EomPlanModel {
        match self {
            EomPlan::Reject => EomPlanModel::Reject,
            EomPlan::Accept => EomPlanModel::Accept,
            EomPlan::LoadCertificates { files } => EomPlanModel::LoadCertificates {
                files: files.deep_view(),
            },
            EomPlan::StoreChain { file, pem } => EomPlanModel::StoreChain {
                file: file@,
                pem: pem@,
            },
        }
    }
}

/// What is done with the certificates of a signed message: where one of
/// them is for the sender, the whole chain is stored under the sender's
/// name; else the message is refused.
pub open spec fn store_plan_of(chain: Seq<CertificateModel>, sender: Seq<char>) -> EomPlanModel {
    if first_for(chain, sender) is None {
        EomPlanModel::Reject
    } else {
        match pem_of(chain, chain.len()) {
            Some(pem) => EomPlanModel::StoreChain { file: pem_file(sender), pem },
            None => EomPlanModel::Reject,
        }
    }
}

/// What is done with a message whose certificates are to be kept. It is
/// refused where its body is no MIME container, and taken as it is where it
/// does not say that it is signed. Else the signature part must be there,
/// hold base64 text, and that a PKCS#7 signature with a certificate for the
/// sender.
pub open spec fn harvest_plan(s: Session) -> EomPlanModel {
    match body_of(lossy_text(s.body), s.headers) {
        Err(_) => EomPlanModel::Reject,
        Ok((_, c)) => match signature_of(c) {
            SignatureModel::NotSigned => EomPlanModel::Accept,
            SignatureModel::Missing => EomPlanModel::Reject,
            SignatureModel::Unreadable => EomPlanModel::Reject,
            SignatureModel::Text(text) => match base64_decoding(text) {
                None => EomPlanModel::Reject,
                Some(der) => match signature_chain(der) {
                    Err(_) => EomPlanModel::Reject,
                    Ok(chain) => store_plan_of(chain, s.sender),
                },
            },
        },
    }
}

/// What the end of a message asks for. Without an action the message is
/// refused. A message to encrypt needs the certificate file of each
/// recipient, which is named by the address.
pub open spec fn eom_plan(s: Session) -> EomPlanModel {
    match s.action {
        None => EomPlanModel::Reject,
        Some(MilterAction::Encrypt) => EomPlanModel::LoadCertificates {
            files: Seq::new(s.recipients.len(), |i: int| pem_file(s.recipients[i])),
        },
        Some(MilterAction::ExtractKeys) => harvest_plan(s),
    }
}

/// Decides what is done with the certificates of a signed message.
pub fn store_plan(chain: &Vec<Certificate>, sender: &str) -> (r: EomPlan)
    ensures
        r@ == store_plan_of(chain_view(chain@), sender@),
{
    match find_cert_for_email(chain, sender) {
        Err(_) => EomPlan::Reject,
        Ok(_) => match write_pem_stack(chain) {
            Err(_) => EomPlan::Reject,
            Ok(pem) => EomPlan::StoreChain { file: pem_file_name(sender), pem },
        },
    }
}

/// The message is over. Says what is to be done with it.
pub fn on_eom(context: &Option<MilterContext>) -> (r: EomPlan)
    ensures
        r@ == match session_of(*context) {
            None => EomPlanModel::Reject,
            Some(s) => eom_plan(s),
        },
{
    let ctx = match context {
        Some(ctx) => ctx,
        None => {
            return EomPlan::Reject;
        },
    };
    match ctx.action {
        None => EomPlan::Reject,
        Some(MilterAction::Encrypt) => {
            let mut files: Vec<String> = Vec::new();
            let mut i: usize = 0;
            while i < ctx.recipients.len()
                invariant
                    i <= ctx.recipients@.len(),
                    files@.len() == i,
                    forall|k: int|
                        0 <= k < i ==> (#[trigger] files@[k])@ == pem_file(ctx.recipients@[k]@),
                decreases ctx.recipients@.len() - i,
            {
                files.push(pem_file_name(ctx.recipients[i].as_str()));
                i += 1;
            }
            assert(files.deep_view() =~= Seq::new(
                ctx@.recipients.len(),
                |i: int| pem_file(ctx@.recipients[i]),
            ));
            EomPlan::LoadCertificates { files }
        },
        Some(MilterAction::ExtractKeys) => {
            let text = text_of_bytes(buffer_slice(&ctx.body));
            let container = match MimeContainer::parse_mime_container_data(
                text.as_str(),
                clone_headers(&ctx.headers),
            ) {
                Ok((_, container)) => container,
                Err(_) => {
                    return EomPlan::Reject;
                },
            };
            match find_signature(&container) {
                Signature::NotSigned => EomPlan::Accept,
                Signature::Missing => EomPlan::Reject,
                Signature::Unreadable => EomPlan::Reject,
                Signature::Text(text) => match base64_decode(text.as_slice()) {
                    Err(_) => EomPlan::Reject,
                    Ok(der) => match extract_certificates_from_p7s(der.as_slice()) {
                        Err(_) => EomPlan::Reject,
                        Ok(chain) => store_plan(&chain, ctx.sender.as_str()),
                    },
                },
            }
        },
    }
}

/// A copy of the headers.
fn clone_headers(headers: &Vec<(String, String)>) -> (r: Vec<(String, String)>)
    ensures
        r.deep_view() == headers.deep_view(),
{
    let mut out: Vec<(String, String)> = Vec::new();
    let mut i: usize = 0;
    while i < headers.len()
        invariant
            i <= headers@.len(),
            out@ == headers@.take(i as int),
        decreases headers@.len() - i,
    {
        out.push((headers[i].0.clone(), headers[i].1.clone()));
        i += 1;
        assert(out@ =~= headers@.take(i as int));
    }
    assert(headers@.take(headers@.len() as int) =~= headers@);
    out
}

/// Whether encrypted content of `len` bytes can be encoded and wrapped on
/// this machine.
pub open spec fn encodable(len: nat) -> bool {
    &&& base64_len(len) <= usize::MAX
    &&& wrapped_len(base64_len(len), WRAP_WIDTH as nat) <= usize::MAX
}

/// The body of an encrypted message: the base64 text of the encrypted
/// content, wrapped at 76 characters a line.
pub fn encode_body(der: &[u8]) -> (r: Option<BytesMut>)
    ensures
        match r {
            Some(body) => encodable(der@.len()) && buffer_bytes(body) == wrapped(
                base64_encoding(der@),
                WRAP_WIDTH as nat,
            ),
            None => !encodable(der@.len()),
        },
{
    let n = der.len();
    let groups = if n % 3 > 0 {
        n / 3 + 1
    } else {
        n / 3
    };
    assert(groups == (n + 2) / 3);
    if groups > usize::MAX / 4 {
        return None;
    }
    let len = 4 * groups;
    if len > WRAP_WIDTH && (len - 1) / WRAP_WIDTH > (usize::MAX - len) / 2 {
        return None;
    }
    let text = base64_encode(der);
    let mut body = BytesMut::new();
    body.extend_from_slice(text.as_slice());
    assert(buffer_bytes(body) =~= text@);
    wrap_bytes_crlf(&mut body, WRAP_WIDTH);
    Some(body)
}

/// What an encrypted message is given in place of its headers and body.
#[derive(Debug, PartialEq, Eq)]
pub enum Replacement {
    /// Refuse the message.
    Reject,
    /// Ask for these changes of the headers in turn, replace the body, then
    /// add the note that says so and take the message. Where a change or the
    /// replacement fails the message is refused.
    Replace { changes: Vec<HeaderChange>, body: BytesMut },
}

/// Encrypts the body of the session for its recipients. `chains` holds the
/// content of the certificate file of each recipient, in the order of the
/// recipients. The message is refused where the session is not one to
/// encrypt, where a recipient has no certificate, and where encrypting or
/// encoding fails. Else the headers are changed to those of an encrypted
/// message, and the body is the base64 text of the encrypted content in
/// lines of 76 characters.
pub fn encrypt_message(ctx: &MilterContext, chains: &Vec<Vec<u8>>) -> (r: Replacement)
    ensures
        ctx@.action != Some(MilterAction::Encrypt) || encryption_ready(
            ctx@.body,
            ctx@.recipients,
            chains.deep_view(),
        ) is Err ==> r is Reject,
        r matches Replacement::Replace { changes, body } ==> {
            &&& changes_view(changes@) == header_changes(ctx@.headers, rewrite_set())
            &&& exists|der: Seq<u8>| #[trigger]
                encodable(der.len()) && buffer_bytes(body) == wrapped(
                    base64_encoding(der),
                    WRAP_WIDTH as nat,
                )
        },
{
    match ctx.action {
        Some(MilterAction::Encrypt) => {},
        _ => {
            return Replacement::Reject;
        },
    }
    assert(ctx.recipients.deep_view() =~= ctx@.recipients);
    // Whether this succeeds is for OpenSSL to say. What follows from its
    // answer is said by `replacement_for`: a failure refuses the message,
    // and encrypted content is encoded, wrapped and put in place of the
    // body, under the headers of an encrypted message.
    let encrypted = encrypt_data(buffer_slice(&ctx.body), &ctx.recipients, chains);
    let ghost der = if encrypted is Ok {
        encrypted->Ok_0@
    } else {
        Seq::empty()
    };
    let r = replacement_for(ctx, encrypted);
    assert(r is Replace ==> encodable(der.len()));
    r
}

/// What a `Replacement` stands for.
pub enum ReplacementModel {
    Reject,
    Replace { changes: Seq<HeaderChangeModel>, body: Seq<u8> },
}

impl View for Replacement {
    type V = ReplacementModel;

    open spec fn view(&self) -> ReplacementModel {
        match self {
            Replacement::Reject => ReplacementModel::Reject,
            Replacement::Replace { changes, body } => ReplacementModel::Replace {
                changes: changes_view(changes@),
                body: buffer_bytes(*body),
            },
        }
    }
}

/// What a message is given once encryption has come to an end. Where it
/// failed the message is refused, and so it is where the encrypted content
/// cannot be encoded on this machine. Else the headers are changed to those
/// of an encrypted message, and the body is the base64 text of the encrypted
/// content in lines of 76 characters.
pub open spec fn replacement_of(
    headers: Seq<Header>,
    encrypted: Result<Seq<u8>, SmimeError>,
) -> ReplacementModel {
    match encrypted {
        Err(_) => ReplacementModel::Reject,
        Ok(der) => if encodable(der.len()) {
            ReplacementModel::Replace {
                changes: header_changes(headers, rewrite_set()),
                body: wrapped(base64_encoding(der), WRAP_WIDTH as nat),
            }
        } else {
            ReplacementModel::Reject
        },
    }
}

/// Says what a message is given in place of its headers and body, from what
/// encrypting its body gave.
pub fn replacement_for(ctx: &MilterContext, encrypted: Result<Vec<u8>, SmimeError>) -> (r:
    Replacement)
    ensures
        r@ == replacement_of(
            ctx@.headers,
            match encrypted {
                Ok(der) => Ok(der@),
                Err(e) => Err(e),
            },
        ),
{
    match encrypted {
        Err(_) => Replacement::Reject,
        Ok(der) => match encode_body(der.as_slice()) {
            None => Replacement::Reject,
            Some(body) => {
                let wanted = new_headers();
                Replacement::Replace { changes: update_headers(ctx, &wanted), body }
            },
        },
    }
}

/// A piece of work that the end of a message asks of the caller.
#[derive(Debug, Clone, Copy, PartialEq, Eq, Structural)]
pub enum Effect {
    /// Reading the certificate files of the recipients.
    LoadCertificates,
    /// Sending one change of the headers to the mail server.
    HeaderChange,
    /// Sending the new body to the mail server.
    Body,
    /// Writing a certificate chain to its file.
    StoreChain,
    /// Sending the header that says what was done.
    Note,
}

/// How a message ends once a piece of work is done, if it ends with it.
/// The note is the last piece, and the message is accepted with it whether
/// the note could be sent or not. Any other piece that failed refuses the
/// message; one that succeeded leaves the next piece to do.
pub open spec fn outcome_after(what: Effect, done: bool) -> Option<Status> {
    match what {
        Effect::Note => Some(Status::Accept),
        _ => if done {
            None
        } else {
            Some(Status::Reject)
        },
    }
}

/// Says how a message ends once a piece of work is done, if it ends with
/// it.
pub fn after_effect(what: Effect, done: bool) -> (r: Option<Status>)
    ensures
        r == outcome_after(what, done),
{
    match what {
        Effect::Note => Some(Status::Accept),
        _ => {
            if done {
                None
            } else {
                Some(Status::Reject)
            }
        },
    }
}

/// The headers among `events` that a session keeps: the content headers, in
/// the order in which they came.
pub open spec fn retained(events: Seq<Header>) -> Seq<Header>
    decreases events.len(),
{
    if events.len() == 0 {
        Seq::empty()
    } else if envelope_header(events.last().0) {
        retained(events.drop_last()).push(events.last())
    } else {
        retained(events.drop_last())
    }
}

/// The session after the headers `events` have come in turn.
pub open spec fn session_after(s: Session, events: Seq<Header>, responsible: Seq<Seq<char>>) -> Session
    decreases events.len(),
{
    if events.len() == 0 {
        s
    } else {
        header_step(
            session_after(s, events.drop_last(), responsible),
            events.last().0,
            events.last().1,
            responsible,
        ).0
    }
}

/// Of the headers that come to a session that goes on, exactly the content
/// headers are kept, in the order in which they came. A session goes on
/// where its action is decided, or where we answer for its sender or one of
/// its recipients. Its action is decided at the first header, by our
/// addresses, the sender and the recipients, and stays as it is from then
/// on.
pub proof fn law_headers_retained(s: Session, events: Seq<Header>, responsible: Seq<Seq<char>>)
    requires
        s.action is Some || chosen_action(responsible, s.sender, s.recipients) is Some,
    ensures
        session_after(s, events, responsible).headers == s.headers + retained(events),
        session_after(s, events, responsible).sender == s.sender,
        session_after(s, events, responsible).recipients == s.recipients,
        session_after(s, events, responsible).action == if events.len() == 0 || s.action is Some {
            s.action
        } else {
            chosen_action(responsible, s.sender, s.recipients)
        },
    decreases events.len(),
{
    if events.len() == 0 {
        assert(s.headers + retained(events) =~= s.headers);
    } else {
        let before = events.drop_last();
        law_headers_retained(s, before, responsible);
        let mid = session_after(s, before, responsible);
        assert(s.headers + retained(events) =~= if envelope_header(events.last().0) {
            (s.headers + retained(before)).push(events.last())
        } else {
            s.headers + retained(before)
        });
    }
}

/// The action is decided by the addresses that we answer for, the sender
/// and the recipients alone: two sessions with the same sender and the same
/// recipients get the same action, whatever header comes first and whatever
/// else they hold.
pub proof fn law_action_determined(
    a: Session,
    b: Session,
    first_a: Header,
    first_b: Header,
    responsible: Seq<Seq<char>>,
)
    requires
        a.action is None,
        b.action is None,
        a.sender == b.sender,
        a.recipients == b.recipients,
    ensures
        header_step(a, first_a.0, first_a.1, responsible).0.action == header_step(
            b,
            first_b.0,
            first_b.1,
            responsible,
        ).0.action,
        header_step(a, first_a.0, first_a.1, responsible).0.action == chosen_action(
            responsible,
            a.sender,
            a.recipients,
        ),
{
}

/// The sender takes precedence: where one of our addresses is the sender,
/// the message is encrypted, wherever that address stands among ours and
/// whichever of them are recipients.
pub proof fn law_sender_takes_precedence(
    responsible: Seq<Seq<char>>,
    sender: Seq<char>,
    recipients: Seq<Seq<char>>,
    i: int,
)
    requires
        0 <= i < responsible.len(),
        same_ignoring_case(responsible[i], sender),
    ensures
        chosen_action(responsible, sender, recipients) == Some(MilterAction::Encrypt),
{
}

} // verus!
