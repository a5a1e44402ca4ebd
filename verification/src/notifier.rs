//! Email: who gets a report, what it says, and how it is sent.
use vstd::prelude::*;

use crate::sender::ScanParams;
use crate::text::{digit, entries, joined, list_entries, same_text, texts, white_space};

verus! {

/// SMTP configuration for sending reports.
#[derive(Debug, Clone)]
pub struct SmtpConfig {
    /// The host of the SMTP server.
    pub host: String,
    /// The port of the SMTP server: 587 for STARTTLS, 465 for implicit TLS.
    pub port: u16,
    /// Authentication user name, if any.
    pub username: Option<String>,
    /// Authentication password, if any.
    pub password: Option<String>,
    /// Sender email address.
    pub from_address: String,
    /// Encryption: "none", "tls" (STARTTLS) or "ssl" (implicit TLS).
    pub encryption: Option<String>,
}

/// Scan configuration settings.
#[derive(Debug, Clone, Copy)]
pub struct ScanConfig {
    /// Delay between IPv4 packet sends in milliseconds.
    pub ipv4_delay_ms: Option<u64>,
    /// Delay between IPv6 packet sends in microseconds.
    pub ipv6_delay_us: Option<u64>,
    /// Number of packet transmission rounds.
    pub rounds: Option<u32>,
    /// Delay between rounds in milliseconds.
    pub round_delay_ms: Option<u64>,
}

/// The configuration of the program.
#[derive(Debug, Clone)]
pub struct AppConfig {
    pub smtp: SmtpConfig,
    pub scan: Option<ScanConfig>,
}

/// The value, or what stands for it where there is none.
pub open spec fn value_or<T>(value: Option<T>, otherwise: T) -> T {
    match value {
        Some(value) => value,
        None => otherwise,
    }
}

/// The pace of a scan, as far as it is configured; otherwise one millisecond
/// between IPv4 probes, 200 microseconds between IPv6 probes, and three rounds
/// one second apart.
pub open spec fn configured_pace(scan: Option<ScanConfig>) -> ScanParams {
    match scan {
        Some(scan) => ScanParams {
            ipv4_delay_ms: value_or(scan.ipv4_delay_ms, 1),
            ipv6_delay_us: value_or(scan.ipv6_delay_us, 200),
            rounds: value_or(scan.rounds, 3),
            round_delay_ms: value_or(scan.round_delay_ms, 1000),
        },
        None => ScanParams {
            ipv4_delay_ms: 1,
            ipv6_delay_us: 200,
            rounds: 3,
            round_delay_ms: 1000,
        },
    }
}

/// The pace of a scan, as far as it is configured.
pub fn scan_params(scan: Option<ScanConfig>) -> (r: ScanParams)
    ensures
        r == configured_pace(scan),
{
    match scan {
        Some(scan) => ScanParams {
            ipv4_delay_ms: scan.ipv4_delay_ms.unwrap_or(1),
            ipv6_delay_us: scan.ipv6_delay_us.unwrap_or(200),
            rounds: scan.rounds.unwrap_or(3),
            round_delay_ms: scan.round_delay_ms.unwrap_or(1000),
        },
        None => ScanParams {
            ipv4_delay_ms: 1,
            ipv6_delay_us: 200,
            rounds: 3,
            round_delay_ms: 1000,
        },
    }
}

/// A number below 4096 as four octal digits.
pub open spec fn four_octal_digits(n: nat) -> Seq<char> {
    seq![digit(n / 512 % 8), digit(n / 64 % 8), digit(n / 8 % 8), digit(n % 8)]
}

/// Refuses a configuration file that anyone but its owner has access to.
pub fn check_config_permissions(path: &str, mode: u32) -> (r: Result<(), String>)
    ensures
        r is Ok <==> mode & 0o077 == 0,
        r is Ok <==> mode % 64 == 0,
        r matches Err(e) ==> e@ == "Security: '"@ + path@
            + "' has world/group-readable permissions ("@ + four_octal_digits(
            (mode & 0o777) as nat,
        ) + "). Fix with: chmod 600 "@ + path@,
{
    assert(mode & 0o077 == mode % 64) by (bit_vector);
    if mode & 0o077 == 0 {
        return Ok(());
    }
    let mut e = joined("Security: '", path);
    e.append("' has world/group-readable permissions (");
    push_four_octal_digits(&mut e, mode & 0o777);
    e.append("). Fix with: chmod 600 ");
    e.append(path);
    Err(e)
}

/// Appends a number below 4096 as four octal digits.
fn push_four_octal_digits(out: &mut String, n: u32)
    ensures
        final(out)@ == old(out)@ + four_octal_digits(n as nat),
{
    let ghost before = out@;
    out.push((48 + (n / 512 % 8) as u8) as char);
    out.push((48 + (n / 64 % 8) as u8) as char);
    out.push((48 + (n / 8 % 8) as u8) as char);
    out.push((48 + (n % 8) as u8) as char);
    assert(out@ =~= before + four_octal_digits(n as nat));
}

/// How the connection to an SMTP server is secured.
#[derive(Debug, Clone, Copy, PartialEq, Eq, Structural)]
pub enum Security {
    /// Not at all.
    Plain,
    /// The connection begins without encryption, and changes over.
    StartTls,
    /// The connection is encrypted from the beginning.
    ImplicitTls,
}

/// How the connection to the configured server is secured: from the beginning
/// on the port for that, or with "ssl"; not at all with "none"; otherwise by
/// changing over.
pub open spec fn security_of(port: u16, encryption: Option<Seq<char>>) -> Security {
    if port == 465 || encryption == Some("ssl"@) {
        Security::ImplicitTls
    } else if encryption == Some("none"@) {
        Security::Plain
    } else {
        Security::StartTls
    }
}

/// Who logs in, and with which password: nobody, where either is missing.
pub open spec fn login_of(username: Option<Seq<char>>, password: Option<Seq<char>>) -> Option<
    (Seq<char>, Seq<char>),
> {
    match (username, password) {
        (Some(user), Some(password)) => Some((user, password)),
        _ => None,
    }
}

impl SmtpConfig {
    /// How the connection to the server is secured.
    pub fn security(&self) -> (r: Security)
        ensures
            r == security_of(self.port, optional_text(self.encryption)),
    {
        let (ssl, none) = match &self.encryption {
            Some(word) => (same_text(word.as_str(), "ssl"), same_text(word.as_str(), "none")),
            None => (false, false),
        };
        if self.port == 465 || ssl {
            Security::ImplicitTls
        } else if none {
            Security::Plain
        } else {
            Security::StartTls
        }
    }

    /// Who logs in, and with which password.
    pub fn login(&self) -> (r: Option<(String, String)>)
        ensures
            match login_of(optional_text(self.username), optional_text(self.password)) {
                Some((user, password)) => r matches Some(login) && login.0@ == user && login.1@
                    == password,
                None => r is None,
            },
    {
        match (&self.username, &self.password) {
            (Some(user), Some(password)) => Some((user.clone(), password.clone())),
            _ => None,
        }
    }
}

/// A text file that goes along with an email.
#[derive(Debug)]
pub struct EmailAttachment {
    pub filename: String,
    pub content: String,
}

/// The files, by name and content.
pub open spec fn files(v: Seq<EmailAttachment>) -> Seq<(Seq<char>, Seq<char>)> {
    v.map_values(|a: EmailAttachment| (a.filename@, a.content@))
}

/// An address with the name of who it belongs to.
#[verifier::external_type_specification]
#[verifier::external_body]
pub struct ExMailbox(lettre::message::Mailbox);

/// A message that is being put together.
#[verifier::external_type_specification]
#[verifier::external_body]
pub struct ExMessageBuilder(lettre::message::MessageBuilder);

/// The parts of a message with attachments.
#[verifier::external_type_specification]
#[verifier::external_body]
pub struct ExMultiPart(lettre::message::MultiPart);

/// A message that is ready to be sent.
#[verifier::external_type_specification]
#[verifier::external_body]
pub struct ExMessage(lettre::Message);

/// A character of an unquoted address on either side of its `@`.
pub open spec fn atom_char(c: char) -> bool {
    ||| 'a' <= c <= 'z'
    ||| 'A' <= c <= 'Z'
    ||| '0' <= c <= '9'
    ||| "!#$%&'*+-./=?^_`{|}~"@.contains(c)
    ||| c as u32 >= 0x80 && !white_space(c)
}

/// A text that can be an address and nothing more: no name, no white space,
/// nothing quoted.
pub open spec fn plain_address(text: Seq<char>) -> bool {
    exists|at: int|
        0 <= at < text.len() && #[trigger] text[at] == '@' && forall|i: int|
            0 <= i < text.len() && i != at ==> atom_char(#[trigger] text[i])
}

/// Every text can be an address and nothing more.
pub open spec fn plain_addresses(list: Seq<Seq<char>>) -> bool {
    forall|i: int| 0 <= i < list.len() ==> plain_address(#[trigger] list[i])
}

/// There is a quote with a backslash before it. Without one, no quote gets into
/// an address.
pub open spec fn escapes_quote(text: Seq<char>) -> bool {
    exists|i: int| 0 <= i < text.len() - 1 && #[trigger] text[i] == '\\' && text[i + 1] == '"'
}

/// No text has a quote with a backslash before it.
pub open spec fn escape_no_quotes(list: Seq<Seq<char>>) -> bool {
    forall|i: int| 0 <= i < list.len() ==> !escapes_quote(#[trigger] list[i])
}

/// No address has a quote in it.
pub open spec fn unquoted(list: Seq<Seq<char>>) -> bool {
    forall|i: int| 0 <= i < list.len() ==> !(#[trigger] list[i]).contains('"')
}

/// What `Display` writes for the `email` of a `lettre::message::Mailbox`.
pub uninterp spec fn address_of(mailbox: lettre::message::Mailbox) -> Seq<char>;

/// What `lettre::message::Mailbox::from_str` reads from `text`; otherwise what
/// it says is wrong.
pub uninterp spec fn parsed_mailbox(text: Seq<char>) -> Result<
    lettre::message::Mailbox,
    Seq<char>,
>;

/// Calls `lettre::message::Mailbox::from_str`. What is read from a text, and
/// what is said where nothing can be read, has a name. What is read from a
/// plain address is that address. A quoted local part is read without its
/// quotes, so that a quote is part of an address only where one was escaped.
#[verifier::external_body]
fn parse_mailbox(text: &str) -> (r: Result<lettre::message::Mailbox, String>)
    ensures
        r is Ok <==> parsed_mailbox(text@) is Ok,
        r matches Ok(mailbox) ==> parsed_mailbox(text@)->Ok_0 == mailbox,
        r matches Err(e) ==> parsed_mailbox(text@)->Err_0 == e@,
        r matches Ok(mailbox) ==> plain_address(text@) ==> address_of(mailbox) == text@,
        r matches Ok(mailbox) ==> address_of(mailbox).contains('"') ==> escapes_quote(text@),
{
    text.parse::<lettre::message::Mailbox>().map_err(|e| e.to_string())
}

/// The mailbox was read from a text.
pub open spec fn was_read(mailbox: lettre::message::Mailbox) -> bool {
    exists|text: Seq<char>| #[trigger]
        parsed_mailbox(text) is Ok && parsed_mailbox(text)->Ok_0 == mailbox
}

/// The address that is read from a text.
pub open spec fn address_in(text: Seq<char>) -> Seq<char> {
    address_of(parsed_mailbox(text)->Ok_0)
}

/// The addresses that are read from the texts.
pub open spec fn addresses_in(list: Seq<Seq<char>>) -> Seq<Seq<char>> {
    list.map_values(|text: Seq<char>| address_in(text))
}

/// What a text tells of the address that is read from it.
spec fn tells_address(text: Seq<char>) -> bool {
    parsed_mailbox(text) is Ok ==> {
        &&& plain_address(text) ==> address_in(text) == text
        &&& address_in(text).contains('"') ==> escapes_quote(text)
    }
}

/// What is wrong with an address, if anything is.
pub open spec fn mailbox_error(text: Seq<char>) -> Option<Seq<char>> {
    match parsed_mailbox(text) {
        Ok(_) => None,
        Err(e) => Some(e),
    }
}

/// What is wrong with each of the addresses.
pub open spec fn mailbox_errors(list: Seq<Seq<char>>) -> Seq<Option<Seq<char>>> {
    list.map_values(|text: Seq<char>| mailbox_error(text))
}

/// The text, where there is one.
pub open spec fn optional_text(s: Option<String>) -> Option<Seq<char>> {
    match s {
        Some(s) => Some(s@),
        None => None,
    }
}

/// The texts, where there are any.
pub open spec fn optional_texts(v: Seq<Option<String>>) -> Seq<Option<Seq<char>>> {
    v.map_values(|s: Option<String>| optional_text(s))
}

/// The first entry of a list that something is wrong with, and what it is.
pub open spec fn rejected_entry(list: Seq<Seq<char>>, errors: Seq<Option<Seq<char>>>) -> Option<
    (Seq<char>, Seq<char>),
>
    decreases list.len(),
{
    if list.len() == 0 {
        None
    } else {
        match errors[0] {
            Some(e) => Some((list[0], e)),
            None => rejected_entry(list.skip(1), errors.skip(1)),
        }
    }
}

/// Where the first entry stands that something is wrong with.
fn first_rejected(list: &Vec<String>, errors: &Vec<Option<String>>) -> (r: Option<usize>)
    requires
        list@.len() == errors@.len(),
    ensures
        match rejected_entry(texts(list@), optional_texts(errors@)) {
            Some((entry, e)) => r matches Some(i) && i < list@.len() && list@[i as int]@ == entry
                && errors@[i as int] is Some && errors@[i as int]->Some_0@ == e,
            None => r is None,
        },
{
    let ghost (a, b) = (texts(list@), optional_texts(errors@));
    let mut i: usize = 0;
    assert(a.skip(0) =~= a && b.skip(0) =~= b);
    while i < list.len()
        invariant
            i <= list@.len() == errors@.len(),
            a == texts(list@),
            b == optional_texts(errors@),
            rejected_entry(a, b) == rejected_entry(a.skip(i as int), b.skip(i as int)),
        decreases list@.len() - i,
    {
        assert(a.skip(i as int)[0] == list@[i as int]@);
        assert(b.skip(i as int)[0] == optional_text(errors@[i as int]));
        assert(a.skip(i as int).skip(1) =~= a.skip(i + 1));
        assert(b.skip(i as int).skip(1) =~= b.skip(i + 1));
        if errors[i].is_some() {
            return Some(i);
        }
        i = i + 1;
    }
    None
}

/// Why a list of addresses is refused, if it is.
pub open spec fn list_problem(list: Seq<Seq<char>>, errors: Seq<Option<Seq<char>>>) -> Option<
    Seq<char>,
> {
    match rejected_entry(list, errors) {
        Some((entry, _)) => Some("Invalid email address: '"@ + entry + "'"@),
        None => if list.len() == 0 {
            Some("At least one valid email address is required"@)
        } else {
            None
        },
    }
}

/// Refuses a list of addresses, given what is wrong with each of them, that
/// holds a wrong one or none at all.
pub fn check_addresses(list: &Vec<String>, errors: &Vec<Option<String>>) -> (r: Result<(), String>)
    requires
        list@.len() == errors@.len(),
    ensures
        match list_problem(texts(list@), optional_texts(errors@)) {
            Some(problem) => r matches Err(e) && e@ == problem,
            None => r is Ok,
        },
{
    match first_rejected(list, errors) {
        Some(i) => {
            let mut e = joined("Invalid email address: '", list[i].as_str());
            e.append("'");
            Err(e)
        },
        None => if list.len() == 0 {
            Err("At least one valid email address is required".to_owned())
        } else {
            Ok(())
        },
    }
}

/// What is wrong with each of the addresses, and what was read from those with
/// which nothing is.
fn parse_mailboxes(list: &Vec<String>) -> (r: (Vec<lettre::message::Mailbox>, Vec<Option<String>>))
    ensures
        optional_texts(r.1@) == mailbox_errors(texts(list@)),
        rejected_entry(texts(list@), mailbox_errors(texts(list@))) is None ==> r.0@ == recipients(
            texts(list@),
        ),
        forall|i: int| 0 <= i < r.0@.len() ==> was_read(#[trigger] r.0@[i]),
        forall|i: int| 0 <= i < list@.len() ==> tells_address(#[trigger] texts(list@)[i]),
{
    let ghost all = texts(list@);
    let mut mailboxes: Vec<lettre::message::Mailbox> = Vec::new();
    let mut errors: Vec<Option<String>> = Vec::new();
    let mut i: usize = 0;
    while i < list.len()
        invariant
            i <= list@.len(),
            all == texts(list@),
            optional_texts(errors@) == mailbox_errors(all.take(i as int)),
            (forall|j: int| 0 <= j < i ==> mailbox_error(#[trigger] all[j]) is None)
                ==> mailboxes@ == recipients(all.take(i as int)),
            forall|j: int| 0 <= j < mailboxes@.len() ==> was_read(#[trigger] mailboxes@[j]),
            forall|j: int| 0 <= j < i ==> tells_address(#[trigger] all[j]),
        decreases list@.len() - i,
    {
        let ghost before = errors@;
        assert(all.take(i + 1) =~= all.take(i as int).push(all[i as int]));
        match parse_mailbox(list[i].as_str()) {
            Ok(mailbox) => {
                assert(parsed_mailbox(all[i as int]) is Ok);
                assert(was_read(mailbox));
                mailboxes.push(mailbox);
                errors.push(None);
            },
            Err(e) => {
                errors.push(Some(e));
                assert(mailbox_error(all[i as int]) is Some);
            },
        }
        assert(optional_texts(errors@) =~= optional_texts(before).push(
            mailbox_error(all[i as int]),
        ));
        assert(optional_texts(errors@) =~= mailbox_errors(all.take(i + 1)));
        proof {
            if forall|j: int| 0 <= j < i + 1 ==> mailbox_error(#[trigger] all[j]) is None {
                assert(mailbox_error(all[i as int]) is None);
                assert(mailboxes@ =~= recipients(all.take(i + 1)));
            }
        }
        i = i + 1;
    }
    assert(all.take(i as int) =~= all);
    proof {
        if rejected_entry(all, mailbox_errors(all)) is None {
            lemma_none_rejected(all, mailbox_errors(all));
            assert forall|j: int| 0 <= j < all.len() implies mailbox_error(
                #[trigger] all[j],
            ) is None by {
                assert(mailbox_errors(all)[j] is None);
            }
        }
    }
    (mailboxes, errors)
}

/// Where no entry is rejected, something is wrong with none of them.
proof fn lemma_none_rejected(list: Seq<Seq<char>>, errors: Seq<Option<Seq<char>>>)
    requires
        list.len() == errors.len(),
    ensures
        rejected_entry(list, errors) is None <==> forall|j: int|
            0 <= j < list.len() ==> #[trigger] errors[j] is None,
    decreases list.len(),
{
    if list.len() > 0 {
        let rest = errors.skip(1);
        lemma_none_rejected(list.skip(1), rest);
        assert forall|j: int| 0 <= j < rest.len() implies rest[j] == #[trigger] errors[j + 1] by {}
        if rejected_entry(list, errors) is None {
            assert forall|j: int| 0 <= j < list.len() implies #[trigger] errors[j] is None by {
                if j > 0 {
                    assert(rest[j - 1] is None);
                }
            }
        }
        if forall|j: int| 0 <= j < list.len() ==> #[trigger] errors[j] is None {
            assert(errors[0] is None);
            assert forall|j: int| 0 <= j < rest.len() implies #[trigger] rest[j] is None by {
                assert(errors[j + 1] is None);
            }
        }
    }
}

/// Validates a list of email addresses, separated by commas or semicolons, with
/// the parser that reads them when an email is sent.
pub fn validate_email_list(email_str: &str) -> (r: Result<(), String>)
    ensures
        match list_problem(entries(email_str@), mailbox_errors(entries(email_str@))) {
            Some(problem) => r matches Err(e) && e@ == problem,
            None => r is Ok,
        },
{
    let list = list_entries(email_str);
    let (_mailboxes, errors) = parse_mailboxes(&list);
    assert(optional_texts(errors@).len() == errors@.len());
    assert(mailbox_errors(texts(list@)).len() == list@.len());
    check_addresses(&list, &errors)
}

/// What is read from addresses with which nothing is wrong.
pub open spec fn recipients(list: Seq<Seq<char>>) -> Seq<lettre::message::Mailbox> {
    list.map_values(|text: Seq<char>| parsed_mailbox(text)->Ok_0)
}

/// Why a message cannot be sent to a list of addresses, if it cannot.
pub open spec fn recipients_problem(list: Seq<Seq<char>>, errors: Seq<Option<Seq<char>>>) -> Option<
    Seq<char>,
> {
    match rejected_entry(list, errors) {
        Some((entry, e)) => Some("Invalid to address '"@ + entry + "': "@ + e),
        None => if list.len() == 0 {
            Some("No valid recipients provided"@)
        } else {
            None
        },
    }
}

/// Refuses to send a message to a list of addresses, given what is wrong with
/// each of them, that holds a wrong one or none at all.
pub fn check_recipients(list: &Vec<String>, errors: &Vec<Option<String>>) -> (r: Result<(), String>)
    requires
        list@.len() == errors@.len(),
    ensures
        match recipients_problem(texts(list@), optional_texts(errors@)) {
            Some(problem) => r matches Err(e) && e@ == problem,
            None => r is Ok,
        },
{
    match first_rejected(list, errors) {
        Some(i) => {
            let mut problem = joined("Invalid to address '", list[i].as_str());
            problem.append("': ");
            if let Some(e) = &errors[i] {
                problem.append(e.as_str());
            }
            Err(problem)
        },
        None => if list.len() == 0 {
            Err("No valid recipients provided".to_owned())
        } else {
            Ok(())
        },
    }
}

/// Why a message cannot be addressed, if it cannot: what is wrong with the
/// sender, or else with the recipients.
pub open spec fn addressing_problem(from_address: Seq<char>, list: Seq<Seq<char>>) -> Option<
    Seq<char>,
> {
    match mailbox_error(from_address) {
        Some(e) => Some("Invalid from address: "@ + e),
        None => recipients_problem(list, mailbox_errors(list)),
    }
}

/// A list that was found valid can be addressed: validation refuses every list
/// that sending would refuse, and no other.
pub proof fn law_valid_lists_can_be_addressed(list: Seq<Seq<char>>, errors: Seq<Option<Seq<char>>>)
    ensures
        list_problem(list, errors) is None <==> recipients_problem(list, errors) is None,
{
}

/// The addresses that are read back from the `From` header of a
/// `lettre::message::MessageBuilder`.
pub uninterp spec fn senders_of(message: lettre::message::MessageBuilder) -> Seq<Seq<char>>;

/// The addresses that are read back from the `To` header of a
/// `lettre::message::MessageBuilder`.
pub uninterp spec fn recipients_of(message: lettre::message::MessageBuilder) -> Seq<Seq<char>>;

/// What `lettre::message::MessageBuilder::from` makes of a new message.
pub uninterp spec fn message_from(sender: lettre::message::Mailbox) -> lettre::message::MessageBuilder;

/// Calls `lettre::Message::builder` and `lettre::message::MessageBuilder::from`,
/// which sets the sender. The result depends on the sender alone; it has a name.
/// There are no recipients yet. A header is kept as text, and read back from it:
/// an address without a quote comes back as it was, whatever name stands before
/// it.
#[verifier::external_body]
fn start_message(sender: lettre::message::Mailbox) -> (r: lettre::message::MessageBuilder)
    requires
        was_read(sender),
    ensures
        r == message_from(sender),
        !address_of(sender).contains('"') ==> senders_of(r) == seq![address_of(sender)],
        recipients_of(r) == Seq::<Seq<char>>::empty(),
{
    lettre::Message::builder().from(sender)
}

/// What `lettre::message::MessageBuilder::to` makes of a message.
pub uninterp spec fn message_to(
    message: lettre::message::MessageBuilder,
    recipient: lettre::message::Mailbox,
) -> lettre::message::MessageBuilder;

/// Calls `lettre::message::MessageBuilder::to`, which adds a recipient. The
/// result depends on the message and the recipient alone; it has a name. The
/// sender stays; where no recipient's address has a quote in it, the new one
/// stands behind the others.
#[verifier::external_body]
fn add_recipient(
    message: lettre::message::MessageBuilder,
    recipient: lettre::message::Mailbox,
) -> (r: lettre::message::MessageBuilder)
    requires
        was_read(recipient),
    ensures
        r == message_to(message, recipient),
        senders_of(r) == senders_of(message),
        unquoted(recipients_of(message)) && !address_of(recipient).contains('"')
            ==> recipients_of(r) == recipients_of(message).push(address_of(recipient)),
{
    message.to(recipient)
}

/// What `lettre::message::MessageBuilder::subject` makes of a message.
pub uninterp spec fn message_about(
    message: lettre::message::MessageBuilder,
    subject: Seq<char>,
) -> lettre::message::MessageBuilder;

/// Calls `lettre::message::MessageBuilder::subject`, which sets the subject. The
/// result depends on the message and the subject alone; it has a name. Sender
/// and recipients stay.
#[verifier::external_body]
fn set_subject(
    message: lettre::message::MessageBuilder,
    subject: &str,
) -> (r: lettre::message::MessageBuilder)
    ensures
        r == message_about(message, subject@),
        senders_of(r) == senders_of(message),
        recipients_of(r) == recipients_of(message),
{
    message.subject(subject)
}

/// The message has a sender, a subject, and recipients that were read from
/// texts, and nothing else.
pub open spec fn is_draft(message: lettre::message::MessageBuilder) -> bool {
    exists|
        sender: lettre::message::Mailbox,
        list: Seq<lettre::message::Mailbox>,
        subject: Seq<char>,
    |
        message == #[trigger] message_about(message_to_all(message_from(sender), list), subject)
            && was_read(sender) && forall|i: int| 0 <= i < list.len() ==> was_read(#[trigger] list[i])
}

/// What is wrong with the addresses that are read back from a message, if
/// anything is.
pub open spec fn build_problem(senders: Seq<Seq<char>>, list: Seq<Seq<char>>) -> Option<Seq<char>> {
    if senders.len() == 0 {
        Some("missing source address, invalid envelope"@)
    } else if senders.len() > 1 {
        Some("there can only be one source address"@)
    } else if list.len() == 0 {
        Some("missing destination address, invalid envelope"@)
    } else {
        None
    }
}

/// What `lettre::address::Envelope::from` gives for a finished message.
pub uninterp spec fn envelope_from(done: lettre::Message) -> Option<Seq<char>>;

/// What `lettre::address::Envelope::to` gives for a finished message.
pub uninterp spec fn envelope_to(done: lettre::Message) -> Seq<Seq<char>>;

/// Whether `done` is one of the messages that
/// `lettre::message::MessageBuilder::body` can make of a message.
pub uninterp spec fn plain_message(
    message: lettre::message::MessageBuilder,
    body: Seq<char>,
    done: lettre::Message,
) -> bool;

/// Calls `lettre::message::MessageBuilder::header`, with the content type of
/// plain text, and `lettre::message::MessageBuilder::body`. That fails exactly
/// where the headers do not read back as one sender and at least one recipient;
/// the envelope names those that they read back as. The finished message carries
/// the time at which it was made, so that one of several comes back; which ones
/// can has a name.
#[verifier::external_body]
fn finish_plain(message: lettre::message::MessageBuilder, body: &str) -> (r: Result<
    lettre::Message,
    String,
>)
    requires
        is_draft(message),
    ensures
        r is Ok <==> build_problem(senders_of(message), recipients_of(message)) is None,
        r matches Err(e) ==> build_problem(senders_of(message), recipients_of(message)) == Some(e@),
        r matches Ok(done) ==> plain_message(message, body@, done),
        r matches Ok(done) ==> envelope_from(done) == Some(senders_of(message)[0]),
        r matches Ok(done) ==> envelope_to(done) == recipients_of(message),
{
    let message = message.header(lettre::message::header::ContentType::TEXT_PLAIN);
    message.body(body.to_string()).map_err(|e| e.to_string())
}

/// Whether `parts` is one of the part lists that
/// `lettre::message::MultiPart::mixed` can begin with a text.
pub uninterp spec fn mixed_parts(body: Seq<char>, parts: lettre::message::MultiPart) -> bool;

/// Calls `lettre::message::MultiPart::mixed`, and
/// `lettre::message::MultiPartBuilder::singlepart` with a text as
/// `lettre::message::SinglePart::plain` holds it. The parts are separated by a
/// random text, so that one of several results comes back; which ones can has a
/// name.
#[verifier::external_body]
fn start_parts(body: &str) -> (r: lettre::message::MultiPart)
    ensures
        mixed_parts(body@, r),
{
    let text = lettre::message::SinglePart::plain(body.to_string());
    lettre::message::MultiPart::mixed().singlepart(text)
}

/// What `lettre::message::MultiPart::singlepart` makes of `parts` with a file.
pub uninterp spec fn with_file(
    parts: lettre::message::MultiPart,
    filename: Seq<char>,
    content: Seq<char>,
) -> lettre::message::MultiPart;

/// Calls `lettre::message::MultiPart::singlepart` with a file of plain text as
/// `lettre::message::Attachment` holds it. The result depends on the parts, the
/// name and the content alone; it has a name.
#[verifier::external_body]
fn add_file(parts: lettre::message::MultiPart, file: &EmailAttachment) -> (r:
    lettre::message::MultiPart)
    ensures
        r == with_file(parts, file.filename@, file.content@),
{
    let plain = lettre::message::header::ContentType::TEXT_PLAIN;
    let attachment = lettre::message::Attachment::new(file.filename.clone());
    parts.singlepart(attachment.body(file.content.clone(), plain))
}

/// Whether `done` is one of the messages that
/// `lettre::message::MessageBuilder::multipart` can make of a message.
pub uninterp spec fn mixed_message(
    message: lettre::message::MessageBuilder,
    parts: lettre::message::MultiPart,
    done: lettre::Message,
) -> bool;

/// Calls `lettre::message::MessageBuilder::multipart`. That fails exactly where
/// the headers do not read back as one sender and at least one recipient; the
/// envelope names those that they read back as. The finished message carries the
/// time at which it was made, so that one of several comes back; which ones can
/// has a name.
#[verifier::external_body]
fn finish_mixed(
    message: lettre::message::MessageBuilder,
    parts: lettre::message::MultiPart,
) -> (r: Result<lettre::Message, String>)
    requires
        is_draft(message),
    ensures
        r is Ok <==> build_problem(senders_of(message), recipients_of(message)) is None,
        r matches Err(e) ==> build_problem(senders_of(message), recipients_of(message)) == Some(e@),
        r matches Ok(done) ==> mixed_message(message, parts, done),
        r matches Ok(done) ==> envelope_from(done) == Some(senders_of(message)[0]),
        r matches Ok(done) ==> envelope_to(done) == recipients_of(message),
{
    message.multipart(parts).map_err(|e| e.to_string())
}

/// A message with all its recipients.
pub open spec fn message_to_all(
    message: lettre::message::MessageBuilder,
    list: Seq<lettre::message::Mailbox>,
) -> lettre::message::MessageBuilder
    decreases list.len(),
{
    if list.len() == 0 {
        message
    } else {
        message_to(message_to_all(message, list.drop_last()), list.last())
    }
}

/// A message before its text: from whom, to whom, and what about.
pub open spec fn draft(
    from_address: Seq<char>,
    list: Seq<Seq<char>>,
    subject: Seq<char>,
) -> lettre::message::MessageBuilder {
    message_about(
        message_to_all(message_from(parsed_mailbox(from_address)->Ok_0), recipients(list)),
        subject,
    )
}

/// The parts with all the files.
pub open spec fn with_files(
    parts: lettre::message::MultiPart,
    attached: Seq<(Seq<char>, Seq<char>)>,
) -> lettre::message::MultiPart
    decreases attached.len(),
{
    if attached.len() == 0 {
        parts
    } else {
        with_file(
            with_files(parts, attached.drop_last()),
            attached.last().0,
            attached.last().1,
        )
    }
}

/// Whether `done` is the message with this text and these files, addressed as
/// its headers say.
pub open spec fn is_built(
    message: lettre::message::MessageBuilder,
    body: Seq<char>,
    attached: Seq<(Seq<char>, Seq<char>)>,
    done: lettre::Message,
) -> bool {
    &&& envelope_from(done) == Some(senders_of(message)[0])
    &&& envelope_to(done) == recipients_of(message)
    &&& if attached.len() == 0 {
        plain_message(message, body, done)
    } else {
        exists|parts: lettre::message::MultiPart| #[trigger]
            mixed_parts(body, parts) && mixed_message(message, with_files(parts, attached), done)
    }
}

/// Puts a message together: plain text where nothing is attached, otherwise the
/// text and the files as parts.
fn finish_message(
    message: lettre::message::MessageBuilder,
    body: &str,
    attachments: &[EmailAttachment],
) -> (r: Result<lettre::Message, String>)
    requires
        is_draft(message),
    ensures
        match build_problem(senders_of(message), recipients_of(message)) {
            Some(problem) => r matches Err(e) && e@ == problem,
            None => r matches Ok(done) && is_built(message, body@, files(attachments@), done),
        },
{
    let ghost all = files(attachments@);
    if attachments.len() == 0 {
        return finish_plain(message, body);
    }
    let mut parts = start_parts(body);
    let ghost first = parts;
    let mut i: usize = 0;
    assert(all.take(0) =~= Seq::empty());
    while i < attachments.len()
        invariant
            i <= attachments@.len(),
            all == files(attachments@),
            parts == with_files(first, all.take(i as int)),
        decreases attachments@.len() - i,
    {
        assert(all.take(i + 1).drop_last() =~= all.take(i as int));
        assert(all.take(i + 1).last() == (
            attachments@[i as int].filename@,
            attachments@[i as int].content@,
        ));
        parts = add_file(parts, &attachments[i]);
        i = i + 1;
    }
    assert(all.take(i as int) =~= all);
    finish_mixed(message, parts)
}

/// Builds the email that a report is sent with. Where nothing is wrong with any
/// of the addresses, and none of them has a quote in it, it goes from the sender
/// to each of the recipients, in order. So a message can be built for the lists
/// of addresses that are valid, and for no others, unless a quote is escaped.
pub fn build_message(
    from_address: &str,
    to_email: &str,
    subject: &str,
    body: &str,
    attachments: &[EmailAttachment],
) -> (r: Result<lettre::Message, String>)
    ensures
        match addressing_problem(from_address@, entries(to_email@)) {
            Some(problem) => r matches Err(e) && e@ == problem,
            None => {
                let message = draft(from_address@, entries(to_email@), subject@);
                match build_problem(senders_of(message), recipients_of(message)) {
                    Some(problem) => r matches Err(e) && e@ == "Failed to build email: "@ + problem,
                    None => r matches Ok(done) && is_built(
                        message,
                        body@,
                        files(attachments@),
                        done,
                    ),
                }
            },
        },
        // Every attachment, a single one too, is a part of the message; only without
        // any is it plain text.
        r matches Ok(done) ==> attachments@.len() > 0 ==> exists|
            parts: lettre::message::MultiPart,
        | #[trigger]
            mixed_parts(body@, parts) && mixed_message(
                draft(from_address@, entries(to_email@), subject@),
                with_files(parts, files(attachments@)),
                done,
            ),
        r matches Ok(done) ==> attachments@.len() == 0 ==> plain_message(
            draft(from_address@, entries(to_email@), subject@),
            body@,
            done,
        ),
        addressing_problem(from_address@, entries(to_email@)) is None && !address_in(
            from_address@,
        ).contains('"') && unquoted(addresses_in(entries(to_email@))) ==> (r matches Ok(done)
            && envelope_from(done) == Some(address_in(from_address@)) && envelope_to(done)
            == addresses_in(entries(to_email@))),
        addressing_problem(from_address@, entries(to_email@)) is None && plain_address(from_address@)
            && plain_addresses(entries(to_email@)) ==> (r matches Ok(done) && envelope_from(done)
            == Some(from_address@) && envelope_to(done) == entries(to_email@)),
        mailbox_error(from_address@) is None && !escapes_quote(from_address@) && escape_no_quotes(
            entries(to_email@),
        ) ==> (r is Ok <==> list_problem(
            entries(to_email@),
            mailbox_errors(entries(to_email@)),
        ) is None),
{
    let sender = match parse_mailbox(from_address) {
        Ok(mailbox) => mailbox,
        Err(e) => return Err(joined("Invalid from address: ", e.as_str())),
    };
    let list = list_entries(to_email);
    let (mailboxes, errors) = parse_mailboxes(&list);
    assert(optional_texts(errors@).len() == errors@.len());
    assert(mailbox_errors(texts(list@)).len() == list@.len());
    if let Err(problem) = check_recipients(&list, &errors) {
        return Err(problem);
    }
    assert(parsed_mailbox(from_address@) is Ok);
    assert(tells_address(from_address@));
    let mut message = start_message(sender);
    let ghost all = recipients(texts(list@));
    let ghost first = message;
    let ghost written = addresses_in(texts(list@));
    let ghost fine = !address_in(from_address@).contains('"') && unquoted(written);
    assert(all.take(0) =~= Seq::empty());
    assert(written.take(0) =~= Seq::empty());
    for mailbox in it: mailboxes
        invariant
            it.seq() == all,
            forall|i: int| 0 <= i < all.len() ==> was_read(#[trigger] all[i]),
            all.len() == written.len(),
            forall|i: int| 0 <= i < all.len() ==> address_of(#[trigger] all[i]) == written[i],
            message == message_to_all(first, all.take(it.index() as int)),
            fine ==> unquoted(written) && senders_of(message) == seq![address_in(from_address@)]
                && recipients_of(message) == written.take(it.index() as int),
    {
        assert(all.take(it.index() + 1).drop_last() =~= all.take(it.index() as int));
        assert(all.take(it.index() + 1).last() == mailbox);
        assert(was_read(all[it.index() as int]));
        proof {
            if fine {
                let done = written.take(it.index() as int);
                assert forall|i: int| 0 <= i < done.len() implies !(
                #[trigger] done[i]).contains('"') by {
                    assert(!written[i].contains('"'));
                }
                assert(address_of(all[it.index() as int]) == written[it.index() as int]);
                assert(!written[it.index() as int].contains('"'));
                assert(written.take(it.index() + 1) =~= done.push(written[it.index() as int]));
            }
        }
        message = add_recipient(message, mailbox);
    }
    assert(all.take(all.len() as int) =~= all);
    assert(written.take(written.len() as int) =~= written);
    let message = set_subject(message, subject);
    assert(message == message_about(message_to_all(message_from(sender), all), subject@));
    assert(is_draft(message));
    proof {
        lemma_texts_tell(from_address@, texts(list@));
    }
    assert(files(attachments@).len() == attachments@.len());
    match finish_message(message, body, attachments) {
        Ok(done) => Ok(done),
        Err(e) => Err(joined("Failed to build email: ", e.as_str())),
    }
}

/// Where no quote is escaped, no address has a quote in it; plain addresses are
/// read as they are.
proof fn lemma_texts_tell(from_address: Seq<char>, list: Seq<Seq<char>>)
    requires
        parsed_mailbox(from_address) is Ok,
        tells_address(from_address),
        recipients_problem(list, mailbox_errors(list)) is None,
        forall|i: int| 0 <= i < list.len() ==> tells_address(#[trigger] list[i]),
    ensures
        !escapes_quote(from_address) ==> !address_in(from_address).contains('"'),
        escape_no_quotes(list) ==> unquoted(addresses_in(list)),
        plain_address(from_address) ==> address_in(from_address) == from_address && !escapes_quote(
            from_address,
        ),
        plain_addresses(list) ==> addresses_in(list) == list && escape_no_quotes(list),
{
    let errors = mailbox_errors(list);
    lemma_none_rejected(list, errors);
    assert forall|i: int| 0 <= i < list.len() implies parsed_mailbox(#[trigger] list[i]) is Ok by {
        assert(errors[i] is None);
    }
    lemma_plain_escapes_nothing(from_address);
    if escape_no_quotes(list) {
        assert forall|i: int| 0 <= i < addresses_in(list).len() implies !(#[trigger] addresses_in(
            list,
        )[i]).contains('"') by {
            assert(tells_address(list[i]) && !escapes_quote(list[i]));
        }
    }
    if plain_addresses(list) {
        assert forall|i: int| 0 <= i < list.len() implies address_in(list[i]) == list[i]
            && !escapes_quote(#[trigger] list[i]) by {
            lemma_plain_escapes_nothing(list[i]);
            assert(tells_address(list[i]) && plain_address(list[i]));
        }
        assert(addresses_in(list) =~= list);
    }
}

proof fn lemma_plain_escapes_nothing(text: Seq<char>)
    ensures
        plain_address(text) ==> !escapes_quote(text),
{
    reveal_strlit("!#$%&'*+-./=?^_`{|}~");
    if plain_address(text) && escapes_quote(text) {
        let i = choose|i: int|
            0 <= i < text.len() - 1 && #[trigger] text[i] == '\\' && text[i + 1] == '"';
        assert(atom_char(text[i]));
    }
}

/// Every attachment, a single one too, is a part of the message that is built;
/// only without any is it plain text.
pub proof fn law_every_attachment_is_a_part(
    message: lettre::message::MessageBuilder,
    body: Seq<char>,
    attached: Seq<(Seq<char>, Seq<char>)>,
    done: lettre::Message,
)
    requires
        is_built(message, body, attached, done),
    ensures
        attached.len() > 0 ==> exists|parts: lettre::message::MultiPart| #[trigger]
            mixed_parts(body, parts) && mixed_message(message, with_files(parts, attached), done),
        attached.len() == 0 ==> plain_message(message, body, done),
        envelope_from(done) == Some(senders_of(message)[0]),
        envelope_to(done) == recipients_of(message),
{
}

/// Files become parts one after the other: none leaves the parts as they are,
/// and each is added, under its name, behind those before it.
pub proof fn law_files_become_parts(
    parts: lettre::message::MultiPart,
    attached: Seq<(Seq<char>, Seq<char>)>,
    more: Seq<(Seq<char>, Seq<char>)>,
    filename: Seq<char>,
    content: Seq<char>,
)
    ensures
        with_files(parts, Seq::empty()) == parts,
        with_files(parts, seq![(filename, content)]) == with_file(parts, filename, content),
        with_files(parts, attached + more) == with_files(with_files(parts, attached), more),
    decreases more.len(),
{
    let one = seq![(filename, content)];
    let none = Seq::<(Seq<char>, Seq<char>)>::empty();
    assert(one.drop_last() =~= none);
    assert(with_files(parts, none) == parts);
    if more.len() == 0 {
        assert(attached + more =~= attached);
    } else {
        law_files_become_parts(parts, attached, more.drop_last(), filename, content);
        assert((attached + more).drop_last() =~= attached + more.drop_last());
        assert((attached + more).last() == more.last());
    }
}

/// Recipients are added one after the other, each behind those before it.
pub proof fn law_recipients_are_added(
    message: lettre::message::MessageBuilder,
    list: Seq<lettre::message::Mailbox>,
    more: Seq<lettre::message::Mailbox>,
    recipient: lettre::message::Mailbox,
)
    ensures
        message_to_all(message, Seq::empty()) == message,
        message_to_all(message, seq![recipient]) == message_to(message, recipient),
        message_to_all(message, list + more) == message_to_all(message_to_all(message, list), more),
    decreases more.len(),
{
    let one = seq![recipient];
    let none = Seq::<lettre::message::Mailbox>::empty();
    assert(one.drop_last() =~= none);
    assert(message_to_all(message, none) == message);
    if more.len() == 0 {
        assert(list + more =~= list);
    } else {
        law_recipients_are_added(message, list, more.drop_last(), recipient);
        assert((list + more).drop_last() =~= list + more.drop_last());
        assert((list + more).last() == more.last());
    }
}

/// Whom a message is from and to, and what it is about: the sender that is read
/// from its text, every recipient that is read from its own, in order, and the
/// subject as given.
pub proof fn law_draft_is_addressed(
    from_address: Seq<char>,
    list: Seq<Seq<char>>,
    subject: Seq<char>,
    mailboxes: Seq<lettre::message::Mailbox>,
)
    requires
        mailboxes.len() == list.len(),
        forall|i: int|
            0 <= i < list.len() ==> #[trigger] parsed_mailbox(list[i]) is Ok && mailboxes[i]
                == parsed_mailbox(list[i])->Ok_0,
    ensures
        draft(from_address, list, subject) == message_about(
            message_to_all(message_from(parsed_mailbox(from_address)->Ok_0), mailboxes),
            subject,
        ),
{
    assert forall|i: int| 0 <= i < list.len() implies recipients(list)[i] == mailboxes[i] by {
        assert(parsed_mailbox(list[i]) is Ok);
    }
    assert(recipients(list) =~= mailboxes);
}

/// `i` is where the first entry stands that something is wrong with.
pub open spec fn first_wrong_at(errors: Seq<Option<Seq<char>>>, i: int) -> bool {
    &&& 0 <= i < errors.len()
    &&& errors[i] is Some
    &&& forall|k: int| 0 <= k < i ==> #[trigger] errors[k] is None
}

proof fn lemma_rejected_entry(list: Seq<Seq<char>>, errors: Seq<Option<Seq<char>>>, i: int)
    requires
        list.len() == errors.len(),
    ensures
        first_wrong_at(errors, i) ==> rejected_entry(list, errors) == Some(
            (list[i], errors[i]->Some_0),
        ),
    decreases list.len(),
{
    if first_wrong_at(errors, i) && i > 0 {
        let rest = errors.skip(1);
        assert(errors[0] is None);
        assert forall|k: int| 0 <= k < rest.len() implies #[trigger] rest[k] == errors[k + 1] by {}
        lemma_rejected_entry(list.skip(1), rest, i - 1);
    }
}

/// Which lists are valid, and which can be sent to: those that hold an entry and
/// no wrong one. What is said of any other: its first wrong entry, or that it has
/// none at all.
pub proof fn law_lists_with_a_wrong_entry_are_refused(
    list: Seq<Seq<char>>,
    errors: Seq<Option<Seq<char>>>,
    i: int,
)
    requires
        list.len() == errors.len(),
    ensures
        list_problem(list, errors) is None <==> list.len() > 0 && forall|k: int|
            0 <= k < errors.len() ==> #[trigger] errors[k] is None,
        recipients_problem(list, errors) is None <==> list.len() > 0 && forall|k: int|
            0 <= k < errors.len() ==> #[trigger] errors[k] is None,
        first_wrong_at(errors, i) ==> list_problem(list, errors) == Some(
            "Invalid email address: '"@ + list[i] + "'"@,
        ),
        first_wrong_at(errors, i) ==> recipients_problem(list, errors) == Some(
            "Invalid to address '"@ + list[i] + "': "@ + errors[i]->Some_0,
        ),
        list.len() == 0 ==> list_problem(list, errors) == Some(
            "At least one valid email address is required"@,
        ) && recipients_problem(list, errors) == Some("No valid recipients provided"@),
{
    lemma_none_rejected(list, errors);
    lemma_rejected_entry(list, errors, i);
}

/// When a message can be addressed: where the sender and every recipient can be
/// read, and there is a recipient. What is wrong with the sender is said first.
pub proof fn law_readable_addresses_can_be_addressed(from_address: Seq<char>, list: Seq<Seq<char>>)
    ensures
        addressing_problem(from_address, list) is None <==> {
            &&& parsed_mailbox(from_address) is Ok
            &&& list.len() > 0
            &&& forall|k: int| 0 <= k < list.len() ==> parsed_mailbox(#[trigger] list[k]) is Ok
        },
        parsed_mailbox(from_address) matches Err(e) ==> addressing_problem(from_address, list)
            == Some("Invalid from address: "@ + e),
        list_problem(list, mailbox_errors(list)) is None <==> list.len() > 0 && forall|k: int|
            0 <= k < list.len() ==> parsed_mailbox(#[trigger] list[k]) is Ok,
{
    let errors = mailbox_errors(list);
    lemma_none_rejected(list, errors);
    assert forall|k: int| 0 <= k < list.len() implies (#[trigger] errors[k] is None
        <==> parsed_mailbox(list[k]) is Ok) by {}
    if forall|k: int| 0 <= k < errors.len() ==> #[trigger] errors[k] is None {
        assert forall|k: int| 0 <= k < list.len() implies parsed_mailbox(#[trigger] list[k])
            is Ok by {
            assert(errors[k] is None);
        }
    }
}

/// A message needs exactly one sender and at least one recipient.
pub proof fn law_messages_need_both_ends(senders: Seq<Seq<char>>, list: Seq<Seq<char>>)
    ensures
        build_problem(senders, list) is None <==> senders.len() == 1 && list.len() > 0,
{
}

/// How a scan is paced: as configured, value by value; what is not configured is
/// one millisecond after an IPv4 probe, 200 microseconds after an IPv6 probe,
/// three rounds, and one second between them.
pub proof fn law_pace_is_as_configured(scan: Option<ScanConfig>)
    ensures
        ({
            let pace = configured_pace(scan);
            &&& pace.ipv4_delay_ms == if scan is Some && scan->Some_0.ipv4_delay_ms is Some {
                scan->Some_0.ipv4_delay_ms->Some_0
            } else {
                1
            }
            &&& pace.ipv6_delay_us == if scan is Some && scan->Some_0.ipv6_delay_us is Some {
                scan->Some_0.ipv6_delay_us->Some_0
            } else {
                200
            }
            &&& pace.rounds == if scan is Some && scan->Some_0.rounds is Some {
                scan->Some_0.rounds->Some_0
            } else {
                3
            }
            &&& pace.round_delay_ms == if scan is Some && scan->Some_0.round_delay_ms is Some {
                scan->Some_0.round_delay_ms->Some_0
            } else {
                1000
            }
        }),
{
}

/// A connection is plain only where that is asked for by name, and never on the
/// port for implicit TLS; it is encrypted from the beginning on that port and
/// where that is asked for by name.
pub proof fn law_connections_are_secured(port: u16, encryption: Option<Seq<char>>)
    ensures
        security_of(port, encryption) is Plain <==> port != 465 && encryption == Some("none"@),
        security_of(port, encryption) is ImplicitTls <==> port == 465 || encryption == Some("ssl"@),
        security_of(port, encryption) is StartTls <==> port != 465 && encryption != Some("ssl"@)
            && encryption != Some("none"@),
{
    reveal_strlit("none");
    reveal_strlit("ssl");
    assert("none"@.len() == 4 && "ssl"@.len() == 3);
}

/// A text that is there is taken as it is.
pub proof fn law_text_is_taken_as_it_is(s: Option<String>)
    ensures
        s matches Some(text) ==> optional_text(s) == Some(text@),
        s is None ==> optional_text(s) is None,
{
}

/// Only a user with a password logs in, as that user and with that password.
pub proof fn law_login_needs_both(username: Option<Seq<char>>, password: Option<Seq<char>>)
    ensures
        login_of(username, password) is Some <==> username is Some && password is Some,
        login_of(username, password) matches Some(login) ==> username == Some(login.0) && password
            == Some(login.1),
{
}

/// A digit stands for its number.
proof fn lemma_octal_digit(d: nat)
    requires
        d < 8,
    ensures
        digit(d) as int - 48 == d,
        '0' <= digit(d) <= '7',
{
}

/// Four octal digits stand for their number.
pub proof fn law_octal_digits_are_read_back(n: nat)
    requires
        n < 4096,
    ensures
        four_octal_digits(n).len() == 4,
        forall|i: int| 0 <= i < 4 ==> '0' <= #[trigger] four_octal_digits(n)[i] <= '7',
        (four_octal_digits(n)[0] as int - 48) * 512 + (four_octal_digits(n)[1] as int - 48) * 64 + (
        four_octal_digits(n)[2] as int - 48) * 8 + (four_octal_digits(n)[3] as int - 48) == n,
{
    let (a, b, c, d) = (n / 512 % 8, n / 64 % 8, n / 8 % 8, n % 8);
    lemma_octal_digit(a);
    lemma_octal_digit(b);
    lemma_octal_digit(c);
    lemma_octal_digit(d);
    let text = four_octal_digits(n);
    assert(text[0] == digit(a) && text[1] == digit(b) && text[2] == digit(c) && text[3] == digit(d));
    assert(n == 8 * (n / 8) + d);
    assert(n / 8 == 8 * (n / 64) + c);
    assert(n / 64 == 8 * (n / 512) + b);
    assert(n / 512 == a);
    assert forall|i: int| 0 <= i < 4 implies '0' <= #[trigger] text[i] <= '7' by {
        if i == 0 {
            assert(text[i] == digit(a));
        } else if i == 1 {
            assert(text[i] == digit(b));
        } else if i == 2 {
            assert(text[i] == digit(c));
        } else {
            assert(text[i] == digit(d));
        }
    }
}

/// Files are listed with the name and the content that they have, in order.
pub proof fn law_files_are_listed(v: Seq<EmailAttachment>)
    ensures
        files(v).len() == v.len(),
        forall|i: int|
            0 <= i < v.len() ==> #[trigger] files(v)[i] == (v[i].filename@, v[i].content@),
{
}

} // verus!
