use vstd::prelude::*;

pub mod api;
pub mod header;
pub mod json;
pub mod token;

verus! {

/// Everything that can go wrong while talking to the service.
#[derive(Debug)]
pub enum Error {
    /// The HTTP collaborator failed (connect, TLS, timeout, malformed
    /// response); the payload is its diagnostic message.
    Request(String),
    /// A response body did not have the expected JSON shape.
    Parse(String),
    /// The service throttled us: either the bootstrap page withheld the
    /// XSRF cookie, or a call answered HTTP 429.
    RateLimited,
    /// `create_emails` was given no email kinds at all.
    NoEmailKinds,
    /// `create_emails` was asked for zero addresses.
    ZeroCount,
}

impl Error {
    /// A human-readable description of the error.
    pub fn message(&self) -> (r: String)
        ensures
            (match self {
                Error::Request(m) => r@ == m@,
                Error::Parse(m) => r@ == m@,
                Error::RateLimited => r@ == "Rate limited by Cloudflare. Retry later"@,
                Error::NoEmailKinds => r@ == "No email kinds provided. Must provide at least one"@,
                Error::ZeroCount => r@ == "Count cannot be zero. Must provide at least one"@,
            }),
    {
        match self {
            Error::Request(m) => m.clone(),
            Error::Parse(m) => m.clone(),
            Error::RateLimited => String::from_str("Rate limited by Cloudflare. Retry later"),
            Error::NoEmailKinds => String::from_str(
                "No email kinds provided. Must provide at least one",
            ),
            Error::ZeroCount => String::from_str("Count cannot be zero. Must provide at least one"),
        }
    }
}

/// A request to generate an address with a particular aliasing strategy
/// of the provider.
#[derive(Clone, Copy, PartialEq, Eq, Structural, Debug)]
pub enum EmailKind {
    Domain,
    PlusGmail,
    DotGmail,
    GoogleMail,
}

/// One inbox entry: an opaque message identifier, the sender as the
/// service displays it, and the subject line.
#[derive(Debug)]
pub struct MailHeader {
    pub id: String,
    pub from: String,
    pub subject: String,
}

/// The spec-level shape of a `MailHeader`.
#[verifier::ext_equal]
pub struct MailHeaderView {
    pub id: Seq<char>,
    pub from: Seq<char>,
    pub subject: Seq<char>,
}

impl View for MailHeader {
    type V = MailHeaderView;

    open spec fn view(&self) -> MailHeaderView {
        MailHeaderView { id: self.id@, from: self.from@, subject: self.subject@ }
    }
}

impl DeepView for MailHeader {
    type V = MailHeaderView;

    open spec fn deep_view(&self) -> MailHeaderView {
        self.view()
    }
}

/// The state of a mailbox at request time: all messages, in the order
/// the service returned them.
#[derive(Debug)]
pub struct Inbox {
    pub message: Vec<MailHeader>,
}

impl View for Inbox {
    type V = Seq<MailHeaderView>;

    open spec fn view(&self) -> Seq<MailHeaderView> {
        self.message.deep_view()
    }
}

} // verus!
