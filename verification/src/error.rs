//! What can go wrong.

use humantime::DurationError;
use vstd::prelude::*;
use vstd::string::*;

verus! {

/// `humantime`'s account of why a text is no duration.
#[verifier::external_type_specification]
#[verifier::external_body]
pub struct ExDurationError(humantime::DurationError);

/// Why a request could not be carried out.
#[derive(Debug)]
pub enum Error {
    /// The interval between updates is no duration.
    InvalidRepeat { every: String, cause: DurationError },
    /// There is no node of the given name.
    NodeNotFound { node: String },
    /// A node without a name was to be added or changed.
    NamelessApply,
    /// A node without a name was to be removed.
    NamelessDelete,
    /// The list of a node's addresses holds something else.
    InvalidIp { node: String, ip: String },
    /// A node's coordinates are not two numbers separated by a comma.
    InvalidCoordinates { text: String },
    /// No hosted zone holds the domain.
    NoHostedZone { domain: String },
}

/// An `Error` by its texts.
pub ghost enum ErrorView {
    InvalidRepeat { every: Seq<char> },
    NodeNotFound { node: Seq<char> },
    NamelessApply,
    NamelessDelete,
    InvalidIp { node: Seq<char>, ip: Seq<char> },
    InvalidCoordinates { text: Seq<char> },
    NoHostedZone { domain: Seq<char> },
}

impl View for Error {
    type V = ErrorView;

    open spec fn view(&self) -> ErrorView {
        match *self {
            Error::InvalidRepeat { every, .. } => ErrorView::InvalidRepeat { every: every@ },
            Error::NodeNotFound { node } => ErrorView::NodeNotFound { node: node@ },
            Error::NamelessApply => ErrorView::NamelessApply,
            Error::NamelessDelete => ErrorView::NamelessDelete,
            Error::InvalidIp { node, ip } => ErrorView::InvalidIp { node: node@, ip: ip@ },
            Error::InvalidCoordinates { text } => ErrorView::InvalidCoordinates { text: text@ },
            Error::NoHostedZone { domain } => ErrorView::NoHostedZone { domain: domain@ },
        }
    }
}

/// The text between double quotes, with escapes, as the standard library's
/// `Debug` writes a string.
pub uninterp spec fn quoted(text: Seq<char>) -> Seq<char>;

/// Writes a string with the standard library's `Debug` for `str`. What it
/// escapes is left to the standard library.
#[verifier::external_body]
fn quote(text: &str) -> (quote: String)
    ensures
        quote@ == quoted(text@),
{
    format!("{text:?}")
}

/// The words for an error.
pub open spec fn message_of(error: ErrorView) -> Seq<char> {
    match error {
        ErrorView::InvalidRepeat { every } => "invalid value for repeat: "@ + quoted(every),
        ErrorView::NodeNotFound { node } => "node not found: "@ + quoted(node),
        ErrorView::NamelessApply => "received 'apply' node event without a name"@,
        ErrorView::NamelessDelete => "received 'delete' node event without a name"@,
        ErrorView::InvalidIp { node, ip } => "invalid IP for node "@ + node + ": "@ + ip,
        ErrorView::InvalidCoordinates { text } =>
            "invalid coordinates: expected string of the format '<lat>,<lon>', got: "@ + quoted(text),
        ErrorView::NoHostedZone { domain } => "no hosted zone found for domain: "@ + domain,
    }
}

/// The words for an error say what is wrong and end with what it is wrong with,
/// as it stands or between quotes.
pub proof fn messages_end_with_what_is_wrong(a: Seq<char>, b: Seq<char>)
    ensures
        message_of(ErrorView::InvalidRepeat { every: a }) == "invalid value for repeat: "@ + quoted(a),
        message_of(ErrorView::NodeNotFound { node: a }) == "node not found: "@ + quoted(a),
        message_of(ErrorView::InvalidIp { node: a, ip: b }) == "invalid IP for node "@ + a + ": "@ + b,
        message_of(ErrorView::InvalidCoordinates { text: a })
            == "invalid coordinates: expected string of the format '<lat>,<lon>', got: "@ + quoted(a),
        message_of(ErrorView::NoHostedZone { domain: a }) == "no hosted zone found for domain: "@ + a,
        message_of(ErrorView::NamelessApply) == "received 'apply' node event without a name"@,
        message_of(ErrorView::NamelessDelete) == "received 'delete' node event without a name"@,
{
}

impl Error {
    /// The words for this error.
    pub fn message(&self) -> (message: String)
        ensures
            message@ == message_of(self@),
    {
        match self {
            Error::InvalidRepeat { every, .. } => "invalid value for repeat: ".to_owned().concat(
                quote(every.as_str()).as_str(),
            ),
            Error::NodeNotFound { node } => "node not found: ".to_owned().concat(
                quote(node.as_str()).as_str(),
            ),
            Error::NamelessApply => "received 'apply' node event without a name".to_owned(),
            Error::NamelessDelete => "received 'delete' node event without a name".to_owned(),
            Error::InvalidIp { node, ip } => "invalid IP for node ".to_owned().concat(
                node.as_str(),
            ).concat(": ").concat(ip.as_str()),
            Error::InvalidCoordinates { text } =>
                "invalid coordinates: expected string of the format '<lat>,<lon>', got: ".to_owned().concat(
                quote(text.as_str()).as_str(),
            ),
            Error::NoHostedZone { domain } => "no hosted zone found for domain: ".to_owned().concat(
                domain.as_str(),
            ),
        }
    }
}

} // verus!
