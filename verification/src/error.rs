//! The crate-level error type.

use vstd::prelude::*;
use vstd::string::*;

verus! {

/// Errors returned by the file and stdio transports.
///
/// One enum for the whole crate, variants by source. A wrapped source is the client's failure as
/// text, so the public API does not leak the client's error types.
#[derive(Debug)]
#[non_exhaustive]
pub enum SeaFileError {
    /// Opening (or creating) the stream file, or attaching stdio, failed.
    Connect {
        /// The file path or `stdio`.
        target: String,
        /// The client's failure.
        source: String,
    },
    /// Opening a subscription failed.
    Subscribe {
        /// The stream key the subscription targeted.
        stream: String,
        /// The client's failure.
        source: String,
    },
    /// The transport failed while receiving.
    Receive {
        /// The stream key (or file) of the subscription.
        stream: String,
        /// The client's failure.
        source: String,
    },
    /// Publishing failed.
    Publish {
        /// The stream key the message targeted.
        stream: String,
        /// The client's failure.
        source: String,
    },
    /// Repositioning failed.
    Seek {
        /// The stream key of the subscription.
        stream: String,
        /// The client's failure.
        source: String,
    },
    /// The handle is used before `connect` filled the shared state, or after `shutdown`.
    NotConnected,
    /// A descriptor or payload is invalid for this transport.
    Invalid(String),
}

/// What a [`SeaFileError`] says, with its texts as sequences of characters.
pub enum ErrorView {
    Connect { target: Seq<char>, source: Seq<char> },
    Subscribe { stream: Seq<char>, source: Seq<char> },
    Receive { stream: Seq<char>, source: Seq<char> },
    Publish { stream: Seq<char>, source: Seq<char> },
    Seek { stream: Seq<char>, source: Seq<char> },
    NotConnected,
    Invalid(Seq<char>),
}

impl View for SeaFileError {
    type V = ErrorView;

    open spec fn view(&self) -> ErrorView {
        match self {
            SeaFileError::Connect { target, source } => ErrorView::Connect {
                target: target@,
                source: source@,
            },
            SeaFileError::Subscribe { stream, source } => ErrorView::Subscribe {
                stream: stream@,
                source: source@,
            },
            SeaFileError::Receive { stream, source } => ErrorView::Receive {
                stream: stream@,
                source: source@,
            },
            SeaFileError::Publish { stream, source } => ErrorView::Publish {
                stream: stream@,
                source: source@,
            },
            SeaFileError::Seek { stream, source } => ErrorView::Seek {
                stream: stream@,
                source: source@,
            },
            SeaFileError::NotConnected => ErrorView::NotConnected,
            SeaFileError::Invalid(why) => ErrorView::Invalid(why@),
        }
    }
}

/// The message an error is reported with.
pub open spec fn error_message(error: ErrorView) -> Seq<char> {
    match error {
        ErrorView::Connect { target, source } => "stream connect error on '"@ + target + "': "@
            + source,
        ErrorView::Subscribe { stream, source } => "subscribe error on '"@ + stream + "': "@
            + source,
        ErrorView::Receive { stream, source } => "receive error on '"@ + stream + "': "@ + source,
        ErrorView::Publish { stream, source } => "publish error to '"@ + stream + "': "@ + source,
        ErrorView::Seek { stream, source } => "seek error on '"@ + stream + "': "@ + source,
        ErrorView::NotConnected => "stream transport is not connected"@,
        ErrorView::Invalid(why) => "invalid descriptor: "@ + why,
    }
}

/// What stands in front of a failure, the name it concerns in quotes, and the failure itself.
fn report(what: &str, name: &String, source: &String) -> (message: String)
    ensures
        message@ == what@ + name@ + "': "@ + source@,
{
    let mut message = what.to_owned();
    message.append(name.as_str());
    message.append("': ");
    message.append(source.as_str());
    message
}

impl SeaFileError {
    /// The error as a message for people.
    pub fn message(&self) -> (message: String)
        ensures
            message@ == error_message(self@),
    {
        match self {
            SeaFileError::Connect { target, source } => report(
                "stream connect error on '",
                target,
                source,
            ),
            SeaFileError::Subscribe { stream, source } => report(
                "subscribe error on '",
                stream,
                source,
            ),
            SeaFileError::Receive { stream, source } => report(
                "receive error on '",
                stream,
                source,
            ),
            SeaFileError::Publish { stream, source } => report(
                "publish error to '",
                stream,
                source,
            ),
            SeaFileError::Seek { stream, source } => report("seek error on '", stream, source),
            SeaFileError::NotConnected => "stream transport is not connected".to_owned(),
            SeaFileError::Invalid(why) => {
                let mut message = "invalid descriptor: ".to_owned();
                message.append(why.as_str());
                message
            },
        }
    }
}

/// Every error tells what failed, names what it concerns in quotes, and ends with the failure as it
/// was told.
pub proof fn law_an_error_tells_what_failed_and_why(
    name: Seq<char>,
    source: Seq<char>,
)
    ensures
        error_message(ErrorView::Connect { target: name, source })
            == "stream connect error on '"@ + name + "': "@ + source,
        error_message(ErrorView::Subscribe { stream: name, source }) == "subscribe error on '"@
            + name + "': "@ + source,
        error_message(ErrorView::Receive { stream: name, source }) == "receive error on '"@ + name
            + "': "@ + source,
        error_message(ErrorView::Publish { stream: name, source }) == "publish error to '"@ + name
            + "': "@ + source,
        error_message(ErrorView::Seek { stream: name, source }) == "seek error on '"@ + name
            + "': "@ + source,
        error_message(ErrorView::Invalid(source)) == "invalid descriptor: "@ + source,
        error_message(ErrorView::NotConnected) == "stream transport is not connected"@,
{
}

/// An error says what it was made with.
pub proof fn law_an_error_is_what_it_was_made_with(error: SeaFileError)
    ensures
        match error {
            SeaFileError::Connect { target, source } => error@ == (ErrorView::Connect {
                target: target@,
                source: source@,
            }),
            SeaFileError::Subscribe { stream, source } => error@ == (ErrorView::Subscribe {
                stream: stream@,
                source: source@,
            }),
            SeaFileError::Receive { stream, source } => error@ == (ErrorView::Receive {
                stream: stream@,
                source: source@,
            }),
            SeaFileError::Publish { stream, source } => error@ == (ErrorView::Publish {
                stream: stream@,
                source: source@,
            }),
            SeaFileError::Seek { stream, source } => error@ == (ErrorView::Seek {
                stream: stream@,
                source: source@,
            }),
            SeaFileError::NotConnected => error@ is NotConnected,
            SeaFileError::Invalid(why) => error@ == ErrorView::Invalid(why@),
        },
{
}

} // verus!
