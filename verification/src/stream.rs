//! [`FileStream`]: the subscription descriptor for the file transport.

use vstd::prelude::*;
use vstd::string::*;

use crate::error::{self, SeaFileError};

verus! {

/// The extension key the file transport's channel description sits under.
pub const FILE_EXTENSION: &'static str = "x-ruststream-file";

/// What a document reports about a file channel: the stream key the channel resolves to, under
/// the extension this crate owns. The path of the file is the server's own description and is not
/// repeated here.
#[derive(Debug)]
pub struct FileChannel {
    /// The extension key the description sits under.
    pub extension: &'static str,
    /// The stream key.
    pub stream_key: String,
}

/// What a file channel adds to the generated document: the stream key it resolves to.
///
/// Both ends of the transport answer through this: a subscription passes the key its descriptor
/// names, a publish the destination that was resolved for it. One stream key is both ends of the
/// file, so the two descriptions agree by construction.
pub fn channel_extension(stream_key: &str) -> (channel: FileChannel)
    ensures
        channel.extension@ == FILE_EXTENSION@,
        channel.extension@ == "x-ruststream-file"@,
        channel.stream_key@ == stream_key@,
{
    FileChannel {
        extension: FILE_EXTENSION,
        stream_key: stream_key.to_owned(),
    }
}

/// A subscription descriptor for one stream key in the file.
///
/// A plain descriptor follows the live tail. [`replay`](Self::replay) reads the finished file and
/// completes the stream at its end instead of following live writes.
#[derive(Debug, PartialEq, Eq)]
#[must_use]
pub struct FileStream {
    stream: String,
    replay: bool,
}

impl Clone for FileStream {
    fn clone(&self) -> (copy: Self)
        ensures
            copy.key() == self.key(),
            copy.replays() == self.replays(),
    {
        FileStream { stream: self.stream.clone(), replay: self.replay }
    }
}

impl FileStream {
    /// The stream key the descriptor names.
    pub closed spec fn key(&self) -> Seq<char> {
        self.stream@
    }

    /// Whether the descriptor reads the retained file and completes at its end.
    pub closed spec fn replays(&self) -> bool {
        self.replay
    }

    /// Names the stream key.
    pub fn new(stream: &str) -> (descriptor: Self)
        ensures
            descriptor.key() == stream@,
            !descriptor.replays(),
    {
        FileStream { stream: stream.to_owned(), replay: false }
    }

    /// Replays the retained file from the beginning instead of following live writes; the
    /// subscription completes at the end of the file.
    ///
    /// Every message the file holds is delivered before the subscription completes. The end is
    /// the end-of-stream mark a writer left, or the end of the file when there is none.
    pub fn replay(self) -> (descriptor: Self)
        ensures
            descriptor.key() == self.key(),
            descriptor.replays(),
    {
        FileStream { stream: self.stream, replay: true }
    }

    /// The stream key this descriptor resolves.
    #[must_use]
    pub fn stream(&self) -> (stream: &str)
        ensures
            stream@ == self.key(),
    {
        self.stream.as_str()
    }

    /// Whether the descriptor reads the retained file and completes at its end.
    pub fn replay_value(&self) -> (replay: bool)
        ensures
            replay == self.replays(),
    {
        self.replay
    }

    /// Where a deferred copy of a delayed message reaches this subscription again: the stream
    /// key, on both reading modes.
    ///
    /// A publisher on this broker appends under that key and the subscription reads the append.
    pub fn redelivery_address_value(&self) -> (address: String)
        ensures
            address@ == self.key(),
    {
        self.stream.clone()
    }

    /// What this subscription adds to its channel in the generated document.
    pub fn channel_extension(&self) -> (channel: FileChannel)
        ensures
            channel.extension@ == FILE_EXTENSION@,
            channel.stream_key@ == self.key(),
    {
        channel_extension(self.stream.as_str())
    }

    /// Rejects descriptors that cannot form a subscription, before any I/O.
    pub fn validate(&self) -> (valid: Result<(), SeaFileError>)
        ensures
            valid is Ok <==> self.key().len() > 0,
            valid matches Err(error) ==> error@ == error::ErrorView::Invalid(
                "stream key must be non-empty"@,
            ),
    {
        if self.stream.as_str().is_empty() {
            return Err(SeaFileError::Invalid("stream key must be non-empty".to_owned()));
        }
        Ok(())
    }
}

/// A descriptor names the key it was made with, to whoever asks: the subscription, a redelivery
/// and the generated document. It is live until it is told to replay, which changes nothing else.
pub proof fn law_a_descriptor_names_its_key(
    stream: &str,
    live: FileStream,
    replay: FileStream,
    named: &str,
    address: String,
    channel: FileChannel,
)
    requires
        call_ensures(FileStream::new, (stream,), live),
        call_ensures(FileStream::replay, (live,), replay),
        call_ensures(FileStream::stream, (&replay,), named),
        call_ensures(FileStream::redelivery_address_value, (&replay,), address),
        call_ensures(FileStream::channel_extension, (&replay,), channel),
    ensures
        live.key() == stream@,
        replay.key() == stream@,
        !live.replays(),
        replay.replays(),
        named@ == stream@,
        address@ == stream@,
        channel.stream_key@ == stream@,
        channel.extension@ == "x-ruststream-file"@,
{
}

/// A descriptor says whether it replays, and is refused exactly where it names no key.
pub proof fn law_a_descriptor_is_refused_without_a_key(
    descriptor: &FileStream,
    replays: bool,
    valid: Result<(), SeaFileError>,
)
    requires
        call_ensures(FileStream::replay_value, (descriptor,), replays),
        call_ensures(FileStream::validate, (descriptor,), valid),
    ensures
        replays <==> descriptor.replays(),
        valid is Err <==> descriptor.key().len() == 0,
        valid matches Err(error) ==> error@ == error::ErrorView::Invalid(
            "stream key must be non-empty"@,
        ),
{
}

} // verus!
