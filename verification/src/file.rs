//! The stream file: a persistent, replayable log on disk that needs no server.
//!
//! [`FileBroker`] records the path of a `.ss` file and what connecting is to do with it;
//! [`FileConnect`] is the order in which that is done; [`ConnectedFileBroker`] answers for the
//! open file until it is shut down. What they decide is here; opening, reading and writing the
//! file is their caller's.

use ruststream::HeaderMap;
use sea_streamer_file::FileConnectOptions;
use vstd::prelude::*;
use vstd::string::*;
use vstd::utf8::*;

use crate::clock;
use crate::driver::Reader;
use crate::error::{self, SeaFileError};
use crate::headers;
use crate::key::{self, checked_key};
use crate::memory_file::{self, MemoryFile, NextPoll, RawMessage};
use crate::message::FilePosition;
use crate::queue::{self, Sought};
use crate::registry::{self, SubscriptionId};
use crate::retained;
use crate::stream::FileStream;
use crate::wire::{self, encode};

verus! {

/// The internal stream key the connect-time priming marker rides; no user subscription matches
/// it.
pub const PRIME_STREAM: &'static str = "ruststream-internal";

/// The size up to which a stream file holds nothing but its own header.
pub const FRESH_SIZE: u64 = 128;

/// How the document describes the server a broker connects to.
#[derive(Debug)]
pub struct ServerDescription {
    /// The protocol's name.
    pub protocol: String,
    /// What is told of it.
    pub description: Option<String>,
}

/// The intervals the client takes for the file's beacons: positive multiples of 1024.
pub open spec fn is_beacon_interval(bytes: nat) -> bool {
    bytes > 0 && bytes % 1024 == 0
}

/// What the client says of an interval it does not take.
pub open spec fn beacon_refusal() -> Seq<char> {
    "ConfigErr: Please choose a 'better aligned' beacon interval"@
}

/// The refusal of a beacon interval the client does not take.
pub open spec fn refused_beacon() -> error::ErrorView {
    error::ErrorView::Invalid("invalid beacon interval: "@ + beacon_refusal())
}

/// `FileConnectOptions::set_beacon_interval`: nothing against a positive multiple of 1024, and
/// the text of `ConfigErr::InvalidBeaconInterval` for anything else.
#[verifier::external_body]
fn object_to_beacon(bytes: u32) -> (refusal: Option<String>)
    ensures
        refusal is None <==> is_beacon_interval(bytes as nat),
        refusal matches Some(why) ==> why@ == beacon_refusal(),
{
    FileConnectOptions::default().set_beacon_interval(bytes).err().map(|err| err.to_string())
}

/// How the stream file is opened.
#[derive(Debug, Clone, Copy, PartialEq, Eq, Structural)]
pub struct ConnectOptions {
    /// Whether a missing file is created.
    pub create_if_not_exists: bool,
    /// Whether the end-of-stream mark is written when the file is closed.
    pub end_with_eos: bool,
    /// How far apart the file's beacons sit, in bytes, where the broker says so.
    pub beacon_interval: Option<u32>,
}

/// A persistent, replayable stream on disk: what survives restarts, records for replay, and needs
/// no external broker.
///
/// `new` records only the path; the file opens when the broker connects.
#[derive(Debug)]
#[must_use]
pub struct FileBroker {
    path: String,
    create: bool,
    end_with_eos: bool,
    beacon_interval: Option<u32>,
}

/// What a [`FileBroker`] was told.
pub struct FileBrokerView {
    pub path: Seq<char>,
    pub create: bool,
    pub end_with_eos: bool,
    pub beacon_interval: Option<u32>,
}

impl View for FileBroker {
    type V = FileBrokerView;

    closed spec fn view(&self) -> FileBrokerView {
        FileBrokerView {
            path: self.path@,
            create: self.create,
            end_with_eos: self.end_with_eos,
            beacon_interval: self.beacon_interval,
        }
    }
}

/// Whether the client takes the settings of a broker.
pub open spec fn takes_settings(broker: FileBrokerView) -> bool {
    broker.beacon_interval matches Some(bytes) ==> is_beacon_interval(bytes as nat)
}

impl Clone for FileBroker {
    fn clone(&self) -> (copy: Self)
        ensures
            copy@ == self@,
    {
        FileBroker {
            path: self.path.clone(),
            create: self.create,
            end_with_eos: self.end_with_eos,
            beacon_interval: self.beacon_interval,
        }
    }
}

impl FileBroker {
    /// Records the path of the stream file (created on connect when missing). No I/O.
    pub fn new(path: &str) -> (broker: Self)
        ensures
            broker@ == (FileBrokerView {
                path: path@,
                create: true,
                end_with_eos: false,
                beacon_interval: None,
            }),
    {
        FileBroker {
            path: path.to_owned(),
            create: true,
            end_with_eos: false,
            beacon_interval: None,
        }
    }

    /// Requires the file to exist instead of creating it on connect.
    pub fn existing_only(self) -> (broker: Self)
        ensures
            broker@ == (FileBrokerView { create: false, ..self@ }),
    {
        FileBroker {
            path: self.path,
            create: false,
            end_with_eos: self.end_with_eos,
            beacon_interval: self.beacon_interval,
        }
    }

    /// Writes an end-of-stream mark when the broker shuts down, marking the file finished.
    ///
    /// A subscription that tails the file reads the mark and ends there, which is the only thing
    /// that ends a live subscription; a replay reads a marked file to its end and completes.
    pub fn end_with_eos(self) -> (broker: Self)
        ensures
            broker@ == (FileBrokerView { end_with_eos: true, ..self@ }),
    {
        FileBroker {
            path: self.path,
            create: self.create,
            end_with_eos: true,
            beacon_interval: self.beacon_interval,
        }
    }

    /// The interval of the file's in-place index (must be a positive multiple of 1024); denser
    /// beacons make seeking finer-grained at the cost of file size.
    pub fn beacon_interval(self, bytes: u32) -> (broker: Self)
        ensures
            broker@ == (FileBrokerView { beacon_interval: Some(bytes), ..self@ }),
    {
        FileBroker {
            path: self.path,
            create: self.create,
            end_with_eos: self.end_with_eos,
            beacon_interval: Some(bytes),
        }
    }

    /// The path of the stream file.
    pub fn path(&self) -> (path: &str)
        ensures
            path@ == self@.path,
    {
        self.path.as_str()
    }

    /// The document's description of the server: the file, by its path.
    pub fn describe_server(&self) -> (server: ServerDescription)
        ensures
            server.protocol@ == "file"@,
            server.description matches Some(description) && description@ == self@.path,
    {
        ServerDescription {
            protocol: "file".to_owned(),
            description: Some(self.path.clone()),
        }
    }

    /// How connecting opens the file, or the error that says the client takes no such settings.
    pub fn options(&self) -> (options: Result<ConnectOptions, SeaFileError>)
        ensures
            options is Ok <==> takes_settings(self@),
            options matches Ok(options) ==> options == (ConnectOptions {
                create_if_not_exists: self@.create,
                end_with_eos: self@.end_with_eos,
                beacon_interval: self@.beacon_interval,
            }),
            options matches Err(error) ==> error@ == refused_beacon(),
    {
        if let Some(bytes) = self.beacon_interval {
            if let Some(refusal) = object_to_beacon(bytes) {
                let mut why = "invalid beacon interval: ".to_owned();
                why.append(refusal.as_str());
                return Err(SeaFileError::Invalid(why));
            }
        }
        Ok(
            ConnectOptions {
                create_if_not_exists: self.create,
                end_with_eos: self.end_with_eos,
                beacon_interval: self.beacon_interval,
            },
        )
    }

    /// Connects in process: a file held in memory in place of the one at the broker's path, under
    /// the broker's settings, which are checked the way `connect` checks them.
    pub fn connect_in_process(&self) -> (connected: Result<InProcessFile, SeaFileError>)
        ensures
            connected is Ok <==> takes_settings(self@),
            connected matches Ok(connected) ==> {
                &&& !connected.is_closed()
                &&& connected.file().consistent()
                &&& connected.file().subscriptions().len() == 0
                &&& forall|key: Seq<char>|
                    (#[trigger] connected.file().retained(key)).len() == 0
                &&& !connected.file().is_marked()
                &&& connected.file().ends_with_eos() == self@.end_with_eos
            },
            connected matches Err(error) ==> error@ == refused_beacon(),
    {
        match self.options() {
            Ok(options) => Ok(
                InProcessFile {
                    file: MemoryFile::new(options.end_with_eos),
                    connected: ConnectedFileBroker::new(self.path.as_str()),
                },
            ),
            Err(error) => Err(error),
        }
    }
}

/// What connecting does next.
pub enum ConnectStep {
    /// Turn the path into the address the client opens.
    Resolve,
    /// Open the file.
    Open(ConnectOptions),
    /// Create the producer every publisher of this connection shares.
    CreateProducer,
    /// Look how large the file is.
    Measure,
    /// Prime a fresh file with one marker on an internal stream key: the client cannot finish
    /// creating a live consumer on a file with no content.
    Prime,
    /// Flush the marker to disk.
    Flush,
    /// The file is open.
    Connected,
}

/// How far connecting got.
#[derive(Debug, Clone, Copy, PartialEq, Eq, Structural)]
pub enum Stage {
    Resolving,
    Opening,
    Producing,
    Measuring,
    Priming,
    Flushing,
    Connected,
    Failed,
}

/// What a step that succeeded brings connecting to. Measuring is decided by the size it found.
pub open spec fn stage_after(stage: Stage) -> Stage {
    match stage {
        Stage::Resolving => Stage::Opening,
        Stage::Opening => Stage::Producing,
        Stage::Producing => Stage::Measuring,
        Stage::Measuring => Stage::Measuring,
        Stage::Priming => Stage::Flushing,
        Stage::Flushing => Stage::Connected,
        Stage::Connected => Stage::Connected,
        Stage::Failed => Stage::Failed,
    }
}

/// Whether a file of this size, or one whose size cannot be had, holds nothing yet.
pub open spec fn is_fresh(size: Option<u64>) -> bool {
    size matches Some(size) ==> size <= FRESH_SIZE
}

/// One run of connecting a [`FileBroker`].
pub struct FileConnect {
    path: String,
    options: ConnectOptions,
    stage: Stage,
}

impl FileConnect {
    /// How far connecting got.
    pub closed spec fn stage(&self) -> Stage {
        self.stage
    }

    /// The path of the stream file.
    pub closed spec fn path(&self) -> Seq<char> {
        self.path@
    }

    /// How the file is opened.
    pub closed spec fn options(&self) -> ConnectOptions {
        self.options
    }

    /// Begins connecting, or refuses settings the client does not take.
    pub fn begin(broker: &FileBroker) -> (connect: Result<Self, SeaFileError>)
        ensures
            connect is Ok <==> takes_settings(broker@),
            connect matches Ok(connect) ==> {
                &&& connect.stage() is Resolving
                &&& connect.path() == broker@.path
                &&& connect.options() == (ConnectOptions {
                    create_if_not_exists: broker@.create,
                    end_with_eos: broker@.end_with_eos,
                    beacon_interval: broker@.beacon_interval,
                })
            },
            connect matches Err(error) ==> error@ == refused_beacon(),
    {
        match broker.options() {
            Ok(options) => Ok(
                FileConnect { path: broker.path.clone(), options, stage: Stage::Resolving },
            ),
            Err(error) => Err(error),
        }
    }

    /// What connecting does next.
    pub fn step(&self) -> (step: ConnectStep)
        requires
            !(self.stage() is Failed),
        ensures
            step == step_at(self.stage(), self.options()),
    {
        match self.stage {
            Stage::Resolving => ConnectStep::Resolve,
            Stage::Opening => ConnectStep::Open(self.options),
            Stage::Producing => ConnectStep::CreateProducer,
            Stage::Measuring => ConnectStep::Measure,
            Stage::Priming => ConnectStep::Prime,
            Stage::Flushing => ConnectStep::Flush,
            Stage::Connected => ConnectStep::Connected,
            Stage::Failed => ConnectStep::Connected,
        }
    }

    /// A step was done: connecting goes on, or fails with the client's failure.
    pub fn done(&mut self, outcome: Result<(), String>) -> (goes_on: Result<(), SeaFileError>)
        ensures
            final(self).path() == old(self).path(),
            final(self).options() == old(self).options(),
            match outcome {
                Ok(()) => goes_on is Ok && final(self).stage() == stage_after(old(self).stage()),
                Err(source) => {
                    &&& goes_on matches Err(error) && error@ == (error::ErrorView::Connect {
                        target: old(self).path(),
                        source: source@,
                    })
                    &&& final(self).stage() is Failed
                },
            },
    {
        match outcome {
            Ok(()) => {
                self.stage = match self.stage {
                    Stage::Resolving => Stage::Opening,
                    Stage::Opening => Stage::Producing,
                    Stage::Producing => Stage::Measuring,
                    Stage::Measuring => Stage::Measuring,
                    Stage::Priming => Stage::Flushing,
                    Stage::Flushing => Stage::Connected,
                    Stage::Connected => Stage::Connected,
                    Stage::Failed => Stage::Failed,
                };
                Ok(())
            },
            Err(source) => {
                self.stage = Stage::Failed;
                Err(SeaFileError::Connect { target: self.path.clone(), source })
            },
        }
    }

    /// The size of the file was looked up, if it could be: a fresh file is primed, and any other
    /// is open.
    pub fn measured(&mut self, size: Option<u64>)
        requires
            old(self).stage() is Measuring,
        ensures
            final(self).path() == old(self).path(),
            final(self).options() == old(self).options(),
            final(self).stage() == next_stage(old(self).stage(), size),
    {
        let fresh = match size {
            Some(size) => size <= FRESH_SIZE,
            None => true,
        };
        self.stage = if fresh {
            Stage::Priming
        } else {
            Stage::Connected
        };
    }
}

/// What connecting does at a stage, before it is connected or has failed.
pub open spec fn step_at(stage: Stage, options: ConnectOptions) -> ConnectStep {
    match stage {
        Stage::Resolving => ConnectStep::Resolve,
        Stage::Opening => ConnectStep::Open(options),
        Stage::Producing => ConnectStep::CreateProducer,
        Stage::Measuring => ConnectStep::Measure,
        Stage::Priming => ConnectStep::Prime,
        Stage::Flushing => ConnectStep::Flush,
        _ => ConnectStep::Connected,
    }
}

/// The stage the step of `stage` leads to where it succeeds, over a file of this size.
pub open spec fn next_stage(stage: Stage, size: Option<u64>) -> Stage {
    if stage is Measuring {
        if is_fresh(size) {
            Stage::Priming
        } else {
            Stage::Connected
        }
    } else {
        stage_after(stage)
    }
}

/// How many steps are left at most.
pub open spec fn steps_left(stage: Stage) -> nat {
    match stage {
        Stage::Resolving => 6,
        Stage::Opening => 5,
        Stage::Producing => 4,
        Stage::Measuring => 3,
        Stage::Priming => 2,
        Stage::Flushing => 1,
        _ => 0,
    }
}

/// The steps connecting takes from `stage` on where each of them succeeds, over a file of this
/// size.
pub open spec fn steps_from(
    stage: Stage,
    options: ConnectOptions,
    size: Option<u64>,
) -> Seq<ConnectStep>
    decreases steps_left(stage),
{
    if steps_left(stage) == 0 {
        Seq::empty()
    } else {
        seq![step_at(stage, options)] + steps_from(next_stage(stage, size), options, size)
    }
}

/// Connecting opens the file under the broker's settings before it writes anything to it, and
/// primes it exactly when it is fresh, with the marker flushed before the connection is there.
pub proof fn law_only_a_fresh_file_is_primed(options: ConnectOptions, size: Option<u64>)
    ensures
        steps_from(Stage::Resolving, options, size) == seq![
            ConnectStep::Resolve,
            ConnectStep::Open(options),
            ConnectStep::CreateProducer,
            ConnectStep::Measure,
        ] + (if is_fresh(size) {
            seq![ConnectStep::Prime, ConnectStep::Flush]
        } else {
            Seq::empty()
        }),
{
    reveal_with_fuel(steps_from, 7);
    assert(steps_from(Stage::Resolving, options, size) =~= seq![
        ConnectStep::Resolve,
        ConnectStep::Open(options),
        ConnectStep::CreateProducer,
        ConnectStep::Measure,
    ] + (if is_fresh(size) {
        seq![ConnectStep::Prime, ConnectStep::Flush]
    } else {
        Seq::empty()
    }));
}

/// The marker a fresh file is primed with: its stream key and its one byte.
pub fn prime_marker() -> (marker: Outgoing)
    ensures
        marker.key@ == PRIME_STREAM@,
        marker.key@ == "ruststream-internal"@,
        marker.bytes@ == seq![0x31u8],
        key::is_stream_key(marker.key@),
{
    let mut bytes: Vec<u8> = Vec::new();
    bytes.push(0x31);
    proof {
        reveal_strlit("ruststream-internal");
    }
    Outgoing { key: PRIME_STREAM.to_owned(), bytes }
}

/// One message on its way out: the stream key it goes under and the bytes that are written.
pub struct Outgoing {
    /// The stream key.
    pub key: String,
    /// The bytes, in their envelope if they need one.
    pub bytes: Vec<u8>,
}

/// Where a consumer begins reading.
#[derive(Debug, Clone, Copy, PartialEq, Eq, Structural)]
pub enum StreamReset {
    /// The start of the file.
    Earliest,
    /// The tip of the file.
    Latest,
}

/// How a subscription reads the file.
pub struct SubscribePlan {
    /// The stream key it reads.
    pub key: String,
    /// Where reading begins.
    pub reset: StreamReset,
    /// Whether it goes on with what is written from there on.
    pub live_streaming: bool,
    /// What the driver reads through.
    pub reader: Reader,
}

/// How closing the file ended.
pub enum Disconnect {
    /// The file was flushed and closed.
    Done,
    /// Its producer had ended already: another broker over the same file finished first.
    ProducerEnded,
    /// Anything else, as the client tells it.
    Failed(String),
}

/// The typed witness that connecting succeeded: the file is open until it is shut down.
#[derive(Debug)]
pub struct ConnectedFileBroker {
    path: String,
    closed: bool,
}

/// Why a descriptor opens no subscription on a broker that is `closed` or not, if it does not.
pub open spec fn subscribe_error(
    closed: bool,
    descriptor: &FileStream,
) -> Option<error::ErrorView> {
    if descriptor.key().len() == 0 {
        Some(error::ErrorView::Invalid("stream key must be non-empty"@))
    } else if closed {
        Some(error::ErrorView::NotConnected)
    } else if !key::is_stream_key(descriptor.key()) {
        Some(key::refused_key(descriptor.key()))
    } else {
        None
    }
}

/// Why a message under `name` is not published, if it is not: the connection is not there or was
/// shut down, or the client takes no such key.
pub open spec fn publish_error(open: bool, name: Seq<char>) -> Option<error::ErrorView> {
    if !open {
        Some(error::ErrorView::NotConnected)
    } else if !key::is_stream_key(name) {
        Some(key::refused_key(name))
    } else {
        None
    }
}

impl ConnectedFileBroker {
    /// Whether the broker was shut down.
    pub closed spec fn is_closed(&self) -> bool {
        self.closed
    }

    /// The path of the stream file.
    pub closed spec fn path(&self) -> Seq<char> {
        self.path@
    }

    /// The broker of an open file.
    pub fn new(path: &str) -> (connected: Self)
        ensures
            !connected.is_closed(),
            connected.path() == path@,
    {
        ConnectedFileBroker { path: path.to_owned(), closed: false }
    }

    /// Rejects use of a handle that outlived the connection.
    pub fn ensure_open(&self) -> (open: Result<(), SeaFileError>)
        ensures
            open is Ok <==> !self.is_closed(),
            open matches Err(error) ==> error@ == error::ErrorView::NotConnected,
    {
        if self.closed {
            return Err(SeaFileError::NotConnected);
        }
        Ok(())
    }

    /// How the subscription `descriptor` describes reads the file.
    ///
    /// A live subscription tails the file. Replay is the one mode a seek cannot express: it reads
    /// the retained file from the start and completes the stream at its end.
    ///
    /// # Errors
    ///
    /// Returns [`SeaFileError`] when the descriptor is invalid or the broker is shut down.
    pub fn subscribe_stream(&self, descriptor: &FileStream) -> (plan: Result<
        SubscribePlan,
        SeaFileError,
    >)
        ensures
            match subscribe_error(self.is_closed(), descriptor) {
                Some(refusal) => plan matches Err(error) && error@ == refusal,
                None => {
                    &&& plan matches Ok(plan)
                    &&& plan.key@ == descriptor.key()
                    &&& plan.reset == (if descriptor.replays() {
                        StreamReset::Earliest
                    } else {
                        StreamReset::Latest
                    })
                    &&& plan.live_streaming == !descriptor.replays()
                    &&& plan.reader == (if descriptor.replays() {
                        Reader::Replay
                    } else {
                        Reader::Tail
                    })
                },
            },
    {
        if let Err(error) = descriptor.validate() {
            return Err(error);
        }
        if let Err(error) = self.ensure_open() {
            return Err(error);
        }
        let key = match checked_key(descriptor.stream()) {
            Ok(key) => key,
            Err(error) => {
                return Err(error);
            },
        };
        let replay = descriptor.replay_value();
        Ok(
            SubscribePlan {
                key,
                reset: if replay {
                    StreamReset::Earliest
                } else {
                    StreamReset::Latest
                },
                live_streaming: !replay,
                reader: if replay {
                    Reader::Replay
                } else {
                    Reader::Tail
                },
            },
        )
    }

    /// Shuts the broker down: every handle it gave out reports a closed connection from here on.
    pub fn close(&mut self)
        ensures
            final(self).is_closed(),
            final(self).path() == old(self).path(),
    {
        self.closed = true;
    }

    /// What shutting down comes to once the file was closed. A producer that had ended already is
    /// benign: another broker over the same file finished first.
    pub fn disconnected(&self, outcome: Disconnect) -> (closed: Result<(), SeaFileError>)
        ensures
            match outcome {
                Disconnect::Failed(source) => closed matches Err(error) && error@ == (
                error::ErrorView::Connect { target: self.path(), source: source@ }),
                _ => closed is Ok,
            },
    {
        match outcome {
            Disconnect::Done => Ok(()),
            Disconnect::ProducerEnded => Ok(()),
            Disconnect::Failed(source) => Err(
                SeaFileError::Connect { target: self.path.clone(), source },
            ),
        }
    }
}

/// What a publish writes to the file: the message under its stream key, in its envelope if it needs
/// one. `connected` is the connection the publisher shares, once there is one.
///
/// # Errors
///
/// Returns [`SeaFileError::NotConnected`] before the broker connected and after it was shut down,
/// and [`SeaFileError::Invalid`] for a name the client takes for no stream key.
pub fn outgoing(
    connected: Option<&ConnectedFileBroker>,
    name: &str,
    headers: &HeaderMap,
    payload: &[u8],
) -> (outgoing: Result<Outgoing, SeaFileError>)
    ensures
        match publish_error(
            connected matches Some(connected) && !connected.is_closed(),
            name@,
        ) {
            Some(refusal) => outgoing matches Err(error) && error@ == refusal,
            None => {
                &&& outgoing matches Ok(outgoing)
                &&& outgoing.key@ == name@
                &&& outgoing.bytes@ == wire::written(
                    headers::header_entries(*headers),
                    payload@,
                    false,
                )
                &&& wire::gives_back(
                    outgoing.bytes@,
                    headers::header_entries(*headers),
                    payload@,
                )
            },
        },
{
    match connected {
        None => Err(SeaFileError::NotConnected),
        Some(connected) => {
            if let Err(error) = connected.ensure_open() {
                return Err(error);
            }
            match checked_key(name) {
                Ok(key) => Ok(Outgoing { key, bytes: encode(headers, payload, false) }),
                Err(error) => Err(error),
            }
        },
    }
}

/// The error of a subscription the client did not open.
pub fn subscribe_failed(stream: &str, source: String) -> (error: SeaFileError)
    ensures
        error@ == (error::ErrorView::Subscribe { stream: stream@, source: source@ }),
{
    SeaFileError::Subscribe { stream: stream.to_owned(), source }
}

/// The error of a message the client did not send or flush.
pub fn publish_failed(stream: &str, source: String) -> (error: SeaFileError)
    ensures
        error@ == (error::ErrorView::Publish { stream: stream@, source: source@ }),
{
    SeaFileError::Publish { stream: stream.to_owned(), source }
}

/// A broker connected in process: the connection, and the file held in memory that it opened.
pub struct InProcessFile {
    file: MemoryFile,
    connected: ConnectedFileBroker,
}

impl InProcessFile {
    /// The file the connection opened.
    pub closed spec fn file(&self) -> MemoryFile {
        self.file
    }

    /// Whether the broker was shut down.
    pub closed spec fn is_closed(&self) -> bool {
        self.connected.is_closed()
    }

    /// Opens the subscription `descriptor` describes; its id, and how many messages were queued
    /// for it.
    ///
    /// # Errors
    ///
    /// Returns [`SeaFileError`] when the descriptor is invalid or the broker is shut down.
    pub fn subscribe_stream(&mut self, descriptor: &FileStream) -> (opened: Result<
        (SubscriptionId, usize),
        SeaFileError,
    >)
        ensures
            final(self).is_closed() == old(self).is_closed(),
            old(self).file().consistent() ==> final(self).file().consistent(),
            match subscribe_error(old(self).is_closed(), descriptor) {
                Some(refusal) => {
                    &&& opened matches Err(error) && error@ == refusal
                    &&& final(self).file() == old(self).file()
                },
                None => {
                    &&& opened matches Ok(opened)
                    &&& opened.0 == old(self).file().subscriptions().len()
                    &&& opened.1 == (if descriptor.replays() {
                        old(self).file().retained(descriptor.key()).len()
                    } else {
                        0
                    })
                    &&& final(self).file().subscriptions() == old(
                        self,
                    ).file().subscriptions().push(
                        memory_file::subscribed(
                            descriptor.key(),
                            descriptor.replays(),
                            old(self).file().retained(descriptor.key()),
                        ),
                    )
                    &&& forall|key: Seq<char>|
                        (#[trigger] final(self).file().retained(key)) == old(
                            self,
                        ).file().retained(key)
                    &&& final(self).file().is_marked() == old(self).file().is_marked()
                    &&& final(self).file().ends_with_eos() == old(self).file().ends_with_eos()
                },
            },
    {
        match self.connected.subscribe_stream(descriptor) {
            Ok(plan) => Ok(self.file.subscribe(plan.key.as_str(), !plan.live_streaming)),
            Err(error) => Err(error),
        }
    }

    /// Publishes a message the way the file's publisher does; how many subscriptions it reached.
    ///
    /// # Errors
    ///
    /// Returns [`SeaFileError::NotConnected`] after the broker was shut down, and
    /// [`SeaFileError::Invalid`] for a name the client takes for no stream key.
    pub fn publish(&mut self, name: &str, headers: &HeaderMap, payload: &[u8]) -> (sent: Result<
        usize,
        SeaFileError,
    >)
        ensures
            final(self).is_closed() == old(self).is_closed(),
            old(self).file().consistent() ==> final(self).file().consistent(),
            match publish_error(!old(self).is_closed(), name@) {
                Some(refusal) => {
                    &&& sent matches Err(error) && error@ == refusal
                    &&& final(self).file() == old(self).file()
                },
                None => {
                    let bytes = wire::written(
                        headers::header_entries(*headers),
                        payload@,
                        false,
                    );
                    &&& sent matches Ok(sent) && sent == registry::listeners(
                        old(self).file().subscriptions(),
                        name@,
                    )
                    &&& exists|at: int|
                        clock::is_moment(at) && #[trigger] final(self).file().appended(
                            &old(self).file(),
                            name@,
                            bytes,
                            at,
                        )
                    &&& wire::gives_back(bytes, headers::header_entries(*headers), payload@)
                },
            },
    {
        match outgoing(Some(&self.connected), name, headers, payload) {
            Ok(outgoing) => {
                let sent = self.file.append(outgoing.key.as_str(), outgoing.bytes);
                proof {
                    let at = choose|at: int|
                        clock::is_moment(at) && #[trigger] self.file.appended(
                            &old(self).file,
                            name@,
                            outgoing.bytes@,
                            at,
                        );
                    assert(self.file().appended(&old(self).file(), name@, outgoing.bytes@, at));
                }
                Ok(sent)
            },
            Err(error) => Err(error),
        }
    }

    /// Writes a message into the file the way a producer elsewhere does, whether or not this
    /// broker is shut down; how many subscriptions it reached.
    pub fn inject(&mut self, name: &str, headers: &HeaderMap, payload: &[u8]) -> (sent: usize)
        requires
            key::is_stream_key(name@),
        ensures
            final(self).is_closed() == old(self).is_closed(),
            old(self).file().consistent() ==> final(self).file().consistent(),
            ({
                let bytes = wire::written(headers::header_entries(*headers), payload@, false);
                &&& sent == registry::listeners(old(self).file().subscriptions(), name@)
                &&& exists|at: int|
                    clock::is_moment(at) && #[trigger] final(self).file().appended(
                        &old(self).file(),
                        name@,
                        bytes,
                        at,
                    )
                &&& wire::gives_back(bytes, headers::header_entries(*headers), payload@)
            }),
    {
        let bytes = encode(headers, payload, false);
        let ghost written = bytes@;
        let sent = self.file.append(name, bytes);
        proof {
            let at = choose|at: int|
                clock::is_moment(at) && #[trigger] self.file.appended(
                    &old(self).file,
                    name@,
                    written,
                    at,
                );
            assert(self.file().appended(&old(self).file(), name@, written, at));
        }
        sent
    }

    /// Every message written under `name`, in order, with its envelope opened.
    pub fn published(&self, name: &str) -> (messages: Vec<RawMessage>)
        ensures
            messages@.len() == self.file().retained(name@).len(),
            forall|i: int|
                0 <= i < messages@.len() ==> (#[trigger] messages@[i]).opens(
                    name@,
                    self.file().retained(name@)[i].bytes,
                ),
    {
        self.file.published(name)
    }

    /// Moves a subscription; how many messages its replay holds, and how many of a seek that still
    /// waited it overtook.
    ///
    /// # Errors
    ///
    /// Returns what [`MemoryFile::request_seek`] returns.
    pub fn seek(&mut self, id: SubscriptionId, to: FilePosition) -> (sought: Result<
        Sought,
        SeaFileError,
    >)
        requires
            id < old(self).file().subscriptions().len(),
        ensures
            final(self).is_closed() == old(self).is_closed(),
            old(self).file().consistent() ==> final(self).file().consistent(),
            ({
                let file = old(self).file();
                let subscription = file.subscriptions()[id as int];
                let entries = file.retained(subscription.key);
                &&& match memory_file::seek_error(
                    subscription,
                    entries,
                    file.is_marked(),
                    to,
                ) {
                    Some(refusal) => sought matches Err(error) && error@ == refusal,
                    None => {
                        &&& sought matches Ok(sought) && memory_file::resolved(entries, to) matches
                            memory_file::Resolution::At(target) && sought.queued
                            == retained::numbered_from(entries, target - 1, 1).len()
                            && sought.overtaken == queue::waiting(subscription)
                    },
                }
                &&& final(self).file().subscriptions() == file.subscriptions().update(
                    id as int,
                    memory_file::after_seek(subscription, entries, file.is_marked(), to),
                )
                &&& forall|key: Seq<char>|
                    (#[trigger] final(self).file().retained(key)) == file.retained(key)
                &&& final(self).file().is_marked() == file.is_marked()
                &&& final(self).file().ends_with_eos() == file.ends_with_eos()
            }),
    {
        self.file.request_seek(id, to)
    }

    /// The next delivery of a subscription, or its end, or neither yet.
    pub fn poll_next(&mut self, id: SubscriptionId) -> (poll: NextPoll)
        requires
            id < old(self).file().subscriptions().len(),
        ensures
            final(self).is_closed() == old(self).is_closed(),
            old(self).file().consistent() ==> final(self).file().consistent(),
            ({
                let file = old(self).file();
                let subscription = file.subscriptions()[id as int];
                let expected = queue::polled(subscription);
                &&& memory_file::delivers(poll.next, subscription.key, expected.found)
                &&& poll.superseded == expected.superseded
                &&& poll.stale == expected.stale
                &&& final(self).file().subscriptions() == file.subscriptions().update(
                    id as int,
                    expected.after,
                )
                &&& forall|key: Seq<char>|
                    (#[trigger] final(self).file().retained(key)) == file.retained(key)
                &&& final(self).file().is_marked() == file.is_marked()
                &&& final(self).file().ends_with_eos() == file.ends_with_eos()
            }),
    {
        self.file.poll_next(id)
    }

    /// Drops a subscription's handle; how many messages were queued for it or waited to be, as far
    /// as a `usize` counts.
    pub fn unsubscribe(&mut self, id: SubscriptionId) -> (released: usize)
        requires
            id < old(self).file().subscriptions().len(),
        ensures
            final(self).is_closed() == old(self).is_closed(),
            old(self).file().consistent() ==> final(self).file().consistent(),
            ({
                let file = old(self).file();
                let subscription = file.subscriptions()[id as int];
                &&& released == queue::counted(queue::in_flight(subscription))
                &&& final(self).file().subscriptions() == file.subscriptions().update(
                    id as int,
                    registry::dropped(subscription),
                )
                &&& forall|key: Seq<char>|
                    (#[trigger] final(self).file().retained(key)) == file.retained(key)
                &&& final(self).file().is_marked() == file.is_marked()
                &&& final(self).file().ends_with_eos() == file.ends_with_eos()
            }),
    {
        self.file.unsubscribe(id)
    }

    /// Shuts the broker down, and finishes the file if the broker writes the end-of-stream mark.
    pub fn shutdown(&mut self)
        ensures
            final(self).is_closed(),
            old(self).file().consistent() ==> final(self).file().consistent(),
            ({
                let file = old(self).file();
                &&& final(self).file().is_marked() == (file.is_marked() || file.ends_with_eos())
                &&& final(self).file().subscriptions() == (if file.ends_with_eos() {
                    registry::all_marked(file.subscriptions())
                } else {
                    file.subscriptions()
                })
                &&& forall|key: Seq<char>|
                    (#[trigger] final(self).file().retained(key)) == file.retained(key)
                &&& final(self).file().ends_with_eos() == file.ends_with_eos()
            }),
    {
        self.connected.close();
        self.file.finish();
    }
}

/// A subscription opens exactly for a key that is not empty, on a broker that was not shut down, and
/// where the client takes the key; what is wrong is told in that order.
pub proof fn law_a_subscription_is_refused_for_its_first_fault(
    closed: bool,
    descriptor: &FileStream,
)
    ensures
        ({
            let name = descriptor.key();
            let refusal = subscribe_error(closed, descriptor);
            &&& name.len() == 0 ==> refusal == Some(
                error::ErrorView::Invalid("stream key must be non-empty"@),
            )
            &&& name.len() > 0 && closed ==> refusal == Some(error::ErrorView::NotConnected)
            &&& name.len() > 0 && !closed && !key::is_stream_key(name) ==> (refusal matches Some(
                error::ErrorView::Invalid(why),
            ) && why == "'"@ + name + "': "@
                + "Invalid stream key: valid pattern is [a-zA-Z0-9._-]{1, 249}"@)
            &&& name.len() > 0 && !closed && key::is_stream_key(name) ==> refusal is None
        }),
{
}

/// A message is published exactly on an open connection and under a key the client takes, and what
/// is wrong is told in that order.
pub proof fn law_a_publish_is_refused_for_its_first_fault(open: bool, name: Seq<char>)
    ensures
        !open ==> publish_error(open, name) == Some(error::ErrorView::NotConnected),
        open && !key::is_stream_key(name) ==> (publish_error(open, name) matches Some(
            error::ErrorView::Invalid(why),
        ) && why == "'"@ + name + "': "@
            + "Invalid stream key: valid pattern is [a-zA-Z0-9._-]{1, 249}"@),
        open && key::is_stream_key(name) ==> publish_error(open, name) is None,
{
}

/// The client takes a broker's settings exactly where they name no beacon interval or a positive
/// multiple of 1024.
pub proof fn law_an_interval_is_a_positive_multiple_of_1024(
    broker: FileBrokerView,
    factor: nat,
)
    ensures
        broker.beacon_interval is None ==> takes_settings(broker),
        broker.beacon_interval matches Some(bytes) ==> (takes_settings(broker) <==> bytes > 0
            && bytes % 1024 == 0),
        factor > 0 ==> is_beacon_interval(1024 * factor),
        refused_beacon() == error::ErrorView::Invalid(
            "invalid beacon interval: "@
                + "ConfigErr: Please choose a 'better aligned' beacon interval"@,
        ),
{
}

/// Connecting goes through its steps in order, from the address to the connection: the file is
/// opened as the broker says before a producer is made, and it is measured before anything is
/// written. A file of at most 128 bytes, or one whose size cannot be had, is primed and flushed,
/// and any other is left as it is.
pub proof fn law_connecting_takes_its_steps_in_order(options: ConnectOptions, size: Option<u64>)
    ensures
        step_at(Stage::Resolving, options) is Resolve,
        next_stage(Stage::Resolving, size) is Opening,
        step_at(Stage::Opening, options) == ConnectStep::Open(options),
        next_stage(Stage::Opening, size) is Producing,
        step_at(Stage::Producing, options) is CreateProducer,
        next_stage(Stage::Producing, size) is Measuring,
        step_at(Stage::Measuring, options) is Measure,
        next_stage(Stage::Measuring, size) is Priming <==> (size is None || size->0 <= 128),
        next_stage(Stage::Measuring, size) is Connected <==> size is Some && size->0 > 128,
        step_at(Stage::Priming, options) is Prime,
        next_stage(Stage::Priming, size) is Flushing,
        step_at(Stage::Flushing, options) is Flush,
        next_stage(Stage::Flushing, size) is Connected,
        step_at(Stage::Connected, options) is Connected,
        next_stage(Stage::Connected, size) is Connected,
        next_stage(Stage::Failed, size) is Failed,
        stage_after(Stage::Resolving) is Opening,
        stage_after(Stage::Opening) is Producing,
        stage_after(Stage::Producing) is Measuring,
        stage_after(Stage::Priming) is Flushing,
        stage_after(Stage::Flushing) is Connected,
        stage_after(Stage::Measuring) is Measuring,
        stage_after(Stage::Connected) is Connected,
        stage_after(Stage::Failed) is Failed,
{
}

/// What a publish writes goes under the name it was published to and gives the message back; it is
/// refused exactly off an open connection and under a name the client takes for no key.
pub proof fn law_what_a_publish_writes_gives_the_message_back(
    connected: &ConnectedFileBroker,
    name: &str,
    headers: &HeaderMap,
    payload: &[u8],
    written: Result<Outgoing, SeaFileError>,
    unconnected: Result<Outgoing, SeaFileError>,
)
    requires
        call_ensures(outgoing, (Some(connected), name, headers, payload), written),
        call_ensures(outgoing, (None, name, headers, payload), unconnected),
        encode_utf8(wire::header_block(headers::header_entries(*headers))).len() <= u32::MAX,
        headers::well_named(headers::header_entries(*headers)),
        forall|i: int|
            0 <= i < headers::header_entries(*headers).len() ==> wire::is_carried_whole(
                (#[trigger] headers::header_entries(*headers)[i]).0,
                headers::header_entries(*headers)[i].1,
            ),
    ensures
        written is Ok <==> !connected.is_closed() && key::is_stream_key(name@),
        written matches Ok(written) ==> written.key@ == name@ && wire::opened(written.bytes@)
            == (headers::header_entries(*headers), payload@),
        connected.is_closed() ==> (written matches Err(error) && error@ is NotConnected),
        unconnected matches Err(error) && error@ is NotConnected,
{
    wire::law_a_message_comes_back_as_it_was_sent(
        headers::header_entries(*headers),
        payload@,
        false,
    );
}

/// A subscription reads its own key: a replay from the start of the file and to its end, through
/// the file itself, and a live one from the tip on, through the client's consumer.
pub proof fn law_a_subscription_reads_as_it_is_described(
    connected: &ConnectedFileBroker,
    descriptor: &FileStream,
    plan: Result<SubscribePlan, SeaFileError>,
)
    requires
        call_ensures(ConnectedFileBroker::subscribe_stream, (connected, descriptor), plan),
    ensures
        plan is Ok <==> descriptor.key().len() > 0 && !connected.is_closed()
            && key::is_stream_key(descriptor.key()),
        plan matches Ok(plan) ==> plan.key@ == descriptor.key(),
        (plan matches Ok(plan) ==> (descriptor.replays() ==> plan.reset is Earliest
            && !plan.live_streaming && plan.reader is Replay)),
        (plan matches Ok(plan) ==> (!descriptor.replays() ==> plan.reset is Latest
            && plan.live_streaming && plan.reader is Tail)),
{
}

/// The file is opened as the broker was told, where the client takes what it was told.
pub proof fn law_a_file_is_opened_as_the_broker_was_told(
    broker: &FileBroker,
    options: Result<ConnectOptions, SeaFileError>,
)
    requires
        call_ensures(FileBroker::options, (broker,), options),
    ensures
        options is Ok <==> (broker@.beacon_interval matches Some(bytes) ==> bytes > 0 && bytes
            % 1024 == 0),
        options matches Ok(options) ==> options.create_if_not_exists == broker@.create
            && options.end_with_eos == broker@.end_with_eos && options.beacon_interval
            == broker@.beacon_interval,
        options matches Err(error) ==> error@ == error::ErrorView::Invalid(
            "invalid beacon interval: "@
                + "ConfigErr: Please choose a 'better aligned' beacon interval"@,
        ),
{
}

/// A broker that was told nothing but its path creates a missing file, writes no end-of-stream
/// mark, leaves the beacons to the client and is always ready to open.
pub proof fn law_a_broker_starts_with_its_path_alone(
    path: &str,
    broker: FileBroker,
    told: &str,
    options: Result<ConnectOptions, SeaFileError>,
)
    requires
        call_ensures(FileBroker::new, (path,), broker),
        call_ensures(FileBroker::path, (&broker,), told),
        call_ensures(FileBroker::options, (&broker,), options),
    ensures
        told@ == path@,
        options matches Ok(options) && options.create_if_not_exists && !options.end_with_eos
            && options.beacon_interval is None,
{
}

/// Each setting changes what it names and nothing else, so settings may be told in any order.
pub proof fn law_a_setting_changes_what_it_names(
    broker: FileBroker,
    bytes: u32,
    existing: FileBroker,
    ending: FileBroker,
    spaced: FileBroker,
)
    requires
        call_ensures(FileBroker::existing_only, (broker,), existing),
        call_ensures(FileBroker::end_with_eos, (broker,), ending),
        call_ensures(FileBroker::beacon_interval, (broker, bytes), spaced),
    ensures
        !existing@.create,
        existing@.path == broker@.path,
        existing@.end_with_eos == broker@.end_with_eos,
        existing@.beacon_interval == broker@.beacon_interval,
        ending@.end_with_eos,
        ending@.path == broker@.path,
        ending@.create == broker@.create,
        ending@.beacon_interval == broker@.beacon_interval,
        spaced@.beacon_interval == Some(bytes),
        spaced@.path == broker@.path,
        spaced@.create == broker@.create,
        spaced@.end_with_eos == broker@.end_with_eos,
{
}

/// Connecting starts by resolving the path, on the settings the broker was told.
pub proof fn law_connecting_starts_from_the_settings(
    broker: &FileBroker,
    connect: Result<FileConnect, SeaFileError>,
    options: Result<ConnectOptions, SeaFileError>,
)
    requires
        call_ensures(FileConnect::begin, (broker,), connect),
        call_ensures(FileBroker::options, (broker,), options),
    ensures
        connect is Ok <==> options is Ok,
        connect matches Ok(connect) ==> connect.stage() is Resolving && connect.path()
            == broker@.path && options == Ok::<ConnectOptions, SeaFileError>(connect.options()),
        connect matches Err(refused) ==> (options matches Err(error) && refused@ == error@),
{
}

/// A connection is open until it is closed, and one that is closed says that it is not connected.
pub proof fn law_an_open_connection_says_so(
    path: &str,
    opened: ConnectedFileBroker,
    open: Result<(), SeaFileError>,
    connected: &ConnectedFileBroker,
    answer: Result<(), SeaFileError>,
)
    requires
        call_ensures(ConnectedFileBroker::new, (path,), opened),
        call_ensures(ConnectedFileBroker::ensure_open, (&opened,), open),
        call_ensures(ConnectedFileBroker::ensure_open, (connected,), answer),
    ensures
        open is Ok,
        opened.path() == path@,
        answer is Ok <==> !connected.is_closed(),
        answer matches Err(error) ==> error@ is NotConnected,
{
}

/// Only a disconnect that failed is reported, with the file it failed on and why.
pub proof fn law_only_a_failed_disconnect_is_reported(
    connected: &ConnectedFileBroker,
    outcome: Disconnect,
    closed: Result<(), SeaFileError>,
)
    requires
        call_ensures(ConnectedFileBroker::disconnected, (connected, outcome), closed),
    ensures
        closed is Err <==> outcome is Failed,
        outcome matches Disconnect::Failed(source) ==> (closed matches Err(error) && error@ == (
        error::ErrorView::Connect { target: connected.path(), source: source@ })),
{
}

} // verus!
