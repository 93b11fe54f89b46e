//! Standard input and output as one stream: a service that is a stage of a shell pipeline.
//!
//! Standard input is the subscription, standard output the publisher. What the transport decides
//! is here: which keys it takes, what a line is written as, which messages it refuses, and where
//! a line goes when the process is connected in memory. Attaching the pipes is its caller's.

use ruststream::HeaderMap;
use vstd::prelude::*;
use vstd::string::*;
use vstd::utf8::*;

use crate::clock;
use crate::error::{self, SeaFileError};
use crate::file::{Outgoing, ServerDescription};
use crate::headers::{self, lacks_headers};
use crate::key::{self, checked_key};
use crate::memory_file::{self, NextPoll, RawMessage, StoredView};
use crate::memory_pipe::MemoryPipe;
use crate::message::{self, Record, SeaMessage};
use crate::queue;
use crate::registry::{self, SubscriptionId};
use crate::wire::{self, encode};

verus! {

/// The refusal of a message a line cannot carry: the client drops empty lines.
pub open spec fn refused_empty() -> error::ErrorView {
    error::ErrorView::Invalid(
        "stdio drops empty lines; an empty message cannot be transmitted"@,
    )
}

/// Whether a message would become an empty line: it has no payload and no headers.
pub open spec fn is_empty_line(entries: Seq<(Seq<char>, Seq<u8>)>, payload: Seq<u8>) -> bool {
    entries.len() == 0 && payload.len() == 0
}

/// Standard input and output as one stream: consume lines from stdin, publish lines to stdout.
#[derive(Debug, Clone, Copy)]
#[must_use]
pub struct StdioBroker {
    loopback: bool,
}

impl Default for StdioBroker {
    fn default() -> (broker: Self)
        ensures
            !broker.loops_back(),
    {
        StdioBroker { loopback: false }
    }
}

impl StdioBroker {
    /// Whether published messages come back to this process's own subscribers.
    pub closed spec fn loops_back(&self) -> bool {
        self.loopback
    }

    /// Records configuration only. No I/O.
    pub fn new() -> (broker: Self)
        ensures
            !broker.loops_back(),
    {
        StdioBroker { loopback: false }
    }

    /// Loops published messages back to this process's own subscribers (for tests).
    pub fn loopback(self) -> (broker: Self)
        ensures
            broker.loops_back(),
    {
        StdioBroker { loopback: true }
    }

    /// Whether published messages come back to this process's own subscribers.
    pub fn is_loopback(&self) -> (loopback: bool)
        ensures
            loopback == self.loops_back(),
    {
        self.loopback
    }

    /// The document's description of the server: the pipe, by its protocol.
    pub fn describe_server(&self) -> (server: ServerDescription)
        ensures
            server.protocol@ == "stdio"@,
            server.description is None,
    {
        ServerDescription { protocol: "stdio".to_owned(), description: None }
    }

    /// What connecting comes to once the pipes were attached, or were not.
    pub fn connected(&self, outcome: Result<(), String>) -> (connected: Result<
        ConnectedStdioBroker,
        SeaFileError,
    >)
        ensures
            match outcome {
                Ok(()) => {
                    &&& connected matches Ok(connected)
                    &&& !connected.is_closed()
                    &&& connected.loops_back() == self.loops_back()
                },
                Err(source) => connected matches Err(error) && error@ == (
                error::ErrorView::Connect { target: "stdio"@, source: source@ }),
            },
    {
        match outcome {
            Ok(()) => Ok(ConnectedStdioBroker { loopback: self.loopback, closed: false }),
            Err(source) => Err(SeaFileError::Connect { target: "stdio".to_owned(), source }),
        }
    }

    /// Connects in process: a pipe held in memory in place of the process's own standard input
    /// and output.
    pub fn connect_in_process(&self) -> (connected: InProcessPipe)
        ensures
            !connected.is_closed(),
            connected.loops_back() == self.loops_back(),
            connected.pipe().loops_back() == self.loops_back(),
            connected.pipe().subscriptions().len() == 0,
            forall|key: Seq<char>| (#[trigger] connected.pipe().lines(key)).len() == 0,
            forall|key: Seq<char>| (#[trigger] connected.pipe().fed(key)) == 0,
            forall|key: Seq<char>| (#[trigger] connected.pipe().wrote(key)) == 0,
            connected.pipe().consistent(),
    {
        InProcessPipe {
            pipe: MemoryPipe::new(self.loopback),
            connected: ConnectedStdioBroker { loopback: self.loopback, closed: false },
        }
    }
}

/// The typed witness that connecting succeeded.
#[derive(Debug)]
pub struct ConnectedStdioBroker {
    loopback: bool,
    closed: bool,
}

/// Why a subscription on `name` does not open, if it does not.
pub open spec fn subscribe_error(closed: bool, name: Seq<char>) -> Option<error::ErrorView> {
    if closed {
        Some(error::ErrorView::NotConnected)
    } else if !key::is_stream_key(name) {
        Some(key::refused_key(name))
    } else {
        None
    }
}

/// Why a message is not written as a line, if it is not.
pub open spec fn publish_error(
    open: bool,
    name: Seq<char>,
    entries: Seq<(Seq<char>, Seq<u8>)>,
    payload: Seq<u8>,
) -> Option<error::ErrorView> {
    if !open {
        Some(error::ErrorView::NotConnected)
    } else if is_empty_line(entries, payload) {
        Some(refused_empty())
    } else if !key::is_stream_key(name) {
        Some(key::refused_key(name))
    } else {
        None
    }
}

/// The places among `subscriptions` that hold `destination`, below `end`.
pub open spec fn places_of(
    subscriptions: Seq<&str>,
    destination: Seq<char>,
    end: int,
) -> Seq<int>
    decreases end,
{
    if end <= 0 {
        Seq::empty()
    } else if subscriptions[end - 1]@ == destination {
        places_of(subscriptions, destination, end - 1).push(end - 1)
    } else {
        places_of(subscriptions, destination, end - 1)
    }
}

impl ConnectedStdioBroker {
    /// Whether the broker was shut down.
    pub closed spec fn is_closed(&self) -> bool {
        self.closed
    }

    /// Whether published messages come back to this process's own subscribers.
    pub closed spec fn loops_back(&self) -> bool {
        self.loopback
    }

    /// Rejects use of a handle that outlived the connection.
    pub fn ensure_open(&self) -> (open: Result<(), SeaFileError>)
        ensures
            open is Ok <==> !self.is_closed(),
            open matches Err(error) ==> error@ == error::ErrorView::NotConnected,
    {
        if self.closed {
            return Err(SeaFileError::NotConnected);
        }
        Ok(())
    }

    /// The stream key a subscription on `name` reads off standard input.
    ///
    /// # Errors
    ///
    /// Returns [`SeaFileError::NotConnected`] after the broker was shut down, and
    /// [`SeaFileError::Invalid`] for a name the client takes for no stream key.
    pub fn subscribe(&self, name: &str) -> (key: Result<String, SeaFileError>)
        ensures
            match subscribe_error(self.is_closed(), name@) {
                Some(refusal) => key matches Err(error) && error@ == refusal,
                None => key matches Ok(key) && key@ == name@,
            },
    {
        if let Err(error) = self.ensure_open() {
            return Err(error);
        }
        checked_key(name)
    }

    /// Shuts the broker down: every handle it gave out reports a closed connection from here on.
    pub fn close(&mut self)
        ensures
            final(self).is_closed(),
            final(self).loops_back() == old(self).loops_back(),
    {
        self.closed = true;
    }

    /// What shutting down comes to once the pipes were detached, or were not.
    pub fn disconnected(&self, outcome: Result<(), String>) -> (closed: Result<(), SeaFileError>)
        ensures
            match outcome {
                Ok(()) => closed is Ok,
                Err(source) => closed matches Err(error) && error@ == (
                error::ErrorView::Connect { target: "stdio"@, source: source@ }),
            },
    {
        match outcome {
            Ok(()) => Ok(()),
            Err(source) => Err(SeaFileError::Connect { target: "stdio".to_owned(), source }),
        }
    }

    /// Which of the service's own subscriptions a publish to `destination` reaches, by their
    /// places: those of the same stream key under loopback, and none of them otherwise.
    pub fn routes(&self, destination: &str, subscriptions: &[&str]) -> (places: Vec<usize>)
        ensures
            !self.loops_back() ==> places@.len() == 0,
            self.loops_back() ==> places@.map_values(|place: usize| place as int) == places_of(
                subscriptions@,
                destination@,
                subscriptions@.len() as int,
            ),
    {
        let mut places: Vec<usize> = Vec::new();
        if !self.loopback {
            return places;
        }
        let wanted = destination.to_owned();
        let mut i: usize = 0;
        proof {
            assert(places@.map_values(|place: usize| place as int) =~= Seq::empty());
        }
        while i < subscriptions.len()
            invariant
                i <= subscriptions.len(),
                wanted@ == destination@,
                places@.map_values(|place: usize| place as int) == places_of(
                    subscriptions@,
                    destination@,
                    i as int,
                ),
            decreases subscriptions.len() - i,
        {
            if subscriptions[i].to_owned() == wanted {
                let ghost before = places@;
                places.push(i);
                proof {
                    assert(places@.map_values(|place: usize| place as int) =~= before.map_values(
                        |place: usize| place as int,
                    ).push(i as int));
                }
            }
            i = i + 1;
        }
        places
    }
}

/// Whether a message may be written as a line at all, before its key is looked at. `connected` is
/// the connection the publisher shares, once there is one.
///
/// # Errors
///
/// Returns [`SeaFileError::NotConnected`] before the broker connected and after it was shut down,
/// and [`SeaFileError::Invalid`] for a message with no payload and no headers.
pub fn accepts(
    connected: Option<&ConnectedStdioBroker>,
    headers: &HeaderMap,
    payload: &[u8],
) -> (accepted: Result<(), SeaFileError>)
    ensures
        ({
            let open = connected matches Some(connected) && !connected.is_closed();
            let empty = is_empty_line(headers::header_entries(*headers), payload@);
            &&& accepted is Ok <==> open && !empty
            &&& accepted matches Err(error) ==> error@ == (if !open {
                error::ErrorView::NotConnected
            } else {
                refused_empty()
            })
        }),
{
    match connected {
        None => Err(SeaFileError::NotConnected),
        Some(connected) => {
            if let Err(error) = connected.ensure_open() {
                return Err(error);
            }
            if payload.len() == 0 && lacks_headers(headers) {
                return Err(
                    SeaFileError::Invalid(
                        "stdio drops empty lines; an empty message cannot be transmitted".to_owned(),
                    ),
                );
            }
            Ok(())
        },
    }
}

/// The line a message is written as, under its stream key: in the envelope wherever a line would
/// not carry it as it is.
///
/// # Errors
///
/// Returns [`SeaFileError::Invalid`] for a name the client takes for no stream key.
pub fn line(name: &str, headers: &HeaderMap, payload: &[u8]) -> (line: Result<
    Outgoing,
    SeaFileError,
>)
    ensures
        line is Ok <==> key::is_stream_key(name@),
        line matches Err(error) ==> error@ == key::refused_key(name@),
        line matches Ok(line) ==> {
            &&& line.key@ == name@
            &&& line.bytes@ == wire::written(
                headers::header_entries(*headers),
                payload@,
                true,
            )
            &&& wire::gives_back(line.bytes@, headers::header_entries(*headers), payload@)
            &&& wire::is_line(line.bytes@)
            &&& !is_empty_line(headers::header_entries(*headers), payload@)
                ==> line.bytes@.len() > 0
        },
{
    match checked_key(name) {
        Ok(key) => Ok(Outgoing { key, bytes: encode(headers, payload, true) }),
        Err(error) => Err(error),
    }
}

/// What a subscription makes of a read off standard input: a delivery, or the failure that ends
/// it; and whether reading goes on.
pub fn line_delivery(next: Result<Record, String>, stream: &str) -> (delivery: (
    Result<SeaMessage, SeaFileError>,
    bool,
))
    ensures
        match next {
            Ok(record) => {
                &&& delivery.0 matches Ok(message) && message@ == message::delivered(record@)
                &&& delivery.1
            },
            Err(source) => {
                &&& delivery.0 matches Err(error) && error@ == (error::ErrorView::Receive {
                    stream: stream@,
                    source: source@,
                })
                &&& !delivery.1
            },
        },
{
    match next {
        Ok(record) => (Ok(SeaMessage::new(&record)), true),
        Err(source) => (
            Err(SeaFileError::Receive { stream: stream.to_owned(), source }),
            false,
        ),
    }
}

/// A broker connected in process: the connection, and the pipe held in memory that it attached.
pub struct InProcessPipe {
    pipe: MemoryPipe,
    connected: ConnectedStdioBroker,
}

impl InProcessPipe {
    /// The pipe the connection attached.
    pub closed spec fn pipe(&self) -> MemoryPipe {
        self.pipe
    }

    /// Whether the broker was shut down.
    pub closed spec fn is_closed(&self) -> bool {
        self.connected.is_closed()
    }

    /// Whether the broker was told to loop published messages back.
    pub closed spec fn loops_back(&self) -> bool {
        self.connected.loops_back()
    }

    /// The connection.
    pub fn connected(&self) -> (connected: &ConnectedStdioBroker)
        ensures
            connected.is_closed() == self.is_closed(),
            connected.loops_back() == self.loops_back(),
    {
        &self.connected
    }

    /// Opens a subscription on `name`.
    ///
    /// # Errors
    ///
    /// Returns [`SeaFileError::NotConnected`] after the broker was shut down, and
    /// [`SeaFileError::Invalid`] for a name the client takes for no stream key.
    pub fn subscribe(&mut self, name: &str) -> (id: Result<SubscriptionId, SeaFileError>)
        ensures
            final(self).is_closed() == old(self).is_closed(),
            final(self).loops_back() == old(self).loops_back(),
            old(self).pipe().consistent() ==> final(self).pipe().consistent(),
            match subscribe_error(old(self).is_closed(), name@) {
                Some(refusal) => {
                    &&& id matches Err(error) && error@ == refusal
                    &&& final(self).pipe() == old(self).pipe()
                },
                None => {
                    &&& id matches Ok(id) && id == old(self).pipe().subscriptions().len()
                    &&& final(self).pipe().subscriptions() == old(
                        self,
                    ).pipe().subscriptions().push(queue::opened(name@, false))
                    &&& final(self).pipe().same_lines(&old(self).pipe())
                },
            },
    {
        match self.connected.subscribe(name) {
            Ok(key) => Ok(self.pipe.subscribe(key.as_str())),
            Err(error) => Err(error),
        }
    }

    /// Writes a message to standard output the way the publisher does; how many of the service's
    /// own subscriptions it came back to.
    ///
    /// # Errors
    ///
    /// Returns [`SeaFileError::NotConnected`] after the broker was shut down, and
    /// [`SeaFileError::Invalid`] for a message with no payload and no headers and for a name the
    /// client takes for no stream key.
    pub fn publish(&mut self, name: &str, headers: &HeaderMap, payload: &[u8]) -> (sent: Result<
        usize,
        SeaFileError,
    >)
        ensures
            final(self).is_closed() == old(self).is_closed(),
            final(self).loops_back() == old(self).loops_back(),
            old(self).pipe().consistent() ==> final(self).pipe().consistent(),
            match publish_error(
                !old(self).is_closed(),
                name@,
                headers::header_entries(*headers),
                payload@,
            ) {
                Some(refusal) => {
                    &&& sent matches Err(error) && error@ == refusal
                    &&& final(self).pipe() == old(self).pipe()
                },
                None => {
                    let bytes = wire::written(
                        headers::header_entries(*headers),
                        payload@,
                        true,
                    );
                    &&& sent matches Ok(sent) && sent == (if old(self).pipe().loops_back() {
                        registry::listeners(old(self).pipe().subscriptions(), name@)
                    } else {
                        0
                    })
                    &&& exists|at: int|
                        clock::is_moment(at) && #[trigger] final(self).pipe().put_out(
                            &old(self).pipe(),
                            name@,
                            (StoredView { at, bytes }),
                        )
                    &&& wire::gives_back(bytes, headers::header_entries(*headers), payload@)
                    &&& wire::is_line(bytes) && bytes.len() > 0
                },
            },
    {
        if let Err(error) = accepts(Some(&self.connected), headers, payload) {
            return Err(error);
        }
        match line(name, headers, payload) {
            Ok(line) => {
                let ghost bytes = line.bytes@;
                let sent = self.pipe.write(line.key.as_str(), line.bytes);
                proof {
                    let at = choose|at: int|
                        clock::is_moment(at) && #[trigger] self.pipe.put_out(
                            &old(self).pipe,
                            name@,
                            StoredView { at, bytes },
                        );
                    assert(self.pipe().put_out(
                        &old(self).pipe(),
                        name@,
                        StoredView { at, bytes },
                    ));
                }
                Ok(sent)
            },
            Err(error) => Err(error),
        }
    }

    /// Feeds a message to standard input, as the line an upstream stage of the pipeline writes for
    /// it; how many subscriptions read it. It has to be one a pipe carries.
    pub fn inject(&mut self, name: &str, headers: &HeaderMap, payload: &[u8]) -> (sent: usize)
        requires
            key::is_stream_key(name@),
            !is_empty_line(headers::header_entries(*headers), payload@),
        ensures
            final(self).is_closed() == old(self).is_closed(),
            final(self).loops_back() == old(self).loops_back(),
            old(self).pipe().consistent() ==> final(self).pipe().consistent(),
            ({
                let bytes = wire::written(headers::header_entries(*headers), payload@, true);
                &&& sent == registry::listeners(old(self).pipe().subscriptions(), name@)
                &&& exists|at: int|
                    clock::is_moment(at) && #[trigger] final(self).pipe().took_in(
                        &old(self).pipe(),
                        name@,
                        (StoredView { at, bytes }),
                    )
                &&& wire::gives_back(bytes, headers::header_entries(*headers), payload@)
                &&& wire::is_line(bytes) && bytes.len() > 0
            }),
    {
        let line = encode(headers, payload, true);
        let ghost bytes = line@;
        let sent = self.pipe.feed(name, line);
        proof {
            let at = choose|at: int|
                clock::is_moment(at) && #[trigger] self.pipe.took_in(
                    &old(self).pipe,
                    name@,
                    StoredView { at, bytes },
                );
            assert(self.pipe().took_in(&old(self).pipe(), name@, StoredView { at, bytes }));
        }
        sent
    }

    /// Every line that crossed the pipe under `name`, in order, with its envelope opened.
    pub fn published(&self, name: &str) -> (messages: Vec<RawMessage>)
        ensures
            messages@.len() == self.pipe().lines(name@).len(),
            forall|i: int|
                0 <= i < messages@.len() ==> (#[trigger] messages@[i]).opens(
                    name@,
                    self.pipe().lines(name@)[i].bytes,
                ),
    {
        self.pipe.published(name)
    }

    /// The next line of a subscription, or its end, or neither yet.
    pub fn poll_next(&mut self, id: SubscriptionId) -> (poll: NextPoll)
        requires
            id < old(self).pipe().subscriptions().len(),
        ensures
            final(self).is_closed() == old(self).is_closed(),
            final(self).loops_back() == old(self).loops_back(),
            old(self).pipe().consistent() ==> final(self).pipe().consistent(),
            ({
                let subscription = old(self).pipe().subscriptions()[id as int];
                let expected = queue::polled(subscription);
                &&& memory_file::delivers(poll.next, subscription.key, expected.found)
                &&& poll.superseded == expected.superseded
                &&& poll.stale == expected.stale
                &&& final(self).pipe().subscriptions() == old(
                    self,
                ).pipe().subscriptions().update(id as int, expected.after)
                &&& final(self).pipe().same_lines(&old(self).pipe())
            }),
    {
        self.pipe.poll_next(id)
    }

    /// Drops a subscription's handle; how many lines were queued for it, as far as a `usize`
    /// counts.
    pub fn unsubscribe(&mut self, id: SubscriptionId) -> (released: usize)
        requires
            id < old(self).pipe().subscriptions().len(),
        ensures
            final(self).is_closed() == old(self).is_closed(),
            final(self).loops_back() == old(self).loops_back(),
            old(self).pipe().consistent() ==> final(self).pipe().consistent(),
            released == queue::counted(
                queue::in_flight(old(self).pipe().subscriptions()[id as int]),
            ),
            final(self).pipe().subscriptions() == old(self).pipe().subscriptions().update(
                id as int,
                registry::dropped(old(self).pipe().subscriptions()[id as int]),
            ),
            final(self).pipe().same_lines(&old(self).pipe()),
    {
        self.pipe.unsubscribe(id)
    }

    /// Shuts the broker down. The pipe in memory belongs to this broker alone, so its shutdown
    /// reaches no other.
    pub fn shutdown(&mut self)
        ensures
            final(self).is_closed(),
            final(self).loops_back() == old(self).loops_back(),
            final(self).pipe() == old(self).pipe(),
    {
        self.connected.close();
    }
}

/// A subscription opens exactly on a broker that was not shut down and under a key the client takes,
/// and what is wrong is told in that order.
pub proof fn law_a_subscription_is_refused_for_its_first_fault(closed: bool, name: Seq<char>)
    ensures
        closed ==> subscribe_error(closed, name) == Some(error::ErrorView::NotConnected),
        !closed && !key::is_stream_key(name) ==> (subscribe_error(closed, name) matches Some(
            error::ErrorView::Invalid(why),
        ) && why == "'"@ + name + "': "@
            + "Invalid stream key: valid pattern is [a-zA-Z0-9._-]{1, 249}"@),
        !closed && key::is_stream_key(name) ==> subscribe_error(closed, name) is None,
{
}

/// A message is written exactly on an open connection, where it has a payload or a header, and
/// under a key the client takes; what is wrong is told in that order.
pub proof fn law_a_line_is_refused_for_its_first_fault(
    open: bool,
    name: Seq<char>,
    entries: Seq<(Seq<char>, Seq<u8>)>,
    payload: Seq<u8>,
)
    ensures
        ({
            let refusal = publish_error(open, name, entries, payload);
            let empty = entries.len() == 0 && payload.len() == 0;
            &&& !open ==> refusal == Some(error::ErrorView::NotConnected)
            &&& open && empty ==> refusal == Some(
                error::ErrorView::Invalid(
                    "stdio drops empty lines; an empty message cannot be transmitted"@,
                ),
            )
            &&& open && !empty && !key::is_stream_key(name) ==> (refusal matches Some(
                error::ErrorView::Invalid(why),
            ) && why == "'"@ + name + "': "@
                + "Invalid stream key: valid pattern is [a-zA-Z0-9._-]{1, 249}"@)
            &&& open && !empty && key::is_stream_key(name) ==> refusal is None
            &&& is_empty_line(entries, payload) <==> empty
        }),
{
}

/// The places of a destination are those among the subscriptions that hold it, all of them, each
/// once and from the first to the last.
pub proof fn law_a_line_is_routed_to_every_subscription_on_its_key(
    subscriptions: Seq<&str>,
    destination: Seq<char>,
    end: int,
)
    requires
        0 <= end <= subscriptions.len(),
    ensures
        ({
            let places = places_of(subscriptions, destination, end);
            &&& forall|i: int|
                0 <= i < places.len() ==> 0 <= (#[trigger] places[i]) < end
                    && subscriptions[places[i]]@ == destination
            &&& forall|i: int, j: int|
                0 <= i < j < places.len() ==> (#[trigger] places[i]) < (#[trigger] places[j])
            &&& forall|place: int|
                0 <= place < end && (#[trigger] subscriptions[place])@ == destination
                    ==> places.contains(place)
        }),
    decreases end,
{
    let places = places_of(subscriptions, destination, end);
    if end > 0 {
        law_a_line_is_routed_to_every_subscription_on_its_key(
            subscriptions,
            destination,
            end - 1,
        );
        let before = places_of(subscriptions, destination, end - 1);
        assert forall|place: int|
            0 <= place < end && (#[trigger] subscriptions[place])@
                == destination implies places.contains(place) by {
            if place < end - 1 {
                let i = choose|i: int| 0 <= i < before.len() && before[i] == place;
                assert(places[i] == place);
            } else {
                assert(places[places.len() - 1] == place);
            }
        }
    }
}

/// What a message is written as on standard output goes under its name, is one line of text that
/// crosses the pipe whole, and gives the message back.
pub proof fn law_a_written_line_gives_the_message_back(
    name: &str,
    headers: &HeaderMap,
    payload: &[u8],
    written: Result<Outgoing, SeaFileError>,
)
    requires
        call_ensures(line, (name, headers, payload), written),
        encode_utf8(wire::header_block(headers::header_entries(*headers))).len() <= u32::MAX,
        headers::well_named(headers::header_entries(*headers)),
        forall|i: int|
            0 <= i < headers::header_entries(*headers).len() ==> wire::is_carried_whole(
                (#[trigger] headers::header_entries(*headers)[i]).0,
                headers::header_entries(*headers)[i].1,
            ),
    ensures
        written is Ok <==> key::is_stream_key(name@),
        written matches Ok(written) ==> {
            &&& written.key@ == name@
            &&& valid_utf8(written.bytes@)
            &&& !decode_utf8(written.bytes@).contains('\n')
            &&& wire::opened(written.bytes@) == (headers::header_entries(*headers), payload@)
            &&& payload@.len() > 0 || headers::header_entries(*headers).len() > 0
                ==> written.bytes@.len() > 0
        },
{
    wire::law_a_message_comes_back_as_it_was_sent(
        headers::header_entries(*headers),
        payload@,
        true,
    );
    wire::law_a_line_is_text_without_a_newline(
        headers::header_entries(*headers),
        payload@,
        true,
    );
}

/// A line that is read is delivered and reading goes on; a failure is reported, naming the stream,
/// and is the last.
pub proof fn law_a_line_read_is_delivered(
    next: Result<Record, String>,
    stream: &str,
    delivery: (Result<SeaMessage, SeaFileError>, bool),
)
    requires
        call_ensures(line_delivery, (next, stream), delivery),
    ensures
        delivery.1 <==> next is Ok,
        next matches Ok(record) ==> (delivery.0 matches Ok(message) && message@.sequence
            == record.sequence && message@.stream == record.key@ && message@.payload
            == wire::opened(record.bytes@).1),
        next matches Err(source) ==> (delivery.0 matches Err(error) && error@ == (
        error::ErrorView::Receive { stream: stream@, source: source@ })),
{
}

/// A pipe loops nothing back until it is told to, and a connection keeps what the broker was told.
pub proof fn law_a_pipe_loops_back_where_it_is_told_to(
    silent: StdioBroker,
    looping: StdioBroker,
    broker: &StdioBroker,
    told: bool,
    connected: Result<ConnectedStdioBroker, SeaFileError>,
    in_process: InProcessPipe,
)
    requires
        call_ensures(StdioBroker::new, (), silent),
        call_ensures(StdioBroker::loopback, (silent,), looping),
        call_ensures(StdioBroker::is_loopback, (broker,), told),
        call_ensures(StdioBroker::connected, (broker, Ok::<(), String>(())), connected),
        call_ensures(StdioBroker::connect_in_process, (broker,), in_process),
    ensures
        !silent.loops_back(),
        looping.loops_back(),
        told == broker.loops_back(),
        connected matches Ok(connected) && !connected.is_closed() && connected.loops_back()
            == told,
        in_process.loops_back() == told,
        in_process.pipe().loops_back() == told,
        !in_process.is_closed(),
{
}

/// A published message comes back to the subscriptions on its key, each of them once, and to no
/// other; without the loopback it comes back to none.
pub proof fn law_a_message_comes_back_to_its_own_subscriptions(
    connected: &ConnectedStdioBroker,
    destination: &str,
    subscriptions: &[&str],
    places: Vec<usize>,
    place: usize,
)
    requires
        call_ensures(ConnectedStdioBroker::routes, (connected, destination, subscriptions), places),
    ensures
        places@.contains(place) <==> connected.loops_back() && place < subscriptions@.len()
            && subscriptions@[place as int]@ == destination@,
        places@.no_duplicates(),
{
    if connected.loops_back() {
        let routed = places_of(subscriptions@, destination@, subscriptions@.len() as int);
        law_a_line_is_routed_to_every_subscription_on_its_key(
            subscriptions@,
            destination@,
            subscriptions@.len() as int,
        );
        assert(routed.len() == places@.len());
        assert forall|i: int| 0 <= i < places@.len() implies routed[i] == #[trigger] places@[i] by {
            assert(places@.map_values(|place: usize| place as int)[i] == places@[i] as int);
        }
        if routed.contains(place as int) {
            let i = choose|i: int| 0 <= i < routed.len() && routed[i] == place as int;
            assert(places@[i] == place);
        }
        assert forall|i: int, j: int| 0 <= i < j < places@.len() implies places@[i]
            != places@[j] by {
            assert(routed[i] < routed[j]);
        }
    }
}

/// A publish is taken on an open connection where there is something to write.
pub proof fn law_an_empty_line_is_not_published(
    connected: &ConnectedStdioBroker,
    headers: &HeaderMap,
    payload: &[u8],
    accepted: Result<(), SeaFileError>,
    unconnected: Result<(), SeaFileError>,
)
    requires
        call_ensures(accepts, (Some(connected), headers, payload), accepted),
        call_ensures(accepts, (None, headers, payload), unconnected),
    ensures
        accepted is Ok <==> !connected.is_closed() && (payload@.len() > 0
            || headers::header_entries(*headers).len() > 0),
        accepted matches Err(error) ==> (if connected.is_closed() {
            error@ is NotConnected
        } else {
            error@ == error::ErrorView::Invalid(
                "stdio drops empty lines; an empty message cannot be transmitted"@,
            )
        }),
        unconnected matches Err(error) && error@ is NotConnected,
{
}

} // verus!
