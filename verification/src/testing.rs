//! The in-process stands for the two transports: a router over a retained log, and whether the
//! broker that owns it was shut down.
//!
//! A stream file's stand keeps a retained, positioned log, and its subscriptions seek; a pipe's
//! stand keeps the same log and offers no seeking.

use bytes::Bytes;
use ruststream::HeaderMap;
use vstd::prelude::*;
use vstd::string::*;

use crate::buffer;
use crate::clock;
use crate::error::{self, SeaFileError};
use crate::headers;
use crate::memory_file::{RawMessage, Resolution};
use crate::message::FilePosition;
use crate::queue::{self, Sought};
use crate::registry::{self, SubscriptionId};
use crate::retained;
use crate::router::{self, AddressRouter, TestPoll};
use crate::stream::FileStream;

verus! {

/// Shared state of one in-process broker: the router, and whether the broker was shut down.
///
/// The connected form is shareable and hands out publishers, so a handle can outlive the
/// connection here exactly as it can on the real transports; such a handle reports
/// [`SeaFileError::NotConnected`].
pub struct TestState {
    router: AddressRouter,
    closed: bool,
}

impl TestState {
    /// The router.
    pub closed spec fn router(&self) -> AddressRouter {
        self.router
    }

    /// Whether the broker was shut down.
    pub closed spec fn is_closed(&self) -> bool {
        self.closed
    }

    /// The state of an empty in-process broker.
    pub fn new() -> (state: Self)
        ensures
            !state.is_closed(),
            state.router().consistent(),
            state.router().subscriptions().len() == 0,
            forall|address: Seq<char>|
                (#[trigger] state.router().retained(address)).len() == 0,
    {
        TestState { router: AddressRouter::new(), closed: false }
    }

    /// Rejects use of a handle that outlived the connection, the way the real transports do.
    pub fn ensure_open(&self) -> (open: Result<(), SeaFileError>)
        ensures
            open is Ok <==> !self.is_closed(),
            open matches Err(error) ==> error@ == error::ErrorView::NotConnected,
    {
        if self.closed {
            return Err(SeaFileError::NotConnected);
        }
        Ok(())
    }

    /// Opens an in-process subscription on `name`.
    ///
    /// # Errors
    ///
    /// Returns [`SeaFileError::NotConnected`] once the broker has been shut down.
    pub fn open(&mut self, name: &str) -> (id: Result<SubscriptionId, SeaFileError>)
        ensures
            final(self).is_closed() == old(self).is_closed(),
            old(self).router().consistent() ==> final(self).router().consistent(),
            old(self).is_closed() ==> {
                &&& id matches Err(error) && error@ == error::ErrorView::NotConnected
                &&& final(self).router() == old(self).router()
            },
            !old(self).is_closed() ==> {
                &&& id matches Ok(id) && id == old(self).router().subscriptions().len()
                &&& final(self).router().subscriptions() == old(
                    self,
                ).router().subscriptions().push(queue::opened(name@, false))
                &&& forall|address: Seq<char>|
                    (#[trigger] final(self).router().retained(address)) == old(
                        self,
                    ).router().retained(address)
            },
    {
        if let Err(error) = self.ensure_open() {
            return Err(error);
        }
        Ok(self.router.subscribe(name))
    }

    /// Opens the subscription `descriptor` describes on the file's stand. A replay opens at the
    /// start of the retained log rather than at its tail; how many deliveries that queued.
    ///
    /// # Errors
    ///
    /// Returns [`SeaFileError::Invalid`] for an empty stream key and
    /// [`SeaFileError::NotConnected`] once the broker has been shut down.
    pub fn subscribe_stream(&mut self, descriptor: &FileStream) -> (opened: Result<
        (SubscriptionId, usize),
        SeaFileError,
    >)
        ensures
            final(self).is_closed() == old(self).is_closed(),
            old(self).router().consistent() ==> final(self).router().consistent(),
            descriptor.key().len() == 0 || old(self).is_closed() ==> {
                &&& opened matches Err(error) && error@ == (if descriptor.key().len() == 0 {
                    error::ErrorView::Invalid("stream key must be non-empty"@)
                } else {
                    error::ErrorView::NotConnected
                })
                &&& final(self).router() == old(self).router()
            },
            descriptor.key().len() > 0 && !old(self).is_closed() ==> {
                let entries = old(self).router().retained(descriptor.key());
                let tail = queue::opened(descriptor.key(), false);
                let replay = retained::numbered_from(entries, 0, 0);
                &&& opened matches Ok(opened)
                &&& opened.0 == old(self).router().subscriptions().len()
                &&& opened.1 == (if descriptor.replays() {
                    entries.len()
                } else {
                    0
                })
                &&& final(self).router().subscriptions() == old(
                    self,
                ).router().subscriptions().push(
                    if descriptor.replays() {
                        queue::sought(tail, 0, replay)
                    } else {
                        tail
                    },
                )
                &&& forall|address: Seq<char>|
                    (#[trigger] final(self).router().retained(address)) == old(
                        self,
                    ).router().retained(address)
            },
    {
        if let Err(error) = descriptor.validate() {
            return Err(error);
        }
        let id = match self.open(descriptor.stream()) {
            Ok(id) => id,
            Err(error) => {
                return Err(error);
            },
        };
        if !descriptor.replay_value() {
            return Ok((id, 0));
        }
        let ghost tail = self.router().subscriptions();
        let sought = self.router.request_seek(id, FilePosition::Beginning);
        proof {
            let entries = old(self).router().retained(descriptor.key());
            let replay = retained::numbered_from(entries, 0, 0);
            assert(tail.update(id as int, queue::sought(tail[id as int], 0, replay)) =~= old(
                self,
            ).router().subscriptions().push(
                queue::sought(queue::opened(descriptor.key(), false), 0, replay),
            ));
        }
        match sought {
            Ok(sought) => Ok((id, sought.queued)),
            Err(error) => Err(error),
        }
    }

    /// Publishes a message; how many subscriptions it reached.
    ///
    /// # Errors
    ///
    /// Returns [`SeaFileError::NotConnected`] once the broker has been shut down.
    pub fn publish(&mut self, name: &str, payload: Bytes, headers: HeaderMap) -> (sent: Result<
        usize,
        SeaFileError,
    >)
        ensures
            final(self).is_closed() == old(self).is_closed(),
            old(self).router().consistent() ==> final(self).router().consistent(),
            old(self).is_closed() ==> {
                &&& sent matches Err(error) && error@ == error::ErrorView::NotConnected
                &&& final(self).router() == old(self).router()
            },
            !old(self).is_closed() ==> {
                &&& sent matches Ok(sent) && sent == registry::listeners(
                    old(self).router().subscriptions(),
                    name@,
                )
                &&& exists|at_millis: nat|
                    clock::is_millis(at_millis) && #[trigger] final(self).router().published_entry(
                        &old(self).router(),
                        name@,
                        (router::LogEntryView {
                            payload: buffer::contents(payload),
                            headers: headers::header_entries(headers),
                            at_millis,
                        }),
                    )
            },
    {
        if let Err(error) = self.ensure_open() {
            return Err(error);
        }
        Ok(self.inject(name, payload, headers))
    }

    /// Records a message the way a producer elsewhere would, whether or not the broker was shut
    /// down; how many subscriptions it reached.
    pub fn inject(&mut self, name: &str, payload: Bytes, headers: HeaderMap) -> (sent: usize)
        ensures
            final(self).is_closed() == old(self).is_closed(),
            old(self).router().consistent() ==> final(self).router().consistent(),
            sent == registry::listeners(old(self).router().subscriptions(), name@),
            exists|at_millis: nat|
                clock::is_millis(at_millis) && #[trigger] final(self).router().published_entry(
                    &old(self).router(),
                    name@,
                    (router::LogEntryView {
                        payload: buffer::contents(payload),
                        headers: headers::header_entries(headers),
                        at_millis,
                    }),
                ),
    {
        let ghost content = (buffer::contents(payload), headers::header_entries(headers));
        let sent = self.router.publish(name, payload, headers);
        proof {
            let at_millis = choose|at_millis: nat|
                clock::is_millis(at_millis) && #[trigger] self.router.published_entry(
                    &old(self).router,
                    name@,
                    router::LogEntryView { payload: content.0, headers: content.1, at_millis },
                );
            assert(self.router().published_entry(
                &old(self).router(),
                name@,
                router::LogEntryView { payload: content.0, headers: content.1, at_millis },
            ));
        }
        sent
    }

    /// Every message recorded for `name`, in publish order.
    pub fn published(&self, name: &str) -> (messages: Vec<RawMessage>)
        ensures
            messages@.len() == self.router().retained(name@).len(),
            forall|i: int|
                0 <= i < messages@.len() ==> {
                    &&& (#[trigger] messages@[i]).name@ == name@
                    &&& buffer::contents(messages@[i].payload) == self.router().retained(
                        name@,
                    )[i].payload
                    &&& headers::header_entries(messages@[i].headers) == self.router().retained(
                        name@,
                    )[i].headers
                },
    {
        self.router.published(name)
    }

    /// Moves a subscription over the retained log; how many deliveries its replay holds, and how
    /// many of a seek that still waited it overtook.
    ///
    /// # Errors
    ///
    /// Returns [`SeaFileError::Seek`] once the subscription is closed and when the position names
    /// nothing the log holds, which ends the subscription, and [`SeaFileError::Invalid`] for an
    /// instant no timestamp can hold.
    pub fn seek(&mut self, id: SubscriptionId, to: FilePosition) -> (sought: Result<
        Sought,
        SeaFileError,
    >)
        ensures
            final(self).is_closed() == old(self).is_closed(),
            old(self).router().consistent() ==> final(self).router().consistent(),
            ({
                let before = old(self).router();
                let live = id < before.subscriptions().len()
                    && before.subscriptions()[id as int].open;
                let subscription = before.subscriptions()[id as int];
                let entries = before.retained(subscription.key);
                &&& live ==> match router::seek_error(subscription, entries, to) {
                    Some(refusal) => sought matches Err(error) && error@ == refusal,
                    None => {
                        &&& sought matches Ok(sought) && router::resolved(entries, to) matches
                            Resolution::At(target) && sought.queued == retained::numbered_from(
                            entries,
                            target as int,
                            0,
                        ).len() && sought.overtaken == queue::waiting(subscription)
                    },
                }
                &&& live ==> final(self).router().subscriptions()
                    == before.subscriptions().update(
                    id as int,
                    router::after_seek(subscription, entries, to),
                )
                &&& !live ==> (sought matches Err(error) && error@ == router::closed_seek())
                &&& !live ==> final(self).router().subscriptions() == before.subscriptions()
                &&& forall|address: Seq<char>|
                    (#[trigger] final(self).router().retained(address)) == before.retained(
                        address,
                    )
            }),
    {
        self.router.request_seek(id, to)
    }

    /// The next delivery of a subscription, or its end, or neither yet.
    pub fn poll_next(&mut self, id: SubscriptionId) -> (poll: TestPoll)
        requires
            id < old(self).router().subscriptions().len(),
        ensures
            final(self).is_closed() == old(self).is_closed(),
            old(self).router().consistent() ==> final(self).router().consistent(),
            ({
                let before = old(self).router();
                let expected = queue::polled(before.subscriptions()[id as int]);
                &&& router::delivers(poll.next, expected.found)
                &&& poll.superseded == expected.superseded
                &&& poll.stale == expected.stale
                &&& final(self).router().subscriptions() == before.subscriptions().update(
                    id as int,
                    expected.after,
                )
                &&& forall|address: Seq<char>|
                    (#[trigger] final(self).router().retained(address)) == before.retained(
                        address,
                    )
            }),
    {
        self.router.poll_next(id)
    }

    /// Removes a subscription whose handle was dropped; how many deliveries were queued for it or
    /// waited to be, as far as a `usize` counts.
    pub fn unsubscribe(&mut self, id: SubscriptionId) -> (released: usize)
        requires
            id < old(self).router().subscriptions().len(),
        ensures
            final(self).is_closed() == old(self).is_closed(),
            old(self).router().consistent() ==> final(self).router().consistent(),
            released == queue::counted(
                queue::in_flight(old(self).router().subscriptions()[id as int]),
            ),
            final(self).router().subscriptions() == old(self).router().subscriptions().update(
                id as int,
                registry::dropped(old(self).router().subscriptions()[id as int]),
            ),
            forall|address: Seq<char>|
                (#[trigger] final(self).router().retained(address)) == old(
                    self,
                ).router().retained(address),
    {
        self.router.unsubscribe(id)
    }

    /// Shuts the broker down: nothing is retained any more, every subscription is closed, and
    /// every handle reports a closed connection.
    pub fn shutdown(&mut self)
        ensures
            final(self).is_closed(),
            old(self).router().consistent() ==> final(self).router().consistent(),
            forall|address: Seq<char>|
                (#[trigger] final(self).router().retained(address)).len() == 0,
            final(self).router().subscriptions().len() == old(
                self,
            ).router().subscriptions().len(),
            forall|i: int|
                0 <= i < final(self).router().subscriptions().len() ==> (
                #[trigger] final(self).router().subscriptions()[i]) == (
                queue::SubscriptionView {
                    open: false,
                    ..old(self).router().subscriptions()[i]
                }),
    {
        self.closed = true;
        self.router.clear();
    }
}

} // verus!
