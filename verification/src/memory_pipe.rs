//! The in-process pipe: standard input that is fed, standard output the service writes.
//!
//! What the service writes comes back to its own subscriptions only under loopback, as on a real
//! pipe.

use vstd::prelude::*;
use vstd::string::*;

use crate::clock::{self, read_moment};
use crate::headers;
use crate::memory_file::{self, deliver, open_all, NextPoll, RawMessage, Stored, StoredView};
use crate::message;
use crate::queue::{self, Duplicate, Numbered};
use crate::registry::{self, Registry, SubscriptionId};
use crate::retained::{self, Retained};
use crate::wire;

verus! {

/// One line counted in one direction.
pub struct Tick;

impl View for Tick {
    type V = Tick;

    open spec fn view(&self) -> Tick {
        *self
    }
}

/// One process's standard input and output, held in memory: what the connected broker, its
/// publishers and its subscriptions share when the broker is connected in process.
pub struct MemoryPipe {
    registry: Registry<Stored>,
    /// Every line that crossed the pipe in either direction, per stream key, in order.
    lines: Retained<Stored>,
    /// The lines of each direction, per stream key. The two directions count apart: a line on
    /// standard input carries the number its producer gave it, and a line on standard output the
    /// number this process's producer gives it, each from zero, as the client counts.
    input: Retained<Tick>,
    output: Retained<Tick>,
    /// The broker's own setting: whether what the service writes comes back to its own input.
    loopback: bool,
}

/// Whether a subscription is one on standard input, which keeps nothing: it was never moved, and
/// no end-of-stream mark is queued for it.
pub open spec fn is_plain(subscription: queue::SubscriptionView<StoredView>) -> bool {
    &&& subscription.pending is None
    &&& subscription.watermark == 0
    &&& !subscription.replay
    &&& !subscription.queue.contains(queue::EntryView::End)
}

/// A subscription on standard input stays one when it is polled.
proof fn lemma_plain_polled(subscription: queue::SubscriptionView<StoredView>)
    requires
        is_plain(subscription),
    ensures
        is_plain(queue::polled(subscription).after),
{
    let after = queue::polled(subscription).after;
    let front = queue::stale_front(subscription.queue, 0) as int;
    assert forall|i: int| 0 <= i < after.queue.len() implies !((
    #[trigger] after.queue[i]) is End) by {
        let place = if subscription.ended {
            i
        } else {
            front + 1 + i
        };
        assert(subscription.queue[place] == after.queue[i]);
        assert(subscription.queue.contains(after.queue[i]));
    }
}

/// A subscription on standard input stays one when a line reaches it.
proof fn lemma_plain_reached(
    subscription: queue::SubscriptionView<StoredView>,
    key: Seq<char>,
    line: queue::NumberedView<StoredView>,
)
    requires
        is_plain(subscription),
    ensures
        is_plain(registry::reached(subscription, key, line)),
{
    let after = registry::reached(subscription, key, line);
    assert forall|i: int| 0 <= i < after.queue.len() implies !((
    #[trigger] after.queue[i]) is End) by {
        if i < subscription.queue.len() {
            assert(subscription.queue.contains(subscription.queue[i]));
        }
    }
}

/// Takes the next sequence of `key` from `counters`.
fn next_sequence(counters: &mut Retained<Tick>, key: &str) -> (sequence: u64)
    ensures
        sequence == old(counters).list(key@).len(),
        final(counters).list(key@).len() == old(counters).list(key@).len() + 1,
        forall|other: Seq<char>|
            other != key@ ==> (#[trigger] final(counters).list(other)) == old(counters).list(
                other,
            ),
{
    let count = counters.push(key, Tick);
    (count - 1) as u64
}

impl MemoryPipe {
    /// Every line that crossed the pipe under `key`, in order.
    pub closed spec fn lines(&self, key: Seq<char>) -> Seq<StoredView> {
        self.lines.list(key)
    }

    /// How many lines arrived on standard input under `key`.
    pub closed spec fn fed(&self, key: Seq<char>) -> nat {
        self.input.list(key).len()
    }

    /// How many lines the service wrote to standard output under `key`.
    pub closed spec fn wrote(&self, key: Seq<char>) -> nat {
        self.output.list(key).len()
    }

    /// Every subscription that was opened on standard input.
    pub closed spec fn subscriptions(&self) -> Seq<queue::SubscriptionView<StoredView>> {
        self.registry@
    }

    /// Whether what the service writes comes back to its own input.
    pub closed spec fn loops_back(&self) -> bool {
        self.loopback
    }

    /// Whether each line crossed the pipe in one direction.
    pub open spec fn balanced(&self) -> bool {
        forall|key: Seq<char>|
            (#[trigger] self.lines(key)).len() == self.fed(key) + self.wrote(key)
    }

    /// What holds of every pipe: each line crossed it in one direction, and its subscriptions are
    /// ones on standard input.
    pub open spec fn consistent(&self) -> bool {
        &&& self.balanced()
        &&& forall|i: int|
            0 <= i < self.subscriptions().len() ==> is_plain(#[trigger] self.subscriptions()[i])
    }

    /// A pipe with nothing on it yet; what the service writes comes back to it under `loopback`.
    pub fn new(loopback: bool) -> (pipe: Self)
        ensures
            forall|key: Seq<char>| (#[trigger] pipe.lines(key)).len() == 0,
            forall|key: Seq<char>| (#[trigger] pipe.fed(key)) == 0,
            forall|key: Seq<char>| (#[trigger] pipe.wrote(key)) == 0,
            pipe.subscriptions().len() == 0,
            pipe.loops_back() == loopback,
            pipe.consistent(),
    {
        MemoryPipe {
            registry: Registry::new(),
            lines: Retained::new(),
            input: Retained::new(),
            output: Retained::new(),
            loopback,
        }
    }

    /// Whether `line` crossing the pipe under `key` takes its record of lines from `before` to
    /// `self`.
    pub open spec fn carried(
        &self,
        before: &MemoryPipe,
        key: Seq<char>,
        line: StoredView,
    ) -> bool {
        &&& self.lines(key) == before.lines(key).push(line)
        &&& forall|other: Seq<char>|
            other != key ==> (#[trigger] self.lines(other)) == before.lines(other)
        &&& self.loops_back() == before.loops_back()
    }

    /// Whether a line arriving on standard input takes the pipe from `before` to `self`: it is
    /// numbered in its direction from zero, and every subscription on its key reads it.
    pub open spec fn took_in(
        &self,
        before: &MemoryPipe,
        key: Seq<char>,
        line: StoredView,
    ) -> bool {
        &&& self.carried(before, key, line)
        &&& self.fed(key) == before.fed(key) + 1
        &&& forall|other: Seq<char>|
            other != key ==> (#[trigger] self.fed(other)) == before.fed(other)
        &&& forall|other: Seq<char>| (#[trigger] self.wrote(other)) == before.wrote(other)
        &&& self.subscriptions() == registry::fanned_out(
            before.subscriptions(),
            key,
            queue::NumberedView { sequence: before.fed(key), item: line },
        )
    }

    /// Whether a line the service writes takes the pipe from `before` to `self`: it is numbered
    /// in its direction from zero, and the service's own subscriptions read it only under
    /// loopback.
    pub open spec fn put_out(
        &self,
        before: &MemoryPipe,
        key: Seq<char>,
        line: StoredView,
    ) -> bool {
        &&& self.carried(before, key, line)
        &&& self.wrote(key) == before.wrote(key) + 1
        &&& forall|other: Seq<char>|
            other != key ==> (#[trigger] self.wrote(other)) == before.wrote(other)
        &&& forall|other: Seq<char>| (#[trigger] self.fed(other)) == before.fed(other)
        &&& self.subscriptions() == (if before.loops_back() {
            registry::fanned_out(
                before.subscriptions(),
                key,
                queue::NumberedView { sequence: before.wrote(key), item: line },
            )
        } else {
            before.subscriptions()
        })
    }

    /// A line arriving on standard input at the moment `at`: every subscription on its key reads
    /// it. How many there were.
    pub fn feed_at(&mut self, key: &str, bytes: Vec<u8>, at: i128) -> (sent: usize)
        ensures
            final(self).took_in(
                old(self),
                key@,
                (StoredView { at: at as int, bytes: bytes@ }),
            ),
            sent == registry::listeners(old(self).subscriptions(), key@),
            old(self).consistent() ==> final(self).consistent(),
    {
        let ghost item = StoredView { at: at as int, bytes: bytes@ };
        let line = Stored { at, bytes };
        let sequence = next_sequence(&mut self.input, key);
        let message = Numbered { sequence, item: line.duplicate() };
        let sent = self.registry.fan_out(key, &message);
        self.lines.push(key, line);
        proof {
            if old(self).consistent() {
                assert forall|other: Seq<char>| (#[trigger] self.lines(other)).len()
                    == self.fed(other) + self.wrote(other) by {
                    assert(old(self).lines(other).len() == old(self).fed(other) + old(
                        self,
                    ).wrote(other));
                }
                let numbered = queue::NumberedView { sequence: sequence as nat, item };
                assert forall|i: int| 0 <= i < self.subscriptions().len() implies is_plain(
                    #[trigger] self.subscriptions()[i],
                ) by {
                    let before = old(self).subscriptions()[i];
                    assert(is_plain(before));
                    lemma_plain_reached(before, key@, numbered);
                }
            }
        }
        sent
    }

    /// A line arriving on standard input now: every subscription on its key reads it. How many
    /// there were.
    pub fn feed(&mut self, key: &str, bytes: Vec<u8>) -> (sent: usize)
        ensures
            exists|at: int|
                clock::is_moment(at) && #[trigger] final(self).took_in(
                    old(self),
                    key@,
                    (StoredView { at, bytes: bytes@ }),
                ),
            sent == registry::listeners(old(self).subscriptions(), key@),
            old(self).consistent() ==> final(self).consistent(),
    {
        let at = read_moment();
        self.feed_at(key, bytes, at)
    }

    /// A line the service writes to standard output at the moment `at`. It reaches the process
    /// downstream, which is not this one, so its own subscriptions read it only under loopback.
    /// How many did.
    pub fn write_at(&mut self, key: &str, bytes: Vec<u8>, at: i128) -> (sent: usize)
        ensures
            final(self).put_out(
                old(self),
                key@,
                (StoredView { at: at as int, bytes: bytes@ }),
            ),
            sent == (if old(self).loops_back() {
                registry::listeners(old(self).subscriptions(), key@)
            } else {
                0
            }),
            old(self).consistent() ==> final(self).consistent(),
    {
        let ghost item = StoredView { at: at as int, bytes: bytes@ };
        let line = Stored { at, bytes };
        let sequence = next_sequence(&mut self.output, key);
        let mut sent: usize = 0;
        if self.loopback {
            let message = Numbered { sequence, item: line.duplicate() };
            sent = self.registry.fan_out(key, &message);
        }
        self.lines.push(key, line);
        proof {
            if old(self).consistent() {
                assert forall|other: Seq<char>| (#[trigger] self.lines(other)).len()
                    == self.fed(other) + self.wrote(other) by {
                    assert(old(self).lines(other).len() == old(self).fed(other) + old(
                        self,
                    ).wrote(other));
                }
                let numbered = queue::NumberedView { sequence: sequence as nat, item };
                assert forall|i: int| 0 <= i < self.subscriptions().len() implies is_plain(
                    #[trigger] self.subscriptions()[i],
                ) by {
                    let before = old(self).subscriptions()[i];
                    assert(is_plain(before));
                    lemma_plain_reached(before, key@, numbered);
                }
            }
        }
        sent
    }

    /// A line the service writes to standard output now. How many of its own subscriptions read
    /// it.
    pub fn write(&mut self, key: &str, bytes: Vec<u8>) -> (sent: usize)
        ensures
            exists|at: int|
                clock::is_moment(at) && #[trigger] final(self).put_out(
                    old(self),
                    key@,
                    (StoredView { at, bytes: bytes@ }),
                ),
            sent == (if old(self).loops_back() {
                registry::listeners(old(self).subscriptions(), key@)
            } else {
                0
            }),
            old(self).consistent() ==> final(self).consistent(),
    {
        let at = read_moment();
        self.write_at(key, bytes, at)
    }

    /// Every line that crossed the pipe under `name`, in order, with its envelope opened.
    pub fn published(&self, name: &str) -> (messages: Vec<RawMessage>)
        ensures
            messages@.len() == self.lines(name@).len(),
            forall|i: int|
                0 <= i < messages@.len() ==> (#[trigger] messages@[i]).opens(
                    name@,
                    self.lines(name@)[i].bytes,
                ),
    {
        let items = self.lines.get(name);
        let messages = open_all(name, items);
        proof {
            if let Some(items) = items {
                assert forall|i: int| 0 <= i < messages@.len() implies (
                #[trigger] messages@[i]).opens(name@, self.lines(name@)[i].bytes) by {
                    assert(retained::item_views(items@)[i] == items@[i]@);
                }
            }
        }
        messages
    }

    /// Whether nothing but the subscriptions differs between `before` and `self`.
    pub open spec fn same_lines(&self, before: &MemoryPipe) -> bool {
        &&& forall|key: Seq<char>| (#[trigger] self.lines(key)) == before.lines(key)
        &&& forall|key: Seq<char>| (#[trigger] self.fed(key)) == before.fed(key)
        &&& forall|key: Seq<char>| (#[trigger] self.wrote(key)) == before.wrote(key)
        &&& self.loops_back() == before.loops_back()
    }

    /// Opens a subscription on `key`. Standard input keeps nothing, so it reads what arrives from
    /// here on.
    pub fn subscribe(&mut self, key: &str) -> (id: SubscriptionId)
        ensures
            id == old(self).subscriptions().len(),
            final(self).subscriptions() == old(self).subscriptions().push(
                queue::opened(key@, false),
            ),
            final(self).same_lines(old(self)),
            old(self).consistent() ==> final(self).consistent(),
    {
        let id = self.registry.open(key, false);
        proof {
            lemma_stays_consistent(old(self), self);
        }
        id
    }

    /// The next line of a subscription, or its end, or neither yet.
    pub fn poll_next(&mut self, id: SubscriptionId) -> (poll: NextPoll)
        requires
            id < old(self).subscriptions().len(),
        ensures
            ({
                let subscription = old(self).subscriptions()[id as int];
                let expected = queue::polled(subscription);
                &&& memory_file::delivers(poll.next, subscription.key, expected.found)
                &&& poll.superseded == expected.superseded
                &&& poll.stale == expected.stale
                &&& final(self).subscriptions() == old(self).subscriptions().update(
                    id as int,
                    expected.after,
                )
            }),
            final(self).same_lines(old(self)),
            old(self).consistent() ==> final(self).consistent(),
    {
        let stream = self.registry.get(id).key().to_owned();
        proof {
            if self.consistent() {
                assert(is_plain(self.subscriptions()[id as int]));
                lemma_plain_polled(self.subscriptions()[id as int]);
            }
        }
        let poll = self.registry.poll(id);
        proof {
            lemma_stays_consistent(old(self), self);
        }
        deliver(stream.as_str(), poll)
    }

    /// Drops a subscription's handle: nothing reaches it any more, and what was queued for it
    /// goes. How many lines that was, as far as a `usize` counts.
    pub fn unsubscribe(&mut self, id: SubscriptionId) -> (released: usize)
        requires
            id < old(self).subscriptions().len(),
        ensures
            final(self).subscriptions() == old(self).subscriptions().update(
                id as int,
                registry::dropped(old(self).subscriptions()[id as int]),
            ),
            released == queue::counted(
                queue::in_flight(old(self).subscriptions()[id as int]),
            ),
            final(self).same_lines(old(self)),
            old(self).consistent() ==> final(self).consistent(),
    {
        let released = self.registry.forget(id);
        proof {
            lemma_stays_consistent(old(self), self);
        }
        released
    }
}

/// A pipe stays consistent where only its subscriptions change, and each that does stays one on
/// standard input.
proof fn lemma_stays_consistent(before: &MemoryPipe, after: &MemoryPipe)
    requires
        after.same_lines(before),
        before.consistent() ==> forall|i: int|
            0 <= i < after.subscriptions().len() ==> (#[trigger] after.subscriptions()[i])
                == before.subscriptions()[i] && i < before.subscriptions().len() || is_plain(
                after.subscriptions()[i],
            ),
    ensures
        before.consistent() ==> after.consistent(),
{
    if before.consistent() {
        assert forall|key: Seq<char>| (#[trigger] after.lines(key)).len() == after.fed(key)
            + after.wrote(key) by {
            assert(before.lines(key).len() == before.fed(key) + before.wrote(key));
        }
        assert forall|i: int| 0 <= i < after.subscriptions().len() implies is_plain(
            #[trigger] after.subscriptions()[i],
        ) by {
            if i < before.subscriptions().len() {
                assert(is_plain(before.subscriptions()[i]));
            }
        }
    }
}

/// What a subscription has coming once a line reached it: what it had, and then the message the
/// line was written for.
pub open spec fn delivers_last(
    before: queue::SubscriptionView<StoredView>,
    after: queue::SubscriptionView<StoredView>,
    key: Seq<char>,
    number: nat,
    entries: Seq<(Seq<char>, Seq<u8>)>,
    payload: Seq<u8>,
) -> bool {
    let coming = queue::upcoming(after);
    let delivery = message::delivered(memory_file::record_of(key, coming.last()));
    &&& coming.len() > 0
    &&& coming.drop_last() == queue::upcoming(before)
    &&& delivery.stream == key
    &&& delivery.sequence == number
    &&& delivery.payload == payload
    &&& delivery.headers == message::numbered(
        wire::read_lines(Seq::empty(), wire::header_block(entries)),
        number,
    )
    &&& (forall|i: int| 0 <= i < entries.len() ==> wire::crosses(#[trigger] entries[i]))
        ==> delivery.headers == message::numbered(wire::carried(entries), number)
}

proof fn lemma_a_line_is_delivered_last(
    subscription: queue::SubscriptionView<StoredView>,
    key: Seq<char>,
    number: nat,
    entries: Seq<(Seq<char>, Seq<u8>)>,
    payload: Seq<u8>,
    at: int,
)
    requires
        is_plain(subscription),
        registry::listens(subscription, key),
        !subscription.ended,
        headers::well_named(entries),
        wire::block_fits(entries),
    ensures
        ({
            let item = StoredView { at, bytes: wire::written(entries, payload, true) };
            let line = queue::NumberedView { sequence: number, item };
            delivers_last(
                subscription,
                registry::reached(subscription, key, line),
                key,
                number,
                entries,
                payload,
            )
        }),
{
    let item = StoredView { at, bytes: wire::written(entries, payload, true) };
    let line = queue::NumberedView { sequence: number, item };
    wire::law_what_is_written_gives_the_message_back(entries, payload, true);
    queue::law_an_arrival_is_delivered_last(subscription, line);
    let coming = queue::upcoming(registry::reached(subscription, key, line));
    assert(coming.drop_last() =~= queue::upcoming(subscription));
}

/// A message fed to standard input reaches every subscription that listens on its key, after
/// everything it had coming, with the payload it was sent with, its headers as the envelope gives
/// them back, and its number in its direction among them.
pub proof fn law_a_line_on_standard_input_is_delivered_as_it_was_sent(
    before: &MemoryPipe,
    after: &MemoryPipe,
    id: int,
    key: Seq<char>,
    entries: Seq<(Seq<char>, Seq<u8>)>,
    payload: Seq<u8>,
    at: int,
)
    requires
        before.consistent(),
        headers::well_named(entries),
        wire::block_fits(entries),
        after.took_in(
            before,
            key,
            (StoredView { at, bytes: wire::written(entries, payload, true) }),
        ),
        0 <= id < before.subscriptions().len(),
        registry::listens(before.subscriptions()[id], key),
        !before.subscriptions()[id].ended,
    ensures
        delivers_last(
            before.subscriptions()[id],
            after.subscriptions()[id],
            key,
            before.fed(key),
            entries,
            payload,
        ),
{
    assert(is_plain(before.subscriptions()[id]));
    lemma_a_line_is_delivered_last(
        before.subscriptions()[id],
        key,
        before.fed(key),
        entries,
        payload,
        at,
    );
}

/// A message the service writes comes back to its own subscriptions under loopback, where it is
/// delivered the way a line on standard input is; without loopback every subscription is left as
/// it was.
pub proof fn law_a_written_line_comes_back_only_under_loopback(
    before: &MemoryPipe,
    after: &MemoryPipe,
    id: int,
    key: Seq<char>,
    entries: Seq<(Seq<char>, Seq<u8>)>,
    payload: Seq<u8>,
    at: int,
)
    requires
        before.consistent(),
        headers::well_named(entries),
        wire::block_fits(entries),
        after.put_out(
            before,
            key,
            (StoredView { at, bytes: wire::written(entries, payload, true) }),
        ),
        0 <= id < before.subscriptions().len(),
    ensures
        !before.loops_back() ==> after.subscriptions()[id] == before.subscriptions()[id],
        before.loops_back() && registry::listens(before.subscriptions()[id], key)
            && !before.subscriptions()[id].ended ==> delivers_last(
            before.subscriptions()[id],
            after.subscriptions()[id],
            key,
            before.wrote(key),
            entries,
            payload,
        ),
{
    assert(is_plain(before.subscriptions()[id]));
    if before.loops_back() && registry::listens(before.subscriptions()[id], key)
        && !before.subscriptions()[id].ended {
        lemma_a_line_is_delivered_last(
            before.subscriptions()[id],
            key,
            before.wrote(key),
            entries,
            payload,
            at,
        );
    }
}

/// A line that arrives on standard input is recorded behind what crossed the pipe under its key,
/// counts as one more line of its direction, and reaches every open subscription on its key under
/// the number of lines that arrived before it; nothing else changes.
pub proof fn law_a_line_arrives_once(
    before: &MemoryPipe,
    after: &MemoryPipe,
    key: Seq<char>,
    bytes: Seq<u8>,
    at: int,
)
    requires
        after.took_in(before, key, (StoredView { at, bytes })),
    ensures
        after.lines(key).len() == before.lines(key).len() + 1,
        after.lines(key).last().bytes == bytes,
        after.lines(key).last().at == at,
        after.lines(key).drop_last() == before.lines(key),
        forall|other: Seq<char>|
            other != key ==> (#[trigger] after.lines(other)) == before.lines(other),
        after.fed(key) == before.fed(key) + 1,
        after.wrote(key) == before.wrote(key),
        after.loops_back() == before.loops_back(),
        after.subscriptions().len() == before.subscriptions().len(),
        forall|i: int|
            0 <= i < before.subscriptions().len() ==> ({
                let was = #[trigger] before.subscriptions()[i];
                let is = after.subscriptions()[i];
                if was.open && was.key == key {
                    is == (queue::SubscriptionView {
                        queue: was.queue.push(
                            queue::EntryView::Message(
                                queue::NumberedView {
                                    sequence: before.fed(key),
                                    item: StoredView { at, bytes },
                                },
                            ),
                        ),
                        ..was
                    })
                } else {
                    is == was
                }
            }),
{
    assert(after.lines(key).drop_last() =~= before.lines(key));
}

/// A line the service writes is recorded behind what crossed the pipe under its key and counts as
/// one more line of its direction. Under loopback it reaches every open subscription on its key
/// under the number of lines that were written before it, and otherwise it reaches none.
pub proof fn law_a_line_is_written_once(
    before: &MemoryPipe,
    after: &MemoryPipe,
    key: Seq<char>,
    bytes: Seq<u8>,
    at: int,
)
    requires
        after.put_out(before, key, (StoredView { at, bytes })),
    ensures
        after.lines(key).len() == before.lines(key).len() + 1,
        after.lines(key).last().bytes == bytes,
        after.lines(key).last().at == at,
        after.lines(key).drop_last() == before.lines(key),
        forall|other: Seq<char>|
            other != key ==> (#[trigger] after.lines(other)) == before.lines(other),
        after.wrote(key) == before.wrote(key) + 1,
        after.fed(key) == before.fed(key),
        after.loops_back() == before.loops_back(),
        after.subscriptions().len() == before.subscriptions().len(),
        forall|i: int|
            0 <= i < before.subscriptions().len() ==> ({
                let was = #[trigger] before.subscriptions()[i];
                let is = after.subscriptions()[i];
                if before.loops_back() && was.open && was.key == key {
                    is == (queue::SubscriptionView {
                        queue: was.queue.push(
                            queue::EntryView::Message(
                                queue::NumberedView {
                                    sequence: before.wrote(key),
                                    item: StoredView { at, bytes },
                                },
                            ),
                        ),
                        ..was
                    })
                } else {
                    is == was
                }
            }),
{
    assert(after.lines(key).drop_last() =~= before.lines(key));
}

} // verus!
