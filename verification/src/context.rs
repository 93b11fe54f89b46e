//! The file transport's typed contexts and their compile-time keys.
//!
//! A stream file is a replayable log, so a handler running on it can reposition its own
//! subscription. The delivery's position and the subscription's reposition handle travel as
//! fields of a context, and handlers read them by key. The handle is whatever the transport
//! repositions through.

use vstd::prelude::*;

use crate::message::FilePosition;

verus! {

/// The file transport's per-delivery context: this delivery's position in the stream file, and
/// the subscription's own seeker.
#[derive(Debug)]
pub struct FileContext<S> {
    position: FilePosition,
    seeker: S,
}

/// The file transport's subscription-scoped batch context: the subscription's own seeker, shared
/// by every delivery of the batch. A batch spans many deliveries, so it holds no position.
#[derive(Debug)]
pub struct FileBatchContext<S> {
    seeker: S,
}

impl<S> FileContext<S> {
    /// Where the delivery sits.
    pub closed spec fn position(&self) -> FilePosition {
        self.position
    }

    /// The subscription's reposition handle.
    pub closed spec fn seeker(&self) -> S {
        self.seeker
    }

    /// The context of a delivery at `position`, on the subscription `seeker` repositions.
    pub fn build(position: FilePosition, seeker: S) -> (context: Self)
        ensures
            context.position() == position,
            context.seeker() == seeker,
    {
        FileContext { position, seeker }
    }
}

impl<S> FileBatchContext<S> {
    /// The subscription's reposition handle.
    pub closed spec fn seeker(&self) -> S {
        self.seeker
    }

    /// The context of a batch on the subscription `seeker` repositions.
    pub fn build(seeker: S) -> (context: Self)
        ensures
            context.seeker() == seeker,
    {
        FileBatchContext { seeker }
    }
}

/// The key reading this delivery's [`FilePosition`] out of [`FileContext`].
///
/// The value is the pinned form: seeking back to it redelivers exactly this message.
#[derive(Debug, Clone, Copy, PartialEq, Eq, Hash)]
pub struct Position;

impl Position {
    /// The delivery's position.
    pub fn get<S>(self, context: &FileContext<S>) -> (position: FilePosition)
        ensures
            position == context.position(),
    {
        context.position
    }
}

/// The key reading the subscription's seeker out of [`FileContext`] or [`FileBatchContext`]: the
/// reposition handle, carried by every delivery.
#[derive(Debug, Clone, Copy, PartialEq, Eq, Hash)]
pub struct SeekHandle;

impl SeekHandle {
    /// The reposition handle of a delivery's subscription.
    pub fn get<S>(self, context: &FileContext<S>) -> (seeker: &S)
        ensures
            *seeker == context.seeker(),
    {
        &context.seeker
    }

    /// The reposition handle of a batch's subscription.
    pub fn get_batch<S>(self, context: &FileBatchContext<S>) -> (seeker: &S)
        ensures
            *seeker == context.seeker(),
    {
        &context.seeker
    }
}

/// A handler reads out of its context what the context was built from.
pub proof fn law_a_context_holds_what_it_was_built_from<S>(
    position: FilePosition,
    seeker: S,
    context: FileContext<S>,
    batch: FileBatchContext<S>,
    at: FilePosition,
    handle: &S,
    shared: &S,
)
    requires
        call_ensures(FileContext::<S>::build, (position, seeker), context),
        call_ensures(FileBatchContext::<S>::build, (seeker,), batch),
        call_ensures(Position::get::<S>, (Position, &context), at),
        call_ensures(SeekHandle::get::<S>, (SeekHandle, &context), handle),
        call_ensures(SeekHandle::get_batch::<S>, (SeekHandle, &batch), shared),
    ensures
        at == position,
        *handle == seeker,
        *shared == seeker,
{
}

} // verus!
