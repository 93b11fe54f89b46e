# ruststream-sea-file

File and stdio transports for the `RustStream` messaging framework. A service runs on a
replayable stream on disk, or as a stage of a shell pipeline, with no server anywhere.

What the transports decide is a library verified with Verus; what they do to files, pipes and
tasks is ordinary Rust around it.

## Layout

- `src/` is the verified library.
  - `wire`, `encoding`, `headers`, `text`: the header envelope, `rs1:` and base64 of a
    length-prefixed header block and the payload.
  - `message`, `stream`, `context`, `error`, `key`, `clock`, `buffer`, `batching`: deliveries,
    positions, descriptors, errors, what the clients take for a stream key and an instant, and the
    payload buffer that is shared.
  - `file`, `stdio`: the brokers' settings, the order connecting goes in, what is checked before
    a subscription or a publish, and the brokers connected in process.
  - `driver`: the driver of a file's subscription, and how it serves repositioning.
  - `queue`, `registry`, `retained`: a subscription's queue and the seek that waits for it, the
    subscriptions of one transport, and what a transport retains.
  - `memory_file`, `memory_pipe`, `router`, `testing`: the transports held in memory.
  - `order`: what holds of every subscription of a file held in memory.
- `tests/` runs the library.
- `app/` connects the library to the framework and to the clients: the broker and subscriber
  traits, the client's consumer and producer, the driver task.

## What is proved

The functions of `src/` have contracts over mathematical models of their data; of a moment read
off the clock they say that the clock said it, and not which it is. The laws, public proof
functions whose names begin with `law_`, relate several functions: a message that was published is
delivered with the payload and the headers it was sent with; deliveries follow the log, one after
the other and none left out; a captured position is pinned; a served seek reads the log from its
target and then what is written after it; a refused one leaves a replay where it was and ends a
live subscription; a replay ends when everything is read; a subscription that is dropped leaves
nothing in flight.

## What is trusted

The functions marked `#[verifier::external_body]` call into `base64`, `bytes`, `ruststream`,
`sea-streamer-types`, `sea-streamer-file` and the standard library. The comment above each names
what it calls and says what is claimed of it.
