//! File and stdio transports for the `RustStream` messaging framework: a service runs on a
//! replayable stream on disk or as a stage of a shell pipeline, with no server anywhere.
//!
//! This crate holds what the transports decide, proved against its contracts: the header envelope
//! ([`wire`]), the settings and checks of the two brokers ([`file`], [`stdio`]), the driver of a
//! file's subscription ([`driver`]), and the in-process forms of both transports
//! ([`memory_file`], [`memory_pipe`], [`testing`]). Files, pipes and tasks are left to whoever
//! runs it.

pub mod batching;
pub mod buffer;
pub mod clock;
pub mod context;
pub mod driver;
pub mod encoding;
pub mod error;
pub mod file;
pub mod headers;
pub mod key;
pub mod memory_file;
pub mod memory_pipe;
pub mod message;
pub mod order;
pub mod queue;
pub mod registry;
pub mod retained;
pub mod router;
pub mod stdio;
pub mod stream;
pub mod testing;
pub mod text;
pub mod wire;

pub use context::{FileBatchContext, FileContext, Position, SeekHandle};
pub use error::SeaFileError;
pub use file::{ConnectedFileBroker, FileBroker};
pub use message::{FilePosition, SeaMessage, SEQUENCE_HEADER};
pub use stdio::{ConnectedStdioBroker, StdioBroker};
pub use stream::FileStream;
