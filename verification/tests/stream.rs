//! The descriptors, positions, keys and errors of the two transports.

use ruststream_sea_file::context::{FileBatchContext, FileContext, Position, SeekHandle};
use ruststream_sea_file::key::checked_key;
use ruststream_sea_file::message::{Record, SettleError};
use ruststream_sea_file::stream::channel_extension;
use ruststream_sea_file::{
    FileBroker, FilePosition, FileStream, SeaFileError, SeaMessage, StdioBroker, SEQUENCE_HEADER,
};

#[test]
fn empty_stream_keys_are_rejected_before_io() {
    assert!(FileStream::new("").validate().is_err());
}

#[test]
fn replay_reads_the_retained_file() {
    assert!(FileStream::new("orders").replay().replay_value());
    assert!(!FileStream::new("orders").replay_value());
}

#[test]
fn an_empty_stream_key_says_why_it_is_refused() {
    let error = FileStream::new("").validate().expect_err("no key");
    assert_eq!(
        error.message(),
        "invalid descriptor: stream key must be non-empty"
    );
    assert!(FileStream::new("orders").validate().is_ok());
}

#[test]
fn the_reported_address_is_the_stream_key_in_both_reading_modes() {
    assert_eq!(
        FileStream::new("orders").redelivery_address_value(),
        "orders"
    );
    assert_eq!(
        FileStream::new("orders").replay().redelivery_address_value(),
        "orders"
    );
    assert_eq!(FileStream::new("orders").replay().stream(), "orders");
    assert_eq!(
        FileStream::new("orders").replay().clone(),
        FileStream::new("orders").replay()
    );
}

/// The stream file that is described; nothing opens it.
const PATH: &str = "/var/lib/ruststream/orders.ss";

#[test]
fn a_file_subscription_describes_its_stream_key() {
    let channel = FileStream::new("orders").channel_extension();
    assert_eq!(channel.extension, "x-ruststream-file");
    assert_eq!(channel.stream_key, "orders");
}

#[test]
fn a_file_publish_destination_describes_its_stream_key() {
    let channel = channel_extension("orders.dead");
    assert_eq!(channel.extension, "x-ruststream-file");
    assert_eq!(channel.stream_key, "orders.dead");
}

#[test]
fn the_servers_report_a_coordinate_and_nothing_else() {
    let file = FileBroker::new(PATH).describe_server();
    assert_eq!(file.protocol, "file");
    assert_eq!(file.description.as_deref(), Some(PATH));
    let pipe = StdioBroker::new().describe_server();
    assert_eq!(pipe.protocol, "stdio");
    assert!(pipe.description.is_none());
}

#[test]
fn positions_are_what_their_constructors_say() {
    assert_eq!(FilePosition::beginning(), FilePosition::Beginning);
    assert_eq!(FilePosition::end(), FilePosition::End);
    assert_eq!(FilePosition::sequence(7), FilePosition::Sequence(7));
    assert_eq!(FilePosition::timestamp(9), FilePosition::Timestamp(9));
    assert_ne!(FilePosition::sequence(7), FilePosition::timestamp(7));
}

#[test]
fn a_stream_key_is_made_of_letters_digits_and_three_signs() {
    for name in ["orders", "A.b_c-9", "", "ruststream-internal"] {
        assert_eq!(checked_key(name).expect("the key is taken"), name);
    }
    let longest = "k".repeat(249);
    assert_eq!(checked_key(&longest).expect("the key is taken"), longest);
    for name in ["orders/eu", "with space", "gr\u{fc}n", "new\nline"] {
        let error = checked_key(name).expect_err("the key is refused");
        assert_eq!(
            error.message(),
            format!(
                "invalid descriptor: '{name}': Invalid stream key: valid pattern is \
                 [a-zA-Z0-9._-]{{1, 249}}"
            ),
        );
    }
    assert!(checked_key(&"k".repeat(250)).is_err());
}

#[test]
fn every_error_reads_as_a_sentence() {
    let target = "/tmp/orders.ss".to_owned();
    let stream = "orders".to_owned();
    let source = "gone".to_owned();
    assert_eq!(
        SeaFileError::Connect {
            target,
            source: source.clone()
        }
        .message(),
        "stream connect error on '/tmp/orders.ss': gone",
    );
    assert_eq!(
        SeaFileError::Subscribe {
            stream: stream.clone(),
            source: source.clone()
        }
        .message(),
        "subscribe error on 'orders': gone",
    );
    assert_eq!(
        SeaFileError::Receive {
            stream: stream.clone(),
            source: source.clone()
        }
        .message(),
        "receive error on 'orders': gone",
    );
    assert_eq!(
        SeaFileError::Publish {
            stream: stream.clone(),
            source: source.clone()
        }
        .message(),
        "publish error to 'orders': gone",
    );
    assert_eq!(
        SeaFileError::Seek { stream, source }.message(),
        "seek error on 'orders': gone",
    );
    assert_eq!(
        SeaFileError::NotConnected.message(),
        "stream transport is not connected"
    );
    assert_eq!(
        SeaFileError::Invalid("why".to_owned()).message(),
        "invalid descriptor: why"
    );
}

#[test]
fn a_delivery_reports_its_sequence_twice_and_settles_nothing() {
    let record = Record {
        key: "orders".to_owned(),
        sequence: 120,
        at: 0,
        bytes: b"body".to_vec(),
    };
    let message = SeaMessage::new(&record);
    assert_eq!(message.stream(), "orders");
    assert_eq!(message.payload(), b"body");
    assert_eq!(message.headers().get_str(SEQUENCE_HEADER), Some("120"));
    assert_eq!(message.headers().len(), 1);
    assert_eq!(message.position(), FilePosition::sequence(120));
    assert_eq!(message.ack(), Err(SettleError::Unsupported));
    let again = SeaMessage::new(&record);
    assert_eq!(again.nack(true), Err(SettleError::Unsupported));
    let largest = Record {
        key: "orders".to_owned(),
        sequence: u64::MAX,
        at: 0,
        bytes: Vec::new(),
    };
    assert_eq!(
        SeaMessage::new(&largest).headers().get_str(SEQUENCE_HEADER),
        Some("18446744073709551615")
    );
}

#[test]
fn the_transports_own_sequence_takes_the_place_of_a_senders() {
    let mut headers = ruststream::HeaderMap::new();
    headers.insert("Stream-Sequence", "7");
    headers.insert("x-tenant", "acme");
    let record = Record {
        key: "orders".to_owned(),
        sequence: 1,
        at: 0,
        bytes: ruststream_sea_file::wire::encode(&headers, b"{}", false),
    };
    let message = SeaMessage::new(&record);
    assert_eq!(message.headers().get_str(SEQUENCE_HEADER), Some("1"));
    assert_eq!(message.headers().get_str("x-tenant"), Some("acme"));
    assert_eq!(message.headers().len(), 2);
}

#[test]
fn the_context_keys_read_what_the_context_was_built_with() {
    let context = FileContext::build(FilePosition::sequence(3), "seeker");
    assert_eq!(Position.get(&context), FilePosition::sequence(3));
    assert_eq!(*SeekHandle.get(&context), "seeker");
    let batch = FileBatchContext::build("seeker");
    assert_eq!(*SeekHandle.get_batch(&batch), "seeker");
}
