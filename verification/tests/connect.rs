//! Connecting, subscribing and publishing: what the brokers decide before and after their client
//! does its work.

use ruststream::HeaderMap;
use ruststream_sea_file::driver::Reader;
use ruststream_sea_file::file::{
    outgoing, prime_marker, publish_failed, subscribe_failed, ConnectOptions, ConnectStep,
    ConnectedFileBroker, Disconnect, FileConnect, StreamReset,
};
use ruststream_sea_file::message::Record;
use ruststream_sea_file::stdio::{self, accepts, line_delivery};
use ruststream_sea_file::{FileBroker, FileStream, SeaFileError, StdioBroker};

#[test]
fn the_settings_reach_the_options() {
    assert_eq!(
        FileBroker::new("/tmp/a.ss").options().expect("valid"),
        ConnectOptions {
            create_if_not_exists: true,
            end_with_eos: false,
            beacon_interval: None,
        },
    );
    assert_eq!(
        FileBroker::new("/tmp/a.ss")
            .existing_only()
            .end_with_eos()
            .beacon_interval(2048)
            .options()
            .expect("valid"),
        ConnectOptions {
            create_if_not_exists: false,
            end_with_eos: true,
            beacon_interval: Some(2048),
        },
    );
}

#[test]
fn a_beacon_interval_is_a_positive_multiple_of_1024() {
    for bytes in [1024, 4096, 1024 * 1024] {
        assert!(FileBroker::new("a").beacon_interval(bytes).options().is_ok());
    }
    for bytes in [0, 1, 1000, 1025, u32::MAX] {
        let refused = FileBroker::new("a")
            .beacon_interval(bytes)
            .options()
            .expect_err("the interval is refused");
        assert_eq!(
            refused.message(),
            "invalid descriptor: invalid beacon interval: ConfigErr: Please choose a 'better \
             aligned' beacon interval",
        );
        assert!(FileConnect::begin(&FileBroker::new("a").beacon_interval(bytes)).is_err());
    }
}

/// Runs connecting to its end over a file of this size; the steps it took.
fn steps(size: Option<u64>) -> Vec<&'static str> {
    let broker = FileBroker::new("/tmp/a.ss").existing_only();
    let mut connect = FileConnect::begin(&broker).expect("valid settings");
    let mut taken = Vec::new();
    loop {
        match connect.step() {
            ConnectStep::Resolve => taken.push("resolve"),
            ConnectStep::Open(options) => {
                assert!(!options.create_if_not_exists);
                taken.push("open");
            }
            ConnectStep::CreateProducer => taken.push("produce"),
            ConnectStep::Measure => {
                taken.push("measure");
                connect.measured(size);
                continue;
            }
            ConnectStep::Prime => taken.push("prime"),
            ConnectStep::Flush => taken.push("flush"),
            ConnectStep::Connected => return taken,
        }
        connect.done(Ok(())).expect("the step succeeded");
    }
}

#[test]
fn a_fresh_file_is_primed_and_any_other_is_opened_as_it_is() {
    let primed = ["resolve", "open", "produce", "measure", "prime", "flush"];
    assert_eq!(steps(None), primed);
    assert_eq!(steps(Some(0)), primed);
    assert_eq!(steps(Some(128)), primed);
    assert_eq!(steps(Some(129)), primed[..4]);
    let marker = prime_marker();
    assert_eq!(marker.key, "ruststream-internal");
    assert_eq!(marker.bytes, b"1");
}

#[test]
fn a_step_that_fails_names_the_file() {
    let mut connect = FileConnect::begin(&FileBroker::new("/tmp/a.ss")).expect("valid settings");
    connect.done(Ok(())).expect("resolved");
    let failed = connect
        .done(Err("no such file".to_owned()))
        .expect_err("opening failed");
    assert_eq!(
        failed.message(),
        "stream connect error on '/tmp/a.ss': no such file"
    );
}

#[test]
fn a_descriptor_says_how_the_file_is_read() {
    let mut connected = ConnectedFileBroker::new("/tmp/a.ss");
    let live = connected
        .subscribe_stream(&FileStream::new("orders"))
        .expect("valid");
    assert_eq!(live.key, "orders");
    assert_eq!(live.reset, StreamReset::Latest);
    assert!(live.live_streaming);
    assert_eq!(live.reader, Reader::Tail);
    let replay = connected
        .subscribe_stream(&FileStream::new("orders").replay())
        .expect("valid");
    assert_eq!(replay.reset, StreamReset::Earliest);
    assert!(!replay.live_streaming);
    assert_eq!(replay.reader, Reader::Replay);
    assert!(matches!(
        connected.subscribe_stream(&FileStream::new("a b")),
        Err(SeaFileError::Invalid(_))
    ));
    connected.close();
    assert!(matches!(
        connected.subscribe_stream(&FileStream::new("orders")),
        Err(SeaFileError::NotConnected)
    ));
}

#[test]
fn shutting_down_takes_an_ended_producer_for_done() {
    let connected = ConnectedFileBroker::new("/tmp/a.ss");
    assert!(connected.disconnected(Disconnect::Done).is_ok());
    assert!(connected.disconnected(Disconnect::ProducerEnded).is_ok());
    let failed = connected
        .disconnected(Disconnect::Failed("disk".to_owned()))
        .expect_err("the failure is reported");
    assert_eq!(failed.message(), "stream connect error on '/tmp/a.ss': disk");
}

#[test]
fn a_publish_is_checked_before_it_is_written() {
    let none = HeaderMap::new();
    assert!(matches!(
        outgoing(None, "orders", &none, b"{}"),
        Err(SeaFileError::NotConnected)
    ));
    let mut connected = ConnectedFileBroker::new("/tmp/a.ss");
    let written = outgoing(Some(&connected), "orders", &none, b" padded ").expect("valid");
    assert_eq!(written.key, "orders");
    assert_eq!(written.bytes, b" padded ");
    assert!(matches!(
        outgoing(Some(&connected), "a b", &none, b"{}"),
        Err(SeaFileError::Invalid(_))
    ));
    connected.close();
    assert!(matches!(
        outgoing(Some(&connected), "a b", &none, b"{}"),
        Err(SeaFileError::NotConnected)
    ));
    assert_eq!(
        publish_failed("orders", "full".to_owned()).message(),
        "publish error to 'orders': full"
    );
    assert_eq!(
        subscribe_failed("orders", "gone".to_owned()).message(),
        "subscribe error on 'orders': gone"
    );
}

#[test]
fn a_line_is_checked_before_it_is_written() {
    let none = HeaderMap::new();
    assert!(matches!(
        accepts(None, &none, b"x"),
        Err(SeaFileError::NotConnected)
    ));
    let mut connected = StdioBroker::new().connected(Ok(())).expect("attached");
    assert!(accepts(Some(&connected), &none, b"x").is_ok());
    let refused = accepts(Some(&connected), &none, b"").expect_err("an empty line");
    assert_eq!(
        refused.message(),
        "invalid descriptor: stdio drops empty lines; an empty message cannot be transmitted"
    );
    let mut headers = HeaderMap::new();
    headers.insert("x-tenant", "acme");
    assert!(accepts(Some(&connected), &headers, b"").is_ok());
    assert_eq!(connected.subscribe("jobs").expect("valid"), "jobs");

    let padded = stdio::line("jobs", &none, b" padded ").expect("valid");
    assert_eq!(padded.key, "jobs");
    assert_eq!(padded.bytes, b"rs1:AAAAACBwYWRkZWQg");
    assert_eq!(stdio::line("jobs", &none, b"plain").expect("valid").bytes, b"plain");
    assert!(matches!(
        stdio::line("a b", &none, b"plain"),
        Err(SeaFileError::Invalid(_))
    ));

    connected.close();
    assert!(matches!(
        accepts(Some(&connected), &none, b""),
        Err(SeaFileError::NotConnected)
    ));
    assert!(matches!(
        connected.subscribe("a b"),
        Err(SeaFileError::NotConnected)
    ));
}

#[test]
fn a_pipe_that_fails_is_named_by_its_protocol() {
    let broker = StdioBroker::default();
    assert!(!broker.is_loopback());
    assert!(broker.loopback().is_loopback());
    let failed = broker
        .connected(Err("busy".to_owned()))
        .expect_err("attaching failed");
    assert_eq!(failed.message(), "stream connect error on 'stdio': busy");
    let connected = broker.connected(Ok(())).expect("attached");
    assert!(connected.disconnected(Ok(())).is_ok());
    let failed = connected
        .disconnected(Err("stuck".to_owned()))
        .expect_err("detaching failed");
    assert_eq!(failed.message(), "stream connect error on 'stdio': stuck");
}

#[test]
fn a_read_off_standard_input_is_delivered_or_ends_the_subscription() {
    let record = Record {
        key: "jobs".to_owned(),
        sequence: 4,
        at: 0,
        bytes: b"rs1:AAAAACBwYWRkZWQg".to_vec(),
    };
    let (delivered, goes_on) = line_delivery(Ok(record), "jobs");
    assert_eq!(delivered.expect("a delivery").payload(), b" padded ");
    assert!(goes_on);
    let (failed, goes_on) = line_delivery(Err("closed".to_owned()), "jobs");
    match failed {
        Ok(_) => panic!("a failure must be reported"),
        Err(error) => assert_eq!(error.message(), "receive error on 'jobs': closed"),
    }
    assert!(!goes_on);
}
