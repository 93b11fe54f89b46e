//! The header envelope: what is written, and what is read back.

use base64::engine::general_purpose::STANDARD;
use base64::Engine;
use ruststream::HeaderMap;
use ruststream_sea_file::wire::{decode, encode};

/// An envelope written out by hand: the length of the header block, the block and the payload.
fn envelope(block: &[u8], payload: &[u8]) -> Vec<u8> {
    let mut framed = (block.len() as u32).to_be_bytes().to_vec();
    framed.extend_from_slice(block);
    framed.extend_from_slice(payload);
    format!("rs1:{}", STANDARD.encode(&framed)).into_bytes()
}

#[test]
fn headerless_payloads_pass_through() {
    let (headers, payload) = decode(&encode(&HeaderMap::new(), b"raw bytes", false));
    assert!(headers.is_empty());
    assert_eq!(payload.as_slice(), b"raw bytes");
    assert_eq!(encode(&HeaderMap::new(), b"raw bytes", false), b"raw bytes");
}

#[test]
fn headers_round_trip_through_the_text_envelope() {
    let mut headers = HeaderMap::new();
    headers.insert("content-type", "application/json");
    headers.insert("x-tenant", "acme");
    let encoded = encode(&headers, b"{\"id\":1}", false);
    assert!(
        std::str::from_utf8(&encoded).is_ok(),
        "envelope must be text-safe"
    );
    let (decoded, payload) = decode(&encoded);
    assert_eq!(decoded.get_str("content-type"), Some("application/json"));
    assert_eq!(decoded.get_str("x-tenant"), Some("acme"));
    assert_eq!(payload.as_slice(), b"{\"id\":1}");
}

#[test]
fn force_text_envelopes_binary_payloads() {
    let raw = [0u8, 159, 146, 150, 255];
    let encoded = encode(&HeaderMap::new(), &raw, true);
    assert!(std::str::from_utf8(&encoded).is_ok());
    let (headers, payload) = decode(&encoded);
    assert!(headers.is_empty());
    assert_eq!(payload.as_slice(), raw.as_slice());
}

#[test]
fn an_envelope_is_the_prefix_and_base64_of_the_frame() {
    let mut headers = HeaderMap::new();
    headers.insert("X-Tenant", "acme");
    assert_eq!(
        encode(&headers, b"hello", false),
        envelope(b"x-tenant: acme\n", b"hello"),
    );
    assert_eq!(encode(&HeaderMap::new(), &[0xff], true), b"rs1:AAAAAP8=");
    assert_eq!(
        encode(&HeaderMap::new(), &[0xff], true),
        envelope(b"", &[0xff]),
    );
}

#[test]
fn a_payload_that_begins_like_an_envelope_is_enveloped() {
    for force_text in [false, true] {
        for payload in [b"rs1:".as_slice(), b"rs1:AAAAAP8=", b"rs1:not base64"] {
            let encoded = encode(&HeaderMap::new(), payload, force_text);
            assert_eq!(encoded, envelope(b"", payload));
            let (headers, decoded) = decode(&encoded);
            assert!(headers.is_empty());
            assert_eq!(decoded, payload);
        }
    }
    assert_eq!(encode(&HeaderMap::new(), b"rs1", false), b"rs1");
}

#[test]
fn a_payload_a_line_would_not_carry_is_enveloped_where_it_has_to_be_one() {
    let refused: [&[u8]; 7] = [
        b"  {\n  \"id\": 11\n}\n  ",
        b"two\nlines",
        b" padded",
        b"padded\t",
        b"\r",
        "\u{3000}wide".as_bytes(),
        &[0xc3, 0x28],
    ];
    for payload in refused {
        assert_eq!(encode(&HeaderMap::new(), payload, true), envelope(b"", payload));
        assert_eq!(encode(&HeaderMap::new(), payload, false), payload);
        assert_eq!(decode(&encode(&HeaderMap::new(), payload, true)).1, payload);
    }
    for payload in [b"a line".as_slice(), b"a\tb", "h\u{e9}llo".as_bytes(), b""] {
        assert_eq!(encode(&HeaderMap::new(), payload, true), payload);
    }
}

#[test]
fn a_value_comes_back_trimmed_and_as_text() {
    let mut headers = HeaderMap::new();
    headers.insert("x-tenant", "  acme  ");
    headers.insert("x-colons", "a: b:c");
    headers.insert("x-binary", vec![0xff, b'o', b'k']);
    headers.insert("x-empty", "");
    let (decoded, payload) = decode(&encode(&headers, b"", false));
    assert_eq!(payload.len(), 0);
    assert_eq!(decoded.len(), 4);
    assert_eq!(decoded.get_str("x-tenant"), Some("acme"));
    assert_eq!(decoded.get_str("x-colons"), Some("a: b:c"));
    assert_eq!(decoded.get_str("x-binary"), Some("\u{fffd}ok"));
    assert_eq!(decoded.get_str("x-empty"), Some(""));
}

#[test]
fn a_header_block_is_read_line_by_line() {
    let block = b"Content-Type :  text/plain \r\nno colon here\nx-a: 1\nX-A: 2\n: nameless\nlast: one";
    let (headers, payload) = decode(&envelope(block, b"body"));
    assert_eq!(payload, b"body");
    assert_eq!(headers.get_str("content-type"), Some("text/plain"));
    assert_eq!(headers.get_str("x-a"), Some("2"));
    assert_eq!(headers.get_str(""), Some("nameless"));
    assert_eq!(headers.get_str("last"), Some("one"));
    assert_eq!(headers.len(), 4);
}

#[test]
fn a_newline_in_a_value_breaks_the_header_apart() {
    let mut headers = HeaderMap::new();
    headers.insert("x-note", "one\ntwo: three");
    let (decoded, payload) = decode(&encode(&headers, b"body", false));
    assert_eq!(payload, b"body");
    assert_eq!(decoded.get_str("x-note"), Some("one"));
    assert_eq!(decoded.get_str("two"), Some("three"));
}

#[test]
fn anything_but_an_envelope_reads_as_a_payload() {
    let mut short = b"rs1:".to_vec();
    short.extend_from_slice(STANDARD.encode([0, 0, 0]).as_bytes());
    let mut lying = b"rs1:".to_vec();
    lying.extend_from_slice(STANDARD.encode([0, 0, 0, 9, b'a']).as_bytes());
    let plain: [&[u8]; 9] = [
        b"",
        b"{}",
        b"rs1:!!!!",
        // Without its padding, and with a bit set that stands for no byte.
        b"rs1:AAAAAP8",
        b"rs1:AAAAAP9=",
        b"rs2:AAAAAP8=",
        &[b'r', b's', b'1', b':', 0xff],
        &short,
        &lying,
    ];
    for data in plain {
        let (headers, payload) = decode(data);
        assert!(headers.is_empty());
        assert_eq!(payload, data);
    }
}

#[test]
fn a_block_that_fills_the_frame_leaves_an_empty_payload() {
    let (headers, payload) = decode(&envelope(b"k: v\n", b""));
    assert_eq!(headers.get_str("k"), Some("v"));
    assert!(payload.is_empty());
    let (headers, payload) = decode(b"rs1:AAAAAA==");
    assert!(headers.is_empty());
    assert!(payload.is_empty());
}
