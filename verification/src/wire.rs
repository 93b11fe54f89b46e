//! The conditional header envelope.
//!
//! The client's payloads are plain bytes with no header space, so user headers travel in an
//! envelope: `rs1:` and base64 of a length-prefixed header block and the payload. It is applied
//! only where it is needed, so a file written without headers stays readable as a plain payload
//! stream by other tools. The envelope is text-safe, because the stdio transport is
//! line-oriented UTF-8.

use ruststream::HeaderMap;
use vstd::prelude::*;
use vstd::string::*;
use vstd::utf8::*;

use crate::encoding::{self, from_base64, to_base64};
use crate::headers::{self, insert_header, lacks_headers, list_headers, no_headers};
use crate::text::{self, chars_of, find, read_lossy, read_utf8, trim_bounds, white_space};

verus! {

/// What an envelope begins with.
pub open spec fn prefix() -> Seq<char> {
    seq!['r', 's', '1', ':']
}

/// The four bytes of a block's length, most significant first.
pub open spec fn length_bytes(length: nat) -> Seq<u8> {
    seq![
        (length / 0x100_0000 % 0x100) as u8,
        (length / 0x1_0000 % 0x100) as u8,
        (length / 0x100 % 0x100) as u8,
        (length % 0x100) as u8,
    ]
}

/// The length four bytes stand for.
pub open spec fn length_value(bytes: Seq<u8>) -> nat {
    (bytes[0] as nat) * 0x100_0000 + (bytes[1] as nat) * 0x1_0000 + (bytes[2] as nat) * 0x100 + (
    bytes[3] as nat)
}

/// One header on a line of its own.
pub open spec fn header_line(entry: (Seq<char>, Seq<u8>)) -> Seq<char> {
    entry.0 + seq![':', ' '] + text::text_of(entry.1) + seq!['\n']
}

/// The header block: every header on a line of its own, in order.
pub open spec fn header_block(entries: Seq<(Seq<char>, Seq<u8>)>) -> Seq<char>
    decreases entries.len(),
{
    if entries.len() == 0 {
        Seq::empty()
    } else {
        header_line(entries[0]) + header_block(entries.drop_first())
    }
}

/// Whether the length of the header block can be written in front of it.
pub open spec fn block_fits(entries: Seq<(Seq<char>, Seq<u8>)>) -> bool {
    encode_utf8(header_block(entries)).len() <= u32::MAX
}

/// What an envelope holds: the length of the header block, the block and the payload. A block
/// too long for its length field is announced as empty.
pub open spec fn frame(entries: Seq<(Seq<char>, Seq<u8>)>, payload: Seq<u8>) -> Seq<u8> {
    let block = encode_utf8(header_block(entries));
    let length: nat = if block.len() <= u32::MAX {
        block.len()
    } else {
        0
    };
    length_bytes(length) + block + payload
}

/// An envelope's bytes.
pub open spec fn envelope(entries: Seq<(Seq<char>, Seq<u8>)>, payload: Seq<u8>) -> Seq<u8> {
    encode_utf8(prefix() + encoding::base64_text(frame(entries, payload)))
}

/// Whether a line carries `payload` as it is: a line is text, ends at a newline, and its reader
/// trims it.
pub open spec fn is_line(payload: Seq<u8>) -> bool {
    &&& valid_utf8(payload)
    &&& !decode_utf8(payload).contains('\n')
    &&& text::is_trimmed(decode_utf8(payload))
}

/// Whether `payload` would be taken for an envelope.
pub open spec fn looks_enveloped(payload: Seq<u8>) -> bool {
    payload.len() >= 4 && payload.take(4) == seq![0x72u8, 0x73u8, 0x31u8, 0x3au8]
}

/// Whether a message travels in the envelope: one with headers does, a payload that looks like an
/// envelope does, and so does one a line would not carry, where it has to be a line.
pub open spec fn needs_envelope(
    entries: Seq<(Seq<char>, Seq<u8>)>,
    payload: Seq<u8>,
    force_text: bool,
) -> bool {
    ||| entries.len() > 0
    ||| looks_enveloped(payload)
    ||| (force_text && !is_line(payload))
}

/// The bytes a message is written as.
pub open spec fn written(
    entries: Seq<(Seq<char>, Seq<u8>)>,
    payload: Seq<u8>,
    force_text: bool,
) -> Seq<u8> {
    if needs_envelope(entries, payload, force_text) {
        envelope(entries, payload)
    } else {
        payload
    }
}

/// `entries` after one line of a header block: what stands before the first colon names the
/// value that stands behind it, and a line without a colon says nothing.
pub open spec fn read_line(
    entries: Seq<(Seq<char>, Seq<u8>)>,
    line: Seq<char>,
) -> Seq<(Seq<char>, Seq<u8>)> {
    let colon = text::place_of(line, ':');
    if colon < line.len() {
        headers::put(
            entries,
            headers::lower(text::trimmed(line.take(colon))),
            encode_utf8(text::trimmed(line.skip(colon + 1))),
        )
    } else {
        entries
    }
}

/// `entries` after every line of a header block.
pub open spec fn read_lines(
    entries: Seq<(Seq<char>, Seq<u8>)>,
    block: Seq<char>,
) -> Seq<(Seq<char>, Seq<u8>)>
    decreases block.len(),
{
    if block.len() == 0 {
        entries
    } else {
        let end = text::place_of(block, '\n');
        if 0 <= end < block.len() {
            read_lines(read_line(entries, block.take(end)), block.skip(end + 1))
        } else {
            read_line(entries, block)
        }
    }
}

/// The frame inside `data`, if it is an envelope.
pub open spec fn frame_in(data: Seq<u8>) -> Option<Seq<u8>> {
    if valid_utf8(data) && decode_utf8(data).len() >= 4 && decode_utf8(data).take(4) == prefix() {
        encoding::base64_bytes(decode_utf8(data).skip(4))
    } else {
        None
    }
}

/// The headers and the payload some bytes are read as: what the envelope holds, and everything
/// else as a payload without headers.
pub open spec fn opened(data: Seq<u8>) -> (Seq<(Seq<char>, Seq<u8>)>, Seq<u8>) {
    match frame_in(data) {
        Some(frame) => if frame.len() >= 4 && frame.len() - 4 >= length_value(frame) {
            let end = 4 + length_value(frame) as int;
            (
                read_lines(Seq::empty(), text::text_of(frame.subrange(4, end))),
                frame.skip(end),
            )
        } else {
            (Seq::empty(), data)
        },
        None => (Seq::empty(), data),
    }
}

/// Whether a header survives the envelope: its name has no colon and no newline in it and is not
/// padded, and its value has no newline in it.
pub open spec fn crosses(entry: (Seq<char>, Seq<u8>)) -> bool {
    &&& !entry.0.contains(':')
    &&& !entry.0.contains('\n')
    &&& text::is_trimmed(entry.0)
    &&& !text::text_of(entry.1).contains('\n')
}

/// What headers come back as: each value trimmed, and as text.
pub open spec fn carried(entries: Seq<(Seq<char>, Seq<u8>)>) -> Seq<(Seq<char>, Seq<u8>)> {
    entries.map_values(
        |entry: (Seq<char>, Seq<u8>)|
            (entry.0, encode_utf8(text::trimmed(text::text_of(entry.1)))),
    )
}

/// Whether some bytes give a message back: the payload as it was, and the headers as the header
/// block reads, which are the headers themselves, trimmed and as text, where they all cross the
/// envelope. A message whose header block is too long for its length field is not one of these.
pub open spec fn gives_back(
    data: Seq<u8>,
    entries: Seq<(Seq<char>, Seq<u8>)>,
    payload: Seq<u8>,
) -> bool {
    block_fits(entries) ==> {
        &&& opened(data) == (read_lines(Seq::empty(), header_block(entries)), payload)
        &&& (forall|i: int| 0 <= i < entries.len() ==> crosses(#[trigger] entries[i]))
            ==> opened(data).0 == carried(entries)
    }
}

/// Encodes a payload with its headers.
///
/// A payload without headers passes through untouched, unless it begins like an envelope.
/// `force_text` also envelopes a payload that a line would not carry as it is.
pub fn encode(headers: &HeaderMap, payload: &[u8], force_text: bool) -> (data: Vec<u8>)
    ensures
        data@ == written(headers::header_entries(*headers), payload@, force_text),
        gives_back(data@, headers::header_entries(*headers), payload@),
        force_text || needs_envelope(headers::header_entries(*headers), payload@, force_text)
            ==> is_line(data@),
        payload@.len() > 0 || headers::header_entries(*headers).len() > 0 ==> data@.len() > 0,
{
    let list = list_headers(headers);
    let ghost entries = headers::header_entries(*headers);
    proof {
        assert(list@.map_values(|entry: (String, Vec<u8>)| (entry.0@, entry.1@)) =~= entries);
        law_what_is_written_gives_the_message_back(entries, payload@, force_text);
    }
    if lacks_headers(headers) && !begins_enveloped(payload) && !(force_text && !fits_line(
        payload,
    )) {
        return vstd::slice::slice_to_vec(payload);
    }
    let mut lines = String::new();
    let mut i: usize = 0;
    proof {
        assert(entries.skip(0) =~= entries);
        assert(lines@ + header_block(entries) =~= header_block(entries));
    }
    while i < list.len()
        invariant
            0 <= i <= list.len(),
            list@.len() == entries.len(),
            forall|j: int| 0 <= j < list@.len() ==> (#[trigger] list@[j]).0@ == entries[j].0,
            forall|j: int| 0 <= j < list@.len() ==> (#[trigger] list@[j]).1@ == entries[j].1,
            lines@ + header_block(entries.skip(i as int)) == header_block(entries),
        decreases list.len() - i,
    {
        let ghost before = lines@;
        let value = read_lossy(list[i].1.as_slice());
        lines.append(list[i].0.as_str());
        lines.append(": ");
        lines.append(value.as_str());
        lines.append("\n");
        proof {
            reveal_strlit(": ");
            reveal_strlit("\n");
            let rest = entries.skip(i as int);
            assert(rest.drop_first() =~= entries.skip(i + 1));
            assert(": "@ =~= seq![':', ' ']);
            assert("\n"@ =~= seq!['\n']);
            assert(lines@ =~= before + header_line(rest[0]));
            assert(before + (header_line(rest[0]) + header_block(rest.drop_first())) =~= lines@
                + header_block(entries.skip(i + 1)));
        }
        i = i + 1;
    }
    proof {
        assert(entries.skip(entries.len() as int).len() == 0);
        assert(lines@ + Seq::<char>::empty() =~= lines@);
    }
    let framed = build_frame(lines.as_str().as_bytes(), payload);
    let mut out = String::new();
    out.append("rs1:");
    let encoded = to_base64(framed.as_slice());
    out.append(encoded.as_str());
    proof {
        reveal_strlit("rs1:");
        assert(out@ =~= prefix() + encoding::base64_text(frame(entries, payload@)));
    }
    vstd::slice::slice_to_vec(out.as_str().as_bytes())
}

/// The frame of an envelope around an encoded header block and a payload.
fn build_frame(block: &[u8], payload: &[u8]) -> (framed: Vec<u8>)
    ensures
        framed@ == length_bytes(
            if block@.len() <= u32::MAX {
                block@.len()
            } else {
                0
            },
        ) + block@ + payload@,
{
    let length: u32 = if block.len() <= 0xffff_ffff {
        block.len() as u32
    } else {
        0
    };
    let mut framed: Vec<u8> = Vec::new();
    framed.push((length / 0x100_0000 % 0x100) as u8);
    framed.push((length / 0x1_0000 % 0x100) as u8);
    framed.push((length / 0x100 % 0x100) as u8);
    framed.push((length % 0x100) as u8);
    proof {
        assert(framed@ =~= length_bytes(length as nat));
    }
    framed.extend_from_slice(block);
    framed.extend_from_slice(payload);
    framed
}

/// Whether `payload` begins the way an envelope does.
fn begins_enveloped(payload: &[u8]) -> (begins: bool)
    ensures
        begins == looks_enveloped(payload@),
{
    let begins = payload.len() >= 4 && payload[0] == 0x72 && payload[1] == 0x73 && payload[2]
        == 0x31 && payload[3] == 0x3a;
    proof {
        if payload@.len() >= 4 {
            let head = payload@.take(4);
            assert(head[0] == payload@[0] && head[1] == payload@[1] && head[2] == payload@[2]
                && head[3] == payload@[3]);
            if begins {
                assert(head =~= seq![0x72u8, 0x73u8, 0x31u8, 0x3au8]);
            }
        }
    }
    begins
}

/// Whether a line carries `payload` as it is.
fn fits_line(payload: &[u8]) -> (fits: bool)
    ensures
        fits == is_line(payload@),
{
    match read_utf8(payload) {
        None => false,
        Some(line) => {
            let chars = chars_of(line);
            let count = chars.len();
            let newline = find(&chars, 0, count, '\n');
            if newline < count {
                proof {
                    assert(line@.contains('\n')) by {
                        assert(line@[newline as int] == '\n');
                    }
                }
                return false;
            }
            count == 0 || (!white_space(chars[0]) && !white_space(chars[count - 1]))
        },
    }
}

/// Splits a payload back into headers and raw bytes; anything that is not an envelope reads as a
/// payload without headers.
pub fn decode(data: &[u8]) -> (message: (HeaderMap, Vec<u8>))
    ensures
        headers::header_entries(message.0) == opened(data@).0,
        message.1@ == opened(data@).1,
{
    match open_frame(data) {
        None => (no_headers(), vstd::slice::slice_to_vec(data)),
        Some(framed) => {
            if framed.len() < 4 {
                return (no_headers(), vstd::slice::slice_to_vec(data));
            }
            let length: usize = framed[0] as usize * 0x100_0000 + framed[1] as usize * 0x1_0000
                + framed[2] as usize * 0x100 + framed[3] as usize;
            if framed.len() - 4 < length {
                return (no_headers(), vstd::slice::slice_to_vec(data));
            }
            let block = read_lossy(
                vstd::slice::slice_subrange(framed.as_slice(), 4, 4 + length),
            );
            let headers = read_block(block.as_str());
            let payload = vstd::slice::slice_subrange(framed.as_slice(), 4 + length, framed.len());
            proof {
                assert(framed@.skip(4 + length as int) =~= payload@);
            }
            (headers, vstd::slice::slice_to_vec(payload))
        },
    }
}

/// The frame inside `data`, if it is an envelope.
fn open_frame(data: &[u8]) -> (framed: Option<Vec<u8>>)
    ensures
        framed is Some <==> frame_in(data@) is Some,
        framed matches Some(framed) ==> frame_in(data@) == Some(framed@),
{
    match read_utf8(data) {
        None => None,
        Some(read) => {
            let count = read.unicode_len();
            if count < 4 {
                return None;
            }
            let begins = read.get_char(0) == 'r' && read.get_char(1) == 's' && read.get_char(2)
                == '1' && read.get_char(3) == ':';
            proof {
                let head = read@.take(4);
                assert(head[0] == read@[0] && head[1] == read@[1] && head[2] == read@[2] && head[3]
                    == read@[3]);
                if begins {
                    assert(head =~= prefix());
                }
            }
            if !begins {
                return None;
            }
            proof {
                assert(read@.skip(4) =~= read@.subrange(4, count as int));
            }
            let framed = from_base64(read.substring_char(4, count));
            proof {
                if let Some(read) = &framed {
                    encoding::law_base64_is_read_back(read@);
                }
            }
            framed
        },
    }
}

/// Reads a header block into a map, line by line.
fn read_block(block: &str) -> (headers: HeaderMap)
    ensures
        headers::header_entries(headers) == read_lines(Seq::empty(), block@),
{
    let chars = chars_of(block);
    let count = chars.len();
    let mut headers = no_headers();
    let mut from: usize = 0;
    proof {
        assert(chars@.subrange(0, count as int) =~= block@);
    }
    while from < count
        invariant
            chars@ == block@,
            count == chars.len(),
            from <= count,
            read_lines(
                headers::header_entries(headers),
                block@.subrange(from as int, count as int),
            ) == read_lines(Seq::empty(), block@),
        decreases count - from,
    {
        let ghost rest = block@.subrange(from as int, count as int);
        let end = find(&chars, from, count, '\n');
        let colon = find(&chars, from, end, ':');
        let ghost line = block@.subrange(from as int, end as int);
        let ghost before = headers::header_entries(headers);
        if colon < end {
            let name = trim_bounds(&chars, from, colon);
            let value = trim_bounds(&chars, colon + 1, end);
            insert_header(
                &mut headers,
                block.substring_char(name.0, name.1),
                block.substring_char(value.0, value.1),
            );
            proof {
                assert(line.take(colon - from) =~= block@.subrange(from as int, colon as int));
                assert(line.skip(colon - from + 1) =~= block@.subrange(colon + 1, end as int));
            }
        }
        proof {
            assert(headers::header_entries(headers) == read_line(before, line));
            if end < count {
                assert(rest.take(end - from) =~= line);
                assert(rest.skip(end - from + 1) =~= block@.subrange(end + 1, count as int));
            } else {
                assert(rest =~= line);
                assert(block@.subrange(count as int, count as int).len() == 0);
            }
        }
        from = if end < count {
            end + 1
        } else {
            count
        };
    }
    proof {
        assert(block@.subrange(count as int, count as int).len() == 0);
    }
    headers
}

/// Headers that cross the envelope come back in order, under their names, with their values
/// trimmed and as text.
pub proof fn law_headers_cross_the_envelope(entries: Seq<(Seq<char>, Seq<u8>)>)
    requires
        headers::well_named(entries),
        forall|i: int| 0 <= i < entries.len() ==> crosses(#[trigger] entries[i]),
    ensures
        read_lines(Seq::empty(), header_block(entries)) == carried(entries),
{
    assert(entries.skip(0) =~= entries);
    assert(carried(entries.take(0)) =~= Seq::empty());
    lemma_lines_from(entries, 0);
}

/// Reading the lines of the entries from `i` on, behind what the entries before it gave.
proof fn lemma_lines_from(entries: Seq<(Seq<char>, Seq<u8>)>, i: int)
    requires
        headers::well_named(entries),
        forall|j: int| 0 <= j < entries.len() ==> crosses(#[trigger] entries[j]),
        0 <= i <= entries.len(),
    ensures
        read_lines(carried(entries.take(i)), header_block(entries.skip(i))) == carried(entries),
    decreases entries.len() - i,
{
    let before = carried(entries.take(i));
    if i == entries.len() {
        assert(entries.skip(i).len() == 0);
        assert(entries.take(i) =~= entries);
    } else {
        let entry = entries[i];
        let value = text::text_of(entry.1);
        let line = entry.0 + seq![':', ' '] + value;
        let rest = header_block(entries.skip(i + 1));
        let block = header_block(entries.skip(i));
        assert(crosses(entry));
        assert(entries.skip(i).drop_first() =~= entries.skip(i + 1));
        assert(block =~= line + seq!['\n'] + rest);
        let end = line.len() as int;
        assert forall|j: int| 0 <= j < end implies block[j] != '\n' by {
            if j < entry.0.len() {
                assert(block[j] == entry.0[j]);
            } else if j >= entry.0.len() + 2 {
                assert(block[j] == value[j - entry.0.len() - 2]);
            }
        }
        text::lemma_place_of(block, '\n', end);
        assert(block.take(end) =~= line);
        assert(block.skip(end + 1) =~= rest);
        let colon = entry.0.len() as int;
        assert forall|j: int| 0 <= j < colon implies line[j] != ':' by {
            assert(line[j] == entry.0[j]);
        }
        text::lemma_place_of(line, ':', colon);
        assert(line.take(colon) =~= entry.0);
        let padded = line.skip(colon + 1);
        assert(padded.drop_first() =~= value);
        assert(padded[0] == ' ');
        assert(text::trim_start(padded) == text::trim_start(value));
        text::lemma_trimmed_is_kept(entry.0);
        assert forall|j: int| 0 <= j < before.len() implies (#[trigger] before[j]).0
            != entry.0 by {
            assert(entries.take(i)[j] == entries[j]);
            assert(entries[j].0 != entries[i].0);
        }
        headers::lemma_entry_place(before, entry.0, before.len() as int);
        assert(headers::lower(entry.0) == entry.0);
        assert(read_line(before, line) =~= carried(entries.take(i + 1)));
        lemma_lines_from(entries, i + 1);
    }
}

/// The text of an envelope is one a line carries: it holds no white space.
proof fn lemma_envelope_is_a_line(out: Seq<char>, encoded: Seq<char>)
    requires
        out == prefix() + encoded,
        forall|i: int| 0 <= i < encoded.len() ==> encoding::is_base64_char(#[trigger] encoded[i]),
    ensures
        is_line(encode_utf8(out)),
        encode_utf8(out).len() > 0,
{
    encode_utf8_valid_utf8(out);
    encode_utf8_decode_utf8(out);
    assert forall|i: int| 0 <= i < out.len() implies !text::is_white_space(#[trigger] out[i])
        && out[i] != '\n' by {
        if i >= 4 {
            assert(out[i] == encoded[i - 4]);
        }
    }
    if encode_utf8(out).len() == 0 {
        assert(decode_utf8(encode_utf8(out)).len() == 0);
    }
}

/// A payload that does not begin like an envelope is read as it is, whoever wrote it.
pub proof fn law_a_plain_payload_is_read_verbatim(payload: Seq<u8>)
    requires
        !looks_enveloped(payload),
    ensures
        opened(payload) == (Seq::<(Seq<char>, Seq<u8>)>::empty(), payload),
{
    if valid_utf8(payload) && decode_utf8(payload).len() >= 4 && decode_utf8(payload).take(4)
        == prefix() {
        let read = decode_utf8(payload);
        decode_utf8_encode_utf8(payload);
        assert(read =~= prefix() + read.skip(4));
        text::lemma_encode_concat(prefix(), read.skip(4));
        is_ascii_chars_encode_utf8(prefix());
        let head = encode_utf8(prefix());
        assert(head[0] == prefix()[0] as u8 && head[1] == prefix()[1] as u8 && head[2]
            == prefix()[2] as u8 && head[3] == prefix()[3] as u8);
        assert(payload.take(4) =~= seq![0x72u8, 0x73u8, 0x31u8, 0x3au8]);
    }
}

/// What a message is written as gives it back, and is a line where it has to be one or is an
/// envelope. Only a message with neither payload nor headers is written as nothing.
pub proof fn law_what_is_written_gives_the_message_back(
    entries: Seq<(Seq<char>, Seq<u8>)>,
    payload: Seq<u8>,
    force_text: bool,
)
    requires
        headers::well_named(entries),
    ensures
        gives_back(written(entries, payload, force_text), entries, payload),
        force_text || needs_envelope(entries, payload, force_text) ==> is_line(
            written(entries, payload, force_text),
        ),
        payload.len() > 0 || entries.len() > 0 ==> written(entries, payload, force_text).len() > 0,
{
    if forall|i: int| 0 <= i < entries.len() ==> crosses(#[trigger] entries[i]) {
        law_headers_cross_the_envelope(entries);
    }
    if needs_envelope(entries, payload, force_text) {
        let encoded = encoding::base64_text(frame(entries, payload));
        encoding::lemma_base64_chars(frame(entries, payload));
        lemma_envelope_is_a_line(prefix() + encoded, encoded);
        if block_fits(entries) {
            lemma_envelope_opens(entries, payload);
        }
    } else {
        law_a_plain_payload_is_read_verbatim(payload);
    }
}

/// A message without headers is written as its payload and nothing else, so what reads plain
/// payloads reads it. A payload that begins like an envelope is the one exception.
pub proof fn law_a_message_without_headers_is_written_verbatim(payload: Seq<u8>)
    requires
        !looks_enveloped(payload),
    ensures
        written(Seq::empty(), payload, false) == payload,
        is_line(payload) ==> written(Seq::empty(), payload, true) == payload,
{
}

/// What is written as a line crosses a pipe whole: it ends at no newline of its own, its reader's
/// trimming takes nothing off it, and the message is read back with the payload it was sent with.
pub proof fn law_a_line_crosses_a_pipe_whole(
    entries: Seq<(Seq<char>, Seq<u8>)>,
    payload: Seq<u8>,
)
    requires
        headers::well_named(entries),
        block_fits(entries),
    ensures
        ({
            let line = decode_utf8(written(entries, payload, true));
            let read = encode_utf8(text::trimmed(line));
            &&& !line.contains('\n')
            &&& read == written(entries, payload, true)
            &&& opened(read) == (read_lines(Seq::empty(), header_block(entries)), payload)
        }),
{
    let data = written(entries, payload, true);
    law_what_is_written_gives_the_message_back(entries, payload, true);
    text::lemma_trimmed_is_kept(decode_utf8(data));
    decode_utf8_encode_utf8(data);
}

/// A length that four bytes hold is read back from them.
proof fn lemma_length_is_read_back(length: nat)
    requires
        length <= u32::MAX,
    ensures
        length_value(length_bytes(length)) == length,
{
}

/// An envelope whose header block fits gives back the block and the payload.
#[verifier::spinoff_prover]
proof fn lemma_envelope_opens(entries: Seq<(Seq<char>, Seq<u8>)>, payload: Seq<u8>)
    requires
        block_fits(entries),
    ensures
        opened(envelope(entries, payload)) == (
            read_lines(Seq::empty(), header_block(entries)),
            payload,
        ),
{
    let framed = frame(entries, payload);
    encoding::law_base64_is_read_back(framed);
    let out = prefix() + encoding::base64_text(framed);
    let block = encode_utf8(header_block(entries));
    encode_utf8_valid_utf8(out);
    encode_utf8_decode_utf8(out);
    encode_utf8_valid_utf8(header_block(entries));
    encode_utf8_decode_utf8(header_block(entries));
    assert(out.take(4) =~= prefix());
    assert(out.skip(4) =~= encoding::base64_text(framed));
    let length = block.len();
    lemma_length_is_read_back(length);
    assert(framed.take(4) =~= length_bytes(length));
    assert(framed[0] == framed.take(4)[0] && framed[1] == framed.take(4)[1] && framed[2]
        == framed.take(4)[2] && framed[3] == framed.take(4)[3]);
    assert(framed.subrange(4, 4 + length as int) =~= block);
    assert(framed.skip(4 + length as int) =~= payload);
}

/// Whether an envelope carries a header whole: a name with neither colon nor newline and no white
/// space around it, and a value that is text without a newline and without white space around it.
pub open spec fn is_carried_whole(name: Seq<char>, value: Seq<u8>) -> bool {
    &&& forall|i: int| 0 <= i < name.len() ==> (#[trigger] name[i]) != ':' && name[i] != '\n'
    &&& name.len() > 0 ==> !text::is_white_space(name[0]) && !text::is_white_space(name.last())
    &&& valid_utf8(value)
    &&& forall|i: int|
        0 <= i < decode_utf8(value).len() ==> (#[trigger] decode_utf8(value)[i]) != '\n'
    &&& decode_utf8(value).len() > 0 ==> !text::is_white_space(decode_utf8(value)[0])
        && !text::is_white_space(decode_utf8(value).last())
}

/// A message comes back from what it is written as: the payload as it was, and every header an
/// envelope carries whole, in order, under its name and with its value.
pub proof fn law_a_message_comes_back_as_it_was_sent(
    entries: Seq<(Seq<char>, Seq<u8>)>,
    payload: Seq<u8>,
    force_text: bool,
)
    requires
        headers::well_named(entries),
        encode_utf8(header_block(entries)).len() <= u32::MAX,
        forall|i: int|
            0 <= i < entries.len() ==> is_carried_whole((#[trigger] entries[i]).0, entries[i].1),
    ensures
        opened(written(entries, payload, force_text)).0 == entries,
        opened(written(entries, payload, force_text)).1 == payload,
{
    law_what_is_written_gives_the_message_back(entries, payload, force_text);
    assert forall|i: int| 0 <= i < entries.len() implies crosses(#[trigger] entries[i])
        && carried(entries)[i] == entries[i] by {
        let value = decode_utf8(entries[i].1);
        text::lemma_trimmed_is_kept(value);
        decode_utf8_encode_utf8(entries[i].1);
    }
    assert(carried(entries) =~= entries);
}

/// A message without headers is written as its payload, byte for byte, unless the payload begins
/// with `rs1:`, or has to be a line and is not one: text without a newline and without white space
/// around it. It is read back the same way.
pub proof fn law_a_plain_payload_stays_plain(payload: Seq<u8>, force_text: bool)
    requires
        !(payload.len() >= 4 && payload[0] == 0x72 && payload[1] == 0x73 && payload[2] == 0x31
            && payload[3] == 0x3a),
        force_text ==> valid_utf8(payload),
        force_text ==> forall|i: int|
            0 <= i < decode_utf8(payload).len() ==> (#[trigger] decode_utf8(payload)[i]) != '\n',
        force_text && decode_utf8(payload).len() > 0 ==> !text::is_white_space(
            decode_utf8(payload)[0],
        ) && !text::is_white_space(decode_utf8(payload).last()),
    ensures
        written(Seq::empty(), payload, force_text) == payload,
        opened(payload).0.len() == 0,
        opened(payload).1 == payload,
{
    if looks_enveloped(payload) {
        let head = payload.take(4);
        assert(head[0] == payload[0] && head[1] == payload[1] && head[2] == payload[2] && head[3]
            == payload[3]);
    }
    law_a_plain_payload_is_read_verbatim(payload);
}

/// What has to be a line is one, whatever the message: text, without a newline, and without white
/// space around it that a reader would trim. So is every message with headers.
pub proof fn law_a_line_is_text_without_a_newline(
    entries: Seq<(Seq<char>, Seq<u8>)>,
    payload: Seq<u8>,
    force_text: bool,
)
    requires
        headers::well_named(entries),
        force_text || entries.len() > 0,
    ensures
        ({
            let data = written(entries, payload, force_text);
            &&& valid_utf8(data)
            &&& forall|i: int|
                0 <= i < decode_utf8(data).len() ==> (#[trigger] decode_utf8(data)[i]) != '\n'
            &&& decode_utf8(data).len() > 0 ==> !text::is_white_space(decode_utf8(data)[0])
                && !text::is_white_space(decode_utf8(data).last())
        }),
{
    law_what_is_written_gives_the_message_back(entries, payload, force_text);
    let data = written(entries, payload, force_text);
    assert forall|i: int| 0 <= i < decode_utf8(data).len() implies (
    #[trigger] decode_utf8(data)[i]) != '\n' by {
        assert(decode_utf8(data).contains(decode_utf8(data)[i]));
    }
}

/// A header block has one line for each header, in order: its name, a colon, a space, its value as
/// text, and the end of the line.
pub proof fn law_a_header_block_has_a_line_for_each_header(
    entries: Seq<(Seq<char>, Seq<u8>)>,
    name: Seq<char>,
    value: Seq<u8>,
)
    ensures
        header_block(Seq::empty()).len() == 0,
        header_block(entries.push((name, value))) == header_block(entries) + name + ": "@
            + text::text_of(value) + "\n"@,
    decreases entries.len(),
{
    reveal_strlit(": ");
    reveal_strlit("\n");
    let longer = entries.push((name, value));
    let line = header_line((name, value));
    assert(": "@ =~= seq![':', ' ']);
    assert("\n"@ =~= seq!['\n']);
    if entries.len() == 0 {
        reveal_with_fuel(header_block, 2);
        assert(longer.drop_first().len() == 0);
        assert(longer[0] == (name, value));
        assert(header_block(longer) =~= header_block(entries) + name + ": "@ + text::text_of(
            value,
        ) + "\n"@);
    } else {
        law_a_header_block_has_a_line_for_each_header(entries.drop_first(), name, value);
        assert(longer.drop_first() =~= entries.drop_first().push((name, value)));
        assert(longer[0] == entries[0]);
        assert(header_block(longer) =~= header_block(entries) + name + ": "@ + text::text_of(
            value,
        ) + "\n"@);
    }
}

/// A message is enveloped where it has headers, where its payload begins like an envelope, and where
/// it has to be a line and its payload is none. An envelope is laid out as other programs read it:
/// `rs1:` and base64 of the length of the header
/// block in four bytes, most significant first, the block, and the payload.
pub proof fn law_an_envelope_is_laid_out_for_others(
    entries: Seq<(Seq<char>, Seq<u8>)>,
    payload: Seq<u8>,
    force_text: bool,
)
    requires
        entries.len() > 0 || (payload.len() >= 4 && payload[0] == 0x72 && payload[1] == 0x73
            && payload[2] == 0x31 && payload[3] == 0x3a) || (force_text && (!valid_utf8(payload)
            || (exists|i: int|
            0 <= i < decode_utf8(payload).len() && (#[trigger] decode_utf8(payload)[i]) == '\n')
            || (decode_utf8(payload).len() > 0 && (text::is_white_space(decode_utf8(payload)[0])
            || text::is_white_space(decode_utf8(payload).last()))))),
        encode_utf8(header_block(entries)).len() <= u32::MAX,
    ensures
        ({
            let data = written(entries, payload, force_text);
            let block = encode_utf8(header_block(entries));
            exists|frame: Seq<u8>|
                data == encode_utf8("rs1:"@ + #[trigger] encoding::base64_text(frame))
                    && frame.len() == 4 + block.len() + payload.len() && frame[0] * 0x100_0000
                    + frame[1] * 0x1_0000 + frame[2] * 0x100 + frame[3] == block.len()
                    && frame.subrange(4, 4 + block.len() as int) == block && frame.skip(
                    4 + block.len() as int,
                ) == payload
        }),
{
    reveal_strlit("rs1:");
    assert("rs1:"@ =~= prefix());
    let block = encode_utf8(header_block(entries));
    let framed = frame(entries, payload);
    if payload.len() >= 4 && payload[0] == 0x72 && payload[1] == 0x73 && payload[2] == 0x31
        && payload[3] == 0x3a {
        assert(payload.take(4) =~= seq![0x72u8, 0x73u8, 0x31u8, 0x3au8]);
    }
    if exists|i: int|
        0 <= i < decode_utf8(payload).len() && (#[trigger] decode_utf8(payload)[i]) == '\n' {
        assert(decode_utf8(payload).contains('\n'));
    }
    lemma_length_is_read_back(block.len());
    assert(framed.take(4) =~= length_bytes(block.len()));
    assert(framed[0] == framed.take(4)[0] && framed[1] == framed.take(4)[1] && framed[2]
        == framed.take(4)[2] && framed[3] == framed.take(4)[3]);
    assert(framed.subrange(4, 4 + block.len() as int) =~= block);
    assert(framed.skip(4 + block.len() as int) =~= payload);
    assert(written(entries, payload, force_text) == encode_utf8(
        "rs1:"@ + encoding::base64_text(framed),
    ));
}

/// An envelope another program wrote is read by the same layout: the headers are the lines of its
/// block and the payload is what follows it.
pub proof fn law_an_envelope_is_read_by_its_layout(
    frame: Seq<u8>,
    block: Seq<char>,
    payload: Seq<u8>,
)
    requires
        frame.len() == 4 + encode_utf8(block).len() + payload.len(),
        frame[0] * 0x100_0000 + frame[1] * 0x1_0000 + frame[2] * 0x100 + frame[3] == encode_utf8(
            block,
        ).len(),
        frame.subrange(4, 4 + encode_utf8(block).len() as int) == encode_utf8(block),
        frame.skip(4 + encode_utf8(block).len() as int) == payload,
    ensures
        opened(encode_utf8("rs1:"@ + encoding::base64_text(frame))) == (
            read_lines(Seq::empty(), block),
            payload,
        ),
{
    reveal_strlit("rs1:");
    assert("rs1:"@ =~= prefix());
    let out = prefix() + encoding::base64_text(frame);
    encoding::law_base64_is_read_back(frame);
    encode_utf8_valid_utf8(out);
    encode_utf8_decode_utf8(out);
    assert(out.take(4) =~= prefix());
    assert(out.skip(4) =~= encoding::base64_text(frame));
    text::law_utf8_is_read_as_its_text(block);
}

/// A header block is read line by line, each line into what the lines before it gave; the last may
/// go without the end of its line.
pub proof fn law_a_block_is_read_line_by_line(
    entries: Seq<(Seq<char>, Seq<u8>)>,
    line: Seq<char>,
    rest: Seq<char>,
)
    requires
        forall|i: int| 0 <= i < line.len() ==> (#[trigger] line[i]) != '\n',
    ensures
        read_lines(entries, Seq::empty()) == entries,
        line.len() > 0 ==> read_lines(entries, line) == read_line(entries, line),
        read_lines(entries, line + "\n"@ + rest) == read_lines(read_line(entries, line), rest),
{
    reveal_strlit("\n");
    let block = line + "\n"@ + rest;
    assert("\n"@ =~= seq!['\n']);
    assert forall|i: int| 0 <= i < line.len() implies (#[trigger] block[i]) != '\n' by {
        assert(block[i] == line[i]);
    }
    assert(block[line.len() as int] == '\n');
    text::lemma_place_of(block, '\n', line.len() as int);
    text::lemma_place_of(line, '\n', line.len() as int);
    assert(block.take(line.len() as int) =~= line);
    assert(block.skip(line.len() + 1int) =~= rest);
}

/// A line names its value before its first colon, in lower case; white space around either goes. A
/// line without a colon says nothing.
pub proof fn law_a_line_names_its_value_before_the_colon(
    entries: Seq<(Seq<char>, Seq<u8>)>,
    name: Seq<char>,
    value: Seq<char>,
)
    requires
        forall|i: int| 0 <= i < name.len() ==> (#[trigger] name[i]) != ':',
    ensures
        read_line(entries, name + ":"@ + value) == headers::put(
            entries,
            headers::lower(text::trimmed(name)),
            encode_utf8(text::trimmed(value)),
        ),
        read_line(entries, name) == entries,
{
    reveal_strlit(":");
    assert(":"@ =~= seq![':']);
    let line = name + ":"@ + value;
    assert forall|i: int| 0 <= i < name.len() implies (#[trigger] line[i]) != ':' by {
        assert(line[i] == name[i]);
    }
    assert(line[name.len() as int] == ':');
    text::lemma_place_of(line, ':', name.len() as int);
    text::lemma_place_of(name, ':', name.len() as int);
    assert(line.take(name.len() as int) =~= name);
    assert(line.skip(name.len() + 1int) =~= value);
}

/// What is no envelope is a payload without headers, byte for byte: bytes that are no text, text
/// that does not begin with `rs1:`, what is not base64 behind it, and a frame that ends before its
/// header block does.
pub proof fn law_what_is_no_envelope_is_a_payload(data: Seq<u8>)
    requires
        !valid_utf8(data) || decode_utf8(data).len() < 4 || decode_utf8(data).take(4) != "rs1:"@
            || (forall|frame: Seq<u8>|
            #[trigger] encoding::base64_text(frame) != decode_utf8(data).skip(4)) || (exists|
            frame: Seq<u8>,
        |
            #[trigger] encoding::base64_text(frame) == decode_utf8(data).skip(4) && (frame.len()
                < 4 || frame.len() - 4 < frame[0] * 0x100_0000 + frame[1] * 0x1_0000 + frame[2]
                * 0x100 + frame[3])),
    ensures
        opened(data).0.len() == 0,
        opened(data).1 == data,
{
    reveal_strlit("rs1:");
    assert("rs1:"@ =~= prefix());
    if let Some(framed) = frame_in(data) {
        let rest = decode_utf8(data).skip(4);
        let short = choose|frame: Seq<u8>|
            #[trigger] encoding::base64_text(frame) == rest && (frame.len() < 4 || frame.len() - 4
                < frame[0] * 0x100_0000 + frame[1] * 0x1_0000 + frame[2] * 0x100 + frame[3]);
        encoding::law_base64_is_read_back(short);
    }
}

/// Whatever is encoded is decoded again: the payload as it was, and the headers as they were where
/// an envelope carries them whole.
pub proof fn law_decoding_undoes_encoding(
    headers: &HeaderMap,
    payload: &[u8],
    force_text: bool,
    data: Vec<u8>,
    read: &[u8],
    message: (HeaderMap, Vec<u8>),
)
    requires
        call_ensures(encode, (headers, payload, force_text), data),
        call_ensures(decode, (read,), message),
        read@ == data@,
        encode_utf8(header_block(headers::header_entries(*headers))).len() <= u32::MAX,
        headers::well_named(headers::header_entries(*headers)),
        forall|i: int|
            0 <= i < headers::header_entries(*headers).len() ==> is_carried_whole(
                (#[trigger] headers::header_entries(*headers)[i]).0,
                headers::header_entries(*headers)[i].1,
            ),
    ensures
        message.1@ == payload@,
        headers::header_entries(message.0) == headers::header_entries(*headers),
        force_text ==> valid_utf8(data@) && !decode_utf8(data@).contains('\n'),
{
    law_a_message_comes_back_as_it_was_sent(
        headers::header_entries(*headers),
        payload@,
        force_text,
    );
    if force_text {
        law_a_line_is_text_without_a_newline(
            headers::header_entries(*headers),
            payload@,
            force_text,
        );
    }
}

/// A header block too long for its length field is announced as empty, and stands in front of the
/// payload all the same.
pub proof fn law_a_block_too_long_is_announced_as_empty(
    entries: Seq<(Seq<char>, Seq<u8>)>,
    payload: Seq<u8>,
)
    requires
        encode_utf8(header_block(entries)).len() > 0xffff_ffff,
    ensures
        frame(entries, payload) == seq![0u8, 0u8, 0u8, 0u8] + encode_utf8(header_block(entries))
            + payload,
{
    assert(length_bytes(0) =~= seq![0u8, 0u8, 0u8, 0u8]);
}

} // verus!
