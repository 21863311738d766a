//! The wire protocol between two ends: framing of requests, parsing of
//! incoming data, and the one-byte responses.
//!
//! A request is the protocol's name, a zero byte, the payload, and a closing
//! byte 255. A lone byte 22 asks whether the other end is there; it answers
//! with byte 6. Requests are answered with byte 0 (or, for a public key, with
//! the mixed key and a closing 255).
pub mod vector;

use vstd::prelude::*;
use self::vector::{same_text, bytes_from_string, bytes_to_string, byte_chars, low_bytes,
    erase_until_terminator, truncate_until_terminator};
use crate::kem::{encrypt, spec_encrypt, block_fits};

verus! {

/// The maximum content length for transfers; data beyond it is lost.
pub const MAX_CONTENT_LENGTH: usize = 2048;

/// The byte that asks the other end whether it is there.
pub const PING: u8 = 22;

/// The answer to `PING`.
pub const ACK: u8 = 6;

/// The answer to a request that went through.
pub const NULL: u8 = 0;

/// The answer to a request of an unknown kind.
pub const REFUSED: u8 = 1;

/// The byte that closes a request.
pub const TERMINATOR: u8 = 255;

/// The kinds of request.
#[derive(PartialEq, Eq, Structural, Clone, Copy, Debug)]
pub enum Protocol {
    PublicKey,
    CombineKey,
    Message,
    Resend,
    Unknown,
}

/// The protocol a name stands for.
pub open spec fn protocol_of(name: Seq<char>) -> Protocol {
    if name == "PUBLICKEY"@ {
        Protocol::PublicKey
    } else if name == "COMBINEKEY"@ {
        Protocol::CombineKey
    } else if name == "MESSAGE"@ {
        Protocol::Message
    } else if name == "RESEND"@ {
        Protocol::Resend
    } else {
        Protocol::Unknown
    }
}

/// The name of a protocol, as bytes on the wire.
pub open spec fn protocol_name(p: Protocol) -> Seq<u8> {
    match p {
        Protocol::PublicKey => seq![80u8, 85, 66, 76, 73, 67, 75, 69, 89],
        Protocol::CombineKey => seq![67u8, 79, 77, 66, 73, 78, 69, 75, 69, 89],
        Protocol::Message => seq![77u8, 69, 83, 83, 65, 71, 69],
        Protocol::Resend => seq![82u8, 69, 83, 69, 78, 68],
        Protocol::Unknown => seq![],
    }
}

impl From<String> for Protocol {
    fn from(value: String) -> (p: Self) {
        let value = value.as_str();
        if same_text(value, "PUBLICKEY") {
            Protocol::PublicKey
        } else if same_text(value, "COMBINEKEY") {
            Protocol::CombineKey
        } else if same_text(value, "MESSAGE") {
            Protocol::Message
        } else if same_text(value, "RESEND") {
            Protocol::Resend
        } else {
            Protocol::Unknown
        }
    }
}

impl vstd::std_specs::convert::FromSpecImpl<String> for Protocol {
    open spec fn obeys_from_spec() -> bool {
        true
    }

    open spec fn from_spec(value: String) -> Protocol {
        protocol_of(value@)
    }
}

/// A request framed for the wire: name, zero byte, payload, closing 255.
pub open spec fn frame(name: Seq<u8>, payload: Seq<u8>) -> Seq<u8> {
    name + seq![0u8] + payload + seq![255u8]
}

/// The name of `protocol` as bytes.
fn name_bytes(protocol: Protocol) -> (name: Vec<u8>)
    requires
        protocol != Protocol::Unknown,
    ensures
        name@ == protocol_name(protocol),
{
    let name = match protocol {
        Protocol::PublicKey => bytes_from_string("PUBLICKEY"),
        Protocol::CombineKey => bytes_from_string("COMBINEKEY"),
        Protocol::Message => bytes_from_string("MESSAGE"),
        _ => bytes_from_string("RESEND"),
    };
    proof {
        reveal_strlit("PUBLICKEY");
        reveal_strlit("COMBINEKEY");
        reveal_strlit("MESSAGE");
        reveal_strlit("RESEND");
        assert(name@ =~= protocol_name(protocol));
    }
    name
}

/// Frames `payload` as a request of kind `protocol`.
pub fn request_frame(protocol: Protocol, payload: &Vec<u8>) -> (bytes: Vec<u8>)
    requires
        protocol != Protocol::Unknown,
    ensures
        bytes@ == frame(protocol_name(protocol), payload@),
{
    let mut bytes = name_bytes(protocol);
    bytes.push(0u8);
    let mut i: usize = 0;
    let ghost start = bytes@;
    while i < payload.len()
        invariant
            i <= payload.len(),
            bytes@ == start + payload@.take(i as int),
        decreases payload.len() - i,
    {
        bytes.push(payload[i]);
        assert(payload@.take(i as int + 1) =~= payload@.take(i as int).push(payload@[i as int]));
        i = i + 1;
    }
    assert(payload@.take(payload.len() as int) =~= payload@);
    bytes.push(TERMINATOR);
    assert(bytes@ =~= frame(protocol_name(protocol), payload@));
    bytes
}

/// The frame that carries `message` encrypted with `key`.
pub fn message_frame(message: &str, key: Vec<u8>) -> (bytes: Vec<u8>)
    requires
        message@.len() > 0 ==> key.len() > 0,
        block_fits(message@.len()),
    ensures
        bytes@ == frame(protocol_name(Protocol::Message), spec_encrypt(low_bytes(message@), key@)),
{
    let plain = bytes_from_string(message);
    let encrypted = encrypt(plain, key);
    request_frame(Protocol::Message, &encrypted)
}

/// The request that asks the other end to send its last message again:
/// the name, a zero byte, a payload of one zero byte, and the closing byte.
pub fn resend_frame() -> (bytes: Vec<u8>)
    ensures
        bytes@ == frame(protocol_name(Protocol::Resend), seq![NULL]),
{
    let mut payload: Vec<u8> = Vec::new();
    payload.push(NULL);
    assert(payload@ =~= seq![NULL]);
    request_frame(Protocol::Resend, &payload)
}

/// Index of the last `t` in `s`, or -1 where `s` holds none.
pub open spec fn last_index(s: Seq<u8>, t: u8) -> int
    decreases s.len(),
{
    if s.len() == 0 {
        -1
    } else if s.last() == t {
        s.len() - 1
    } else {
        last_index(s.drop_last(), t)
    }
}

/// Index of the first `t` in `s`, or the length of `s` where it holds none.
pub open spec fn first_index(s: Seq<u8>, t: u8) -> int
    decreases s.len(),
{
    if s.len() == 0 {
        0
    } else if s[0] == t {
        0
    } else {
        1 + first_index(s.drop_first(), t)
    }
}

/// What stands in front of the last closing byte of `data`.
pub open spec fn frame_body(data: Seq<u8>) -> Seq<u8> {
    data.take(last_index(data, 255))
}

/// The length of the name in `body`: up to its first zero byte, looking no
/// further than the byte before the last.
pub open spec fn name_len(body: Seq<u8>) -> int {
    first_index(body.drop_last(), 0)
}

/// The protocol and payload that a receiver reads from `data`.
pub open spec fn spec_request(data: Seq<u8>) -> (Protocol, Seq<u8>) {
    let body = frame_body(data);
    let h = name_len(body);
    (
        protocol_of(byte_chars(body.take(h))),
        if h < body.len() - 1 {
            body.skip(h + 1)
        } else {
            body.skip(h)
        },
    )
}

/// Data that the receiving end can read without failing: it is a ping, or
/// it holds a closing byte after its first byte.
pub open spec fn readable(data: Seq<u8>) -> bool {
    &&& data.len() > 0
    &&& (data[0] == PING || exists|j: int| 0 < j < data.len() && data[j] == 255)
}

/// What arrived on a connection.
pub enum Incoming {
    /// The other end asks whether this end is there.
    Ping,
    /// A request and its payload.
    Request(Protocol, Vec<u8>),
}

proof fn lemma_last_index(s: Seq<u8>, t: u8)
    ensures
        -1 <= last_index(s, t) < s.len(),
        last_index(s, t) >= 0 ==> s[last_index(s, t)] == t,
        forall|k: int| last_index(s, t) < k < s.len() ==> s[k] != t,
        s.contains(t) ==> last_index(s, t) >= 0,
    decreases s.len(),
{
    if s.len() > 0 && s.last() != t {
        lemma_last_index(s.drop_last(), t);
        assert forall|k: int| last_index(s, t) < k < s.len() implies s[k] != t by {
            if k < s.len() - 1 {
                assert(s[k] == s.drop_last()[k]);
            }
        }
        if s.contains(t) {
            let j = choose|j: int| 0 <= j < s.len() && s[j] == t;
            assert(s.drop_last()[j] == t);
        }
    }
}

proof fn lemma_first_index(s: Seq<u8>, t: u8)
    ensures
        0 <= first_index(s, t) <= s.len(),
        first_index(s, t) < s.len() ==> s[first_index(s, t)] == t,
        forall|k: int| 0 <= k < first_index(s, t) ==> s[k] != t,
    decreases s.len(),
{
    if s.len() > 0 && s[0] != t {
        lemma_first_index(s.drop_first(), t);
        assert forall|k: int| 0 <= k < first_index(s, t) implies s[k] != t by {
            if k > 0 {
                assert(s[k] == s.drop_first()[k - 1]);
            }
        }
    }
}

/// Whether the receiving end can read `data` without failing.
pub fn is_readable(data: &Vec<u8>) -> (r: bool)
    ensures
        r == readable(data@),
{
    if data.len() == 0 {
        return false;
    }
    if data[0] == PING {
        return true;
    }
    let mut j: usize = data.len();
    while j > 1
        invariant
            j <= data.len(),
            forall|k: int| j <= k < data.len() ==> data@[k] != 255,
        decreases j,
    {
        j = j - 1;
        if data[j] == 255 {
            return true;
        }
    }
    false
}

/// Reads what arrived on a connection: a ping, or a request whose name and
/// payload stand in front of the last closing byte.
pub fn parse_incoming(data: Vec<u8>) -> (r: Incoming)
    requires
        readable(data@),
    ensures
        r is Ping <==> data@[0] == PING,
        r matches Incoming::Request(p, payload) ==> (p, payload@) == spec_request(data@),
{
    if data[0] == PING {
        return Incoming::Ping;
    }
    let ghost d = data@;
    let mut data = data;
    let _ = truncate_until_terminator(&mut data, TERMINATOR);
    proof {
        lemma_last_index(d, 255);
        let j = data.len() as int;
        if j < last_index(d, 255) {
            assert(d[last_index(d, 255)] == 255);
        }
        assert(data@ =~= frame_body(d));
    }
    let ghost body = data@;
    let name = erase_until_terminator(&mut data, 0u8);
    proof {
        lemma_first_index(body.drop_last(), 0);
        let h = name_len(body);
        let e = name.len() as int;
        if e < h {
            assert(body.drop_last()[e] == 0);
        } else if h < e {
            assert(body[h] == 0);
        }
    }
    let name = bytes_to_string(name);
    Incoming::Request(Protocol::from(name), data)
}

/// The key in a reply to a public key: what stands in front of the last
/// closing byte. `None` where the reply holds no closing byte.
pub fn received_key(buffer: Vec<u8>) -> (key: Option<Vec<u8>>)
    ensures
        key is None <==> !buffer@.contains(255),
        key matches Some(k) ==> k@ == frame_body(buffer@),
{
    let ghost d = buffer@;
    let mut i: usize = 0;
    while i < buffer.len()
        invariant
            i <= buffer.len(),
            forall|k: int| 0 <= k < i ==> buffer@[k] != 255,
        ensures
            i <= buffer.len(),
            forall|k: int| 0 <= k < i ==> buffer@[k] != 255,
            i < buffer.len() ==> buffer@[i as int] == 255,
        decreases buffer.len() - i,
    {
        if buffer[i] == TERMINATOR {
            break;
        }
        i = i + 1;
    }
    if i == buffer.len() {
        return None;
    }
    assert(buffer@[i as int] == 255);
    let mut buffer = buffer;
    let _ = truncate_until_terminator(&mut buffer, TERMINATOR);
    proof {
        lemma_last_index(d, 255);
        let j = buffer.len() as int;
        if j < last_index(d, 255) {
            assert(d[last_index(d, 255)] == 255);
        }
        assert(buffer@ =~= frame_body(d));
    }
    Some(buffer)
}

/// The name of each protocol reads back as that protocol, holds no zero
/// byte, and does not start with `PING`.
pub proof fn lemma_protocol_name(p: Protocol)
    requires
        p != Protocol::Unknown,
    ensures
        protocol_name(p).len() > 0,
        protocol_name(p)[0] != PING,
        forall|k: int| 0 <= k < protocol_name(p).len() ==> protocol_name(p)[k] != 0,
        protocol_of(byte_chars(protocol_name(p))) == p,
{
    reveal_strlit("PUBLICKEY");
    reveal_strlit("COMBINEKEY");
    reveal_strlit("MESSAGE");
    reveal_strlit("RESEND");
    let n = protocol_name(p);
    assert(byte_chars(protocol_name(Protocol::Resend)) =~= "RESEND"@);
    assert("PUBLICKEY"@ != "RESEND"@);
    assert("COMBINEKEY"@ != "RESEND"@);
    assert("MESSAGE"@ != "RESEND"@);
    assert(byte_chars(protocol_name(Protocol::PublicKey)) =~= "PUBLICKEY"@);
    assert(byte_chars(protocol_name(Protocol::CombineKey)) =~= "COMBINEKEY"@);
    assert(byte_chars(protocol_name(Protocol::Message)) =~= "MESSAGE"@);
    assert("PUBLICKEY"@ != "COMBINEKEY"@);
    assert("PUBLICKEY"@ != "MESSAGE"@);
    assert("COMBINEKEY"@ != "MESSAGE"@);
}

/// What one end frames with `request_frame` the other end reads back: a
/// request of the same kind with the same payload, whatever follows the
/// frame as long as it holds no closing byte (such as the zeros of an
/// unfilled receive buffer).
pub proof fn lemma_request_roundtrip(p: Protocol, payload: Seq<u8>, tail: Seq<u8>)
    requires
        p != Protocol::Unknown,
        payload.len() > 0,
        !tail.contains(255),
    ensures
        readable(frame(protocol_name(p), payload) + tail),
        (frame(protocol_name(p), payload) + tail)[0] != PING,
        spec_request(frame(protocol_name(p), payload) + tail) == (p, payload),
{
    let name = protocol_name(p);
    lemma_protocol_name(p);
    let data = frame(name, payload) + tail;
    let end = name.len() + 1 + payload.len() as int;
    assert(data[end] == 255);
    lemma_last_index(data, 255);
    let li = last_index(data, 255);
    if li > end {
        assert(tail[li - end - 1] == 255);
        assert(tail.contains(255));
    }
    assert(li == end);
    let body = frame_body(data);
    assert(body =~= name + seq![0u8] + payload);
    let search = body.drop_last();
    lemma_first_index(search, 0);
    let h = first_index(search, 0);
    assert(search[name.len() as int] == 0);
    if h < name.len() {
        assert(search[h] == name[h]);
    }
    assert(h == name.len());
    assert(body.take(h) =~= name);
    assert(body.skip(h + 1) =~= payload);
}

/// A reply closed by a 255 and followed by anything free of 255 (such as
/// the zeros of an unfilled receive buffer) gives back what stood before
/// the 255.
pub proof fn lemma_reply_body(reply: Seq<u8>, tail: Seq<u8>)
    requires
        !tail.contains(255),
    ensures
        (reply.push(255u8) + tail).contains(255),
        frame_body(reply.push(255u8) + tail) == reply,
{
    let data = reply.push(255u8) + tail;
    let end = reply.len() as int;
    assert(data[end] == 255);
    lemma_last_index(data, 255);
    let li = last_index(data, 255);
    if li > end {
        assert(tail[li - end - 1] == 255);
        assert(tail.contains(255));
    }
    assert(frame_body(data) =~= reply);
}

/// Why an answer was not the one expected.
#[derive(PartialEq, Eq, Structural, Clone, Copy, Debug)]
pub enum ResponseError {
    /// The receiving end responded with something other than `NULL`.
    InvalidData,
    /// The receiving end did not acknowledge a ping.
    NotAcknowledged,
}

/// Checks the answer to a request: `NULL` is expected.
pub fn null_response(response: [u8; 1]) -> (r: Result<(), ResponseError>)
    ensures
        r is Ok <==> response@[0] == NULL,
        r is Err ==> r == Err::<(), ResponseError>(ResponseError::InvalidData),
{
    if response[0] == NULL {
        Ok(())
    } else {
        Err(ResponseError::InvalidData)
    }
}

/// Checks the answer to a ping: `ACK` is expected.
pub fn ack_response(response: [u8; 1]) -> (r: Result<(), ResponseError>)
    ensures
        r is Ok <==> response@[0] == ACK,
        r is Err ==> r == Err::<(), ResponseError>(ResponseError::NotAcknowledged),
{
    if response[0] == ACK {
        Ok(())
    } else {
        Err(ResponseError::NotAcknowledged)
    }
}

} // verus!
