//! The wire format: opcodes, frame lengths, big-endian fields and greetings.

use crate::interpolation::{interpolation_of, Interpolation};
use crate::track::Key;
use byteorder::{BigEndian, ByteOrder};
use vstd::prelude::*;
use vstd::utf8::encode_utf8;

verus! {

pub const SET_KEY: u8 = 0;

pub const DELETE_KEY: u8 = 1;

pub const GET_TRACK: u8 = 2;

pub const SET_ROW: u8 = 3;

pub const PAUSE: u8 = 4;

pub const SAVE_TRACKS: u8 = 5;

/// What the client sends first.
pub const CLIENT_GREETING: [u8; 19] = [
    104, 101, 108, 108, 111, 44, 32, 115, 121, 110, 99, 116, 114, 97, 99, 107, 101, 114, 33,
];

/// What a tracker answers.
pub const SERVER_GREETING: [u8; 12] = [104, 101, 108, 108, 111, 44, 32, 100, 101, 109, 111, 33];

/// The number that four bytes spell, most significant byte first.
pub open spec fn be_u32(bytes: Seq<u8>) -> u32
    recommends
        bytes.len() == 4,
{
    (bytes[0] as int * 0x100_0000 + bytes[1] as int * 0x1_0000 + bytes[2] as int * 0x100
        + bytes[3] as int) as u32
}

/// The four bytes that spell a number, most significant byte first.
pub open spec fn be_bytes(n: u32) -> Seq<u8> {
    seq![
        (n / 0x100_0000) as u8,
        (n / 0x1_0000 % 0x100) as u8,
        (n / 0x100 % 0x100) as u8,
        (n % 0x100) as u8,
    ]
}

/// Four bytes spell the number that spells them.
pub proof fn lemma_be_roundtrip(n: u32)
    ensures
        be_bytes(n).len() == 4,
        be_u32(be_bytes(n)) == n,
{
}

/// A number spells the four bytes that spell it.
pub proof fn lemma_be_bytes_of(bytes: Seq<u8>)
    requires
        bytes.len() == 4,
    ensures
        be_bytes(be_u32(bytes)) == bytes,
{
    let b0 = bytes[0] as int;
    let b1 = bytes[1] as int;
    let b2 = bytes[2] as int;
    let b3 = bytes[3] as int;
    let n = b0 * 0x100_0000 + b1 * 0x1_0000 + b2 * 0x100 + b3;
    assert(be_u32(bytes) == n);
    assert(n / 0x100_0000 == b0);
    assert(n / 0x1_0000 == b0 * 0x100 + b1);
    assert(n / 0x100 == b0 * 0x1_0000 + b1 * 0x100 + b2);
    assert(be_bytes(be_u32(bytes)) =~= bytes);
}

/// `byteorder::BigEndian::read_u32`: the number that the first four bytes of
/// `buf` spell in big-endian order. It panics on fewer than four bytes, which
/// the precondition rules out.
#[verifier::external_body]
fn read_u32(buf: &[u8]) -> (n: u32)
    requires
        buf@.len() >= 4,
    ensures
        n == be_u32(buf@.subrange(0, 4)),
{
    BigEndian::read_u32(buf)
}

/// `byteorder::BigEndian::write_u32` on a buffer of four bytes: the bytes
/// that spell `n` in big-endian order.
#[verifier::external_body]
fn write_u32(n: u32) -> (bytes: [u8; 4])
    ensures
        bytes@ == be_bytes(n),
{
    let mut bytes: [u8; 4] = [0; 4];
    BigEndian::write_u32(&mut bytes, n);
    bytes
}

/// The number of bytes that follow an opcode received from the tracker.
/// An opcode that names no command of the tracker has no body.
pub open spec fn payload_len(opcode: u8) -> nat {
    if opcode == SET_KEY {
        13
    } else if opcode == DELETE_KEY {
        8
    } else if opcode == SET_ROW {
        4
    } else if opcode == PAUSE {
        1
    } else {
        0
    }
}

/// The bytes form one whole frame: an opcode and the body that goes with it.
pub open spec fn is_frame(frame: Seq<u8>) -> bool {
    frame.len() >= 1 && frame.len() == 1 + payload_len(frame[0])
}

/// The number of bytes that follow an opcode received from the tracker.
pub fn body_len(opcode: u8) -> (len: usize)
    ensures
        len == payload_len(opcode),
{
    match opcode {
        SET_KEY => 13,
        DELETE_KEY => 8,
        SET_ROW => 4,
        PAUSE => 1,
        _ => 0,
    }
}

/// The field of four bytes that starts at `at`.
pub open spec fn field_u32(frame: Seq<u8>, at: int) -> u32 {
    be_u32(frame.subrange(at, at + 4))
}

/// Read the big-endian field of four bytes that starts at `at`.
pub fn get_u32(frame: &[u8], at: usize) -> (n: u32)
    requires
        at + 4 <= frame@.len(),
    ensures
        n == field_u32(frame@, at as int),
{
    let rest = vstd::slice::slice_subrange(frame, at, frame.len());
    assert(rest@.subrange(0, 4) =~= frame@.subrange(at as int, at + 4));
    read_u32(rest)
}

/// The SET_ROW message for a row: the opcode and the row, big-endian.
pub open spec fn set_row_message(row: u32) -> Seq<u8> {
    seq![SET_ROW] + be_bytes(row)
}

/// The GET_TRACK message for a name: the opcode, the number of bytes of the
/// name, big-endian, and the bytes of the name.
pub open spec fn get_track_message(name: Seq<u8>) -> Seq<u8> {
    seq![GET_TRACK] + be_bytes(name.len() as u32) + name
}

/// Encode a SET_ROW message.
pub fn encode_set_row(row: u32) -> (message: Vec<u8>)
    ensures
        message@ == set_row_message(row),
{
    let field = write_u32(row);
    let mut message: Vec<u8> = Vec::new();
    message.push(SET_ROW);
    message.push(field[0]);
    message.push(field[1]);
    message.push(field[2]);
    message.push(field[3]);
    assert(message@ =~= set_row_message(row));
    message
}


/// Encode a GET_TRACK message for a track name.
///
/// The length of the name in bytes has to fit the four bytes of its field.
pub fn encode_get_track(name: &str) -> (message: Vec<u8>)
    requires
        encode_utf8(name@).len() <= u32::MAX,
    ensures
        message@ == get_track_message(encode_utf8(name@)),
{
    let bytes = name.as_bytes();
    let field = write_u32(bytes.len() as u32);
    let mut message: Vec<u8> = Vec::new();
    message.push(GET_TRACK);
    message.push(field[0]);
    message.push(field[1]);
    message.push(field[2]);
    message.push(field[3]);
    message.extend_from_slice(bytes);
    assert(message@ =~= get_track_message(encode_utf8(name@)));
    message
}

/// One command of the tracker.
#[derive(Debug, Clone, Copy, PartialEq, Eq, Structural)]
pub enum Command {
    /// Write `key` into the track with this index.
    SetKey { track: u32, key: Key },
    /// Take the key at `row` out of the track with this index.
    DeleteKey { track: u32, row: u32 },
    /// The tracker moved to this row.
    SetRow(u32),
    /// The tracker paused (`true`) or resumed (`false`).
    Pause(bool),
    /// The tracker asks for the tracks to be saved.
    SaveTracks,
    /// An opcode that names no command of the tracker.
    Unknown(u8),
}

/// The command that a whole frame holds.
pub open spec fn command_of(frame: Seq<u8>) -> Command
    recommends
        is_frame(frame),
{
    if frame[0] == SET_KEY {
        Command::SetKey {
            track: field_u32(frame, 1),
            key: Key {
                row: field_u32(frame, 5),
                value: field_u32(frame, 9),
                interpolation: interpolation_of(frame[13]),
            },
        }
    } else if frame[0] == DELETE_KEY {
        Command::DeleteKey { track: field_u32(frame, 1), row: field_u32(frame, 5) }
    } else if frame[0] == SET_ROW {
        Command::SetRow(field_u32(frame, 1))
    } else if frame[0] == PAUSE {
        Command::Pause(frame[1] == 1)
    } else if frame[0] == SAVE_TRACKS {
        Command::SaveTracks
    } else {
        Command::Unknown(frame[0])
    }
}

/// Decode one frame. Bytes that are not exactly one frame decode to nothing.
pub fn decode(frame: &[u8]) -> (command: Option<Command>)
    ensures
        is_frame(frame@) ==> command == Some(command_of(frame@)),
        !is_frame(frame@) ==> command is None,
{
    if frame.len() == 0 {
        return None;
    }
    let opcode = frame[0];
    if frame.len() - 1 != body_len(opcode) {
        return None;
    }
    let command = match opcode {
        SET_KEY => {
            let track = get_u32(frame, 1);
            let row = get_u32(frame, 5);
            let value = get_u32(frame, 9);
            let interpolation = Interpolation::from(frame[13]);
            Command::SetKey { track, key: Key::new(row, value, interpolation) }
        },
        DELETE_KEY => {
            let track = get_u32(frame, 1);
            let row = get_u32(frame, 5);
            Command::DeleteKey { track, row }
        },
        SET_ROW => Command::SetRow(get_u32(frame, 1)),
        PAUSE => Command::Pause(frame[1] == 1),
        SAVE_TRACKS => Command::SaveTracks,
        _ => Command::Unknown(opcode),
    };
    Some(command)
}

/// A SET_ROW message is one frame, and it decodes to the row it was made for.
pub proof fn lemma_set_row_decodes(row: u32)
    ensures
        is_frame(set_row_message(row)),
        command_of(set_row_message(row)) == Command::SetRow(row),
{
    let message = set_row_message(row);
    lemma_be_roundtrip(row);
    assert(message.subrange(1, 5) =~= be_bytes(row));
}

/// Whether a reply to the greeting is the one that a tracker gives.
pub fn is_server_greeting(reply: &[u8; 12]) -> (same: bool)
    ensures
        same == (reply@ == SERVER_GREETING@),
{
    let mut i: usize = 0;
    while i < 12
        invariant
            i <= 12,
            forall|j: int| 0 <= j < i ==> reply@[j] == SERVER_GREETING@[j],
        decreases 12 - i,
    {
        if reply[i] != SERVER_GREETING[i] {
            return false;
        }
        i += 1;
    }
    assert(reply@ =~= SERVER_GREETING@);
    true
}

} // verus!
