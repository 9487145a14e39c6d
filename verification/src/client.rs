//! The client side of a connection to a tracker, without the socket.
//!
//! A [`RocketClient`] holds the tracks that were asked for and the bytes of
//! the frame that is still arriving. The caller reads from the connection and
//! hands the bytes to [`RocketClient::poll_events`]; it sends what
//! [`RocketClient::track_request`] and [`RocketClient::set_row`] hand back.

use crate::track::{
    lemma_with_key, lemma_without_row, with_key, without_row, Track, TrackView,
};
use crate::tracks::{all_ordered, has_track, names_unique, position_of, Tracks};
use crate::wire::{
    body_len, command_of, decode, encode_get_track, encode_set_row, get_track_message, is_frame,
    is_server_greeting, payload_len, set_row_message, Command, SERVER_GREETING,
};
use vstd::prelude::*;
use vstd::utf8::encode_utf8;

verus! {

/// `std::io::Error`, carried through as it is.
#[verifier::external_type_specification]
#[verifier::external_body]
pub struct ExIoError(std::io::Error);

/// The `Error` Type. This is the main error type.
///
/// The library itself finds a wrong greeting and judges a failed read; the
/// variants that stem from opening and preparing the socket are there for the
/// caller that owns it.
#[derive(Debug)]
pub enum Error {
    /// Failure to connect to a rocket tracker. This can happen if the tracker is not running, the
    /// address isn't correct or other network-related reasons.
    Connect(std::io::Error),
    /// Failure to transmit or receive greetings with the tracker
    Handshake(std::io::Error),
    /// Handshake was performed but the the received greeting wasn't correct
    HandshakeGreetingMismatch([u8; 12]),
    /// The connection could not be set to nonblocking mode
    SetNonblocking(std::io::Error),
    /// Network IO error during operation
    IOError(std::io::Error),
}

/// The `Event` Type. These are the various events from the tracker.
#[derive(Debug, Clone, Copy, PartialEq, Eq, Structural)]
pub enum Event {
    /// The tracker changes row.
    SetRow(u32),
    /// The tracker pauses or unpauses.
    Pause(bool),
    /// The tracker asks us to save our track data.
    SaveTracks,
}

/// What a client is to its users: the bytes of the frame that is still
/// arriving, and the tracks.
pub struct ClientView {
    pub partial: Seq<u8>,
    pub tracks: Seq<TrackView>,
}

/// The tracks after a command was carried out. An edit that names a track
/// that was never asked for changes nothing, and neither does any other
/// command.
pub open spec fn apply(tracks: Seq<TrackView>, command: Command) -> Seq<TrackView> {
    match command {
        Command::SetKey { track, key } => if track < tracks.len() {
            tracks.update(
                track as int,
                TrackView {
                    name: tracks[track as int].name,
                    keys: with_key(tracks[track as int].keys, key),
                },
            )
        } else {
            tracks
        },
        Command::DeleteKey { track, row } => if track < tracks.len() {
            tracks.update(
                track as int,
                TrackView {
                    name: tracks[track as int].name,
                    keys: without_row(tracks[track as int].keys, row),
                },
            )
        } else {
            tracks
        },
        _ => tracks,
    }
}

/// The event that a command surfaces as. Edits and unknown opcodes surface
/// as none.
pub open spec fn event_of(command: Command) -> Option<Event> {
    match command {
        Command::SetRow(row) => Some(Event::SetRow(row)),
        Command::Pause(flag) => Some(Event::Pause(flag)),
        Command::SaveTracks => Some(Event::SaveTracks),
        _ => None,
    }
}

impl ClientView {
    /// The arriving bytes are the start of a frame and not yet the whole of it.
    pub open spec fn wf(self) -> bool {
        self.partial.len() == 0 || self.partial.len() <= payload_len(self.partial[0])
    }

    /// The client after one more byte has arrived. A byte that completes a
    /// frame has the command of that frame carried out.
    pub open spec fn absorb(self, byte: u8) -> ClientView {
        if is_frame(self.partial.push(byte)) {
            ClientView {
                partial: Seq::empty(),
                tracks: apply(self.tracks, command_of(self.partial.push(byte))),
            }
        } else {
            ClientView { partial: self.partial.push(byte), tracks: self.tracks }
        }
    }

    /// The events that the arrival of one more byte gives rise to: at most one.
    pub open spec fn emitted(self, byte: u8) -> Seq<Event> {
        if is_frame(self.partial.push(byte)) {
            match event_of(command_of(self.partial.push(byte))) {
                Some(event) => seq![event],
                None => Seq::empty(),
            }
        } else {
            Seq::empty()
        }
    }

    /// The client after these bytes have arrived, in this order.
    pub open spec fn feed(self, bytes: Seq<u8>) -> ClientView
        decreases bytes.len(),
    {
        if bytes.len() == 0 {
            self
        } else {
            self.absorb(bytes[0]).feed(bytes.drop_first())
        }
    }

    /// The events that the arrival of these bytes gives rise to, in order.
    pub open spec fn events(self, bytes: Seq<u8>) -> Seq<Event>
        decreases bytes.len(),
    {
        if bytes.len() == 0 {
            Seq::empty()
        } else {
            self.emitted(bytes[0]) + self.absorb(bytes[0]).events(bytes.drop_first())
        }
    }

    /// The client after these pieces of a stream have arrived, one piece
    /// after the other.
    pub open spec fn feed_pieces(self, pieces: Seq<Seq<u8>>) -> ClientView
        decreases pieces.len(),
    {
        if pieces.len() == 0 {
            self
        } else {
            self.feed(pieces[0]).feed_pieces(pieces.drop_first())
        }
    }

    /// The events that the arrival of these pieces gives rise to, in order.
    pub open spec fn events_of_pieces(self, pieces: Seq<Seq<u8>>) -> Seq<Event>
        decreases pieces.len(),
    {
        if pieces.len() == 0 {
            Seq::empty()
        } else {
            self.events(pieces[0]) + self.feed(pieces[0]).events_of_pieces(pieces.drop_first())
        }
    }
}

/// Into however many pieces a stream of bytes is cut, and wherever, feeding
/// the pieces one after the other leaves the same client and gives the same
/// events as feeding the stream in one piece.
pub proof fn lemma_feed_pieces(client: ClientView, pieces: Seq<Seq<u8>>)
    ensures
        client.feed_pieces(pieces) == client.feed(pieces.flatten()),
        client.events_of_pieces(pieces) == client.events(pieces.flatten()),
    decreases pieces.len(),
{
    if pieces.len() > 0 {
        lemma_feed_split(client, pieces[0], pieces.drop_first().flatten());
        lemma_feed_pieces(client.feed(pieces[0]), pieces.drop_first());
    }
}

/// The edits of a tracker change keys only: the tracks keep their number,
/// their order and their names, whatever bytes arrive.
pub proof fn lemma_feed_keeps_names(client: ClientView, bytes: Seq<u8>)
    ensures
        client.feed(bytes).tracks.len() == client.tracks.len(),
        forall|i: int|
            0 <= i < client.tracks.len() ==> (#[trigger] client.feed(bytes).tracks[i]).name
                == client.tracks[i].name,
    decreases bytes.len(),
{
    if bytes.len() > 0 {
        lemma_feed_keeps_names(client.absorb(bytes[0]), bytes.drop_first());
    }
}

/// Where no two tracks have the same name, none have after any bytes have
/// arrived.
pub proof fn lemma_feed_keeps_names_unique(client: ClientView, bytes: Seq<u8>)
    requires
        names_unique(client.tracks),
    ensures
        names_unique(client.feed(bytes).tracks),
{
    lemma_feed_keeps_names(client, bytes);
    let after = client.feed(bytes).tracks;
    assert forall|i: int, j: int| 0 <= i < j < after.len() implies after[i].name
        != after[j].name by {
        assert(after[i].name == client.tracks[i].name);
        assert(after[j].name == client.tracks[j].name);
    }
}

/// The edits of a tracker keep the keys of every track in strictly
/// increasing order of row, whatever bytes arrive.
pub proof fn lemma_feed_keeps_order(client: ClientView, bytes: Seq<u8>)
    requires
        all_ordered(client.tracks),
    ensures
        all_ordered(client.feed(bytes).tracks),
    decreases bytes.len(),
{
    if bytes.len() > 0 {
        let next = client.absorb(bytes[0]);
        let frame = client.partial.push(bytes[0]);
        assert(all_ordered(next.tracks)) by {
            if is_frame(frame) {
                match command_of(frame) {
                    Command::SetKey { track, key } => {
                        if track < client.tracks.len() {
                            lemma_with_key(client.tracks[track as int].keys, key);
                        }
                    },
                    Command::DeleteKey { track, row } => {
                        if track < client.tracks.len() {
                            lemma_without_row(client.tracks[track as int].keys, row);
                        }
                    },
                    _ => {},
                }
            }
        }
        lemma_feed_keeps_order(next, bytes.drop_first());
    }
}

/// However a stream of bytes is cut in two, feeding the pieces one after the
/// other leaves the same client and gives the same events as feeding the
/// stream in one piece.
pub proof fn lemma_feed_split(client: ClientView, first: Seq<u8>, second: Seq<u8>)
    ensures
        client.feed(first + second) == client.feed(first).feed(second),
        client.events(first + second) == client.events(first) + client.feed(first).events(second),
    decreases first.len(),
{
    if first.len() == 0 {
        assert(first + second =~= second);
        assert(client.events(first) + client.events(second) =~= client.events(second));
    } else {
        let whole = first + second;
        assert(whole[0] == first[0]);
        assert(whole.drop_first() =~= first.drop_first() + second);
        let next = client.absorb(first[0]);
        lemma_feed_split(next, first.drop_first(), second);
        assert(client.emitted(first[0]) + (next.events(first.drop_first()) + next.feed(
            first.drop_first(),
        ).events(second)) =~= (client.emitted(first[0]) + next.events(first.drop_first()))
            + next.feed(first.drop_first()).events(second));
    }
}

/// A client that holds the start of a frame still does so after more bytes.
pub proof fn lemma_feed_wf(client: ClientView, bytes: Seq<u8>)
    requires
        client.wf(),
    ensures
        client.feed(bytes).wf(),
    decreases bytes.len(),
{
    if bytes.len() > 0 {
        let frame = client.partial.push(bytes[0]);
        assert(frame[0] == if client.partial.len() == 0 {
            bytes[0]
        } else {
            client.partial[0]
        });
        lemma_feed_wf(client.absorb(bytes[0]), bytes.drop_first());
    }
}

/// Bytes that do not complete the arriving frame are only kept.
pub proof fn lemma_feed_incomplete(client: ClientView, bytes: Seq<u8>)
    requires
        client.wf(),
        (client.partial + bytes).len() == 0 || (client.partial + bytes).len() <= payload_len(
            (client.partial + bytes)[0],
        ),
    ensures
        client.feed(bytes) == (ClientView {
            partial: client.partial + bytes,
            tracks: client.tracks,
        }),
        client.events(bytes) == Seq::<Event>::empty(),
    decreases bytes.len(),
{
    if bytes.len() == 0 {
        assert(client.partial + bytes =~= client.partial);
    } else {
        let whole = client.partial + bytes;
        let frame = client.partial.push(bytes[0]);
        assert(frame[0] == whole[0]);
        let next = client.absorb(bytes[0]);
        assert(next.partial + bytes.drop_first() =~= whole);
        lemma_feed_incomplete(next, bytes.drop_first());
    }
}

/// Bytes that complete the arriving frame, and go no further, have its
/// command carried out.
pub proof fn lemma_feed_complete(client: ClientView, bytes: Seq<u8>)
    requires
        client.wf(),
        bytes.len() > 0,
        is_frame(client.partial + bytes),
    ensures
        client.feed(bytes) == (ClientView {
            partial: Seq::empty(),
            tracks: apply(client.tracks, command_of(client.partial + bytes)),
        }),
        client.events(bytes) == match event_of(command_of(client.partial + bytes)) {
            Some(event) => seq![event],
            None => Seq::empty(),
        },
        client.events(bytes.drop_last()) == Seq::<Event>::empty(),
{
    let whole = client.partial + bytes;
    let head = bytes.drop_last();
    let last = bytes.last();
    assert(bytes =~= head + seq![last]);
    assert(client.partial + head =~= whole.drop_last());
    if whole.len() > 1 {
        assert((client.partial + head)[0] == whole[0]);
    }
    lemma_feed_incomplete(client, head);
    lemma_feed_split(client, head, seq![last]);
    let before = client.feed(head);
    assert(before.partial.push(last) =~= whole);
    lemma_feed_one(before, last);
}

/// Feeding one byte is absorbing it.
pub proof fn lemma_feed_one(client: ClientView, byte: u8)
    ensures
        client.feed(seq![byte]) == client.absorb(byte),
        client.events(seq![byte]) == client.emitted(byte),
{
    reveal_with_fuel(ClientView::feed, 2);
    reveal_with_fuel(ClientView::events, 2);
    assert(seq![byte].drop_first() =~= Seq::<u8>::empty());
    assert(client.emitted(byte) + Seq::<Event>::empty() =~= client.emitted(byte));
}


/// Whether the kind of an error is `ErrorKind::WouldBlock`: what
/// `std::io::Error::kind` gives for it, compared with that kind.
pub uninterp spec fn would_block_kind(error: std::io::Error) -> bool;

/// `std::io::Error::kind`, compared with `ErrorKind::WouldBlock`. The kind
/// lies inside the error; the contract gives the answer a name and claims
/// no more than that the same error gives the same answer.
#[verifier::external_body]
pub(crate) fn is_would_block(error: &std::io::Error) -> (would_block: bool)
    ensures
        would_block == would_block_kind(*error),
{
    error.kind() == std::io::ErrorKind::WouldBlock
}

/// An opcode that names no command of the tracker is dropped: the client is
/// as it was before the byte, no event comes of it, and the bytes behind it
/// are read as if it had not been there.
pub proof fn lemma_unknown_opcode_skipped(client: ClientView, opcode: u8, rest: Seq<u8>)
    requires
        client.partial.len() == 0,
        opcode != crate::wire::SET_KEY,
        opcode != crate::wire::DELETE_KEY,
        opcode != crate::wire::SET_ROW,
        opcode != crate::wire::PAUSE,
        opcode != crate::wire::SAVE_TRACKS,
    ensures
        client.absorb(opcode) == client,
        client.emitted(opcode) == Seq::<Event>::empty(),
        client.feed(seq![opcode] + rest) == client.feed(rest),
        client.events(seq![opcode] + rest) == client.events(rest),
{
    let frame = client.partial.push(opcode);
    assert(frame =~= seq![opcode]);
    assert(is_frame(frame));
    assert(client.partial =~= Seq::<u8>::empty());
    lemma_feed_one(client, opcode);
    lemma_feed_split(client, seq![opcode], rest);
    assert(Seq::<Event>::empty() + client.events(rest) =~= client.events(rest));
}

/// Where the decoder stands in the frame that is arriving.
#[derive(Debug, Clone, Copy, PartialEq, Eq, Structural)]
pub enum ClientState {
    /// No byte of the next frame has arrived.
    New,
    /// The opcode has arrived and this many bytes of the body are missing.
    Incomplete(usize),
    /// The whole frame has arrived and waits to be carried out.
    Complete,
}

/// The index of the track that a command edits, if it edits one.
pub open spec fn edited(command: Command) -> Option<int> {
    match command {
        Command::SetKey { track, key } => Some(track as int),
        Command::DeleteKey { track, row } => Some(track as int),
        _ => None,
    }
}

/// A command leaves the number, the order and the names of the tracks, and
/// the keys of every track but the one that it edits.
pub proof fn lemma_apply_changes_one_track(tracks: Seq<TrackView>, command: Command)
    ensures
        apply(tracks, command).len() == tracks.len(),
        forall|i: int|
            0 <= i < tracks.len() ==> (#[trigger] apply(tracks, command)[i]).name
                == tracks[i].name,
        forall|i: int|
            0 <= i < tracks.len() && edited(command) != Some(i) ==> #[trigger] apply(
                tracks,
                command,
            )[i] == tracks[i],
{
}

/// A track that is asked for gets the next index: the number of tracks that
/// were asked for before it. The tracks before it keep theirs.
pub proof fn lemma_requested_track_index(tracks: Seq<TrackView>, name: Seq<char>)
    requires
        !has_track(tracks, name),
    ensures
        position_of(tracks.push(TrackView { name, keys: Seq::empty() }), name) == tracks.len(),
        forall|other: Seq<char>|
            has_track(tracks, other) ==> position_of(
                tracks.push(TrackView { name, keys: Seq::empty() }),
                other,
            ) == position_of(tracks, other),
{
    let longer = tracks.push(TrackView { name, keys: Seq::empty() });
    crate::tracks::lemma_position_of(tracks, name);
    assert forall|i: int| 0 <= i < tracks.len() implies (#[trigger] longer[i]).name != name by {
        assert(longer[i] == tracks[i]);
    }
    crate::tracks::lemma_position_of_is(longer, name, tracks.len() as int);
    assert forall|other: Seq<char>| has_track(tracks, other) implies position_of(longer, other)
        == position_of(tracks, other) by {
        crate::tracks::lemma_position_of(tracks, other);
        let p = position_of(tracks, other);
        assert forall|i: int| 0 <= i < p implies (#[trigger] longer[i]).name != other by {
            assert(longer[i] == tracks[i]);
        }
        assert(longer[p] == tracks[p]);
        crate::tracks::lemma_position_of_is(longer, other, p);
    }
}

/// A SET_KEY frame that arrives whole at a client between frames writes its
/// key into the track whose index it names, the track of the name that was
/// asked for at that place. It surfaces as no event and leaves every other
/// track as it is.
pub proof fn lemma_set_key_frame_edits_its_track(
    client: ClientView,
    frame: Seq<u8>,
    name: Seq<char>,
)
    requires
        client.partial.len() == 0,
        is_frame(frame),
        frame[0] == crate::wire::SET_KEY,
        has_track(client.tracks, name),
        crate::wire::field_u32(frame, 1) == position_of(client.tracks, name),
    ensures
        client.events(frame) == Seq::<Event>::empty(),
        client.feed(frame).partial == Seq::<u8>::empty(),
        client.feed(frame).tracks.len() == client.tracks.len(),
        command_of(frame) matches Command::SetKey { track, key } && client.feed(
            frame,
        ).tracks[position_of(client.tracks, name)] == (TrackView {
            name,
            keys: with_key(client.tracks[position_of(client.tracks, name)].keys, key),
        }),
        forall|i: int|
            0 <= i < client.tracks.len() && i != position_of(client.tracks, name) ==> (
            #[trigger] client.feed(frame).tracks[i]) == client.tracks[i],
{
    crate::tracks::lemma_position_of(client.tracks, name);
    assert(client.partial + frame =~= frame);
    lemma_feed_complete(client, frame);
    lemma_apply_changes_one_track(client.tracks, command_of(frame));
}

/// Where the decoder stands once this opcode has been read: at the end where
/// the opcode has no body, else before the whole of its body.
pub open spec fn awaiting(opcode: u8) -> ClientState {
    if payload_len(opcode) == 0 {
        ClientState::Complete
    } else {
        ClientState::Incomplete(payload_len(opcode) as usize)
    }
}

/// Where the decoder stands once `read` of the `missing` bytes of a body have
/// been read.
pub open spec fn after_body(missing: usize, read: usize) -> ClientState {
    if read < missing {
        ClientState::Incomplete((missing - read) as usize)
    } else {
        ClientState::Complete
    }
}

/// The number of bytes that one read of a body takes: as many as are missing,
/// or as many as are there.
pub open spec fn body_read(missing: usize, there: nat) -> nat {
    if missing <= there {
        missing as nat
    } else {
        there
    }
}

/// What one step of the decoder came to.
#[derive(Debug, Clone, Copy, PartialEq, Eq, Structural)]
pub enum ReceiveResult {
    /// A frame was carried out and surfaced as this event.
    Event(Event),
    /// There is nothing to read at the moment.
    Blocked,
    /// The step made progress and the next one can follow.
    Incomplete,
}

/// The frame state machine: the bytes of the arriving frame and how far it is.
///
/// A [`RocketClient`] drives one of these. Each step asks for a decoder whose
/// state fits its bytes, as [`Decoder::new`] makes it and every step leaves it.
#[derive(Debug)]
pub struct Decoder {
    /// Where the decoder stands.
    pub state: ClientState,
    /// The bytes of the arriving frame, the opcode first.
    pub cmd: Vec<u8>,
}

impl Decoder {
    /// The state says how much of the frame in `cmd` is there.
    pub open spec fn consistent(&self) -> bool {
        match self.state {
            ClientState::New => self.cmd@.len() == 0,
            ClientState::Incomplete(missing) => missing >= 1 && self.cmd@.len() >= 1
                && self.cmd@.len() + missing == 1 + payload_len(self.cmd@[0]),
            ClientState::Complete => is_frame(self.cmd@),
        }
    }

    /// A decoder that waits for an opcode.
    pub fn new() -> (decoder: Decoder)
        ensures
            decoder.state is New,
            decoder.cmd@ == Seq::<u8>::empty(),
            decoder.consistent(),
    {
        Decoder { state: ClientState::New, cmd: Vec::new() }
    }

    /// One step: read an opcode, read some of a body, or carry out a frame.
    /// Gives the number of bytes taken from `input`.
    pub fn poll_event(&mut self, tracks: &mut Tracks, input: &[u8]) -> (step: (
        usize,
        ReceiveResult,
    ))
        requires
            old(self).consistent(),
        ensures
            final(self).consistent(),
            step.0 <= input@.len(),
            old(self).state is Complete ==> {
                &&& step.0 == 0
                &&& final(self).state is New
                &&& final(self).cmd@ == Seq::<u8>::empty()
                &&& final(tracks)@ == apply(old(tracks)@, command_of(old(self).cmd@))
                &&& step.1 == match event_of(command_of(old(self).cmd@)) {
                    Some(event) => ReceiveResult::Event(event),
                    None => ReceiveResult::Incomplete,
                }
            },
            !(old(self).state is Complete) && input@.len() == 0 ==> {
                &&& step == (0usize, ReceiveResult::Blocked)
                &&& final(self).state == old(self).state
                &&& final(self).cmd@ == old(self).cmd@
                &&& final(tracks)@ == old(tracks)@
            },
            !(old(self).state is Complete) && input@.len() > 0 ==> {
                &&& step.0 >= 1
                &&& step.1 == ReceiveResult::Incomplete
                &&& !(final(self).state is New)
                &&& final(self).cmd@ == old(self).cmd@ + input@.take(step.0 as int)
                &&& final(tracks)@ == old(tracks)@
            },
            old(self).state is New && input@.len() > 0 ==> {
                &&& step.0 == 1
                &&& final(self).state == awaiting(input@[0])
            },
            old(self).state is Incomplete && input@.len() > 0 ==> {
                &&& step.0 == body_read(old(self).state->Incomplete_0, input@.len())
                &&& final(self).state == after_body(old(self).state->Incomplete_0, step.0)
            },
    {
        match self.state {
            ClientState::New => self.poll_event_new(input),
            ClientState::Incomplete(bytes) => self.poll_event_incomplete(bytes, input),
            ClientState::Complete => (0, self.process_event(tracks)),
        }
    }

    /// Read the opcode of the next frame, if a byte is there.
    pub fn poll_event_new(&mut self, input: &[u8]) -> (step: (usize, ReceiveResult))
        requires
            old(self).consistent(),
            old(self).state is New,
        ensures
            final(self).consistent(),
            input@.len() == 0 ==> {
                &&& step == (0usize, ReceiveResult::Blocked)
                &&& final(self).state == old(self).state
                &&& final(self).cmd@ == old(self).cmd@
            },
            input@.len() > 0 ==> {
                &&& step == (1usize, ReceiveResult::Incomplete)
                &&& final(self).state == awaiting(input@[0])
                &&& final(self).cmd@ == seq![input@[0]]
            },
    {
        if input.len() == 0 {
            return (0, ReceiveResult::Blocked);
        }
        let opcode = input[0];
        self.cmd.push(opcode);
        let missing = body_len(opcode);
        if missing > 0 {
            self.state = ClientState::Incomplete(missing);
        } else {
            self.state = ClientState::Complete;
        }
        assert(self.cmd@ =~= seq![input@[0]]);
        (1, ReceiveResult::Incomplete)
    }

    /// Read up to `bytes` bytes of the body, as many as are there.
    pub fn poll_event_incomplete(&mut self, bytes: usize, input: &[u8]) -> (step: (
        usize,
        ReceiveResult,
    ))
        requires
            old(self).consistent(),
            old(self).state == ClientState::Incomplete(bytes),
        ensures
            final(self).consistent(),
            input@.len() == 0 ==> {
                &&& step == (0usize, ReceiveResult::Blocked)
                &&& final(self).state == old(self).state
                &&& final(self).cmd@ == old(self).cmd@
            },
            input@.len() > 0 ==> {
                &&& step.0 == body_read(bytes, input@.len())
                &&& step.0 >= 1
                &&& step.1 == ReceiveResult::Incomplete
                &&& final(self).state == after_body(bytes, step.0)
                &&& final(self).cmd@ == old(self).cmd@ + input@.take(step.0 as int)
            },
    {
        if input.len() == 0 {
            return (0, ReceiveResult::Blocked);
        }
        let bytes_read = if bytes < input.len() {
            bytes
        } else {
            input.len()
        };
        let chunk = vstd::slice::slice_subrange(input, 0, bytes_read);
        self.cmd.extend_from_slice(chunk);
        assert(self.cmd@ =~= old(self).cmd@ + input@.take(bytes_read as int));
        if bytes - bytes_read > 0 {
            self.state = ClientState::Incomplete(bytes - bytes_read);
        } else {
            self.state = ClientState::Complete;
        }
        (bytes_read, ReceiveResult::Incomplete)
    }

    /// Carry out the frame that has arrived, and start over.
    pub fn process_event(&mut self, tracks: &mut Tracks) -> (result: ReceiveResult)
        requires
            old(self).consistent(),
            old(self).state is Complete,
        ensures
            final(self).consistent(),
            final(self).state is New,
            final(self).cmd@ == Seq::<u8>::empty(),
            final(tracks)@ == apply(old(tracks)@, command_of(old(self).cmd@)),
            result == match event_of(command_of(old(self).cmd@)) {
                Some(event) => ReceiveResult::Event(event),
                None => ReceiveResult::Incomplete,
            },
    {
        let mut result = ReceiveResult::Incomplete;
        match decode(self.cmd.as_slice()) {
            Some(Command::SetKey { track, key }) => {
                let index = track as usize;
                if index < tracks.len() {
                    tracks.set_key(index, key);
                }
            },
            Some(Command::DeleteKey { track, row }) => {
                let index = track as usize;
                if index < tracks.len() {
                    tracks.delete_key(index, row);
                }
            },
            Some(Command::SetRow(row)) => {
                result = ReceiveResult::Event(Event::SetRow(row));
            },
            Some(Command::Pause(flag)) => {
                result = ReceiveResult::Event(Event::Pause(flag));
            },
            Some(Command::SaveTracks) => {
                result = ReceiveResult::Event(Event::SaveTracks);
            },
            Some(Command::Unknown(_)) => {},
            None => {},
        }
        self.cmd.clear();
        self.state = ClientState::New;
        result
    }
}


/// What one call of [`RocketClient::poll_events`] did with its input.
#[derive(Debug, Clone, Copy, PartialEq, Eq, Structural)]
pub struct Polled {
    /// The number of bytes taken from the front of the input.
    pub consumed: usize,
    /// The event that the last of these bytes completed, if any.
    pub event: Option<Event>,
}

/// The `RocketClient` type: the tracks and the decoder of one connection.
#[derive(Debug)]
pub struct RocketClient {
    decoder: Decoder,
    tracks: Tracks,
}

impl View for RocketClient {
    type V = ClientView;

    closed spec fn view(&self) -> ClientView {
        ClientView { partial: self.decoder.cmd@, tracks: self.tracks@ }
    }
}

impl RocketClient {
    #[verifier::type_invariant]
    spec fn at_rest(&self) -> bool {
        self.decoder.consistent() && !(self.decoder.state is Complete)
    }

    /// Construct a new RocketClient, for a connection on which the greetings
    /// have been exchanged. It has no tracks and waits for an opcode.
    pub fn new() -> (client: RocketClient)
        ensures
            client@.partial == Seq::<u8>::empty(),
            client@.tracks == Seq::<TrackView>::empty(),
            client@.wf(),
    {
        RocketClient { decoder: Decoder::new(), tracks: Tracks::default() }
    }

    /// Construct a RocketClient that holds these tracks and waits for an
    /// opcode.
    pub fn with_tracks(tracks: Tracks) -> (client: RocketClient)
        ensures
            client@.partial == Seq::<u8>::empty(),
            client@.tracks == tracks@,
            client@.wf(),
    {
        RocketClient { decoder: Decoder::new(), tracks }
    }

    /// Drop the bytes of the frame that was arriving, as after the loss of
    /// the connection. The tracks stay.
    pub fn discard_partial(&mut self)
        ensures
            final(self)@.partial == Seq::<u8>::empty(),
            final(self)@.tracks == old(self)@.tracks,
            final(self)@.wf(),
    {
        self.decoder = Decoder::new();
    }

    /// Get track by name.
    ///
    /// You should use [`get_track_mut`](RocketClient::get_track_mut) to create a track.
    pub fn get_track(&self, name: &str) -> (track: Option<&Track>)
        ensures
            match track {
                Some(t) => has_track(self@.tracks, name@) && t@ == self@.tracks[position_of(
                    self@.tracks,
                    name@,
                )],
                None => !has_track(self@.tracks, name@),
            },
    {
        self.tracks.get_track(name)
    }

    /// The message that asks the tracker for a track, where the track is not
    /// known yet. It has to be sent before [`get_track_mut`](RocketClient::get_track_mut)
    /// creates the track, so that the tracker numbers the tracks as the client does.
    ///
    /// The length of the name in bytes has to fit the four bytes of its field.
    pub fn track_request(&self, name: &str) -> (message: Option<Vec<u8>>)
        requires
            encode_utf8(name@).len() <= u32::MAX,
        ensures
            match message {
                Some(m) => !has_track(self@.tracks, name@) && m@ == get_track_message(
                    encode_utf8(name@),
                ),
                None => has_track(self@.tracks, name@),
            },
    {
        match self.tracks.position(name) {
            Some(_) => None,
            None => Some(encode_get_track(name)),
        }
    }

    /// Get track by name.
    ///
    /// If the track does not yet exist it will be created, without keys and
    /// behind the tracks that exist.
    pub fn get_track_mut(&mut self, name: &str) -> (track: &mut Track)
        ensures
            final(self)@.partial == old(self)@.partial,
            has_track(old(self)@.tracks, name@) ==> {
                &&& track@ == old(self)@.tracks[position_of(old(self)@.tracks, name@)]
                &&& final(self)@.tracks == old(self)@.tracks.update(
                    position_of(old(self)@.tracks, name@),
                    final(track)@,
                )
            },
            !has_track(old(self)@.tracks, name@) ==> {
                &&& track@ == (TrackView { name: name@, keys: Seq::empty() })
                &&& final(self)@.tracks == old(self)@.tracks.push(final(track)@)
            },
    {
        proof {
            use_type_invariant(&*self);
        }
        let index: usize = match self.tracks.position(name) {
            Some(index) => index,
            None => {
                let mut tracks = Tracks::default();
                std::mem::swap(&mut tracks, &mut self.tracks);
                tracks.push_new(name);
                self.tracks = tracks;
                self.tracks.len() - 1
            },
        };
        let track = self.tracks.get_mut(index);
        proof {
            let before = old(self)@.tracks;
            if !has_track(before, name@) {
                assert(before.push(TrackView { name: name@, keys: Seq::empty() }).update(
                    index as int,
                    final(track)@,
                ) =~= before.push(final(track)@));
            }
        }
        track
    }

    /// Get a snapshot of the tracks in the session.
    pub fn save_tracks(&self) -> (tracks: &Tracks)
        ensures
            tracks@ == self@.tracks,
    {
        &self.tracks
    }

    /// The SET_ROW message, which changes the current row on the tracker side.
    pub fn set_row(&self, row: u32) -> (message: Vec<u8>)
        ensures
            message@ == set_row_message(row),
    {
        encode_set_row(row)
    }

    /// Judge the reply to the greeting: only the greeting of a tracker will do.
    pub fn handshake(reply: [u8; 12]) -> (result: Result<(), Error>)
        ensures
            reply@ == SERVER_GREETING@ ==> result is Ok,
            reply@ != SERVER_GREETING@ ==> (result matches Err(
                Error::HandshakeGreetingMismatch(got),
            ) && got == reply),
    {
        if is_server_greeting(&reply) {
            Ok(())
        } else {
            Err(Error::HandshakeGreetingMismatch(reply))
        }
    }

    /// What a failed read comes to. A read that would block is no failure:
    /// there is no event yet. Any other failure ends the connection.
    pub fn read_failed(error: std::io::Error, would_block: bool) -> (result: Result<
        Option<Event>,
        Error,
    >)
        ensures
            would_block ==> result matches Ok(None),
            !would_block ==> (result matches Err(Error::IOError(e)) && e == error),
    {
        if would_block {
            Ok(None)
        } else {
            Err(Error::IOError(error))
        }
    }

    /// What a failed read comes to, by the kind of the failure. A read that
    /// would block is no failure: there is no event yet. Any other failure
    /// ends the connection.
    pub fn read_error(error: std::io::Error) -> (result: Result<Option<Event>, Error>)
        ensures
            would_block_kind(error) ==> result matches Ok(None),
            !would_block_kind(error) ==> (result matches Err(Error::IOError(inner)) && inner
                == error),
    {
        let would_block = is_would_block(&error);
        RocketClient::read_failed(error, would_block)
    }

    /// Poll for new events from the tracker.
    ///
    /// `input` holds the bytes that have arrived and were not taken by an
    /// earlier call. The client takes them one frame after the other, carries
    /// out the edits, and stops behind the first frame that surfaces as an
    /// event, or at the end of the input. Bytes of a frame that is not whole
    /// yet are kept for the next call.
    pub fn poll_events(&mut self, input: &[u8]) -> (polled: Polled)
        ensures
            final(self)@.wf(),
            polled.consumed <= input@.len(),
            final(self)@ == old(self)@.feed(input@.take(polled.consumed as int)),
            match polled.event {
                Some(event) => {
                    &&& polled.consumed >= 1
                    &&& old(self)@.events(input@.take(polled.consumed as int)) == seq![event]
                    &&& old(self)@.events(input@.take(polled.consumed - 1)) == Seq::<Event>::empty()
                },
                None => {
                    &&& polled.consumed == input@.len()
                    &&& old(self)@.events(input@) == Seq::<Event>::empty()
                },
            },
    {
        proof {
            use_type_invariant(&*self);
        }
        let ghost start = self@;
        let mut decoder = Decoder::new();
        std::mem::swap(&mut decoder, &mut self.decoder);
        let mut tracks = Tracks::default();
        std::mem::swap(&mut tracks, &mut self.tracks);
        let mut consumed: usize = 0;
        let mut event: Option<Event> = None;
        proof {
            assert(input@.take(0) =~= Seq::<u8>::empty());
        }
        loop
            invariant_except_break
                event is None,
                !(decoder.state is Complete) ==> {
                    &&& start.feed(input@.take(consumed as int)) == (ClientView {
                        partial: decoder.cmd@,
                        tracks: tracks@,
                    })
                    &&& start.events(input@.take(consumed as int)) == Seq::<Event>::empty()
                },
                decoder.state is Complete ==> {
                    &&& consumed >= 1
                    &&& start.events(input@.take(consumed - 1)) == Seq::<Event>::empty()
                    &&& start.feed(input@.take(consumed as int)) == (ClientView {
                        partial: Seq::empty(),
                        tracks: apply(tracks@, command_of(decoder.cmd@)),
                    })
                    &&& start.events(input@.take(consumed as int)) == match event_of(
                        command_of(decoder.cmd@),
                    ) {
                        Some(e) => seq![e],
                        None => Seq::empty(),
                    }
                },
            invariant
                consumed <= input@.len(),
                decoder.consistent(),
            ensures
                !(decoder.state is Complete),
                start.feed(input@.take(consumed as int)) == (ClientView {
                    partial: decoder.cmd@,
                    tracks: tracks@,
                }),
                match event {
                    Some(e) => {
                        &&& consumed >= 1
                        &&& start.events(input@.take(consumed as int)) == seq![e]
                        &&& start.events(input@.take(consumed - 1)) == Seq::<Event>::empty()
                    },
                    None => {
                        &&& consumed == input@.len()
                        &&& start.events(input@.take(consumed as int)) == Seq::<Event>::empty()
                    },
                },
            decreases
                    input@.len() - consumed,
                    (if decoder.state is Complete {
                        1int
                    } else {
                        0int
                    }),
        {
            let rest = vstd::slice::slice_subrange(input, consumed, input.len());
            let ghost before = ClientView { partial: decoder.cmd@, tracks: tracks@ };
            let ghost was_complete = decoder.state is Complete;
            let step = decoder.poll_event(&mut tracks, rest);
            proof {
                if !was_complete && rest@.len() > 0 {
                    let chunk = rest@.take(step.0 as int);
                    assert(input@.take(consumed as int) + chunk =~= input@.take(
                        consumed + step.0,
                    ));
                    lemma_feed_split(start, input@.take(consumed as int), chunk);
                    if decoder.state is Complete {
                        assert(input@.take(consumed as int) + chunk.drop_last() =~= input@.take(
                            consumed + step.0 - 1,
                        ));
                        lemma_feed_split(start, input@.take(consumed as int), chunk.drop_last());
                        lemma_feed_complete(before, chunk);
                    } else {
                        lemma_feed_incomplete(before, chunk);
                    }
                }
            }
            consumed = consumed + step.0;
            match step.1 {
                ReceiveResult::Blocked => {
                    break ;
                },
                ReceiveResult::Incomplete => {},
                ReceiveResult::Event(e) => {
                    event = Some(e);
                    break ;
                },
            }
        }
        proof {
            assert(input@.take(input@.len() as int) =~= input@);
        }
        self.decoder = decoder;
        self.tracks = tracks;
        Polled { consumed, event }
    }
}

} // verus!
