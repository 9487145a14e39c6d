//! A session with a tracker that survives the loss of the connection.
//!
//! The session keeps the tracks, knows whether a connection stands, and
//! remembers the last row that was sent to the tracker. The caller owns the
//! socket and the clock: it tells the session what became of each attempt to
//! connect, send or read, and the session says what to do next.

use crate::client::{is_would_block, would_block_kind, ClientView, Polled, RocketClient};
use crate::track::{sample_at, Sample, TrackView};
use crate::tracks::{has_track, names_unique, position_of, Tracks};
use crate::wire::{get_track_message, set_row_message};
use vstd::prelude::*;
use vstd::utf8::encode_utf8;

verus! {

/// The rows of one beat.
pub const ROWS_PER_BEAT: u32 = 8;

/// The seconds to wait after an attempt to connect before the next one.
pub const RECONNECT_COOLDOWN_SECS: u64 = 1;

/// An `Event` type.
#[derive(Debug, Clone, Copy, PartialEq, Eq, Structural)]
pub enum Event {
    /// The tracker changes row, asking you to update your time source. The
    /// time to seek to is that of this row.
    Seek(u32),
    /// The tracker pauses or unpauses.
    Pause(bool),
    /// The tracker asks you to export tracks.
    SaveTracks,
    /// No connection stands at the moment.
    NotConnected,
}

/// What one call of [`Rocket::poll_events`] did with its input.
#[derive(Debug, Clone, Copy, PartialEq, Eq, Structural)]
pub struct SessionPolled {
    /// The number of bytes taken from the front of the input.
    pub consumed: usize,
    /// The event to hand to the application, if any.
    pub event: Option<Event>,
}

/// What a call of [`Rocket::poll_events`] has to do first.
#[derive(Debug, Clone, Copy, PartialEq, Eq, Structural)]
pub enum NextStep {
    /// A connection stands: read what has arrived and poll.
    Poll,
    /// No connection stands and the cooldown is over: try to connect.
    Connect,
    /// No connection stands and the cooldown is not over: report
    /// `NotConnected` and try nothing.
    ReportNotConnected,
}

/// What a session is to its users.
pub struct RocketView {
    /// Whether a connection stands.
    pub connected: bool,
    /// The last row that was sent to the tracker or came from it.
    pub tracker_row: u32,
    /// The tracks and the frame that is arriving.
    pub client: ClientView,
}

/// The session event that an event of the client surfaces as.
pub open spec fn session_event(event: crate::client::Event) -> Event {
    match event {
        crate::client::Event::SetRow(row) => Event::Seek(row),
        crate::client::Event::Pause(flag) => Event::Pause(flag),
        crate::client::Event::SaveTracks => Event::SaveTracks,
    }
}

/// What the track of this name yields at a point: the bit pattern of `0.0`
/// where there is no such track.
pub open spec fn value_of(tracks: Seq<TrackView>, name: Seq<char>, row: u32, past: bool) -> Sample {
    if has_track(tracks, name) {
        sample_at(tracks[position_of(tracks, name)].keys, row, past)
    } else {
        Sample::Constant(0)
    }
}

/// Provides sync values.
#[derive(Debug)]
pub struct Rocket {
    client: RocketClient,
    connected: bool,
    tracker_row: u32,
}

impl View for Rocket {
    type V = RocketView;

    closed spec fn view(&self) -> RocketView {
        RocketView {
            connected: self.connected,
            tracker_row: self.tracker_row,
            client: self.client@,
        }
    }
}

impl Rocket {
    /// Initializes rocket with tracks to play and with what became of the
    /// first attempt to connect. The tracks stay whether or not it succeeded.
    pub fn new(tracks: Tracks, connected: bool) -> (rocket: Rocket)
        ensures
            rocket@.connected == connected,
            rocket@.tracker_row == 0,
            rocket@.client.tracks == tracks@,
            rocket@.client.partial == Seq::<u8>::empty(),
    {
        Rocket { client: RocketClient::with_tracks(tracks), connected, tracker_row: 0 }
    }

    /// Get the state of the connection to the tracker.
    pub fn is_connected(&self) -> (connected: bool)
        ensures
            connected == self@.connected,
    {
        self.connected
    }

    /// Get a reference to current [`Tracks`] state.
    pub fn get_tracks(&self) -> (tracks: &Tracks)
        ensures
            tracks@ == self@.client.tracks,
    {
        self.client.save_tracks()
    }

    /// Whether it is time for another attempt to connect, this many whole
    /// seconds after the last one.
    pub fn reconnect_due(elapsed_secs: u64) -> (due: bool)
        ensures
            due == (elapsed_secs >= RECONNECT_COOLDOWN_SECS),
    {
        elapsed_secs >= RECONNECT_COOLDOWN_SECS
    }

    /// What to do first in a poll, this many whole seconds after the last
    /// attempt to connect.
    pub fn next_step(&self, elapsed_secs: u64) -> (step: NextStep)
        ensures
            self@.connected ==> step == NextStep::Poll,
            !self@.connected && elapsed_secs >= RECONNECT_COOLDOWN_SECS ==> step
                == NextStep::Connect,
            !self@.connected && elapsed_secs < RECONNECT_COOLDOWN_SECS ==> step
                == NextStep::ReportNotConnected,
    {
        if self.connected {
            NextStep::Poll
        } else if Rocket::reconnect_due(elapsed_secs) {
            NextStep::Connect
        } else {
            NextStep::ReportNotConnected
        }
    }

    /// What became of an attempt to connect. After a success the session is
    /// as after [`reconnected`](Rocket::reconnected) and the poll can go on;
    /// after a failure nothing changes and `NotConnected` is to be reported.
    pub fn connect_attempted(&mut self, success: bool) -> (event: Option<Event>)
        ensures
            success ==> {
                &&& event is None
                &&& final(self)@.connected
                &&& final(self)@.tracker_row == old(self)@.tracker_row
                &&& final(self)@.client.tracks == Seq::<TrackView>::empty()
                &&& final(self)@.client.partial == Seq::<u8>::empty()
            },
            !success ==> event == Some(Event::NotConnected) && final(self)@ == old(self)@,
    {
        if success {
            self.reconnected();
            None
        } else {
            Some(Event::NotConnected)
        }
    }

    /// What a failed read comes to. A read that would block is no failure and
    /// changes nothing. Any other failure loses the connection: the tracks
    /// stay, the frame that was arriving is dropped, and the error comes back
    /// for the record.
    pub fn read_failed(&mut self, error: std::io::Error, would_block: bool) -> (result: Result<
        (),
        crate::client::Error,
    >)
        ensures
            would_block ==> result is Ok && final(self)@ == old(self)@,
            !would_block ==> {
                &&& result matches Err(crate::client::Error::IOError(e)) && e == error
                &&& !final(self)@.connected
                &&& final(self)@.tracker_row == old(self)@.tracker_row
                &&& final(self)@.client.tracks == old(self)@.client.tracks
                &&& final(self)@.client.partial == Seq::<u8>::empty()
            },
    {
        match RocketClient::read_failed(error, would_block) {
            Ok(_) => Ok(()),
            Err(e) => {
                self.disconnected();
                Err(e)
            },
        }
    }

    /// What a failed read comes to, by the kind of the failure. A read that
    /// would block is no failure and changes nothing. Any other failure loses
    /// the connection: the tracks stay, the frame that was arriving is
    /// dropped, and the error comes back for the record.
    pub fn read_error(&mut self, error: std::io::Error) -> (result: Result<
        (),
        crate::client::Error,
    >)
        ensures
            would_block_kind(error) ==> result is Ok && final(self)@ == old(self)@,
            !would_block_kind(error) ==> {
                &&& result matches Err(crate::client::Error::IOError(e)) && e == error
                &&& !final(self)@.connected
                &&& final(self)@.tracker_row == old(self)@.tracker_row
                &&& final(self)@.client.tracks == old(self)@.client.tracks
                &&& final(self)@.client.partial == Seq::<u8>::empty()
            },
    {
        let would_block = is_would_block(&error);
        self.read_failed(error, would_block)
    }

    /// A new connection stands. The tracker is the authority on the tracks, so
    /// the tracks that were known are dropped.
    pub fn reconnected(&mut self)
        ensures
            final(self)@.connected,
            final(self)@.tracker_row == old(self)@.tracker_row,
            final(self)@.client.tracks == Seq::<TrackView>::empty(),
            final(self)@.client.partial == Seq::<u8>::empty(),
    {
        self.client = RocketClient::new();
        self.connected = true;
    }

    /// The connection was lost. The tracks stay, the frame that was arriving
    /// is dropped.
    pub fn disconnected(&mut self)
        ensures
            !final(self)@.connected,
            final(self)@.tracker_row == old(self)@.tracker_row,
            final(self)@.client.tracks == old(self)@.client.tracks,
            final(self)@.client.partial == Seq::<u8>::empty(),
    {
        self.client.discard_partial();
        self.connected = false;
    }

    /// Update rocket with the row of the current time. Gives the SET_ROW
    /// message to send: one only while connected, and only for a row other
    /// than the last one that the tracker was sent or sent itself.
    pub fn set_time(&self, row: u32) -> (message: Option<Vec<u8>>)
        ensures
            match message {
                Some(m) => self@.connected && row != self@.tracker_row && m@ == set_row_message(
                    row,
                ),
                None => !self@.connected || row == self@.tracker_row,
            },
    {
        if self.connected && row != self.tracker_row {
            Some(self.client.set_row(row))
        } else {
            None
        }
    }

    /// The SET_ROW message for this row was sent.
    pub fn row_sent(&mut self, row: u32)
        ensures
            final(self)@.tracker_row == row,
            final(self)@.connected == old(self)@.connected,
            final(self)@.client == old(self)@.client,
    {
        self.tracker_row = row;
    }

    /// The GET_TRACK message that has to go out before
    /// [`get_value`](Rocket::get_value) is asked for this track: one only while
    /// connected, and only for a track that is not known yet.
    ///
    /// The length of the name in bytes has to fit the four bytes of its field.
    pub fn track_request(&self, name: &str) -> (message: Option<Vec<u8>>)
        requires
            encode_utf8(name@).len() <= u32::MAX,
        ensures
            match message {
                Some(m) => self@.connected && !has_track(self@.client.tracks, name@) && m@
                    == get_track_message(encode_utf8(name@)),
                None => !self@.connected || has_track(self@.client.tracks, name@),
            },
    {
        if self.connected {
            self.client.track_request(name)
        } else {
            None
        }
    }

    /// Get track value at the point of the current time: `row` is the whole
    /// row at or before it, and `past` says whether it lies after that whole
    /// row.
    ///
    /// While connected, a track that is not known yet is created. While not
    /// connected, a track that is not known yields the bit pattern of `0.0`,
    /// as a track without keys does.
    pub fn get_value(&mut self, name: &str, row: u32, past: bool) -> (sample: Sample)
        ensures
            sample == value_of(old(self)@.client.tracks, name@, row, past),
            final(self)@.connected == old(self)@.connected,
            final(self)@.tracker_row == old(self)@.tracker_row,
            final(self)@.client.partial == old(self)@.client.partial,
            final(self)@.client.tracks == if old(self)@.connected && !has_track(
                old(self)@.client.tracks,
                name@,
            ) {
                old(self)@.client.tracks.push(TrackView { name: name@, keys: Seq::empty() })
            } else {
                old(self)@.client.tracks
            },
            names_unique(old(self)@.client.tracks) ==> names_unique(final(self)@.client.tracks),
    {
        proof {
            if !has_track(old(self)@.client.tracks, name@) {
                crate::tracks::lemma_position_of(old(self)@.client.tracks, name@);
            }
        }
        if self.connected {
            let track = self.client.get_track_mut(name);
            let sample = track.get_value(row, past);
            proof {
                let before = old(self)@.client.tracks;
                if has_track(before, name@) {
                    crate::tracks::lemma_position_of(before, name@);
                    assert(before.update(position_of(before, name@), final(track)@) =~= before);
                }
            }
            sample
        } else {
            match self.client.get_track(name) {
                Some(track) => track.get_value(row, past),
                None => Sample::Constant(0),
            }
        }
    }

    /// Poll for new events from rocket.
    ///
    /// While no connection stands, the one event is `NotConnected` and no
    /// input is taken. Otherwise `input` holds the bytes that have arrived and
    /// were not taken by an earlier call; the session takes them up to the
    /// first frame that surfaces as an event, carries out the edits on the
    /// way, and remembers the row of a seek as the row of the tracker.
    pub fn poll_events(&mut self, input: &[u8]) -> (polled: SessionPolled)
        ensures
            final(self)@.connected == old(self)@.connected,
            !old(self)@.connected ==> {
                &&& polled.consumed == 0
                &&& polled.event == Some(Event::NotConnected)
                &&& final(self)@ == old(self)@
            },
            old(self)@.connected ==> {
                &&& polled.consumed <= input@.len()
                &&& final(self)@.client == old(self)@.client.feed(
                    input@.take(polled.consumed as int),
                )
                &&& match polled.event {
                    Some(event) => {
                        &&& polled.consumed >= 1
                        &&& old(self)@.client.events(input@.take(polled.consumed as int)).len()
                            == 1
                        &&& event == session_event(
                            old(self)@.client.events(input@.take(polled.consumed as int))[0],
                        )
                        &&& old(self)@.client.events(input@.take(polled.consumed - 1))
                            == Seq::<crate::client::Event>::empty()
                        &&& final(self)@.tracker_row == match event {
                            Event::Seek(row) => row,
                            _ => old(self)@.tracker_row,
                        }
                    },
                    None => {
                        &&& polled.consumed == input@.len()
                        &&& old(self)@.client.events(input@) == Seq::<
                            crate::client::Event,
                        >::empty()
                        &&& final(self)@.tracker_row == old(self)@.tracker_row
                    },
                }
            },
    {
        if !self.connected {
            return SessionPolled { consumed: 0, event: Some(Event::NotConnected) };
        }
        let polled: Polled = self.client.poll_events(input);
        let event = match polled.event {
            Some(crate::client::Event::SetRow(row)) => {
                self.tracker_row = row;
                Some(Event::Seek(row))
            },
            Some(crate::client::Event::Pause(flag)) => Some(Event::Pause(flag)),
            Some(crate::client::Event::SaveTracks) => Some(Event::SaveTracks),
            None => None,
        };
        proof {
            if polled.event is Some {
                assert(seq![polled.event->0][0] == polled.event->0);
            }
        }
        SessionPolled { consumed: polled.consumed, event }
    }
}

} // verus!
