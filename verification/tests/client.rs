use rust_rocket::client::{
    ClientState, Decoder, Error, Event, Polled, ReceiveResult, RocketClient,
};
use rust_rocket::tracks::Tracks;
use rust_rocket::interpolation::Interpolation;
use rust_rocket::track::{Key, Sample};
use rust_rocket::wire::{
    body_len, decode, encode_get_track, encode_set_row, get_u32, is_server_greeting, Command,
    CLIENT_GREETING, DELETE_KEY, GET_TRACK, PAUSE, SAVE_TRACKS, SERVER_GREETING, SET_KEY, SET_ROW,
};

fn set_key_frame(track: u32, row: u32, value: f32, interpolation: u8) -> Vec<u8> {
    let mut frame = vec![SET_KEY];
    frame.extend_from_slice(&track.to_be_bytes());
    frame.extend_from_slice(&row.to_be_bytes());
    frame.extend_from_slice(&value.to_bits().to_be_bytes());
    frame.push(interpolation);
    frame
}

fn delete_key_frame(track: u32, row: u32) -> Vec<u8> {
    let mut frame = vec![DELETE_KEY];
    frame.extend_from_slice(&track.to_be_bytes());
    frame.extend_from_slice(&row.to_be_bytes());
    frame
}

fn set_row_frame(row: u32) -> Vec<u8> {
    let mut frame = vec![SET_ROW];
    frame.extend_from_slice(&row.to_be_bytes());
    frame
}

/// Hands the stream to the client in pieces of the given sizes (the last size
/// repeats) and polls until each piece is used up, as a caller does.
fn run(client: &mut RocketClient, stream: &[u8], sizes: &[usize]) -> Vec<Event> {
    let mut events = Vec::new();
    let mut at = 0;
    let mut piece = 0;
    while at < stream.len() {
        let size = sizes[piece.min(sizes.len() - 1)].max(1);
        piece += 1;
        let end = (at + size).min(stream.len());
        let mut chunk = &stream[at..end];
        loop {
            let polled = client.poll_events(chunk);
            chunk = &chunk[polled.consumed..];
            match polled.event {
                Some(event) => events.push(event),
                None => break,
            }
        }
        assert!(chunk.is_empty());
        at = end;
    }
    events
}

fn sample_stream() -> Vec<u8> {
    let mut stream = Vec::new();
    stream.extend(set_row_frame(7));
    stream.extend(set_key_frame(0, 10, 1.5, 1));
    stream.extend(set_key_frame(1, 4, -2.0, 3));
    stream.push(PAUSE);
    stream.push(1);
    stream.extend(set_key_frame(0, 2, 0.5, 2));
    stream.push(SAVE_TRACKS);
    stream.extend(delete_key_frame(1, 4));
    stream.extend(set_key_frame(1, 6, 8.0, 0));
    stream.push(PAUSE);
    stream.push(0);
    stream.extend(set_row_frame(0xdead_beef));
    stream
}

fn client_with_two_tracks() -> RocketClient {
    let mut client = RocketClient::new();
    client.get_track_mut("a");
    client.get_track_mut("b");
    client
}

fn keys_of(client: &RocketClient, name: &str) -> Vec<Key> {
    client.get_track(name).unwrap().keys().to_vec()
}

#[test]
fn greetings_are_the_protocol_strings() {
    assert_eq!(&CLIENT_GREETING[..], b"hello, synctracker!");
    assert_eq!(&SERVER_GREETING[..], b"hello, demo!");
}

#[test]
fn opcodes_and_body_lengths() {
    assert_eq!(
        [SET_KEY, DELETE_KEY, GET_TRACK, SET_ROW, PAUSE, SAVE_TRACKS],
        [0, 1, 2, 3, 4, 5]
    );
    assert_eq!(body_len(SET_KEY), 13);
    assert_eq!(body_len(DELETE_KEY), 8);
    assert_eq!(body_len(GET_TRACK), 0);
    assert_eq!(body_len(SET_ROW), 4);
    assert_eq!(body_len(PAUSE), 1);
    assert_eq!(body_len(SAVE_TRACKS), 0);
    assert_eq!(body_len(6), 0);
    assert_eq!(body_len(255), 0);
}

#[test]
fn set_row_message_is_big_endian() {
    assert_eq!(encode_set_row(5), vec![3, 0, 0, 0, 5]);
    assert_eq!(encode_set_row(0x0102_0304), vec![3, 1, 2, 3, 4]);
    assert_eq!(encode_set_row(u32::MAX), vec![3, 255, 255, 255, 255]);
    let client = RocketClient::new();
    assert_eq!(client.set_row(258), vec![3, 0, 0, 1, 2]);
}

#[test]
fn get_track_message_has_length_and_name() {
    assert_eq!(encode_get_track("test"), vec![2, 0, 0, 0, 4, b't', b'e', b's', b't']);
    assert_eq!(encode_get_track(""), vec![2, 0, 0, 0, 0]);
    let name = "é:x";
    let mut expected = vec![2, 0, 0, 0, 4];
    expected.extend_from_slice(name.as_bytes());
    assert_eq!(encode_get_track(name), expected);
    let long = "n".repeat(300);
    let message = encode_get_track(&long);
    assert_eq!(&message[..5], &[2, 0, 0, 1, 44]);
    assert_eq!(message.len(), 305);
}

#[test]
fn get_u32_reads_big_endian() {
    let bytes = [9u8, 0x01, 0x02, 0x03, 0x04, 0xff, 0xff, 0xff, 0xfe];
    assert_eq!(get_u32(&bytes, 1), 0x0102_0304);
    assert_eq!(get_u32(&bytes, 5), 0xffff_fffe);
    assert_eq!(get_u32(&bytes, 0), 0x0901_0203);
}

#[test]
fn decode_each_command() {
    assert_eq!(
        decode(&set_key_frame(3, 17, 2.5, 2)),
        Some(Command::SetKey {
            track: 3,
            key: Key::new(17, 2.5f32.to_bits(), Interpolation::Smooth),
        })
    );
    assert_eq!(
        decode(&set_key_frame(0, 1, 0.0, 9)),
        Some(Command::SetKey { track: 0, key: Key::new(1, 0, Interpolation::Step) })
    );
    assert_eq!(
        decode(&delete_key_frame(0x0100, 0x0001_0000)),
        Some(Command::DeleteKey { track: 256, row: 65536 })
    );
    assert_eq!(decode(&set_row_frame(0x0a0b_0c0d)), Some(Command::SetRow(0x0a0b_0c0d)));
    assert_eq!(decode(&[PAUSE, 1]), Some(Command::Pause(true)));
    assert_eq!(decode(&[PAUSE, 0]), Some(Command::Pause(false)));
    assert_eq!(decode(&[PAUSE, 2]), Some(Command::Pause(false)));
    assert_eq!(decode(&[SAVE_TRACKS]), Some(Command::SaveTracks));
    assert_eq!(decode(&[GET_TRACK]), Some(Command::Unknown(2)));
    assert_eq!(decode(&[200]), Some(Command::Unknown(200)));
}

#[test]
fn decode_rejects_what_is_not_one_frame() {
    assert_eq!(decode(&[]), None);
    assert_eq!(decode(&[SET_ROW, 0, 0, 0]), None);
    assert_eq!(decode(&[SET_ROW, 0, 0, 0, 1, 2]), None);
    assert_eq!(decode(&[SAVE_TRACKS, 0]), None);
    assert_eq!(decode(&[PAUSE]), None);
}

#[test]
fn set_row_message_decodes_to_its_row() {
    for row in [0u32, 1, 255, 256, 0x1234_5678, u32::MAX] {
        assert_eq!(decode(&encode_set_row(row)), Some(Command::SetRow(row)));
    }
}

#[test]
fn handshake_accepts_only_the_server_greeting() {
    assert!(RocketClient::handshake(*b"hello, demo!").is_ok());
    assert!(is_server_greeting(b"hello, demo!"));
    let wrong = *b"hello, demo?";
    assert!(!is_server_greeting(&wrong));
    match RocketClient::handshake(wrong) {
        Err(Error::HandshakeGreetingMismatch(got)) => assert_eq!(got, wrong),
        other => panic!("unexpected {:?}", other),
    }
    match RocketClient::handshake([0; 12]) {
        Err(Error::HandshakeGreetingMismatch(got)) => assert_eq!(got, [0; 12]),
        other => panic!("unexpected {:?}", other),
    }
}

#[test]
fn would_block_is_no_error() {
    let blocked = std::io::Error::from(std::io::ErrorKind::WouldBlock);
    assert!(matches!(RocketClient::read_error(blocked), Ok(None)));
    let reset = std::io::Error::from(std::io::ErrorKind::ConnectionReset);
    match RocketClient::read_error(reset) {
        Err(Error::IOError(e)) => assert_eq!(e.kind(), std::io::ErrorKind::ConnectionReset),
        other => panic!("unexpected {:?}", other),
    }
    let eof = std::io::Error::from(std::io::ErrorKind::UnexpectedEof);
    assert!(matches!(RocketClient::read_failed(eof, true), Ok(None)));
    let eof = std::io::Error::from(std::io::ErrorKind::UnexpectedEof);
    match RocketClient::read_failed(eof, false) {
        Err(Error::IOError(e)) => assert_eq!(e.kind(), std::io::ErrorKind::UnexpectedEof),
        other => panic!("unexpected {:?}", other),
    }
}

#[test]
fn new_client_has_no_tracks() {
    let client = RocketClient::new();
    assert_eq!(client.save_tracks().len(), 0);
    assert!(client.get_track("test").is_none());
}

#[test]
fn track_request_only_for_unknown_tracks() {
    let mut client = RocketClient::new();
    assert_eq!(
        client.track_request("test"),
        Some(vec![2, 0, 0, 0, 4, b't', b'e', b's', b't'])
    );
    client.get_track_mut("test");
    assert_eq!(client.track_request("test"), None);
    assert_eq!(client.track_request("test2"), Some(encode_get_track("test2")));
}

#[test]
fn get_track_mut_creates_once_and_in_order() {
    let mut client = RocketClient::new();
    assert_eq!(client.get_track_mut("first").get_name(), "first");
    assert_eq!(client.get_track_mut("second").get_name(), "second");
    assert_eq!(client.get_track_mut("first").get_name(), "first");
    let tracks = client.save_tracks();
    assert_eq!(tracks.len(), 2);
    assert_eq!(tracks.as_slice()[0].get_name(), "first");
    assert_eq!(tracks.as_slice()[1].get_name(), "second");
    assert_eq!(tracks.position("second"), Some(1));
    assert_eq!(tracks.position("third"), None);
}

#[test]
fn get_track_mut_gives_a_track_to_edit() {
    let mut client = RocketClient::new();
    client.get_track_mut("a");
    client
        .get_track_mut("b")
        .set_key(Key::new(3, 1.0f32.to_bits(), Interpolation::Linear));
    assert!(keys_of(&client, "a").is_empty());
    assert_eq!(keys_of(&client, "b"), vec![Key::new(3, 1.0f32.to_bits(), Interpolation::Linear)]);
}

#[test]
fn set_key_goes_to_the_track_of_that_index() {
    let mut client = RocketClient::new();
    assert!(client.track_request("test").is_some());
    client.get_track_mut("test");
    client.get_track_mut("other");
    let frame = set_key_frame(0, 12, 3.0, 1);
    let polled = client.poll_events(&frame);
    assert_eq!(polled, Polled { consumed: 14, event: None });
    assert_eq!(
        keys_of(&client, "test"),
        vec![Key::new(12, 3.0f32.to_bits(), Interpolation::Linear)]
    );
    assert!(keys_of(&client, "other").is_empty());
    assert_eq!(
        client.get_track("test").unwrap().get_value(12, false),
        Sample::Constant(3.0f32.to_bits())
    );
}

#[test]
fn delete_key_goes_to_the_track_of_that_index() {
    let mut client = client_with_two_tracks();
    let mut stream = set_key_frame(0, 1, 1.0, 0);
    stream.extend(set_key_frame(1, 1, 2.0, 0));
    stream.extend(delete_key_frame(1, 1));
    assert!(run(&mut client, &stream, &[stream.len()]).is_empty());
    assert_eq!(keys_of(&client, "a").len(), 1);
    assert!(keys_of(&client, "b").is_empty());
}

#[test]
fn edits_of_unknown_tracks_are_dropped() {
    let mut client = client_with_two_tracks();
    let mut stream = set_key_frame(2, 1, 1.0, 0);
    stream.extend(delete_key_frame(u32::MAX, 1));
    stream.extend(set_row_frame(4));
    assert_eq!(run(&mut client, &stream, &[stream.len()]), vec![Event::SetRow(4)]);
    assert!(keys_of(&client, "a").is_empty());
    assert!(keys_of(&client, "b").is_empty());
    assert_eq!(client.save_tracks().len(), 2);
}

#[test]
fn poll_stops_behind_the_first_event() {
    let mut client = client_with_two_tracks();
    let mut stream = set_key_frame(0, 1, 1.0, 0);
    stream.extend(set_row_frame(9));
    stream.extend(vec![PAUSE, 1]);
    let first = client.poll_events(&stream);
    assert_eq!(first, Polled { consumed: 19, event: Some(Event::SetRow(9)) });
    let second = client.poll_events(&stream[first.consumed..]);
    assert_eq!(second, Polled { consumed: 2, event: Some(Event::Pause(true)) });
    let third = client.poll_events(&stream[first.consumed + second.consumed..]);
    assert_eq!(third, Polled { consumed: 0, event: None });
    assert_eq!(keys_of(&client, "a").len(), 1);
}

#[test]
fn poll_keeps_a_partial_frame() {
    let mut client = RocketClient::new();
    let frame = set_row_frame(0x0102_0304);
    assert_eq!(client.poll_events(&frame[..3]), Polled { consumed: 3, event: None });
    assert_eq!(client.poll_events(&[]), Polled { consumed: 0, event: None });
    assert_eq!(
        client.poll_events(&frame[3..]),
        Polled { consumed: 2, event: Some(Event::SetRow(0x0102_0304)) }
    );
}

#[test]
fn events_surface_in_order() {
    let mut client = client_with_two_tracks();
    let stream = sample_stream();
    assert_eq!(
        run(&mut client, &stream, &[stream.len()]),
        vec![
            Event::SetRow(7),
            Event::Pause(true),
            Event::SaveTracks,
            Event::Pause(false),
            Event::SetRow(0xdead_beef),
        ]
    );
    assert_eq!(
        keys_of(&client, "a"),
        vec![
            Key::new(2, 0.5f32.to_bits(), Interpolation::Smooth),
            Key::new(10, 1.5f32.to_bits(), Interpolation::Linear),
        ]
    );
    assert_eq!(keys_of(&client, "b"), vec![Key::new(6, 8.0f32.to_bits(), Interpolation::Step)]);
}

#[test]
fn decoding_does_not_depend_on_how_the_stream_is_cut() {
    let stream = sample_stream();
    let mut whole = client_with_two_tracks();
    let expected = run(&mut whole, &stream, &[stream.len()]);
    let cuts: Vec<Vec<usize>> = vec![
        vec![1],
        vec![2],
        vec![3],
        vec![5],
        vec![13],
        vec![14],
        vec![15],
        vec![1, 13, 2, 7, 1, 1, 30],
        vec![4, 1, 9, 9, 2, 40, 1],
        vec![64],
    ];
    for sizes in cuts {
        let mut client = client_with_two_tracks();
        assert_eq!(run(&mut client, &stream, &sizes), expected, "pieces {:?}", sizes);
        assert_eq!(keys_of(&client, "a"), keys_of(&whole, "a"), "pieces {:?}", sizes);
        assert_eq!(keys_of(&client, "b"), keys_of(&whole, "b"), "pieces {:?}", sizes);
    }
}

#[test]
fn unknown_opcode_does_not_disturb_what_follows() {
    let stream = sample_stream();
    let mut plain = client_with_two_tracks();
    let expected = run(&mut plain, &stream, &[stream.len()]);
    for opcode in [2u8, 6, 7, 100, 255] {
        let mut noisy = vec![opcode];
        noisy.extend_from_slice(&stream);
        let mut client = client_with_two_tracks();
        assert_eq!(run(&mut client, &noisy, &[3]), expected);
        assert_eq!(keys_of(&client, "a"), keys_of(&plain, "a"));
        assert_eq!(keys_of(&client, "b"), keys_of(&plain, "b"));
    }
    let mut client = RocketClient::new();
    assert_eq!(client.poll_events(&[99]), Polled { consumed: 1, event: None });
    assert_eq!(
        client.poll_events(&[SAVE_TRACKS]),
        Polled { consumed: 1, event: Some(Event::SaveTracks) }
    );
}

#[test]
fn discard_partial_starts_over() {
    let mut client = client_with_two_tracks();
    assert_eq!(client.poll_events(&[SET_KEY, 0, 0]), Polled { consumed: 3, event: None });
    client.discard_partial();
    assert_eq!(
        client.poll_events(&[SAVE_TRACKS]),
        Polled { consumed: 1, event: Some(Event::SaveTracks) }
    );
    assert_eq!(client.save_tracks().len(), 2);
}

fn two_tracks() -> Tracks {
    let mut tracks = Tracks::default();
    tracks.push_new("test");
    tracks.push_new("other");
    tracks
}

#[test]
fn decoder_steps_through_a_frame() {
    let mut decoder = Decoder::new();
    let mut tracks = Tracks::default();
    assert_eq!(decoder.state, ClientState::New);
    assert!(decoder.cmd.is_empty());
    assert_eq!(decoder.poll_event_new(&[]), (0, ReceiveResult::Blocked));
    assert_eq!(decoder.state, ClientState::New);
    assert_eq!(decoder.poll_event_new(&[3, 0, 0]), (1, ReceiveResult::Incomplete));
    assert_eq!(decoder.state, ClientState::Incomplete(4));
    assert_eq!(decoder.poll_event_incomplete(4, &[]), (0, ReceiveResult::Blocked));
    assert_eq!(decoder.state, ClientState::Incomplete(4));
    assert_eq!(decoder.poll_event_incomplete(4, &[0, 0]), (2, ReceiveResult::Incomplete));
    assert_eq!(decoder.state, ClientState::Incomplete(2));
    assert_eq!(decoder.poll_event(&mut tracks, &[1, 2, 9, 9]), (2, ReceiveResult::Incomplete));
    assert_eq!(decoder.state, ClientState::Complete);
    assert_eq!(decoder.cmd, vec![3, 0, 0, 1, 2]);
    assert_eq!(
        decoder.poll_event(&mut tracks, &[9, 9]),
        (0, ReceiveResult::Event(Event::SetRow(258)))
    );
    assert_eq!(decoder.state, ClientState::New);
    assert!(decoder.cmd.is_empty());
}

#[test]
fn decoder_opcode_decides_the_body() {
    for (opcode, state) in [
        (0u8, ClientState::Incomplete(13)),
        (1, ClientState::Incomplete(8)),
        (2, ClientState::Complete),
        (3, ClientState::Incomplete(4)),
        (4, ClientState::Incomplete(1)),
        (5, ClientState::Complete),
        (6, ClientState::Complete),
        (255, ClientState::Complete),
    ] {
        let mut decoder = Decoder::new();
        assert_eq!(decoder.poll_event_new(&[opcode, 1, 2]), (1, ReceiveResult::Incomplete));
        assert_eq!(decoder.state, state);
        assert_eq!(decoder.cmd, vec![opcode]);
    }
}

#[test]
fn process_event_writes_the_key_into_the_track_of_its_index() {
    let mut tracks = two_tracks();
    let mut decoder = Decoder {
        state: ClientState::Complete,
        cmd: vec![0, 0, 0, 0, 0, 0, 0, 0, 5, 0x3f, 0x80, 0, 0, 1],
    };
    assert_eq!(decoder.process_event(&mut tracks), ReceiveResult::Incomplete);
    assert_eq!(decoder.state, ClientState::New);
    assert!(decoder.cmd.is_empty());
    assert_eq!(tracks.len(), 2);
    assert_eq!(tracks.as_slice()[0].get_name(), "test");
    assert_eq!(tracks.as_slice()[1].get_name(), "other");
    let test = tracks.get_track("test").unwrap();
    assert_eq!(test.keys(), &[Key::new(5, 1.0f32.to_bits(), Interpolation::Linear)][..]);
    assert_eq!(test.get_value(5, false), Sample::Constant(1.0f32.to_bits()));
    let other = tracks.get_track("other").unwrap();
    assert!(other.keys().is_empty());
    assert_eq!(other.get_value(5, false), Sample::Constant(0));
}

#[test]
fn process_event_deletes_from_the_track_of_its_index() {
    let mut tracks = two_tracks();
    tracks.set_key(0, Key::new(5, 7, Interpolation::Step));
    tracks.set_key(1, Key::new(5, 8, Interpolation::Step));
    let mut decoder = Decoder { state: ClientState::Complete, cmd: delete_key_frame(1, 5) };
    assert_eq!(decoder.process_event(&mut tracks), ReceiveResult::Incomplete);
    assert_eq!(tracks.as_slice()[0].keys().len(), 1);
    assert!(tracks.as_slice()[1].keys().is_empty());
}

#[test]
fn process_event_drops_an_unknown_opcode() {
    for opcode in [2u8, 6, 0x7f, 0xff] {
        let mut tracks = two_tracks();
        let mut decoder = Decoder { state: ClientState::Complete, cmd: vec![opcode] };
        assert_eq!(decoder.process_event(&mut tracks), ReceiveResult::Incomplete);
        assert_eq!(decoder.state, ClientState::New);
        assert!(decoder.cmd.is_empty());
        assert_eq!(tracks.len(), 2);
        assert!(tracks.as_slice()[0].keys().is_empty());
        assert!(tracks.as_slice()[1].keys().is_empty());
        assert_eq!(decoder.poll_event_new(&[5]), (1, ReceiveResult::Incomplete));
        assert_eq!(
            decoder.process_event(&mut tracks),
            ReceiveResult::Event(Event::SaveTracks)
        );
    }
}

#[test]
fn process_event_surfaces_events() {
    let mut tracks = Tracks::default();
    let mut decoder = Decoder { state: ClientState::Complete, cmd: vec![4, 1] };
    assert_eq!(decoder.process_event(&mut tracks), ReceiveResult::Event(Event::Pause(true)));
    let mut decoder = Decoder { state: ClientState::Complete, cmd: vec![4, 0] };
    assert_eq!(decoder.process_event(&mut tracks), ReceiveResult::Event(Event::Pause(false)));
    let mut decoder = Decoder { state: ClientState::Complete, cmd: set_row_frame(77) };
    assert_eq!(decoder.process_event(&mut tracks), ReceiveResult::Event(Event::SetRow(77)));
    let mut decoder = Decoder { state: ClientState::Complete, cmd: set_key_frame(0, 1, 1.0, 0) };
    assert_eq!(decoder.process_event(&mut tracks), ReceiveResult::Incomplete);
    assert_eq!(tracks.len(), 0);
}
