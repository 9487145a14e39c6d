use rust_rocket::interpolation::Interpolation;
use rust_rocket::player::RocketPlayer;
use rust_rocket::snapshot::TrackRecord;
use rust_rocket::track::{Key, Sample, Track};
use rust_rocket::tracks::Tracks;

fn key(row: u32, value: f32, interpolation: Interpolation) -> Key {
    Key::new(row, value.to_bits(), interpolation)
}

fn get_value(track: &Track, row: f32) -> f32 {
    let whole = row.floor() as u32;
    match track.get_value(whole, row > whole as f32) {
        Sample::Constant(bits) => f32::from_bits(bits),
        Sample::Between { lower, higher } => {
            let t = (row - (lower.row as f32)) / ((higher.row as f32) - (lower.row as f32));
            let it = match lower.interpolation {
                Interpolation::Step => 0.0,
                Interpolation::Linear => t,
                Interpolation::Smooth => t * t * (3.0 - 2.0 * t),
                Interpolation::Ramp => t.powi(2),
            };
            let low = f32::from_bits(lower.value);
            let high = f32::from_bits(higher.value);
            low + (high - low) * it
        }
    }
}

fn get_test_tracks() -> Tracks {
    Tracks::from(vec![
        {
            let mut track = Track::new("test1");
            track.set_key(key(0, 1.0, Interpolation::Step));
            track.set_key(key(5, 0.0, Interpolation::Step));
            track.set_key(key(10, 1.0, Interpolation::Step));
            track
        },
        {
            let mut track = Track::new("test2");
            track.set_key(key(0, 2.0, Interpolation::Step));
            track.set_key(key(5, 0.0, Interpolation::Step));
            track.set_key(key(10, 2.0, Interpolation::Step));
            track
        },
    ])
}

#[test]
fn finds_all_tracks() {
    let tracks = get_test_tracks();
    let player = RocketPlayer::new(tracks);

    assert_eq!(get_value(player.get_track("test1").unwrap(), 0.), 1.0);
    assert_eq!(get_value(player.get_track("test2").unwrap(), 0.), 2.0);
}

#[test]
fn no_surprise_tracks() {
    let tracks = get_test_tracks();
    let player = RocketPlayer::new(tracks);
    assert!(player
        .get_track("hello this track should not exist")
        .is_none());
}

#[test]
fn player_keeps_the_last_track_of_a_name() {
    let mut first = Track::new("twice");
    first.set_key(key(0, 1.0, Interpolation::Step));
    let mut other = Track::new("once");
    other.set_key(key(0, 5.0, Interpolation::Step));
    let mut second = Track::new("twice");
    second.set_key(key(0, 2.0, Interpolation::Step));
    let tracks = Tracks::from(vec![first, other, second]);
    assert_eq!(get_value(tracks.get_track("twice").unwrap(), 0.), 1.0);
    let player = RocketPlayer::new(tracks);
    assert_eq!(get_value(player.get_track("twice").unwrap(), 0.), 2.0);
    assert_eq!(get_value(player.get_track("once").unwrap(), 0.), 5.0);
}

#[test]
fn tracks_find_by_name() {
    let tracks = get_test_tracks();
    assert_eq!(tracks.len(), 2);
    assert_eq!(tracks.get_track("test2").unwrap().get_name(), "test2");
    assert!(tracks.get_track("test").is_none());
    assert!(tracks.get_track("test22").is_none());
    assert_eq!(tracks.position("test1"), Some(0));
    assert_eq!(tracks.position("test2"), Some(1));
    assert_eq!(tracks.as_slice().len(), 2);
    assert_eq!(tracks.as_slice()[1].get_name(), "test2");
}

#[test]
fn tracks_clear_and_default() {
    let mut tracks = get_test_tracks();
    tracks.clear();
    assert_eq!(tracks.len(), 0);
    assert!(tracks.get_track("test1").is_none());
    assert!(tracks.as_slice().is_empty());
    assert_eq!(Tracks::default().len(), 0);
}

#[test]
fn tracks_edit_by_index() {
    let mut tracks = get_test_tracks();
    tracks.push_new("test3");
    tracks.set_key(2, key(4, 4.0, Interpolation::Ramp));
    tracks.delete_key(0, 5);
    tracks.get_mut(1).delete_key(0);
    assert_eq!(tracks.as_slice()[0].keys().len(), 2);
    assert_eq!(tracks.as_slice()[1].keys().len(), 2);
    assert_eq!(tracks.as_slice()[2].keys(), &[key(4, 4.0, Interpolation::Ramp)][..]);
    tracks.push(Track::new("last"));
    assert_eq!(tracks.position("test1"), Some(0));
    assert_eq!(tracks.position("last"), Some(3));
}

#[test]
fn snapshot_roundtrip_keeps_names_and_keys() {
    let mut tracks = get_test_tracks();
    tracks.push_new("empty");
    let records = tracks.snapshot();
    assert_eq!(records.len(), 3);
    assert_eq!(records[0].name, "test1");
    assert_eq!(records[2].name, "empty");
    assert!(records[2].keys.is_empty());
    let restored = Tracks::restore(&records);
    assert_eq!(restored.len(), tracks.len());
    for (a, b) in restored.as_slice().iter().zip(tracks.as_slice()) {
        assert_eq!(a.get_name(), b.get_name());
        assert_eq!(a.keys(), b.keys());
    }
}

#[test]
fn snapshot_roundtrip_through_bincode() {
    let tracks = get_test_tracks();
    let plain: Vec<(String, Vec<(u32, f32, u32)>)> = tracks
        .snapshot()
        .into_iter()
        .map(|r| {
            (
                r.name,
                r.keys
                    .iter()
                    .map(|k| (k.row, f32::from_bits(k.value), k.interpolation.code() as u32))
                    .collect(),
            )
        })
        .collect();
    let conf = bincode::config::standard();
    let bytes = bincode::encode_to_vec(&plain, conf).unwrap();
    let (decoded, used): (Vec<(String, Vec<(u32, f32, u32)>)>, usize) =
        bincode::decode_from_slice(&bytes, conf).unwrap();
    assert_eq!(used, bytes.len());
    let records: Vec<TrackRecord> = decoded
        .into_iter()
        .map(|(name, keys)| TrackRecord {
            name,
            keys: keys
                .into_iter()
                .map(|(row, value, kind)| key(row, value, Interpolation::from(kind as u8)))
                .collect(),
        })
        .collect();
    let player = RocketPlayer::new(Tracks::restore(&records));
    for track in tracks.as_slice() {
        let loaded = player.get_track(track.get_name()).unwrap();
        assert_eq!(loaded.keys(), track.keys());
    }
}

#[test]
fn tracks_clone_is_equal() {
    let tracks = get_test_tracks();
    let copy = tracks.clone();
    assert_eq!(copy.len(), 2);
    for (a, b) in copy.as_slice().iter().zip(tracks.as_slice()) {
        assert_eq!(a.get_name(), b.get_name());
        assert_eq!(a.keys(), b.keys());
    }
}
