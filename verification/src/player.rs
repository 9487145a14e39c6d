//! Player code for playing previously saved tracks, [`RocketPlayer`].

use crate::track::{Track, TrackView};
use crate::tracks::Tracks;
use vstd::hash_map::StringHashMap;
use vstd::prelude::*;

verus! {

/// The tracks by name. Of tracks with the same name the last one counts.
pub open spec fn by_name(tracks: Seq<TrackView>) -> Map<Seq<char>, TrackView>
    decreases tracks.len(),
{
    if tracks.len() == 0 {
        Map::empty()
    } else {
        by_name(tracks.drop_last()).insert(tracks.last().name, tracks.last())
    }
}

/// A player for tracks that were saved from a client. It keeps the tracks in
/// a hash map under their names.
pub struct RocketPlayer {
    tracks: StringHashMap<Track>,
}

impl View for RocketPlayer {
    type V = Map<Seq<char>, TrackView>;

    closed spec fn view(&self) -> Map<Seq<char>, TrackView> {
        self.tracks@.map_values(|t: Track| t@)
    }
}

impl RocketPlayer {
    /// Constructs a `RocketPlayer` from `Track`s.
    pub fn new(tracks: Tracks) -> (player: RocketPlayer)
        ensures
            player@ == by_name(tracks@),
    {
        let mut kept: StringHashMap<Track> = StringHashMap::new();
        let given = tracks.as_slice();
        let mut i: usize = 0;
        assert(kept@.map_values(|t: Track| t@) =~= by_name(tracks@.take(0)));
        while i < given.len()
            invariant
                i <= given@.len(),
                given@.map_values(|t: Track| t@) == tracks@,
                kept@.map_values(|t: Track| t@) == by_name(tracks@.take(i as int)),
            decreases given@.len() - i,
        {
            let track = given[i].clone();
            let name = track.get_name().to_owned();
            proof {
                assert(track@ == tracks@[i as int]);
                assert(tracks@.take(i + 1).drop_last() =~= tracks@.take(i as int));
                assert(tracks@.take(i + 1).last() == tracks@[i as int]);
                assert(kept@.insert(name@, track).map_values(|t: Track| t@) =~= kept@.map_values(
                    |t: Track| t@,
                ).insert(name@, track@));
            }
            kept.insert(name, track);
            i += 1;
        }
        assert(tracks@.take(given@.len() as int) =~= tracks@);
        RocketPlayer { tracks: kept }
    }

    /// Get track by name.
    pub fn get_track(&self, name: &str) -> (track: Option<&Track>)
        ensures
            match track {
                Some(t) => self@.contains_key(name@) && t@ == self@[name@],
                None => !self@.contains_key(name@),
            },
    {
        self.tracks.get(name)
    }
}

} // verus!
