//! The collection of tracks.

use crate::track::{strictly_increasing, with_key, without_row, Key, Track, TrackView};
use vstd::prelude::*;
use vstd::std_specs::convert::FromSpecImpl;
use vstd::utf8::{encode_utf8, encode_utf8_decode_utf8};

verus! {

/// Whether two names are the same text.
pub fn same_name(a: &str, b: &str) -> (same: bool)
    ensures
        same == (a@ == b@),
{
    let x = a.as_bytes();
    let y = b.as_bytes();
    proof {
        encode_utf8_decode_utf8(a@);
        encode_utf8_decode_utf8(b@);
    }
    if x.len() != y.len() {
        return false;
    }
    let mut i: usize = 0;
    while i < x.len()
        invariant
            i <= x@.len(),
            x@.len() == y@.len(),
            x@ == encode_utf8(a@),
            y@ == encode_utf8(b@),
            forall|j: int| 0 <= j < i ==> x@[j] == y@[j],
        decreases x@.len() - i,
    {
        if x[i] != y[i] {
            return false;
        }
        i += 1;
    }
    assert(x@ =~= y@);
    true
}

/// The index of the first track with this name, or the number of tracks
/// where none has it.
pub open spec fn position_of(tracks: Seq<TrackView>, name: Seq<char>) -> int
    decreases tracks.len(),
{
    if tracks.len() == 0 || tracks[0].name == name {
        0
    } else {
        1 + position_of(tracks.drop_first(), name)
    }
}

/// Some track has this name.
pub open spec fn has_track(tracks: Seq<TrackView>, name: Seq<char>) -> bool {
    position_of(tracks, name) < tracks.len()
}

/// No two tracks have the same name.
pub open spec fn names_unique(tracks: Seq<TrackView>) -> bool {
    forall|i: int, j: int| 0 <= i < j < tracks.len() ==> tracks[i].name != tracks[j].name
}

/// The keys of every track are in strictly increasing order of row.
pub open spec fn all_ordered(tracks: Seq<TrackView>) -> bool {
    forall|i: int| 0 <= i < tracks.len() ==> strictly_increasing((#[trigger] tracks[i]).keys)
}

/// `position_of` is an index into `tracks` or its length, no track before it
/// has the name, and the track at it has.
pub proof fn lemma_position_of(tracks: Seq<TrackView>, name: Seq<char>)
    ensures
        0 <= position_of(tracks, name) <= tracks.len(),
        forall|i: int| 0 <= i < position_of(tracks, name) ==> (#[trigger] tracks[i]).name != name,
        position_of(tracks, name) < tracks.len() ==> tracks[position_of(tracks, name)].name == name,
    decreases tracks.len(),
{
    if tracks.len() == 0 || tracks[0].name == name {
    } else {
        let rest = tracks.drop_first();
        lemma_position_of(rest, name);
        let p = position_of(rest, name);
        assert forall|i: int| 0 <= i < p + 1 implies (#[trigger] tracks[i]).name != name by {
            if i > 0 {
                assert(tracks[i] == rest[i - 1]);
            }
        }
        if p + 1 < tracks.len() {
            assert(tracks[p + 1] == rest[p]);
        }
    }
}

/// A track with a name that no track has can be added without any name
/// occurring twice.
pub proof fn lemma_new_name_stays_unique(tracks: Seq<TrackView>, track: TrackView)
    requires
        names_unique(tracks),
        !has_track(tracks, track.name),
    ensures
        names_unique(tracks.push(track)),
{
    lemma_position_of(tracks, track.name);
}

/// An index before which no track has the name, and at which the track has
/// it, is the one that `position_of` names.
pub proof fn lemma_position_of_is(tracks: Seq<TrackView>, name: Seq<char>, p: int)
    requires
        0 <= p <= tracks.len(),
        forall|i: int| 0 <= i < p ==> (#[trigger] tracks[i]).name != name,
        p < tracks.len() ==> tracks[p].name == name,
    ensures
        position_of(tracks, name) == p,
{
    lemma_position_of(tracks, name);
    let q = position_of(tracks, name);
    if q < p {
        assert(tracks[q].name != name);
    } else if p < q {
        assert(tracks[p].name != name);
    }
}

/// A collection of tracks, in the order in which they were asked for.
#[derive(Debug)]
pub struct Tracks {
    inner: Vec<Track>,
}

impl View for Tracks {
    type V = Seq<TrackView>;

    closed spec fn view(&self) -> Seq<TrackView> {
        self.inner@.map_values(|t: Track| t@)
    }
}

impl Tracks {
    /// Get track by name: the first track that has it.
    pub fn get_track(&self, name: &str) -> (track: Option<&Track>)
        ensures
            match track {
                Some(t) => has_track(self@, name@) && t@ == self@[position_of(self@, name@)],
                None => !has_track(self@, name@),
            },
    {
        match self.position(name) {
            Some(index) => Some(&self.inner[index]),
            None => None,
        }
    }

    /// The index of the first track with this name.
    pub fn position(&self, name: &str) -> (index: Option<usize>)
        ensures
            match index {
                Some(i) => has_track(self@, name@) && i == position_of(self@, name@),
                None => !has_track(self@, name@),
            },
    {
        let mut i: usize = 0;
        while i < self.inner.len()
            invariant
                i <= self.inner@.len(),
                forall|j: int| 0 <= j < i ==> (#[trigger] self@[j]).name != name@,
            decreases self.inner@.len() - i,
        {
            if same_name(self.inner[i].get_name(), name) {
                proof {
                    lemma_position_of_is(self@, name@, i as int);
                }
                return Some(i);
            }
            i += 1;
        }
        proof {
            lemma_position_of_is(self@, name@, i as int);
        }
        None
    }

    /// Provides read only access to the tracks in the collection.
    pub fn as_slice(&self) -> (tracks: &[Track])
        ensures
            tracks@.map_values(|t: Track| t@) == self@,
    {
        self.inner.as_slice()
    }

    /// The number of tracks.
    pub fn len(&self) -> (len: usize)
        ensures
            len == self@.len(),
    {
        self.inner.len()
    }

    /// Drops all tracks in the collection.
    pub fn clear(&mut self)
        ensures
            final(self)@ == Seq::<TrackView>::empty(),
    {
        self.inner.clear();
        assert(self@ =~= Seq::<TrackView>::empty());
    }

    /// Adds a track without keys at the end.
    pub fn push_new(&mut self, name: &str)
        ensures
            final(self)@ == old(self)@.push(TrackView { name: name@, keys: Seq::empty() }),
    {
        self.inner.push(Track::new(name));
        assert(self@ =~= old(self)@.push(TrackView { name: name@, keys: Seq::empty() }));
    }

    /// The track at this index, for reading and for edits.
    pub fn get_mut(&mut self, index: usize) -> (track: &mut Track)
        requires
            index < old(self)@.len(),
        ensures
            track@ == old(self)@[index as int],
            final(self)@ =~= old(self)@.update(index as int, final(track)@),
        no_unwind
    {
        &mut self.inner[index]
    }

    /// Adds a track at the end.
    pub fn push(&mut self, track: Track)
        ensures
            final(self)@ == old(self)@.push(track@),
    {
        self.inner.push(track);
        assert(self@ =~= old(self)@.push(track@));
    }

    /// Writes a key into the track at this index.
    pub fn set_key(&mut self, index: usize, key: Key)
        requires
            index < old(self)@.len(),
        ensures
            final(self)@ == old(self)@.update(
                index as int,
                TrackView {
                    name: old(self)@[index as int].name,
                    keys: with_key(old(self)@[index as int].keys, key),
                },
            ),
    {
        self.inner[index].set_key(key);
        assert(self@ =~= old(self)@.update(
            index as int,
            TrackView {
                name: old(self)@[index as int].name,
                keys: with_key(old(self)@[index as int].keys, key),
            },
        ));
    }

    /// Takes the key at a row out of the track at this index.
    pub fn delete_key(&mut self, index: usize, row: u32)
        requires
            index < old(self)@.len(),
        ensures
            final(self)@ == old(self)@.update(
                index as int,
                TrackView {
                    name: old(self)@[index as int].name,
                    keys: without_row(old(self)@[index as int].keys, row),
                },
            ),
    {
        self.inner[index].delete_key(row);
        assert(self@ =~= old(self)@.update(
            index as int,
            TrackView {
                name: old(self)@[index as int].name,
                keys: without_row(old(self)@[index as int].keys, row),
            },
        ));
    }
}

impl Clone for Tracks {
    fn clone(&self) -> (tracks: Tracks)
        ensures
            tracks@ == self@,
    {
        let mut inner: Vec<Track> = Vec::new();
        let mut i: usize = 0;
        while i < self.inner.len()
            invariant
                i <= self.inner@.len(),
                inner@.len() == i,
                inner@.map_values(|t: Track| t@) == self@.take(i as int),
            decreases self.inner@.len() - i,
        {
            let ghost before = inner@;
            let track = self.inner[i].clone();
            assert(track@ == self@[i as int]);
            inner.push(track);
            i += 1;
            assert forall|j: int| 0 <= j < i implies inner@.map_values(|t: Track| t@)[j]
                == self@.take(i as int)[j] by {
                if j < i - 1 {
                    assert(inner@[j] == before[j]);
                    assert(before.map_values(|t: Track| t@)[j] == self@.take(i - 1)[j]);
                }
            }
            assert(inner@.map_values(|t: Track| t@) =~= self@.take(i as int));
        }
        assert(self@.take(self.inner@.len() as int) =~= self@);
        Tracks { inner }
    }
}

impl Default for Tracks {
    fn default() -> (tracks: Tracks)
        ensures
            tracks@ == Seq::<TrackView>::empty(),
    {
        let tracks = Tracks { inner: Vec::new() };
        assert(tracks@ =~= Seq::<TrackView>::empty());
        tracks
    }
}

impl FromSpecImpl<Vec<Track>> for Tracks {
    open spec fn obeys_from_spec() -> bool {
        true
    }

    closed spec fn from_spec(value: Vec<Track>) -> Tracks {
        Tracks { inner: value }
    }
}

impl From<Vec<Track>> for Tracks {
    fn from(value: Vec<Track>) -> (tracks: Tracks)
        ensures
            tracks@ == value@.map_values(|t: Track| t@),
    {
        Tracks { inner: value }
    }
}

} // verus!
