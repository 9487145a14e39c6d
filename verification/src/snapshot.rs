//! Tracks as plain data, for saving and loading.
//!
//! A [`TrackRecord`] is a name with a list of keys and promises nothing about
//! their order. Whatever codec writes tracks to disk works on records;
//! turning records back into tracks writes the keys one by one, so that what
//! is loaded is a well-ordered track whatever the file held.

use crate::track::{
    lemma_first_at_or_above_is, lemma_ordered_keys_determined, lemma_with_key,
    lemma_with_key_contains, strictly_increasing, with_key, Key, Track, TrackView,
};
use crate::tracks::{all_ordered, Tracks};
use vstd::prelude::*;

verus! {

/// One track as plain data: its name and its keys.
#[derive(Debug, Clone)]
pub struct TrackRecord {
    pub name: String,
    pub keys: Vec<Key>,
}

impl View for TrackRecord {
    type V = TrackView;

    open spec fn view(&self) -> TrackView {
        TrackView { name: self.name@, keys: self.keys@ }
    }
}

/// The keys of a track into which these keys were written one after the other.
pub open spec fn written(keys: Seq<Key>) -> Seq<Key>
    decreases keys.len(),
{
    if keys.len() == 0 {
        Seq::empty()
    } else {
        with_key(written(keys.drop_last()), keys.last())
    }
}

/// The track that a record is loaded as.
pub open spec fn loaded(record: TrackView) -> TrackView {
    TrackView { name: record.name, keys: written(record.keys) }
}

/// The tracks that records are loaded as.
pub open spec fn restored(records: Seq<TrackView>) -> Seq<TrackView> {
    records.map_values(|record: TrackView| loaded(record))
}

/// Keys that were written one after the other are in order.
pub proof fn lemma_written_is_ordered(keys: Seq<Key>)
    ensures
        strictly_increasing(written(keys)),
    decreases keys.len(),
{
    if keys.len() > 0 {
        lemma_written_is_ordered(keys.drop_last());
        lemma_with_key(written(keys.drop_last()), keys.last());
    }
}

/// Writing keys that are in order one after the other gives the same keys.
pub proof fn lemma_written_of_ordered(keys: Seq<Key>)
    requires
        strictly_increasing(keys),
    ensures
        written(keys) == keys,
    decreases keys.len(),
{
    if keys.len() > 0 {
        let front = keys.drop_last();
        let last = keys.last();
        lemma_written_of_ordered(front);
        assert forall|i: int| 0 <= i < front.len() implies (#[trigger] front[i]).row < last.row by {
            assert(front[i] == keys[i]);
            assert(keys[i].row < keys[keys.len() - 1].row);
        }
        lemma_first_at_or_above_is(front, last.row as int, front.len() as int);
        lemma_first_at_or_above_is(front, last.row + 1, front.len() as int);
        assert(with_key(front, last) =~= keys);
    }
}

/// No two of the keys have the same row.
pub open spec fn distinct_rows(keys: Seq<Key>) -> bool {
    forall|i: int, j: int| 0 <= i < j < keys.len() ==> keys[i].row != keys[j].row
}

/// A track into which keys of different rows were written holds exactly
/// those keys.
pub proof fn lemma_written_contains(keys: Seq<Key>, key: Key)
    requires
        distinct_rows(keys),
    ensures
        written(keys).contains(key) <==> keys.contains(key),
    decreases keys.len(),
{
    if keys.len() > 0 {
        let front = keys.drop_last();
        let last = keys.last();
        lemma_written_contains(front, key);
        lemma_written_is_ordered(front);
        lemma_with_key_contains(written(front), last, key);
        assert(keys[keys.len() - 1] == last);
        if front.contains(key) {
            let i = choose|i: int| 0 <= i < front.len() && front[i] == key;
            assert(keys[i] == key);
            assert(keys[i].row != keys[keys.len() - 1].row);
        }
        if keys.contains(key) && key != last {
            let i = choose|i: int| 0 <= i < keys.len() && keys[i] == key;
            assert(front[i] == key);
        }
    }
}

/// Keys of different rows can be written in any order: the track ends up
/// the same.
pub proof fn lemma_written_in_any_order(a: Seq<Key>, b: Seq<Key>)
    requires
        distinct_rows(a),
        distinct_rows(b),
        forall|key: Key| a.contains(key) <==> b.contains(key),
    ensures
        written(a) == written(b),
{
    lemma_written_is_ordered(a);
    lemma_written_is_ordered(b);
    assert forall|key: Key| written(a).contains(key) <==> written(b).contains(key) by {
        lemma_written_contains(a, key);
        lemma_written_contains(b, key);
    }
    lemma_ordered_keys_determined(written(a), written(b));
}

/// Saving tracks as records and loading the records gives the same tracks:
/// the same names in the same order, each with the same keys in the same
/// order.
pub proof fn lemma_snapshot_roundtrip(tracks: Seq<TrackView>)
    requires
        all_ordered(tracks),
    ensures
        restored(tracks) == tracks,
{
    assert forall|i: int| 0 <= i < tracks.len() implies restored(tracks)[i] == tracks[i] by {
        lemma_written_of_ordered(tracks[i].keys);
    }
    assert(restored(tracks) =~= tracks);
}

impl Track {
    /// The track as plain data.
    pub fn to_record(&self) -> (record: TrackRecord)
        ensures
            record@ == self@,
            strictly_increasing(record@.keys),
    {
        let keys = self.keys();
        let mut copied: Vec<Key> = Vec::new();
        let mut i: usize = 0;
        while i < keys.len()
            invariant
                i <= keys@.len(),
                copied@ == keys@.take(i as int),
            decreases keys@.len() - i,
        {
            copied.push(keys[i]);
            i += 1;
            assert(copied@ =~= keys@.take(i as int));
        }
        assert(keys@.take(keys@.len() as int) =~= keys@);
        TrackRecord { name: self.get_name().to_owned(), keys: copied }
    }

    /// The track with the name of the record, into which the keys of the
    /// record were written one after the other.
    pub fn from_record(record: &TrackRecord) -> (track: Track)
        ensures
            track@ == loaded(record@),
    {
        let mut track = Track::new(record.name.as_str());
        let mut i: usize = 0;
        assert(record.keys@.take(0) =~= Seq::<Key>::empty());
        while i < record.keys.len()
            invariant
                i <= record.keys@.len(),
                track@.name == record.name@,
                track@.keys == written(record.keys@.take(i as int)),
            decreases record.keys@.len() - i,
        {
            proof {
                assert(record.keys@.take(i + 1).drop_last() =~= record.keys@.take(i as int));
            }
            track.set_key(record.keys[i]);
            i += 1;
        }
        assert(record.keys@.take(record.keys@.len() as int) =~= record.keys@);
        track
    }
}

impl Tracks {
    /// The tracks as plain data, in order.
    pub fn snapshot(&self) -> (records: Vec<TrackRecord>)
        ensures
            records@.map_values(|r: TrackRecord| r@) == self@,
            all_ordered(self@),
    {
        let tracks = self.as_slice();
        let mut records: Vec<TrackRecord> = Vec::new();
        let mut i: usize = 0;
        while i < tracks.len()
            invariant
                i <= tracks@.len(),
                tracks@.map_values(|t: Track| t@) == self@,
                records@.len() == i,
                forall|j: int| 0 <= j < i ==> (#[trigger] records@[j])@ == self@[j],
                forall|j: int| 0 <= j < i ==> strictly_increasing((#[trigger] self@[j]).keys),
            decreases tracks@.len() - i,
        {
            let record = tracks[i].to_record();
            assert(tracks@.map_values(|t: Track| t@)[i as int] == tracks@[i as int]@);
            records.push(record);
            i += 1;
        }
        assert(records@.map_values(|r: TrackRecord| r@) =~= self@);
        records
    }

    /// The tracks that these records are loaded as, in order.
    pub fn restore(records: &Vec<TrackRecord>) -> (tracks: Tracks)
        ensures
            tracks@ == restored(records@.map_values(|r: TrackRecord| r@)),
    {
        let mut tracks = Tracks::default();
        let mut i: usize = 0;
        while i < records.len()
            invariant
                i <= records@.len(),
                tracks@.len() == i,
                forall|j: int| 0 <= j < i ==> (#[trigger] tracks@[j]) == loaded(records@[j]@),
            decreases records@.len() - i,
        {
            let track = Track::from_record(&records[i]);
            tracks.push(track);
            i += 1;
        }
        assert(tracks@ =~= restored(records@.map_values(|r: TrackRecord| r@)));
        tracks
    }
}

} // verus!
