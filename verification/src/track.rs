//! Keys and tracks.

use crate::interpolation::Interpolation;
use vstd::prelude::*;

verus! {

/// One keyframe: at `row` the track has `value`, and `interpolation` is the
/// curve that leads from this key to the next one.
///
/// `value` is the IEEE 754 bit pattern of a 32-bit float, as it travels on the
/// wire. The store never does arithmetic on it.
#[derive(Debug, Clone, Copy, PartialEq, Eq, Structural)]
pub struct Key {
    pub row: u32,
    pub value: u32,
    pub interpolation: Interpolation,
}

impl Key {
    /// Construct a new `Key`.
    pub fn new(row: u32, value: u32, interp: Interpolation) -> (key: Key)
        ensures
            key == (Key { row, value, interpolation: interp }),
    {
        Key { row, value, interpolation: interp }
    }
}

/// What a track yields at a row: either a value as it stands, or the two keys
/// between which the caller has to interpolate.
#[derive(Debug, Clone, Copy, PartialEq, Eq, Structural)]
pub enum Sample {
    /// The value is this bit pattern.
    Constant(u32),
    /// The row lies between two keys. The curve is that of `lower`.
    Between { lower: Key, higher: Key },
}

/// The rows grow strictly from each key to the next, so no row occurs twice.
pub open spec fn strictly_increasing(keys: Seq<Key>) -> bool {
    forall|i: int, j: int| 0 <= i < j < keys.len() ==> keys[i].row < keys[j].row
}

/// Some key sits at `row`.
pub open spec fn has_row(keys: Seq<Key>, row: u32) -> bool {
    exists|i: int| 0 <= i < keys.len() && (#[trigger] keys[i]).row == row
}

/// The index of the first key whose row is `bound` or more, or the length
/// where there is none.
pub open spec fn first_at_or_above(keys: Seq<Key>, bound: int) -> int
    decreases keys.len(),
{
    if keys.len() == 0 || keys[0].row >= bound {
        0
    } else {
        1 + first_at_or_above(keys.drop_first(), bound)
    }
}

/// The keys after `key` was written: the keys before its row, the key itself,
/// and the keys after its row.
pub open spec fn with_key(keys: Seq<Key>, key: Key) -> Seq<Key> {
    keys.subrange(0, first_at_or_above(keys, key.row as int)) + seq![key] + keys.subrange(
        first_at_or_above(keys, key.row + 1),
        keys.len() as int,
    )
}

/// The keys after the key at `row`, if there was one, was taken out.
pub open spec fn without_row(keys: Seq<Key>, row: u32) -> Seq<Key> {
    keys.subrange(0, first_at_or_above(keys, row as int)) + keys.subrange(
        first_at_or_above(keys, row + 1),
        keys.len() as int,
    )
}

/// The point lies at or before `bound`. A point is given by `row`, the whole
/// row at or before it, and by `past`, which says whether it lies after that
/// whole row.
pub open spec fn at_or_before(row: u32, past: bool, bound: u32) -> bool {
    row < bound || (row == bound && !past)
}

/// What a track with these keys yields at a point, given by `row`, the whole
/// row at or before it, and by `past`, which says whether the point lies
/// after that whole row.
///
/// No keys give the bit pattern of `0.0`. A point at or before the first key
/// gives the first value, a point at or after the last key the last value.
/// Any other point gives the pair of neighbours that has it between them, the
/// lower one at or before the whole row and the higher one after it.
pub open spec fn sample_at(keys: Seq<Key>, row: u32, past: bool) -> Sample {
    if keys.len() == 0 {
        Sample::Constant(0)
    } else if at_or_before(row, past, keys.first().row) {
        Sample::Constant(keys.first().value)
    } else if row >= keys.last().row {
        Sample::Constant(keys.last().value)
    } else {
        Sample::Between {
            lower: keys[first_at_or_above(keys, row + 1) - 1],
            higher: keys[first_at_or_above(keys, row + 1)],
        }
    }
}

/// `first_at_or_above` is an index into `keys` or its length, every key before
/// it lies below the bound, and the key at it does not.
pub proof fn lemma_first_at_or_above(keys: Seq<Key>, bound: int)
    ensures
        0 <= first_at_or_above(keys, bound) <= keys.len(),
        forall|i: int| 0 <= i < first_at_or_above(keys, bound) ==> (#[trigger] keys[i]).row < bound,
        first_at_or_above(keys, bound) < keys.len() ==> keys[first_at_or_above(keys, bound)].row
            >= bound,
    decreases keys.len(),
{
    if keys.len() == 0 || keys[0].row >= bound {
    } else {
        let rest = keys.drop_first();
        lemma_first_at_or_above(rest, bound);
        let p = first_at_or_above(rest, bound);
        assert forall|i: int| 0 <= i < p + 1 implies (#[trigger] keys[i]).row < bound by {
            if i > 0 {
                assert(keys[i] == rest[i - 1]);
            }
        }
        if p + 1 < keys.len() {
            assert(keys[p + 1] == rest[p]);
        }
    }
}

/// An index that splits `keys` into rows below the bound and a key at or above
/// it is the one that `first_at_or_above` names.
pub proof fn lemma_first_at_or_above_is(keys: Seq<Key>, bound: int, p: int)
    requires
        0 <= p <= keys.len(),
        forall|i: int| 0 <= i < p ==> (#[trigger] keys[i]).row < bound,
        p < keys.len() ==> keys[p].row >= bound,
    ensures
        first_at_or_above(keys, bound) == p,
{
    lemma_first_at_or_above(keys, bound);
    let q = first_at_or_above(keys, bound);
    if q < p {
        assert(keys[q].row < bound);
    } else if p < q {
        assert(keys[p].row < bound);
    }
}

/// With rows that grow, every key from `first_at_or_above` on is at or above
/// the bound.
pub proof fn lemma_above_from(keys: Seq<Key>, bound: int)
    requires
        strictly_increasing(keys),
    ensures
        forall|i: int|
            first_at_or_above(keys, bound) <= i < keys.len() ==> (#[trigger] keys[i]).row >= bound,
{
    lemma_first_at_or_above(keys, bound);
    let p = first_at_or_above(keys, bound);
    assert forall|i: int| p <= i < keys.len() implies (#[trigger] keys[i]).row >= bound by {
        if p < i {
            assert(keys[p].row < keys[i].row);
        }
    }
}


/// What a track is to its users: its name and its keys in order.
pub struct TrackView {
    pub name: Seq<char>,
    pub keys: Seq<Key>,
}

/// A named sequence of keys, kept in strictly increasing order of row.
#[derive(Debug)]
pub struct Track {
    name: String,
    keys: Vec<Key>,
}

impl View for Track {
    type V = TrackView;

    closed spec fn view(&self) -> TrackView {
        TrackView { name: self.name@, keys: self.keys@ }
    }
}

impl Track {
    #[verifier::type_invariant]
    spec fn ordered(&self) -> bool {
        strictly_increasing(self.keys@)
    }

    /// Construct a new Track with a name.
    pub fn new(name: &str) -> (track: Track)
        ensures
            track@.name == name@,
            track@.keys == Seq::<Key>::empty(),
    {
        Track { name: name.to_owned(), keys: Vec::new() }
    }

    /// Get the name of the track.
    pub fn get_name(&self) -> (name: &str)
        ensures
            name@ == self@.name,
    {
        self.name.as_str()
    }

    /// The keys of the track, in order.
    pub fn keys(&self) -> (keys: &[Key])
        ensures
            keys@ == self@.keys,
            strictly_increasing(keys@),
    {
        proof {
            use_type_invariant(self);
        }
        self.keys.as_slice()
    }

    /// The index of the first key whose row is `bound` or more, or the number
    /// of keys where there is none.
    fn first_at_or_above(&self, bound: u64) -> (pos: usize)
        ensures
            pos == first_at_or_above(self.keys@, bound as int),
            pos <= self.keys@.len(),
    {
        let mut pos: usize = 0;
        while pos < self.keys.len() && (self.keys[pos].row as u64) < bound
            invariant
                pos <= self.keys@.len(),
                forall|i: int| 0 <= i < pos ==> (#[trigger] self.keys@[i]).row < bound,
            decreases self.keys@.len() - pos,
        {
            pos += 1;
        }
        proof {
            lemma_first_at_or_above_is(self.keys@, bound as int, pos as int);
        }
        pos
    }

    fn get_exact_position(&self, row: u32) -> (pos: Option<usize>)
        ensures
            match pos {
                Some(p) => p == first_at_or_above(self.keys@, row as int) && p < self.keys@.len()
                    && self.keys@[p as int].row == row,
                None => !has_row(self.keys@, row),
            },
    {
        proof {
            use_type_invariant(self);
            lemma_first_at_or_above(self.keys@, row as int);
            lemma_above_from(self.keys@, row as int);
        }
        let pos = self.first_at_or_above(row as u64);
        if pos < self.keys.len() && self.keys[pos].row == row {
            Some(pos)
        } else {
            None
        }
    }

    fn get_insert_position(&self, row: u32) -> (pos: Option<usize>)
        ensures
            match pos {
                Some(p) => p == first_at_or_above(self.keys@, row as int) && p < self.keys@.len(),
                None => first_at_or_above(self.keys@, row as int) == self.keys@.len(),
            },
    {
        let pos = self.first_at_or_above(row as u64);
        if pos < self.keys.len() {
            Some(pos)
        } else {
            None
        }
    }

    fn get_lower_bound_position(&self, row: u32) -> (pos: usize)
        requires
            self.keys@.len() > 0,
            self.keys@[0].row <= row,
        ensures
            pos == first_at_or_above(self.keys@, row + 1) - 1,
            pos < self.keys@.len(),
    {
        let above = self.first_at_or_above(row as u64 + 1);
        proof {
            lemma_first_at_or_above(self.keys@, row + 1);
        }
        above - 1
    }

    /// Insert or update a key on a track.
    ///
    /// A key at the same row is replaced. Otherwise the key goes in before the
    /// first key with a higher row, or to the end where there is none.
    pub fn set_key(&mut self, key: Key)
        ensures
            final(self)@.name == old(self)@.name,
            final(self)@.keys == with_key(old(self)@.keys, key),
            strictly_increasing(final(self)@.keys),
    {
        proof {
            use_type_invariant(&*self);
            lemma_with_key(self.keys@, key);
        }
        let exact = self.get_exact_position(key.row);
        let insert = self.get_insert_position(key.row);
        let mut keys: Vec<Key> = Vec::new();
        std::mem::swap(&mut keys, &mut self.keys);
        if let Some(pos) = exact {
            keys[pos] = key;
        } else if let Some(pos) = insert {
            keys.insert(pos, key);
        } else {
            keys.push(key);
        }
        assert(keys@ =~= with_key(old(self).keys@, key));
        self.keys = keys;
    }

    /// Delete a key from a track.
    ///
    /// If a key does not exist this will do nothing.
    pub fn delete_key(&mut self, row: u32)
        ensures
            final(self)@.name == old(self)@.name,
            final(self)@.keys == without_row(old(self)@.keys, row),
            !has_row(old(self)@.keys, row) ==> final(self)@.keys == old(self)@.keys,
            strictly_increasing(final(self)@.keys),
    {
        proof {
            use_type_invariant(&*self);
            lemma_without_row(self.keys@, row);
        }
        if let Some(pos) = self.get_exact_position(row) {
            let mut keys: Vec<Key> = Vec::new();
            std::mem::swap(&mut keys, &mut self.keys);
            keys.remove(pos);
            self.keys = keys;
        }
        assert(self.keys@ =~= without_row(old(self).keys@, row));
    }

    /// What the track yields at a point.
    ///
    /// `row` is the whole row at or before the point asked for (row 0 for a
    /// point before it), and `past` says whether the point lies after that
    /// whole row. A track without keys yields the bit pattern of `0.0`. At or
    /// before the first key the track yields the first value, at or after the
    /// last key the last value. In between it yields the two keys around the
    /// point; the value there is `lower.value + (higher.value - lower.value) * e`,
    /// with `e` the phase `(point - lower.row) / (higher.row - lower.row)`
    /// eased by the curve of the lower key.
    pub fn get_value(&self, row: u32, past: bool) -> (sample: Sample)
        ensures
            sample == sample_at(self@.keys, row, past),
            self@.keys.len() > 0 && at_or_before(row, past, self@.keys.first().row) ==> sample
                == Sample::Constant(self@.keys.first().value),
            self@.keys.len() > 0 && row >= self@.keys.last().row ==> sample == Sample::Constant(
                self@.keys.last().value,
            ),
            self@.keys.len() > 0 && !at_or_before(row, past, self@.keys.first().row) && row
                < self@.keys.last().row ==> (sample matches Sample::Between { lower, higher }
                && lower.row <= row < higher.row),
    {
        proof {
            use_type_invariant(self);
            if self.keys@.len() > 0 {
                lemma_sample_clamps(self.keys@, row, past);
            }
        }
        if self.keys.is_empty() {
            return Sample::Constant(0);
        }
        if row < self.keys[0].row || (row == self.keys[0].row && !past) {
            return Sample::Constant(self.keys[0].value);
        }
        if row >= self.keys[self.keys.len() - 1].row {
            return Sample::Constant(self.keys[self.keys.len() - 1].value);
        }
        let pos = self.get_lower_bound_position(row);
        proof {
            lemma_first_at_or_above(self.keys@, row + 1);
            lemma_above_from(self.keys@, row + 1);
        }
        Sample::Between { lower: self.keys[pos], higher: self.keys[pos + 1] }
    }
}

impl Clone for Track {
    fn clone(&self) -> (track: Track)
        ensures
            track@ == self@,
    {
        proof {
            use_type_invariant(self);
        }
        let mut keys: Vec<Key> = Vec::new();
        let mut i: usize = 0;
        while i < self.keys.len()
            invariant
                i <= self.keys@.len(),
                keys@ == self.keys@.take(i as int),
            decreases self.keys@.len() - i,
        {
            keys.push(self.keys[i]);
            i += 1;
            assert(keys@ =~= self.keys@.take(i as int));
        }
        assert(keys@ =~= self.keys@);
        Track { name: self.name.clone(), keys }
    }
}

/// Writing a key into ordered keys leaves them ordered, replaces the key at
/// that row where there is one and makes room for it where there is none.
pub proof fn lemma_with_key(keys: Seq<Key>, key: Key)
    requires
        strictly_increasing(keys),
    ensures
        strictly_increasing(with_key(keys, key)),
        with_key(keys, key)[first_at_or_above(keys, key.row as int)] == key,
        has_row(keys, key.row) ==> with_key(keys, key) == keys.update(
            first_at_or_above(keys, key.row as int),
            key,
        ),
        !has_row(keys, key.row) ==> with_key(keys, key) == keys.insert(
            first_at_or_above(keys, key.row as int),
            key,
        ),
{
    let p = first_at_or_above(keys, key.row as int);
    let q = first_at_or_above(keys, key.row + 1);
    lemma_split(keys, key.row);
    let s = with_key(keys, key);
    assert forall|i: int, j: int| 0 <= i < j < s.len() implies s[i].row < s[j].row by {
        if j < p {
            assert(s[i] == keys[i] && s[j] == keys[j]);
        } else if j == p {
            assert(s[i] == keys[i]);
        } else if i < p {
            assert(s[i] == keys[i] && s[j] == keys[j - p - 1 + q]);
        } else if i == p {
            assert(s[j] == keys[j - p - 1 + q]);
        } else {
            assert(s[i] == keys[i - p - 1 + q] && s[j] == keys[j - p - 1 + q]);
        }
    }
    if has_row(keys, key.row) {
        assert(s =~= keys.update(p, key));
    } else {
        assert(s =~= keys.insert(p, key));
    }
}

/// Taking a row out of ordered keys leaves them ordered, removes the key at
/// that row where there is one and changes nothing where there is none.
pub proof fn lemma_without_row(keys: Seq<Key>, row: u32)
    requires
        strictly_increasing(keys),
    ensures
        strictly_increasing(without_row(keys, row)),
        !has_row(without_row(keys, row), row),
        has_row(keys, row) ==> without_row(keys, row) == keys.remove(
            first_at_or_above(keys, row as int),
        ),
        !has_row(keys, row) ==> without_row(keys, row) == keys,
{
    let p = first_at_or_above(keys, row as int);
    let q = first_at_or_above(keys, row + 1);
    lemma_split(keys, row);
    let s = without_row(keys, row);
    assert forall|i: int, j: int| 0 <= i < j < s.len() implies s[i].row < s[j].row by {
        if j < p {
            assert(s[i] == keys[i] && s[j] == keys[j]);
        } else if i < p {
            assert(s[i] == keys[i] && s[j] == keys[j - p + q]);
        } else {
            assert(s[i] == keys[i - p + q] && s[j] == keys[j - p + q]);
        }
    }
    assert forall|i: int| 0 <= i < s.len() implies (#[trigger] s[i]).row != row by {
        if i < p {
            assert(s[i] == keys[i]);
        } else {
            assert(s[i] == keys[i - p + q]);
        }
    }
    if has_row(keys, row) {
        assert(s =~= keys.remove(p));
    } else {
        assert(s =~= keys);
    }
}

/// How ordered keys fall apart at a row: the keys below it, the key at it if
/// there is one, and the keys above it.
pub proof fn lemma_split(keys: Seq<Key>, row: u32)
    requires
        strictly_increasing(keys),
    ensures
        0 <= first_at_or_above(keys, row as int) <= first_at_or_above(keys, row + 1) <= keys.len(),
        forall|i: int|
            0 <= i < first_at_or_above(keys, row as int) ==> (#[trigger] keys[i]).row < row,
        forall|i: int|
            first_at_or_above(keys, row + 1) <= i < keys.len() ==> (#[trigger] keys[i]).row > row,
        has_row(keys, row) ==> first_at_or_above(keys, row + 1) == first_at_or_above(
            keys,
            row as int,
        ) + 1 && keys[first_at_or_above(keys, row as int)].row == row,
        !has_row(keys, row) ==> first_at_or_above(keys, row + 1) == first_at_or_above(
            keys,
            row as int,
        ),
{
    let p = first_at_or_above(keys, row as int);
    let q = first_at_or_above(keys, row + 1);
    lemma_first_at_or_above(keys, row as int);
    lemma_first_at_or_above(keys, row + 1);
    lemma_above_from(keys, row as int);
    lemma_above_from(keys, row + 1);
    if q < p {
        assert(keys[q].row < row);
    }
    if p < keys.len() && keys[p].row == row {
        assert(has_row(keys, row));
        if p + 1 < keys.len() {
            assert(keys[p].row < keys[p + 1].row);
        }
        lemma_first_at_or_above_is(keys, row + 1, p + 1);
    } else {
        if has_row(keys, row) {
            let i = choose|i: int| 0 <= i < keys.len() && (#[trigger] keys[i]).row == row;
            if i < p {
                assert(keys[i].row < row);
            } else {
                assert(keys[i].row >= row);
                assert(keys[p].row < keys[i].row || i == p);
            }
            assert(false);
        }
        lemma_first_at_or_above_is(keys, row + 1, p);
    }
}


/// At or before the first key a track yields the first value, and at or after
/// the last key the last value.
pub proof fn lemma_sample_clamps(keys: Seq<Key>, row: u32, past: bool)
    requires
        strictly_increasing(keys),
        keys.len() > 0,
    ensures
        at_or_before(row, past, keys.first().row) ==> sample_at(keys, row, past)
            == Sample::Constant(keys.first().value),
        row >= keys.last().row ==> sample_at(keys, row, past) == Sample::Constant(
            keys.last().value,
        ),
{
    if row >= keys.last().row && row <= keys.first().row && keys.len() > 1 {
        assert(keys[0].row < keys[keys.len() - 1].row);
    }
}

/// Every point from one key up to, but not including, the next yields that
/// pair of keys, so the curve and the two values are the same over the whole
/// span. The one exception is the point of the first key itself, which yields
/// the first value as it stands.
pub proof fn lemma_sample_between(keys: Seq<Key>, i: int, row: u32, past: bool)
    requires
        strictly_increasing(keys),
        0 <= i,
        i + 1 < keys.len(),
        keys[i].row <= row < keys[i + 1].row,
    ensures
        sample_at(keys, row, past) == if i == 0 && row == keys[0].row && !past {
            Sample::Constant(keys[0].value)
        } else {
            Sample::Between { lower: keys[i], higher: keys[i + 1] }
        },
{
    assert(keys[i + 1].row <= keys[keys.len() - 1].row) by {
        if i + 1 < keys.len() - 1 {
            assert(keys[i + 1].row < keys[keys.len() - 1].row);
        }
    }
    assert(keys[0].row <= keys[i].row) by {
        if 0 < i {
            assert(keys[0].row < keys[i].row);
        }
    }
    assert(first_at_or_above(keys, row + 1) == i + 1) by {
        assert forall|j: int| 0 <= j < i + 1 implies (#[trigger] keys[j]).row < row + 1 by {
            if j < i {
                assert(keys[j].row < keys[i].row);
            }
        }
        lemma_first_at_or_above_is(keys, row + 1, i + 1);
    }
}

/// Right after a key was written, the track yields at the point of the
/// key's own row either the key's value as it stands, or the key as the lower one of a pair,
/// whatever was written before and in whatever order.
pub proof fn lemma_sample_after_set(keys: Seq<Key>, key: Key)
    requires
        strictly_increasing(keys),
    ensures
        ({
            let written = with_key(keys, key);
            let at = first_at_or_above(keys, key.row as int);
            &&& 0 <= at < written.len()
            &&& written[at] == key
            &&& sample_at(written, key.row, false) == if at == 0 || at == written.len() - 1 {
                Sample::Constant(key.value)
            } else {
                Sample::Between { lower: key, higher: written[at + 1] }
            }
        }),
{
    let written = with_key(keys, key);
    let at = first_at_or_above(keys, key.row as int);
    lemma_split(keys, key.row);
    lemma_with_key(keys, key);
    if 0 < at && at < written.len() - 1 {
        assert(written[at].row < written[at + 1].row);
        lemma_sample_between(written, at, key.row, false);
    } else if at == 0 {
    } else {
        lemma_sample_clamps(written, key.row, false);
        assert(written[0].row < written[at].row);
    }
}

/// Ordered keys are determined by which keys they hold.
pub proof fn lemma_ordered_keys_determined(a: Seq<Key>, b: Seq<Key>)
    requires
        strictly_increasing(a),
        strictly_increasing(b),
        forall|k: Key| a.contains(k) <==> b.contains(k),
    ensures
        a == b,
    decreases a.len(),
{
    if a.len() == 0 {
        if b.len() > 0 {
            assert(b.contains(b[0]));
        }
        assert(a =~= b);
    } else {
        let x = a.last();
        assert(a[a.len() - 1] == x);
        assert(a.contains(x));
        let j = choose|j: int| 0 <= j < b.len() && b[j] == x;
        if j < b.len() - 1 {
            let y = b.last();
            assert(b[b.len() - 1] == y);
            assert(b.contains(y));
            let i = choose|i: int| 0 <= i < a.len() && a[i] == y;
            assert(b[j].row < b[b.len() - 1].row);
            if i < a.len() - 1 {
                assert(a[i].row < a[a.len() - 1].row);
            }
        }
        let a1 = a.drop_last();
        let b1 = b.drop_last();
        assert forall|k: Key| a1.contains(k) <==> b1.contains(k) by {
            if a1.contains(k) {
                let i = choose|i: int| 0 <= i < a1.len() && a1[i] == k;
                assert(a[i] == k);
                assert(a[i].row < a[a.len() - 1].row);
                assert(a.contains(k));
                let m = choose|m: int| 0 <= m < b.len() && b[m] == k;
                assert(b1[m] == k);
            }
            if b1.contains(k) {
                let i = choose|i: int| 0 <= i < b1.len() && b1[i] == k;
                assert(b[i] == k);
                assert(b[i].row < b[b.len() - 1].row);
                assert(b.contains(k));
                let m = choose|m: int| 0 <= m < a.len() && a[m] == k;
                assert(a1[m] == k);
            }
        }
        lemma_ordered_keys_determined(a1, b1);
        assert(a =~= a1.push(x));
        assert(b =~= b1.push(x));
    }
}

/// After a key was written the track holds that key, and of the keys it held
/// before those at other rows.
pub proof fn lemma_with_key_contains(keys: Seq<Key>, key: Key, k: Key)
    requires
        strictly_increasing(keys),
    ensures
        with_key(keys, key).contains(k) <==> k == key || (keys.contains(k) && k.row != key.row),
{
    let p = first_at_or_above(keys, key.row as int);
    let q = first_at_or_above(keys, key.row + 1);
    let s = with_key(keys, key);
    lemma_split(keys, key.row);
    assert(s[p] == key);
    if s.contains(k) && k != key {
        let i = choose|i: int| 0 <= i < s.len() && s[i] == k;
        if i < p {
            assert(keys[i] == k);
        } else {
            assert(keys[i - p - 1 + q] == k);
        }
    }
    if keys.contains(k) && k.row != key.row {
        let i = choose|i: int| 0 <= i < keys.len() && keys[i] == k;
        if i < p {
            assert(s[i] == k);
        } else {
            assert(i >= q) by {
                if has_row(keys, key.row) {
                    assert(i != p);
                }
            }
            assert(s[i - q + p + 1] == k);
        }
    }
}

/// Keys written at different rows can be written in either order: the track
/// ends up the same.
pub proof fn lemma_set_key_commutes(keys: Seq<Key>, a: Key, b: Key)
    requires
        strictly_increasing(keys),
        a.row != b.row,
    ensures
        with_key(with_key(keys, a), b) == with_key(with_key(keys, b), a),
{
    let ka = with_key(keys, a);
    let kb = with_key(keys, b);
    lemma_with_key(keys, a);
    lemma_with_key(keys, b);
    lemma_with_key(ka, b);
    lemma_with_key(kb, a);
    assert forall|k: Key| with_key(ka, b).contains(k) <==> with_key(kb, a).contains(k) by {
        lemma_with_key_contains(keys, a, k);
        lemma_with_key_contains(keys, b, k);
        lemma_with_key_contains(ka, b, k);
        lemma_with_key_contains(kb, a, k);
    }
    lemma_ordered_keys_determined(with_key(ka, b), with_key(kb, a));
}

/// Of two keys written at the same row, the second one stays.
pub proof fn lemma_set_key_overwrites(keys: Seq<Key>, a: Key, b: Key)
    requires
        strictly_increasing(keys),
        a.row == b.row,
    ensures
        with_key(with_key(keys, a), b) == with_key(keys, b),
{
    let ka = with_key(keys, a);
    lemma_with_key(keys, a);
    lemma_with_key(keys, b);
    lemma_with_key(ka, b);
    assert forall|k: Key| with_key(ka, b).contains(k) <==> with_key(keys, b).contains(k) by {
        lemma_with_key_contains(keys, a, k);
        lemma_with_key_contains(keys, b, k);
        lemma_with_key_contains(ka, b, k);
    }
    lemma_ordered_keys_determined(with_key(ka, b), with_key(keys, b));
}

/// Deleting a row twice is the same as deleting it once, and deleting a row
/// that holds no key changes nothing.
pub proof fn lemma_delete_key_idempotent(keys: Seq<Key>, row: u32)
    requires
        strictly_increasing(keys),
    ensures
        without_row(without_row(keys, row), row) == without_row(keys, row),
        !has_row(keys, row) ==> without_row(keys, row) == keys,
{
    lemma_without_row(keys, row);
    lemma_without_row(without_row(keys, row), row);
}

/// Deleting the row of a key that was just written undoes the write, up to
/// the key that the write replaced.
pub proof fn lemma_delete_after_set(keys: Seq<Key>, key: Key)
    requires
        strictly_increasing(keys),
    ensures
        without_row(with_key(keys, key), key.row) == without_row(keys, key.row),
{
    let p = first_at_or_above(keys, key.row as int);
    let q = first_at_or_above(keys, key.row + 1);
    let s = with_key(keys, key);
    lemma_split(keys, key.row);
    lemma_with_key(keys, key);
    assert forall|i: int| 0 <= i < p implies (#[trigger] s[i]).row < key.row by {
        assert(s[i] == keys[i]);
    }
    lemma_first_at_or_above_is(s, key.row as int, p);
    assert forall|i: int| 0 <= i < p + 1 implies (#[trigger] s[i]).row < key.row + 1 by {
        if i < p {
            assert(s[i] == keys[i]);
        }
    }
    if p + 1 < s.len() {
        assert(s[p + 1] == keys[q]);
    }
    lemma_first_at_or_above_is(s, key.row + 1, p + 1);
    assert(without_row(s, key.row) =~= without_row(keys, key.row));
}

} // verus!
