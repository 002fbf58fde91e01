//! The typed point model: ingest points, read points, and the stable
//! on-disk type tag of a series.

use vstd::prelude::*;
use crate::predicate::Predicate;
use crate::predicate::spec_eval;

verus! {

/// A point as produced by the ingest side: a time/value pair together with
/// ingest-only metadata (the series name and, once assigned, a series id).
#[derive(Debug, Clone)]
pub struct Point<T> {
    pub series: String,
    pub series_id: Option<u64>,
    pub time: i64,
    pub value: T,
}

/// A point as handed to read paths: only the time and the value survive
/// the conversion from an ingest [`Point`].
#[derive(Debug, Eq, PartialEq, Clone)]
pub struct ReadPoint<T: Clone> {
    pub time: i64,
    pub value: T,
}

impl<T: Clone> ReadPoint<T> {
    /// Derive a `ReadPoint` from an ingest point: `time` is copied exactly,
    /// `value` is cloned, and every other field is dropped.
    pub fn from(other: &Point<T>) -> (r: Self)
        ensures
            r.time == other.time,
            cloned(other.value, r.value),
    {
        ReadPoint { time: other.time, value: other.value.clone() }
    }
}

/// The closed set of value kinds a stored series may hold. Each variant has
/// a stable one-byte on-disk encoding (see [`spec_tag`]); the
/// byte assigned to a variant must never change once data exists on disk.
#[derive(Debug, PartialEq, Eq, Structural, Clone, Copy)]
pub enum SeriesDataType {
    I64,
    F64,
    String,
    Bool,
}

/// The stable one-byte encoding of a series data type.
pub open spec fn spec_tag(t: SeriesDataType) -> u8 {
    match t {
        SeriesDataType::I64 => 0,
        SeriesDataType::F64 => 1,
        SeriesDataType::String => 2,
        SeriesDataType::Bool => 3,
    }
}

/// The partial inverse of [`spec_tag`]: which variant a byte decodes to,
/// if any.
pub open spec fn spec_decode_tag(b: u8) -> Option<SeriesDataType> {
    if b == 0 {
        Some(SeriesDataType::I64)
    } else if b == 1 {
        Some(SeriesDataType::F64)
    } else if b == 2 {
        Some(SeriesDataType::String)
    } else if b == 3 {
        Some(SeriesDataType::Bool)
    } else {
        None
    }
}

impl From<SeriesDataType> for u8 {
    fn from(other: SeriesDataType) -> (r: Self)
        ensures
            r == spec_tag(other),
    {
        match other {
            SeriesDataType::I64 => 0,
            SeriesDataType::F64 => 1,
            SeriesDataType::String => 2,
            SeriesDataType::Bool => 3,
        }
    }
}

impl vstd::std_specs::convert::FromSpecImpl<SeriesDataType> for u8 {
    open spec fn obeys_from_spec() -> bool {
        true
    }

    open spec fn from_spec(t: SeriesDataType) -> u8 {
        spec_tag(t)
    }
}

impl TryFrom<u8> for SeriesDataType {
    type Error = u8;

    /// Decode an on-disk tag byte. A byte outside the known set is a decode
    /// error carrying the offending byte, never a default and never a panic.
    fn try_from(other: u8) -> (r: Result<Self, u8>)
        ensures
            r == match spec_decode_tag(other) {
                Some(t) => Result::<SeriesDataType, u8>::Ok(t),
                None => Result::<SeriesDataType, u8>::Err(other),
            },
    {
        if other == 0 {
            Ok(SeriesDataType::I64)
        } else if other == 1 {
            Ok(SeriesDataType::F64)
        } else if other == 2 {
            Ok(SeriesDataType::String)
        } else if other == 3 {
            Ok(SeriesDataType::Bool)
        } else {
            Err(other)
        }
    }
}

impl vstd::std_specs::convert::TryFromSpecImpl<u8> for SeriesDataType {
    open spec fn obeys_try_from_spec() -> bool {
        true
    }

    open spec fn try_from_spec(b: u8) -> Result<SeriesDataType, u8> {
        match spec_decode_tag(b) {
            Some(t) => Ok(t),
            None => Err(b),
        }
    }
}

/// Encoding a series data type and decoding the byte again returns the
/// original variant: the tag mapping is injective and stable.
pub proof fn lemma_tag_round_trip(t: SeriesDataType)
    ensures
        spec_decode_tag(spec_tag(t)) == Some(t),
{
}

/// Every byte outside the known tag set fails to decode, and the decoder
/// reports exactly that byte.
pub proof fn lemma_unknown_tag_rejected(b: u8)
    requires
        4 <= b,
    ensures
        spec_decode_tag(b) is None,
{
}

/// An inclusive-exclusive time bound: the times `start <= t < end`.
#[derive(Debug, PartialEq, Eq, Structural, Clone, Copy)]
pub struct TimeRange {
    pub start: i64,
    pub end: i64,
}

/// Whether `t` falls inside the bound.
pub open spec fn in_range(r: TimeRange, t: i64) -> bool {
    r.start <= t < r.end
}

/// The one error surface every backend maps its failures into, so callers
/// can treat all backends uniformly.
#[derive(Debug, PartialEq, Eq, Structural, Clone, Copy)]
pub enum StorageError {
    /// The series key is not present in this partition.
    SeriesNotFound,
    /// The backend could not serve the call: an I/O failure locally, or a
    /// timeout or disconnect translated by a non-local backend.
    Unavailable,
}

/// The read-path image of an ingest point: keep time and value, drop the rest.
pub open spec fn read_point_of<T: Clone>(p: Point<T>) -> ReadPoint<T> {
    ReadPoint { time: p.time, value: p.value }
}

/// The read-path images of a whole batch, in batch order.
pub open spec fn batch_models<T: Clone>(ps: Seq<Point<T>>) -> Seq<ReadPoint<T>> {
    ps.map_values(|p: Point<T>| read_point_of(p))
}

/// Whether a batch of ingest points is ordered by time.
pub open spec fn batch_sorted<T: Clone>(ps: Seq<Point<T>>) -> bool {
    forall|i: int, j: int| 0 <= i < j < ps.len() ==> ps[i].time <= ps[j].time
}

/// Whether a stored sequence of read points is ordered by time.
pub open spec fn times_sorted<T: Clone>(s: Seq<ReadPoint<T>>) -> bool {
    forall|i: int, j: int| 0 <= i < j < s.len() ==> s[i].time <= s[j].time
}

/// Where a point with time `t` goes in a time-ordered sequence: after every
/// stored point whose time is at or before `t`, before the first one whose
/// time is past it.
pub open spec fn insert_pos<T: Clone>(s: Seq<ReadPoint<T>>, t: i64) -> int
    decreases s.len(),
{
    if s.len() == 0 {
        0
    } else if s[0].time > t {
        0
    } else {
        1 + insert_pos(s.drop_first(), t)
    }
}

/// A time-ordered sequence with one more point placed at its position.
pub open spec fn insert_point<T: Clone>(s: Seq<ReadPoint<T>>, p: ReadPoint<T>) -> Seq<
    ReadPoint<T>,
> {
    s.insert(insert_pos(s, p.time), p)
}

/// A time-ordered sequence with a whole batch placed point by point, in
/// batch order.
pub open spec fn insert_points<T: Clone>(s: Seq<ReadPoint<T>>, batch: Seq<ReadPoint<T>>) -> Seq<
    ReadPoint<T>,
>
    decreases batch.len(),
{
    if batch.len() == 0 {
        s
    } else {
        insert_points(insert_point(s, batch[0]), batch.drop_first())
    }
}

/// Whether a read scanning with `range` and `pred` keeps a stored point.
pub open spec fn keeps<T: Clone>(range: TimeRange, pred: Predicate, p: ReadPoint<T>) -> bool {
    in_range(range, p.time) && spec_eval(pred, p.time)
}

/// The points a read returns: the stored points that the time bound and the
/// predicate keep, in stored order.
pub open spec fn read_filter<T: Clone>(s: Seq<ReadPoint<T>>, range: TimeRange, pred: Predicate) -> Seq<
    ReadPoint<T>,
>
    decreases s.len(),
{
    if s.len() == 0 {
        Seq::empty()
    } else if keeps(range, pred, s.last()) {
        read_filter(s.drop_last(), range, pred) + seq![s.last()]
    } else {
        read_filter(s.drop_last(), range, pred)
    }
}

/// The points a delete leaves behind: the stored points outside the time
/// bound, in stored order.
pub open spec fn delete_filter<T: Clone>(s: Seq<ReadPoint<T>>, range: TimeRange) -> Seq<
    ReadPoint<T>,
>
    decreases s.len(),
{
    if s.len() == 0 {
        Seq::empty()
    } else if in_range(range, s.last().time) {
        delete_filter(s.drop_last(), range)
    } else {
        delete_filter(s.drop_last(), range) + seq![s.last()]
    }
}

/// What a read keeps of a time-ordered series is itself time-ordered: the
/// scan keeps stored order, so filtered results come out forward in time.
pub proof fn lemma_read_filter_sorted<T: Clone>(
    s: Seq<ReadPoint<T>>,
    range: TimeRange,
    pred: Predicate,
)
    requires
        times_sorted(s),
    ensures
        times_sorted(read_filter(s, range, pred)),
        forall|i: int|
            0 <= i < read_filter(s, range, pred).len() ==> exists|m: int|
                0 <= m < s.len() && (#[trigger] read_filter(s, range, pred)[i]) == #[trigger] s[m],
    decreases s.len(),
{
    if s.len() == 0 {
    } else {
        let s0 = s.drop_last();
        assert(times_sorted(s0));
        lemma_read_filter_sorted(s0, range, pred);
        let d0 = read_filter(s0, range, pred);
        let d = read_filter(s, range, pred);
        if keeps(range, pred, s.last()) {
            assert forall|i: int, j: int| 0 <= i < j < d.len() implies d[i].time <= d[j].time by {
                if j == d.len() - 1 {
                    let m = choose|m: int| 0 <= m < s0.len() && d0[i] == s0[m];
                    if m < s.len() - 1 {
                        assert(s[m].time <= s[s.len() - 1].time);
                    }
                }
            }
            assert forall|i: int| #![trigger d[i]]
                0 <= i < d.len() implies exists|m: int|
                    0 <= m < s.len() && d[i] == #[trigger] s[m] by {
                if i < d0.len() {
                    let m = choose|m: int| 0 <= m < s0.len() && d0[i] == s0[m];
                    assert(d[i] == s[m]);
                } else {
                    assert(d[i] == s[s.len() - 1]);
                }
            }
        } else {
            assert forall|i: int| #![trigger d[i]]
                0 <= i < d.len() implies exists|m: int|
                    0 <= m < s.len() && d[i] == #[trigger] s[m] by {
                let m = choose|m: int| 0 <= m < s0.len() && d0[i] == s0[m];
                assert(d[i] == s[m]);
            }
        }
    }
}

/// Whether `b` is `a` point for point, with each time copied exactly and
/// each value a clone of the stored one: the closest a read can come to
/// handing back the stored points themselves.
pub open spec fn matches_cloned<T: Clone>(a: Seq<ReadPoint<T>>, b: Seq<ReadPoint<T>>) -> bool {
    &&& b.len() == a.len()
    &&& forall|i: int|
        0 <= i < a.len() ==> (#[trigger] b[i]).time == a[i].time && cloned(a[i].value, b[i].value)
}

/// The stored points of a series that may not exist yet: a series never
/// written to holds nothing.
pub open spec fn stored_or_empty<T: Clone>(o: Option<Seq<ReadPoint<T>>>) -> Seq<ReadPoint<T>> {
    match o {
        Some(s) => s,
        None => Seq::empty(),
    }
}

/// The capability set every partition backend implements: durable ordered
/// writes, filtered reads, and range deletes against one logical store of
/// time-ordered points per series key. Callers are polymorphic over this
/// trait and never branch on the concrete backend.
///
/// `series_points` is the backend's logical contents: what it has
/// acknowledged as durable, per series key. `always_available` says whether
/// the backend owes success: an in-memory store does; a backend that goes
/// through a network or an object store does not, and reports
/// `StorageError::Unavailable` when it cannot serve a call.
pub trait Storage<T: Clone>: Sized {
    /// The backend's internal well-formedness: established by construction,
    /// preserved by every call.
    spec fn inv(&self) -> bool;

    /// The acknowledged contents: the time-ordered points of each series.
    spec fn series_points(&self, key: Seq<char>) -> Option<Seq<ReadPoint<T>>>;

    /// Whether this backend owes success on every call.
    spec fn always_available(&self) -> bool;

    /// The stored points of every series are time-ordered.
    proof fn lemma_contents_sorted(&self, key: Seq<char>)
        requires
            self.inv(),
            self.series_points(key) is Some,
        ensures
            times_sorted(self.series_points(key)->Some_0),
    ;

    /// Append a non-empty, time-ordered batch of points to a series,
    /// creating the series on first write. Success means the whole batch is
    /// acknowledged, each point placed at its time-ordered position; an
    /// error means none of it is.
    fn write(&mut self, series: &String, points: Vec<Point<T>>) -> (r: Result<(), StorageError>)
        requires
            old(self).inv(),
            points@.len() > 0,
            batch_sorted(points@),
        ensures
            final(self).inv(),
            match r {
                Ok(()) => {
                    &&& final(self).series_points(series@) == Some(
                        insert_points(
                            stored_or_empty(old(self).series_points(series@)),
                            batch_models(points@),
                        ),
                    )
                    &&& forall|k: Seq<char>|
                        k != series@ ==> final(self).series_points(k) == old(self).series_points(
                            k,
                        )
                },
                Err(e) => {
                    &&& e is Unavailable
                    &&& !old(self).always_available()
                    &&& forall|k: Seq<char>|
                        final(self).series_points(k) == old(self).series_points(k)
                },
            },
            final(self).always_available() == old(self).always_available(),
    ;

    /// Read the points of a series that fall inside the time bound and
    /// that the predicate keeps, in forward time order. Never mutates the
    /// store; fails with `SeriesNotFound` exactly on a series never written.
    fn read(&self, series: &String, range: TimeRange, pred: &Predicate) -> (r: Result<
        Vec<ReadPoint<T>>,
        StorageError,
    >)
        requires
            self.inv(),
        ensures
            match r {
                Ok(pts) => {
                    &&& self.series_points(series@) is Some
                    &&& matches_cloned(
                        read_filter(self.series_points(series@)->Some_0, range, *pred),
                        pts@,
                    )
                },
                Err(e) => match e {
                    StorageError::SeriesNotFound => self.series_points(series@) is None,
                    StorageError::Unavailable => !self.always_available(),
                },
            },
            self.always_available() && self.series_points(series@) is Some ==> r is Ok,
    ;

    /// Logically remove the points of a series inside the time bound. What
    /// remains is exactly the points outside it; physical reclamation is
    /// the backend's business.
    fn delete(&mut self, series: &String, range: TimeRange) -> (r: Result<(), StorageError>)
        requires
            old(self).inv(),
        ensures
            final(self).inv(),
            match r {
                Ok(()) => {
                    &&& old(self).series_points(series@) is Some
                    &&& final(self).series_points(series@) == Some(
                        delete_filter(old(self).series_points(series@)->Some_0, range),
                    )
                    &&& forall|k: Seq<char>|
                        k != series@ ==> final(self).series_points(k) == old(self).series_points(
                            k,
                        )
                },
                Err(e) => {
                    &&& match e {
                        StorageError::SeriesNotFound => old(self).series_points(series@) is None,
                        StorageError::Unavailable => !old(self).always_available(),
                    }
                    &&& forall|k: Seq<char>|
                        final(self).series_points(k) == old(self).series_points(k)
                },
            },
            old(self).always_available() && old(self).series_points(series@) is Some ==> r is Ok,
            final(self).always_available() == old(self).always_available(),
    ;
}

} // verus!
