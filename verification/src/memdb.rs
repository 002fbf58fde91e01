//! The in-memory partition backend: points held per series in a mutable
//! time-ordered structure. Fastest path, no durability beyond the process
//! lifetime; used for caching and for exercising callers of the storage
//! abstraction.

use vstd::prelude::*;
use crate::predicate::Predicate;
use crate::storage::Point;
use crate::storage::ReadPoint;
use crate::storage::Storage;
use crate::storage::StorageError;
use crate::storage::TimeRange;
use crate::storage::batch_models;
use crate::storage::delete_filter;
use crate::storage::insert_point;
use crate::storage::insert_points;
use crate::storage::insert_pos;
use crate::storage::matches_cloned;
use crate::storage::read_filter;
use crate::storage::stored_or_empty;
use crate::storage::times_sorted;

verus! {

/// One series held in memory: its key and its time-ordered points.
pub struct SeriesMem<T: Clone> {
    pub key: String,
    pub points: Vec<ReadPoint<T>>,
}

/// The in-memory backend.
pub struct MemDb<T: Clone> {
    pub series: Vec<SeriesMem<T>>,
}

/// The position of the series holding key `k`, or -1 when no series does.
pub open spec fn find_idx<T: Clone>(s: Seq<SeriesMem<T>>, k: Seq<char>) -> int
    decreases s.len(),
{
    if s.len() == 0 {
        -1
    } else if s[0].key@ == k {
        0
    } else if find_idx(s.drop_first(), k) < 0 {
        -1
    } else {
        1 + find_idx(s.drop_first(), k)
    }
}

proof fn lemma_find_idx_props<T: Clone>(s: Seq<SeriesMem<T>>, k: Seq<char>)
    ensures
        -1 <= find_idx(s, k) < s.len(),
        find_idx(s, k) >= 0 ==> s[find_idx(s, k)].key@ == k,
        find_idx(s, k) >= 0 ==> forall|j: int|
            0 <= j < find_idx(s, k) ==> (#[trigger] s[j]).key@ != k,
        find_idx(s, k) == -1 ==> forall|i: int| 0 <= i < s.len() ==> (#[trigger] s[i]).key@ != k,
    decreases s.len(),
{
    if s.len() == 0 {
    } else if s[0].key@ == k {
    } else {
        lemma_find_idx_props(s.drop_first(), k);
        let f1 = find_idx(s.drop_first(), k);
        if f1 < 0 {
            assert forall|i: int| 0 <= i < s.len() implies (#[trigger] s[i]).key@ != k by {
                if i > 0 {
                    assert(s.drop_first()[i - 1] == s[i]);
                    assert(s.drop_first()[i - 1].key@ != k);
                }
            }
        } else {
            assert(find_idx(s, k) == 1 + f1);
            assert(s[1 + f1] == s.drop_first()[f1]);
            assert forall|j: int| 0 <= j < 1 + f1 implies (#[trigger] s[j]).key@ != k by {
                if j > 0 {
                    assert(s.drop_first()[j - 1] == s[j]);
                    assert(s.drop_first()[j - 1].key@ != k);
                }
            }
        }
    }
}

/// Where the linear scan stops is where `find_idx` points: no key match
/// before `i`, and a match at `i` unless the scan ran off the end.
proof fn lemma_find_idx_char<T: Clone>(s: Seq<SeriesMem<T>>, k: Seq<char>, i: int)
    requires
        0 <= i <= s.len(),
        forall|j: int| 0 <= j < i ==> s[j].key@ != k,
        i < s.len() ==> s[i].key@ == k,
    ensures
        find_idx(s, k) == if i == s.len() {
            -1int
        } else {
            i
        },
    decreases i,
{
    if i == 0 {
        if s.len() == 0 {
        } else if s[0].key@ == k {
        }
    } else {
        let s1 = s.drop_first();
        assert(forall|j: int| 0 <= j < i - 1 ==> s1[j].key@ == s[j + 1].key@);
        lemma_find_idx_char(s1, k, i - 1);
    }
}

/// `find_idx` looks at keys only.
proof fn lemma_find_idx_same_keys<T: Clone>(s1: Seq<SeriesMem<T>>, s2: Seq<SeriesMem<T>>, k: Seq<char>)
    requires
        s1.len() == s2.len(),
        forall|i: int| 0 <= i < s1.len() ==> (#[trigger] s1[i]).key@ == s2[i].key@,
    ensures
        find_idx(s1, k) == find_idx(s2, k),
    decreases s1.len(),
{
    if s1.len() == 0 {
    } else {
        assert(forall|i: int|
            0 <= i < s1.drop_first().len() ==> (#[trigger] s1.drop_first()[i]).key@ == s2.drop_first()[i].key@);
        lemma_find_idx_same_keys(s1.drop_first(), s2.drop_first(), k);
    }
}

/// The first position whose time is past `t` is where the in-order insert
/// scan stops.
proof fn lemma_insert_pos_char<T: Clone>(s: Seq<ReadPoint<T>>, t: i64, j: int)
    requires
        0 <= j <= s.len(),
        forall|i: int| 0 <= i < j ==> s[i].time <= t,
        j < s.len() ==> s[j].time > t,
    ensures
        insert_pos(s, t) == j,
    decreases j,
{
    if j == 0 {
    } else {
        let s1 = s.drop_first();
        assert(s[0].time <= t);
        assert(forall|i: int| 0 <= i < j - 1 ==> s1[i] == s[i + 1]);
        lemma_insert_pos_char(s1, t, j - 1);
    }
}

proof fn lemma_insert_pos_props<T: Clone>(s: Seq<ReadPoint<T>>, t: i64)
    ensures
        0 <= insert_pos(s, t) <= s.len(),
        forall|i: int| 0 <= i < insert_pos(s, t) ==> s[i].time <= t,
        insert_pos(s, t) < s.len() ==> s[insert_pos(s, t)].time > t,
    decreases s.len(),
{
    if s.len() == 0 {
    } else if s[0].time > t {
    } else {
        lemma_insert_pos_props(s.drop_first(), t);
        let pos = insert_pos(s, t);
        assert(pos == 1 + insert_pos(s.drop_first(), t));
        assert forall|i: int| 0 <= i < pos implies s[i].time <= t by {
            if i > 0 {
                assert(s.drop_first()[i - 1] == s[i]);
                assert(s.drop_first()[i - 1].time <= t);
            }
        }
        if pos < s.len() {
            assert(s.drop_first()[pos - 1] == s[pos]);
        }
    }
}

/// Placing a point at its position keeps the sequence time-ordered.
proof fn lemma_insert_point_sorted<T: Clone>(s: Seq<ReadPoint<T>>, p: ReadPoint<T>)
    requires
        times_sorted(s),
    ensures
        times_sorted(insert_point(s, p)),
        insert_point(s, p).len() == s.len() + 1,
{
    lemma_insert_pos_props(s, p.time);
    let pos = insert_pos(s, p.time);
    s.insert_ensures(pos, p);
    let r = insert_point(s, p);
    assert forall|i: int, j: int| 0 <= i < j < r.len() implies r[i].time <= r[j].time by {
        if i < pos && j < pos {
        } else if i == pos || j == pos {
            if i == pos {
                assert(r[j] == s[j - 1]);
                if j - 1 >= pos {
                    if pos < s.len() {
                        assert(s[pos].time > p.time);
                        assert(s[pos].time <= s[j - 1].time || pos == j - 1);
                    }
                }
            }
        }
    }
}

impl<T: Clone> MemDb<T> {
    /// An empty in-memory partition: no series yet.
    pub fn new() -> (db: Self)
        ensures
            db.inv(),
            forall|k: Seq<char>| db.series_points(k) is None,
            db.always_available(),
    {
        let db = MemDb { series: Vec::new() };
        proof {
            assert forall|k: Seq<char>| db.series_points(k) is None by {
                lemma_find_idx_props(db.series@, k);
            }
        }
        db
    }

    /// Scan for the series holding `key`.
    fn find(&self, key: &String) -> (r: Option<usize>)
        ensures
            match r {
                Some(i) => 0 <= i < self.series@.len() && find_idx(self.series@, key@) == i,
                None => find_idx(self.series@, key@) == -1,
            },
    {
        let mut i: usize = 0;
        while i < self.series.len()
            invariant
                i <= self.series@.len(),
                forall|j: int| 0 <= j < i ==> (#[trigger] self.series@[j]).key@ != key@,
            decreases self.series@.len() - i,
        {
            if self.series[i].key == *key {
                proof {
                    lemma_find_idx_char(self.series@, key@, i as int);
                }
                return Some(i);
            }
            i = i + 1;
        }
        proof {
            lemma_find_idx_char(self.series@, key@, i as int);
        }
        None
    }
}

/// Place one point at its time-ordered position.
fn insert_sorted<T: Clone>(pts: &mut Vec<ReadPoint<T>>, p: ReadPoint<T>)
    ensures
        final(pts)@ == insert_point(old(pts)@, p),
{
    let mut j: usize = 0;
    while j < pts.len() && pts[j].time <= p.time
        invariant
            j <= pts@.len(),
            forall|i: int| 0 <= i < j ==> (#[trigger] pts@[i]).time <= p.time,
            pts@ == old(pts)@,
        decreases pts@.len() - j,
    {
        j = j + 1;
    }
    proof {
        lemma_insert_pos_char(pts@, p.time, j as int);
    }
    pts.insert(j, p);
}

impl<T: Clone> Storage<T> for MemDb<T> {
    open spec fn inv(&self) -> bool {
        &&& forall|i: int, j: int|
            0 <= i < j < self.series@.len() ==> (#[trigger] self.series@[i]).key@ != (
            #[trigger] self.series@[j]).key@
        &&& forall|i: int|
            0 <= i < self.series@.len() ==> times_sorted((#[trigger] self.series@[i]).points@)
    }

    open spec fn series_points(&self, key: Seq<char>) -> Option<Seq<ReadPoint<T>>> {
        if find_idx(self.series@, key) >= 0 {
            Some(self.series@[find_idx(self.series@, key)].points@)
        } else {
            None
        }
    }

    open spec fn always_available(&self) -> bool {
        true
    }

    proof fn lemma_contents_sorted(&self, key: Seq<char>) {
        lemma_find_idx_props(self.series@, key);
        assert(times_sorted(self.series@[find_idx(self.series@, key)].points@));
    }

    fn write(&mut self, series: &String, points: Vec<Point<T>>) -> (r: Result<(), StorageError>) {
        let ghost s0 = self.series@;
        let ghost b0 = points@;
        let idx: usize = match self.find(series) {
            Some(i) => i,
            None => {
                let n = self.series.len();
                self.series.push(SeriesMem { key: series.clone(), points: Vec::new() });
                proof {
                    lemma_find_idx_props(s0, series@);
                    assert(self.series@[n as int].key@ == series@);
                    assert(forall|j: int|
                        0 <= j < n ==> (#[trigger] self.series@[j]).key@ != series@);
                    lemma_find_idx_char(self.series@, series@, n as int);
                }
                n
            },
        };
        let ghost mid = self.series@;
        proof {
            assert(find_idx(mid, series@) == idx);
            lemma_find_idx_props(mid, series@);
            assert(mid[idx as int].key@ == series@);
            assert(mid[idx as int].points@ == stored_or_empty(old(self).series_points(series@)));
        }
        let mut entry = self.series.remove(idx);
        let ghost orig = entry.points@;
        let mut rem = points;
        while rem.len() > 0
            invariant
                times_sorted(entry.points@),
                entry.key@ == mid[idx as int].key@,
                insert_points(entry.points@, batch_models(rem@)) == insert_points(
                    orig,
                    batch_models(b0),
                ),
            decreases rem@.len(),
        {
            let ghost rem_pre = rem@;
            let p = rem.remove(0);
            let rp = ReadPoint { time: p.time, value: p.value };
            proof {
                assert(rp == batch_models(rem_pre)[0]);
                assert(batch_models(rem@) =~= batch_models(rem_pre).drop_first());
                lemma_insert_point_sorted(entry.points@, rp);
            }
            insert_sorted(&mut entry.points, rp);
        }
        proof {
            assert(batch_models(rem@).len() == 0);
            assert(entry.points@ == insert_points(orig, batch_models(b0)));
        }
        self.series.insert(idx, entry);
        proof {
            let fin = self.series@;
            assert(fin =~= mid.update(idx as int, fin[idx as int]));
            assert(forall|i: int| 0 <= i < fin.len() ==> (#[trigger] fin[i]).key@ == mid[i].key@);
            assert forall|k: Seq<char>| find_idx(fin, k) == find_idx(mid, k) by {
                lemma_find_idx_same_keys(fin, mid, k);
            }
            assert(find_idx(fin, series@) == idx);
            assert(fin[idx as int].points@ == insert_points(
                stored_or_empty(old(self).series_points(series@)),
                batch_models(b0),
            ));
            assert forall|k: Seq<char>|
                k != series@ implies self.series_points(k) == old(self).series_points(k) by {
                lemma_find_idx_props(mid, k);
                lemma_find_idx_props(s0, k);
                if s0.len() < mid.len() {
                    if find_idx(s0, k) >= 0 {
                        lemma_find_idx_char(mid, k, find_idx(s0, k));
                    } else {
                        assert(forall|j: int|
                            0 <= j < mid.len() ==> (#[trigger] mid[j]).key@ != k);
                        lemma_find_idx_char(mid, k, mid.len() as int);
                    }
                }
                if find_idx(mid, k) >= 0 {
                    assert(mid[find_idx(mid, k)].key@ == k);
                    assert(find_idx(mid, k) != idx);
                }
            }
            if s0.len() < mid.len() {
                lemma_find_idx_props(s0, series@);
                assert(forall|i: int| 0 <= i < s0.len() ==> (#[trigger] s0[i]).key@ != series@);
                assert(forall|i: int|
                    0 <= i < s0.len() ==> (#[trigger] mid[i]).key@ != mid[s0.len() as int].key@);
            }
            assert(forall|i: int, j: int|
                0 <= i < j < fin.len() ==> (#[trigger] fin[i]).key@ != (#[trigger] fin[j]).key@);
            assert(forall|i: int|
                0 <= i < fin.len() && i != idx ==> fin[i] == (#[trigger] mid[i]));
            assert(times_sorted(fin[idx as int].points@));
            assert(self.inv());
        }
        Ok(())
    }

    fn read(&self, series: &String, range: TimeRange, pred: &Predicate) -> (r: Result<
        Vec<ReadPoint<T>>,
        StorageError,
    >) {
        let idx = match self.find(series) {
            Some(i) => i,
            None => {
                return Err(StorageError::SeriesNotFound);
            },
        };
        let pts = &self.series[idx].points;
        let mut out: Vec<ReadPoint<T>> = Vec::new();
        let mut j: usize = 0;
        while j < pts.len()
            invariant
                j <= pts@.len(),
                matches_cloned(read_filter(pts@.subrange(0, j as int), range, *pred), out@),
            decreases pts@.len() - j,
        {
            let keep = range.start <= pts[j].time && pts[j].time < range.end && pred.eval(
                pts[j].time,
            );
            if keep {
                out.push(ReadPoint { time: pts[j].time, value: pts[j].value.clone() });
            }
            j = j + 1;
            proof {
                let pre = pts@.subrange(0, j - 1);
                let cur = pts@.subrange(0, j as int);
                assert(cur.drop_last() =~= pre);
                assert(cur.last() == pts@[j - 1]);
            }
        }
        proof {
            assert(pts@.subrange(0, pts@.len() as int) =~= pts@);
        }
        Ok(out)
    }

    fn delete(&mut self, series: &String, range: TimeRange) -> (r: Result<(), StorageError>) {
        let ghost s0 = self.series@;
        let idx = match self.find(series) {
            Some(i) => i,
            None => {
                return Err(StorageError::SeriesNotFound);
            },
        };
        let mut entry = self.series.remove(idx);
        let ghost orig = entry.points@;
        let total = entry.points.len();
        proof {
            lemma_find_idx_props(s0, series@);
            assert(times_sorted(orig));
            assert(orig.subrange(0, 0) =~= Seq::<ReadPoint<T>>::empty());
            assert(orig.subrange(0, orig.len() as int) =~= orig);
        }
        let mut kept: Vec<ReadPoint<T>> = Vec::new();
        let mut processed: usize = 0;
        while entry.points.len() > 0
            invariant
                processed + entry.points@.len() == orig.len(),
                orig.len() == total,
                entry.key == s0[idx as int].key,
                entry.points@ == orig.subrange(processed as int, orig.len() as int),
                kept@ == delete_filter(orig.subrange(0, processed as int), range),
                times_sorted(kept@),
                times_sorted(orig),
                forall|i: int|
                    0 <= i < kept@.len() ==> exists|m: int|
                        0 <= m < processed && (#[trigger] kept@[i]) == orig[m],
            decreases entry.points@.len(),
        {
            let p = entry.points.remove(0);
            proof {
                assert(p == orig[processed as int]);
                assert(entry.points@ =~= orig.subrange(processed + 1, orig.len() as int));
            }
            let ghost kpre = kept@;
            if !(range.start <= p.time && p.time < range.end) {
                proof {
                    assert forall|i: int| 0 <= i < kpre.len() implies kpre[i].time <= p.time by {
                        let m = choose|m: int| 0 <= m < processed && kpre[i] == orig[m];
                        assert(orig[m].time <= orig[processed as int].time);
                    }
                }
                kept.push(p);
                proof {
                    assert(kept@[kpre.len() as int] == orig[processed as int]);
                }
            }
            processed = processed + 1;
            proof {
                let pre = orig.subrange(0, processed - 1);
                let cur = orig.subrange(0, processed as int);
                assert(cur.drop_last() =~= pre);
                assert(cur.last() == orig[processed - 1]);
            }
        }
        proof {
            assert(orig.subrange(0, processed as int) =~= orig);
        }
        entry.points = kept;
        self.series.insert(idx, entry);
        proof {
            let fin = self.series@;
            assert(fin =~= s0.update(idx as int, fin[idx as int]));
            assert(forall|i: int| 0 <= i < fin.len() ==> (#[trigger] fin[i]).key@ == s0[i].key@);
            assert forall|k: Seq<char>| find_idx(fin, k) == find_idx(s0, k) by {
                lemma_find_idx_same_keys(fin, s0, k);
            }
            assert(fin[idx as int].points@ == delete_filter(orig, range));
            assert forall|k: Seq<char>|
                k != series@ implies self.series_points(k) == old(self).series_points(k) by {
                lemma_find_idx_props(s0, k);
                if find_idx(s0, k) >= 0 {
                    assert(s0[find_idx(s0, k)].key@ == k);
                    assert(s0[idx as int].key@ == series@);
                    assert(find_idx(s0, k) != idx);
                }
            }
        }
        Ok(())
    }
}

} // verus!
