use series_store::memdb::MemDb;
use series_store::predicate::Predicate;
use series_store::storage::{Point, ReadPoint, Storage, StorageError, TimeRange};

fn point(time: i64, value: i64) -> Point<i64> {
    Point { series: String::from("cpu"), series_id: None, time, value }
}

#[test]
fn write_then_read_three_points_in_time_order() {
    let mut db: MemDb<i64> = MemDb::new();
    let series = String::from("cpu");
    let r = db.write(&series, vec![point(1, 10), point(2, 20), point(3, 30)]);
    assert_eq!(r, Ok(()));
    let got = db
        .read(&series, TimeRange { start: 1, end: 4 }, &Predicate::Always)
        .unwrap();
    assert_eq!(
        got,
        vec![
            ReadPoint { time: 1, value: 10 },
            ReadPoint { time: 2, value: 20 },
            ReadPoint { time: 3, value: 30 },
        ]
    );
}

#[test]
fn read_respects_the_half_open_time_bound() {
    let mut db: MemDb<i64> = MemDb::new();
    let series = String::from("cpu");
    db.write(&series, vec![point(1, 10), point(2, 20), point(3, 30)]).unwrap();
    let got = db
        .read(&series, TimeRange { start: 2, end: 3 }, &Predicate::Always)
        .unwrap();
    assert_eq!(got, vec![ReadPoint { time: 2, value: 20 }]);
}

#[test]
fn read_applies_the_predicate() {
    let mut db: MemDb<i64> = MemDb::new();
    let series = String::from("cpu");
    db.write(&series, vec![point(1, 10), point(2, 20), point(3, 30)]).unwrap();
    let pred = Predicate::Not(Box::new(Predicate::TimeAtLeast(3)));
    let got = db.read(&series, TimeRange { start: 1, end: 4 }, &pred).unwrap();
    assert_eq!(
        got,
        vec![ReadPoint { time: 1, value: 10 }, ReadPoint { time: 2, value: 20 }]
    );
}

#[test]
fn read_of_unknown_series_is_not_found() {
    let db: MemDb<i64> = MemDb::new();
    let r = db.read(
        &String::from("nope"),
        TimeRange { start: 0, end: 10 },
        &Predicate::Always,
    );
    assert_eq!(r, Err(StorageError::SeriesNotFound));
}

#[test]
fn delete_of_unknown_series_is_not_found() {
    let mut db: MemDb<i64> = MemDb::new();
    let r = db.delete(&String::from("nope"), TimeRange { start: 0, end: 10 });
    assert_eq!(r, Err(StorageError::SeriesNotFound));
}

#[test]
fn delete_removes_exactly_the_range() {
    let mut db: MemDb<i64> = MemDb::new();
    let series = String::from("cpu");
    db.write(&series, vec![point(1, 10), point(2, 20), point(3, 30)]).unwrap();
    db.delete(&series, TimeRange { start: 2, end: 3 }).unwrap();
    let got = db
        .read(&series, TimeRange { start: 0, end: 10 }, &Predicate::Always)
        .unwrap();
    assert_eq!(
        got,
        vec![ReadPoint { time: 1, value: 10 }, ReadPoint { time: 3, value: 30 }]
    );
}

#[test]
fn later_batches_interleave_by_time() {
    let mut db: MemDb<i64> = MemDb::new();
    let series = String::from("cpu");
    db.write(&series, vec![point(1, 10), point(5, 50)]).unwrap();
    db.write(&series, vec![point(3, 30)]).unwrap();
    let got = db
        .read(&series, TimeRange { start: 0, end: 10 }, &Predicate::Always)
        .unwrap();
    assert_eq!(
        got,
        vec![
            ReadPoint { time: 1, value: 10 },
            ReadPoint { time: 3, value: 30 },
            ReadPoint { time: 5, value: 50 },
        ]
    );
}

#[test]
fn series_are_independent() {
    let mut db: MemDb<i64> = MemDb::new();
    let cpu = String::from("cpu");
    let mem = String::from("mem");
    db.write(&cpu, vec![point(1, 10)]).unwrap();
    db.write(
        &mem,
        vec![Point { series: String::from("mem"), series_id: None, time: 2, value: 7 }],
    )
    .unwrap();
    let got_cpu = db.read(&cpu, TimeRange { start: 0, end: 10 }, &Predicate::Always).unwrap();
    let got_mem = db.read(&mem, TimeRange { start: 0, end: 10 }, &Predicate::Always).unwrap();
    assert_eq!(got_cpu, vec![ReadPoint { time: 1, value: 10 }]);
    assert_eq!(got_mem, vec![ReadPoint { time: 2, value: 7 }]);
}

#[test]
fn string_valued_series_round_trip() {
    let mut db: MemDb<String> = MemDb::new();
    let series = String::from("labels");
    db.write(
        &series,
        vec![Point {
            series: String::from("labels"),
            series_id: None,
            time: 4,
            value: String::from("up"),
        }],
    )
    .unwrap();
    let got = db
        .read(&series, TimeRange { start: 4, end: 5 }, &Predicate::Always)
        .unwrap();
    assert_eq!(got, vec![ReadPoint { time: 4, value: String::from("up") }]);
}

#[test]
fn predicate_evaluation_is_boolean_algebra() {
    assert!(Predicate::Always.eval(0));
    assert!(!Predicate::Never.eval(0));
    assert!(Predicate::TimeAtLeast(5).eval(5));
    assert!(!Predicate::TimeAtLeast(5).eval(4));
    assert!(Predicate::TimeBefore(5).eval(4));
    assert!(!Predicate::TimeBefore(5).eval(5));
    let both = Predicate::And(
        Box::new(Predicate::TimeAtLeast(2)),
        Box::new(Predicate::TimeBefore(4)),
    );
    assert!(both.eval(2) && both.eval(3));
    assert!(!both.eval(1) && !both.eval(4));
    let either = Predicate::Or(Box::new(Predicate::Never), Box::new(Predicate::Always));
    assert!(either.eval(123));
}
