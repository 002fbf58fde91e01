use series_store::storage::{Point, ReadPoint, SeriesDataType};
use std::convert::TryFrom;

#[test]
fn tag_encoding_is_stable() {
    assert_eq!(u8::from(SeriesDataType::I64), 0);
    assert_eq!(u8::from(SeriesDataType::F64), 1);
    assert_eq!(u8::from(SeriesDataType::String), 2);
    assert_eq!(u8::from(SeriesDataType::Bool), 3);
}

#[test]
fn tag_round_trips_for_every_variant() {
    let variants = [
        SeriesDataType::I64,
        SeriesDataType::F64,
        SeriesDataType::String,
        SeriesDataType::Bool,
    ];
    for t in variants {
        assert_eq!(SeriesDataType::try_from(u8::from(t)), Ok(t));
    }
}

#[test]
fn unknown_tag_bytes_fail_with_the_byte() {
    for b in 4..=255u8 {
        assert_eq!(SeriesDataType::try_from(b), Err(b));
    }
}

#[test]
fn read_point_keeps_time_and_value_only() {
    let p = Point {
        series: String::from("cpu,host=a"),
        series_id: Some(42),
        time: 1234,
        value: 99i64,
    };
    let r = ReadPoint::from(&p);
    assert_eq!(r.time, 1234);
    assert_eq!(r.value, 99);
}

#[test]
fn read_point_conversion_clones_string_values() {
    let p = Point {
        series: String::from("names"),
        series_id: None,
        time: -7,
        value: String::from("hello"),
    };
    let r = ReadPoint::from(&p);
    assert_eq!(r.time, -7);
    assert_eq!(r.value, "hello");
    // the ingest point is untouched
    assert_eq!(p.value, "hello");
    assert_eq!(p.series, "names");
}
