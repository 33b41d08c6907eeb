use storecore::datetime::{DateTime, DateTimeRecord};

#[test]
fn bad_inputs() {
    DateTime::from_timestamp(0, 86_400).expect_err("unexpected OK - tz_offset_secs out of bounds");
    DateTime::from_timestamp(0, -86_400)
        .expect_err("unexpected OK - tz_offset_secs out of bounds");
    DateTime::from_timestamp(i64::min_value(), 0)
        .expect_err("unexpected OK - timestamp_secs out of bounds");
    DateTime::from_timestamp(i64::max_value(), 0)
        .expect_err("unexpected OK - timestamp_secs out of bounds");
}

#[test]
fn bad_thrift() {
    DateTime::from_thrift(DateTimeRecord { timestamp_secs: 0, tz_offset_secs: 86_400 })
        .expect_err("unexpected OK - tz_offset_secs out of bounds");
    DateTime::from_thrift(DateTimeRecord { timestamp_secs: 0, tz_offset_secs: -86_400 })
        .expect_err("unexpected OK - tz_offset_secs out of bounds");
    DateTime::from_thrift(DateTimeRecord {
        timestamp_secs: i64::min_value(),
        tz_offset_secs: 0,
    })
    .expect_err("unexpected OK - timestamp_secs out of bounds");
    DateTime::from_thrift(DateTimeRecord {
        timestamp_secs: i64::max_value(),
        tz_offset_secs: 0,
    })
    .expect_err("unexpected OK - timestamp_secs out of bounds");
}

#[test]
fn thrift_round_trip() {
    let dt = DateTime::from_timestamp(1_234_567_890, 3600).expect("valid datetime");
    let rec = dt.into_thrift();
    assert_eq!(rec.timestamp_secs, 1_234_567_890);
    assert_eq!(rec.tz_offset_secs, 3600);
    let dt2 = DateTime::from_thrift(rec).expect("round trip");
    assert_eq!(dt2.timestamp_secs(), dt.timestamp_secs());
    assert_eq!(dt2.tz_offset_secs(), dt.tz_offset_secs());
}
