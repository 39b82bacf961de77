use imessage_gateway::codec::{cocoa_to_datetime, datetime_to_cocoa, days_between,
    format_timestamp, timestamp_lt, Timestamp};

#[test]
fn decode_zero_is_epoch() {
    let t = cocoa_to_datetime(0);
    assert_eq!(t, Timestamp { secs: 0, nanos: 0 });
}

#[test]
fn decode_small_values_are_whole_seconds() {
    assert_eq!(cocoa_to_datetime(86_400), Timestamp { secs: 86_400, nanos: 0 });
    assert_eq!(cocoa_to_datetime(-5), Timestamp { secs: -5, nanos: 0 });
    assert_eq!(
        cocoa_to_datetime(1_000_000_000_000),
        Timestamp { secs: 1_000_000_000_000, nanos: 0 }
    );
}

#[test]
fn decode_large_values_are_nanoseconds() {
    assert_eq!(
        cocoa_to_datetime(2_000_000_000_500),
        Timestamp { secs: 2_000, nanos: 500 }
    );
    assert_eq!(
        cocoa_to_datetime(-2_000_000_000_500),
        Timestamp { secs: -2_000, nanos: -500 }
    );
}

#[test]
fn unit_threshold_is_exclusive() {
    // exactly at the threshold the value still counts as whole seconds
    assert_eq!(
        cocoa_to_datetime(1_000_000_000_000),
        Timestamp { secs: 1_000_000_000_000, nanos: 0 }
    );
    assert_eq!(
        cocoa_to_datetime(1_000_000_000_001),
        Timestamp { secs: 1_000, nanos: 1 }
    );
    assert_eq!(
        cocoa_to_datetime(-1_000_000_000_000),
        Timestamp { secs: -1_000_000_000_000, nanos: 0 }
    );
}

#[test]
fn decode_is_total_at_the_extremes() {
    let lo = cocoa_to_datetime(i64::MIN);
    assert_eq!(lo, Timestamp { secs: -9_223_372_036, nanos: -854_775_808 });
    let hi = cocoa_to_datetime(i64::MAX);
    assert_eq!(hi, Timestamp { secs: 9_223_372_036, nanos: 854_775_807 });
}

#[test]
fn encode_is_nanoseconds_and_clamps_overflow_to_zero() {
    assert_eq!(datetime_to_cocoa(Timestamp { secs: 5_000, nanos: 0 }), 5_000_000_000_000);
    assert_eq!(datetime_to_cocoa(Timestamp { secs: -5_000, nanos: -1 }), -5_000_000_000_001);
    assert_eq!(datetime_to_cocoa(Timestamp { secs: 9_300_000_000, nanos: 0 }), 0);
}

#[test]
fn second_precision_round_trip() {
    for secs in [5_000i64, -5_000, 1_001, -1_001, 9_223_372_036, 1_234_567] {
        let t = Timestamp { secs, nanos: 0 };
        assert_eq!(cocoa_to_datetime(datetime_to_cocoa(t)), t);
    }
}

#[test]
fn order_is_unit_aware() {
    // 2000 seconds, stored as nanoseconds, is earlier than 3000 stored as seconds
    let a = cocoa_to_datetime(2_000_000_000_000);
    let b = cocoa_to_datetime(3_000);
    assert!(timestamp_lt(&a, &b));
    assert!(!timestamp_lt(&b, &a));
    assert!(!timestamp_lt(&a, &a));
}

#[test]
fn whole_days_truncate_toward_zero() {
    let day: i64 = 86_400_000_000_000;
    let now = cocoa_to_datetime(10 * day);
    let earlier = cocoa_to_datetime(3 * day + 1);
    assert_eq!(days_between(&now, &earlier), 6);
    let future = cocoa_to_datetime(12 * day);
    assert_eq!(days_between(&now, &future), -2);
}

#[test]
fn format_epoch_and_neighbors() {
    assert_eq!(format_timestamp(None), None);
    assert_eq!(format_timestamp(Some(0)).unwrap(), "2001-01-01 00:00:00");
    assert_eq!(format_timestamp(Some(86_400)).unwrap(), "2001-01-02 00:00:00");
    assert_eq!(
        format_timestamp(Some(90_061_000_000_000)).unwrap(),
        "2001-01-02 01:01:01"
    );
    assert_eq!(format_timestamp(Some(-86_400)).unwrap(), "2000-12-31 00:00:00");
}

#[test]
fn format_is_total_for_extreme_inputs() {
    // must not panic, whatever it yields
    let _ = format_timestamp(Some(i64::MIN));
    let _ = format_timestamp(Some(i64::MAX));
}
