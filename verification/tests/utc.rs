use lanzaboote_tool::utc::{UtcTime, MAX_TIMESTAMP, MIN_TIMESTAMP};

fn time(year: i32, month: u8, day: u8, hour: u8, minute: u8, second: u8) -> Option<UtcTime> {
    Some(UtcTime { year, month, day, hour, minute, second })
}

#[test]
fn dates_timestamps() {
    assert_eq!(UtcTime::from_unix_timestamp(0), time(1970, 1, 1, 0, 0, 0));
    assert_eq!(UtcTime::from_unix_timestamp(-1), time(1969, 12, 31, 23, 59, 59));
    assert_eq!(UtcTime::from_unix_timestamp(951_782_400), time(2000, 2, 29, 0, 0, 0));
    assert_eq!(UtcTime::from_unix_timestamp(4_107_542_399), time(2100, 2, 28, 23, 59, 59));
    assert_eq!(UtcTime::from_unix_timestamp(4_107_542_400), time(2100, 3, 1, 0, 0, 0));
}

#[test]
fn dates_the_first_and_the_last_timestamp() {
    assert_eq!(UtcTime::from_unix_timestamp(MIN_TIMESTAMP), time(-9999, 1, 1, 0, 0, 0));
    assert_eq!(UtcTime::from_unix_timestamp(MAX_TIMESTAMP), time(9999, 12, 31, 23, 59, 59));
    assert_eq!(UtcTime::from_unix_timestamp(MIN_TIMESTAMP - 1), None);
    assert_eq!(UtcTime::from_unix_timestamp(MAX_TIMESTAMP + 1), None);
}
