use smartformat::extensions::time::options::TimeSpanFormatOptions;
use smartformat::extensions::time::utility::{
    duration, round, round_ticks, should_truncate, ticks, TimeSpanOverflow, TICKS_PER_DAY,
    TICKS_PER_HOUR, TICKS_PER_MINUTE, TICKS_PER_SECOND,
};

#[test]
fn rounding_matches_the_dotnet_utility() {
    assert_eq!(
        round_ticks(57 * TICKS_PER_MINUTE, TICKS_PER_MINUTE * 5),
        55 * TICKS_PER_MINUTE
    );
    assert_eq!(round_ticks(11 * TICKS_PER_HOUR, TICKS_PER_DAY), 0);
    assert_eq!(
        round_ticks(12 * TICKS_PER_HOUR, TICKS_PER_DAY),
        TICKS_PER_DAY
    );
    assert_eq!(round_ticks(-11 * TICKS_PER_HOUR, TICKS_PER_DAY), 0);
    assert_eq!(round_ticks(-13 * TICKS_PER_HOUR, TICKS_PER_DAY), 0);
}

#[test]
fn ticks_round_trip_a_duration() {
    assert_eq!(ticks(1_000_000_000), TICKS_PER_SECOND);
    assert_eq!(ticks(100), 1);
    assert_eq!(ticks(199), 1);
    assert_eq!(ticks(-199), -1);
    let max_nanos: i128 = i64::MAX as i128 * 1_000_000_000 + 999_999_999;
    let min_nanos: i128 = i64::MIN as i128 * 1_000_000_000 - 999_999_999;
    assert_eq!(ticks(max_nanos), i64::MAX);
    assert_eq!(ticks(min_nanos), i64::MIN);
    assert_eq!(duration(TICKS_PER_DAY), 86_400_000_000_000);
}

#[test]
fn ticks_saturate_at_the_edges_of_a_time_span() {
    assert_eq!(ticks(i64::MAX as i128 * 100 + 99), i64::MAX);
    assert_eq!(ticks(i64::MAX as i128 * 100 + 100), i64::MAX);
    assert_eq!(ticks(i64::MIN as i128 * 100 - 99), i64::MIN);
    assert_eq!(ticks(i64::MIN as i128 * 100 - 100), i64::MIN);
    assert_eq!(ticks(i128::MIN), i64::MIN);
    assert_eq!(ticks(i128::MAX), i64::MAX);
}

#[test]
fn round_rounds_a_span_of_nanoseconds_in_ticks() {
    let hour = duration(TICKS_PER_HOUR);
    assert_eq!(round(23 * hour, TICKS_PER_DAY), duration(TICKS_PER_DAY));
    assert_eq!(round(11 * hour + 99, TICKS_PER_DAY), 0);
    assert_eq!(round_ticks(7, -4), 0);
    assert_eq!(round_ticks(5, -4), 0);
    assert_eq!(round_ticks(-7, 4), -4);
}

#[test]
fn the_truncation_flag_decides_whether_a_unit_is_written() {
    let shortest = TimeSpanFormatOptions::TRUNCATE_SHORTEST();
    let auto = TimeSpanFormatOptions::TRUNCATE_AUTO();
    let fill = TimeSpanFormatOptions::TRUNCATE_FILL();
    let full = TimeSpanFormatOptions::TRUNCATE_FULL();
    assert_eq!(should_truncate(shortest, 2, false), Some(true));
    assert_eq!(should_truncate(shortest, 0, false), Some(false));
    assert_eq!(should_truncate(shortest, 2, true), None);
    assert_eq!(should_truncate(auto, 0, true), Some(false));
    assert_eq!(should_truncate(auto, 3, true), Some(true));
    assert_eq!(should_truncate(fill, 0, false), Some(false));
    assert_eq!(should_truncate(fill, 0, true), Some(true));
    assert_eq!(should_truncate(full, 0, false), Some(true));
    assert_eq!(should_truncate(TimeSpanFormatOptions::RANGE_DAYS(), 1, false), None);
}

#[test]
fn an_overflow_says_the_span_is_too_long() {
    assert_eq!(
        TimeSpanOverflow.to_text(),
        "TimeSpan overflowed because the duration is too long."
    );
}

#[test]
fn whole_ticks_survive_the_trip_through_nanoseconds() {
    for t in [0, 1, -1, TICKS_PER_DAY, -TICKS_PER_HOUR, i64::MAX, i64::MIN] {
        assert_eq!(ticks(duration(t)), t);
    }
}

#[test]
fn rounding_lands_on_a_multiple_within_one_interval() {
    let interval = TICKS_PER_MINUTE * 5;
    for from in [0, 1, -1, 57 * TICKS_PER_MINUTE, -57 * TICKS_PER_MINUTE, 151 * TICKS_PER_SECOND] {
        let rounded = round_ticks(from, interval);
        assert_eq!(rounded % interval, 0);
        assert!(rounded - from > -interval && rounded - from <= interval);
    }
}
