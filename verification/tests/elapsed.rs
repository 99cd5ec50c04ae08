use sn_cli::elapsed::{format_elapsed_time, format_seconds};
use std::time::Duration;

#[test]
fn seconds_only() {
    assert_eq!(format_seconds(42), "42 seconds");
    assert_eq!(format_seconds(0), "0 seconds");
    assert_eq!(format_seconds(59), "59 seconds");
}

#[test]
fn minutes_and_seconds() {
    assert_eq!(format_seconds(60), "1 minutes 0 seconds");
    assert_eq!(format_seconds(125), "2 minutes 5 seconds");
    assert_eq!(format_seconds(3600), "60 minutes 0 seconds");
}

#[test]
fn duration_drops_the_fraction() {
    assert_eq!(format_elapsed_time(Duration::from_millis(125_999)), "2 minutes 5 seconds");
}
