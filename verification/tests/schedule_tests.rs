use broadcast_core::schedule::{
    delay_until_rotation, local_seconds_into_day, rotation_delay_now, ROTATION_BOUNDARY_SECS,
    ROTATION_PERIOD_SECS, SWEEP_PERIOD_SECS,
};

#[test]
fn rotation_boundary_is_one_second_before_midnight() {
    assert_eq!(ROTATION_BOUNDARY_SECS, 86399);
    assert_eq!(ROTATION_PERIOD_SECS, 24 * 60 * 60);
    assert_eq!(SWEEP_PERIOD_SECS, 10);
}

#[test]
fn delay_counts_down_to_the_boundary() {
    assert_eq!(delay_until_rotation(0), 86399);
    assert_eq!(delay_until_rotation(1), 86398);
    assert_eq!(delay_until_rotation(86398), 1);
    assert_eq!(delay_until_rotation(86399), 0);
}

#[test]
fn clock_readings_are_in_range() {
    assert!(local_seconds_into_day() < 86400);
    assert!(rotation_delay_now() < 86400);
}
