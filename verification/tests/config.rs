use flaky_network::config::{TransportConfig, MAX_FEC_WIDTH};

// Frame counts for a delay `d` in milliseconds: d / 40 rounded down, d / 20 rounded up.

#[test]
fn fec_width_grows_with_recovery_frames_up_to_the_cap() {
    // 39 ms, 45 ms, 85 ms, 170 ms, 10 s
    assert_eq!(TransportConfig::for_frame_counts(0, 2).fec_width, 2);
    assert_eq!(TransportConfig::for_frame_counts(1, 3).fec_width, 2);
    assert_eq!(TransportConfig::for_frame_counts(2, 5).fec_width, 3);
    assert_eq!(TransportConfig::for_frame_counts(4, 9).fec_width, 5);
    assert_eq!(TransportConfig::for_frame_counts(250, 500).fec_width, MAX_FEC_WIDTH);
}

#[test]
fn recovery_slots_are_bounded_powers_of_two() {
    let short = TransportConfig::for_frame_counts(1, 3);
    let moderate = TransportConfig::for_frame_counts(2, 5);
    let long = TransportConfig::for_frame_counts(250, 500);
    let extreme = TransportConfig::for_frame_counts(u32::MAX, usize::MAX);

    assert_eq!(short.recovery_slots, 16);
    assert_eq!(moderate.recovery_slots, 16);
    assert_eq!(long.recovery_slots, 512);
    assert!(long.recovery_slots > moderate.recovery_slots);
    assert_eq!(extreme.recovery_slots, 2_048);
    assert_eq!(extreme.fec_width, 5);
}

#[test]
fn default_delay_frame_counts() {
    // 120 ms
    assert_eq!(
        TransportConfig::for_frame_counts(3, 6),
        TransportConfig {
            fec_width: 4,
            recovery_slots: 16
        }
    );
}

#[test]
fn zero_delay_still_gets_minimum_window() {
    let config = TransportConfig::for_frame_counts(0, 0);
    assert_eq!(config.fec_width, 2);
    assert_eq!(config.recovery_slots, 8);
}
