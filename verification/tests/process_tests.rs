use m4a_atmos_to_mp4_vid_fuse::process::{
    next_sleep_nanos, timeout_message, wait_decision, WaitDecision, INITIAL_SLEEP_NANOS,
    MAX_SLEEP_NANOS,
};

#[test]
fn exited_child_wins_over_timeout() {
    assert_eq!(wait_decision(true, 10, 5), WaitDecision::Exited);
    assert_eq!(wait_decision(false, 10, 5), WaitDecision::TimedOut);
    assert_eq!(wait_decision(false, 5, 5), WaitDecision::Sleep);
    assert_eq!(wait_decision(false, 0, 5), WaitDecision::Sleep);
}

#[test]
fn pauses_double_up_to_a_tenth_of_a_second() {
    let mut pauses = vec![INITIAL_SLEEP_NANOS];
    for _ in 0..9 {
        let next = next_sleep_nanos(*pauses.last().unwrap());
        pauses.push(next);
    }
    assert_eq!(
        pauses,
        vec![
            1_000_000, 2_000_000, 4_000_000, 8_000_000, 16_000_000, 32_000_000, 64_000_000,
            100_000_000, 100_000_000, 100_000_000
        ]
    );
    assert!(pauses.windows(2).all(|w| w[0] <= w[1]));
    assert!(pauses.iter().all(|p| (INITIAL_SLEEP_NANOS..=MAX_SLEEP_NANOS).contains(p)));
    assert_eq!(next_sleep_nanos(u64::MAX), MAX_SLEEP_NANOS);
}

#[test]
fn timeout_message_counts_seconds() {
    assert_eq!(timeout_message(1800), "command exceeded 1800 seconds");
    assert_eq!(timeout_message(0), "command exceeded 0 seconds");
}
