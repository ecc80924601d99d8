use svc::frame_tracker::{
    FrameTracker, FrameTrackerConfig, FrameTrackerError, PacketInfo, DEFAULT_COMPLETE_FRAMES_TRACKED,
    DEFAULT_FRAME_LIFETIME_SECS, DEFAULT_PRUNE_PERIOD_MILLIS, MAX_FRAMES_IN_FLIGHT,
};
use svc::media::FullFrameNumber;
use svc::time::{Duration, Instant};

fn arrival_time() -> Instant {
    Instant::from_nanos(1_000_000_000_000)
}

#[test]
fn test_handle_packet() -> Result<(), FrameTrackerError> {
    let config = FrameTrackerConfig::default();
    let mut frame_tracker = FrameTracker::new(config, arrival_time());

    let now = arrival_time();

    frame_tracker.update(
        now,
        PacketInfo {
            frame_number: 0,
            start_frame_flag: true,
            end_frame_flag: false,
            seqnum: 0,
        },
    )?;
    frame_tracker.update(
        now,
        PacketInfo {
            frame_number: 0,
            start_frame_flag: false,
            end_frame_flag: false,
            seqnum: 3,
        },
    )?;
    frame_tracker.update(
        now,
        PacketInfo {
            frame_number: 0,
            start_frame_flag: false,
            end_frame_flag: true,
            seqnum: 4,
        },
    )?;

    assert!(!frame_tracker.is_complete(0));

    frame_tracker.update(
        now,
        PacketInfo {
            frame_number: 0,
            start_frame_flag: false,
            end_frame_flag: false,
            seqnum: 2,
        },
    )?;
    frame_tracker.update(
        now,
        PacketInfo {
            frame_number: 0,
            start_frame_flag: false,
            end_frame_flag: false,
            seqnum: 1,
        },
    )?;

    assert!(frame_tracker.is_complete(0));

    Ok(())
}

#[test]
fn test_minseq() -> Result<(), FrameTrackerError> {
    let config = FrameTrackerConfig::default();
    let mut frame_tracker = FrameTracker::new(config, arrival_time());

    let now = arrival_time();

    frame_tracker.update(
        now,
        PacketInfo {
            frame_number: 0,
            start_frame_flag: false,
            end_frame_flag: false,
            seqnum: 2,
        },
    )?;
    frame_tracker.update(
        now,
        PacketInfo {
            frame_number: 0,
            start_frame_flag: false,
            end_frame_flag: true,
            seqnum: 3,
        },
    )?;
    frame_tracker.update(
        now,
        PacketInfo {
            frame_number: 0,
            start_frame_flag: true,
            end_frame_flag: false,
            seqnum: 0,
        },
    )?;
    frame_tracker.update(
        now,
        PacketInfo {
            frame_number: 0,
            start_frame_flag: false,
            end_frame_flag: false,
            seqnum: 1,
        },
    )?;

    assert!(frame_tracker.is_complete(0));

    Ok(())
}

#[test]
fn test_single_frame() -> Result<(), FrameTrackerError> {
    let now = arrival_time();
    let mut frames = FrameTracker::new(FrameTrackerConfig::default(), arrival_time());
    frames.update(
        now,
        PacketInfo {
            frame_number: 1,
            start_frame_flag: true,
            end_frame_flag: false,
            seqnum: 1,
        },
    )?;
    assert_eq!(frames.len(), 1);
    frames.update(
        now,
        PacketInfo {
            frame_number: 1,
            start_frame_flag: false,
            end_frame_flag: true,
            seqnum: 2,
        },
    )?;
    assert!(frames.is_empty());

    Ok(())
}

#[test]
fn test_multiple_frames() -> Result<(), FrameTrackerError> {
    let now = arrival_time();
    const FRAME_COUNT: FullFrameNumber = 10;
    let mut frames = FrameTracker::new(FrameTrackerConfig::default(), arrival_time());
    let mut seqnum = 0;
    for i in 0..FRAME_COUNT {
        frames.update(
            now,
            PacketInfo {
                frame_number: i,
                start_frame_flag: true,
                end_frame_flag: false,
                seqnum,
            },
        )?;
        seqnum += 3;
    }
    seqnum = 2;
    for i in 0..FRAME_COUNT {
        frames.update(
            now,
            PacketInfo {
                frame_number: i,
                start_frame_flag: false,
                end_frame_flag: true,
                seqnum,
            },
        )?;
        seqnum += 3;
    }
    seqnum = 1;
    for i in 0..FRAME_COUNT {
        frames.update(
            now,
            PacketInfo {
                frame_number: i,
                start_frame_flag: false,
                end_frame_flag: false,
                seqnum,
            },
        )?;
        seqnum += 3;
    }
    assert!(frames.is_empty());

    Ok(())
}

#[test]
fn test_single_packet_frame() -> Result<(), FrameTrackerError> {
    let now = arrival_time();
    let mut tracker = FrameTracker::new(FrameTrackerConfig::default(), arrival_time());
    tracker.update(
        now,
        PacketInfo {
            frame_number: 1,
            start_frame_flag: true,
            end_frame_flag: true,
            seqnum: 42,
        },
    )?;
    assert!(tracker.is_empty());
    assert!(tracker.is_complete(1));
    Ok(())
}

#[test]
fn test_duplicate_start_flag_returns_error() {
    let now = arrival_time();
    let mut tracker = FrameTracker::new(FrameTrackerConfig::default(), arrival_time());
    tracker
        .update(
            now,
            PacketInfo {
                frame_number: 1,
                start_frame_flag: true,
                end_frame_flag: false,
                seqnum: 1,
            },
        )
        .unwrap();
    let result = tracker.update(
        now,
        PacketInfo {
            frame_number: 1,
            start_frame_flag: true,
            end_frame_flag: false,
            seqnum: 2,
        },
    );
    assert_eq!(result, Err(FrameTrackerError::FrameStartFlagAlreadySet(1)));
}

#[test]
fn test_duplicate_end_flag_returns_error() {
    let now = arrival_time();
    let mut tracker = FrameTracker::new(FrameTrackerConfig::default(), arrival_time());
    tracker
        .update(
            now,
            PacketInfo {
                frame_number: 1,
                start_frame_flag: false,
                end_frame_flag: true,
                seqnum: 1,
            },
        )
        .unwrap();
    let result = tracker.update(
        now,
        PacketInfo {
            frame_number: 1,
            start_frame_flag: false,
            end_frame_flag: true,
            seqnum: 2,
        },
    );
    assert_eq!(result, Err(FrameTrackerError::FrameEndFlagAlreadySet(1)));
}

#[test]
fn test_too_many_missing_packets_returns_error() {
    let now = arrival_time();
    let mut tracker = FrameTracker::new(FrameTrackerConfig::default(), arrival_time());
    // Send packets at even seqnums (0, 2, 4, ...) to create one gap per step.
    // After 20 gaps (MAX_MISSING_SEQNUM_RANGES), the next gap triggers an error.
    let mut seqnum = 0;
    tracker
        .update(
            now,
            PacketInfo {
                frame_number: 0,
                start_frame_flag: true,
                end_frame_flag: false,
                seqnum,
            },
        )
        .unwrap();
    for _ in 0..20 {
        seqnum += 2;
        tracker
            .update(
                now,
                PacketInfo {
                    frame_number: 0,
                    start_frame_flag: false,
                    end_frame_flag: false,
                    seqnum,
                },
            )
            .unwrap();
    }
    seqnum += 2;
    let result = tracker.update(
        now,
        PacketInfo {
            frame_number: 0,
            start_frame_flag: false,
            end_frame_flag: false,
            seqnum,
        },
    );
    assert_eq!(
        result,
        Err(FrameTrackerError::TooManyMissingPacketRanges(0))
    );
}

#[test]
fn test_frame_expiry_via_periodic_cleanup() {
    let now = arrival_time();
    let mut tracker = FrameTracker::new(FrameTrackerConfig::default(), arrival_time());
    tracker
        .update(
            now,
            PacketInfo {
                frame_number: 1,
                start_frame_flag: true,
                end_frame_flag: false,
                seqnum: 1,
            },
        )
        .unwrap();
    assert_eq!(tracker.len(), 1);

    // Advance past frame_lifetime (5s) and prune_period (500ms).
    let expired = now + Duration::from_secs(DEFAULT_FRAME_LIFETIME_SECS) + Duration::from_millis(1);
    tracker.do_periodic_cleanup(expired);
    assert!(tracker.is_empty());
    assert!(!tracker.is_complete(1));
}

#[test]
fn test_max_complete_frames_evicts_oldest() -> Result<(), FrameTrackerError> {
    let config = FrameTrackerConfig {
        max_complete_frames: 3,
        prune_period: Duration::from_millis(DEFAULT_PRUNE_PERIOD_MILLIS),
        frame_lifetime: Duration::from_secs(DEFAULT_FRAME_LIFETIME_SECS),
    };
    let now = arrival_time();
    let mut tracker = FrameTracker::new(config, arrival_time());
    for i in 0..4 {
        tracker.update(
            now,
            PacketInfo {
                frame_number: i,
                start_frame_flag: true,
                end_frame_flag: true,
                seqnum: i,
            },
        )?;
    }
    assert!(!tracker.is_complete(0)); // evicted
    assert!(tracker.is_complete(1));
    assert!(tracker.is_complete(2));
    assert!(tracker.is_complete(3));
    Ok(())
}

#[test]
fn test_is_complete_binary_search_fallback() -> Result<(), FrameTrackerError> {
    let now = arrival_time();
    let mut tracker = FrameTracker::new(FrameTrackerConfig::default(), arrival_time());
    // Complete 15 frames. Frame 0 is 14 positions from the end of complete_frames,
    // past the 10-element linear scan, so binary search is exercised.
    for i in 0..15 {
        tracker.update(
            now,
            PacketInfo {
                frame_number: i,
                start_frame_flag: true,
                end_frame_flag: true,
                seqnum: i,
            },
        )?;
    }
    assert!(tracker.is_complete(0)); // found via binary search
    assert!(tracker.is_complete(14)); // found via linear scan
    Ok(())
}

#[test]
fn test_duplicate_seqnum_is_ignored() -> Result<(), FrameTrackerError> {
    let now = arrival_time();
    let mut tracker = FrameTracker::new(FrameTrackerConfig::default(), arrival_time());
    tracker.update(
        now,
        PacketInfo {
            frame_number: 1,
            start_frame_flag: true,
            end_frame_flag: false,
            seqnum: 5,
        },
    )?;
    // Same seqnum should not error.
    tracker.update(
        now,
        PacketInfo {
            frame_number: 1,
            start_frame_flag: false,
            end_frame_flag: false,
            seqnum: 5,
        },
    )?;
    assert_eq!(tracker.len(), 1);
    tracker.update(
        now,
        PacketInfo {
            frame_number: 1,
            start_frame_flag: false,
            end_frame_flag: true,
            seqnum: 6,
        },
    )?;
    assert!(tracker.is_empty());
    assert!(tracker.is_complete(1));
    Ok(())
}

#[test]
fn test_gap_recorded_when_packet_arrives_below_max_seqnum() -> Result<(), FrameTrackerError> {
    // When the first-received packet sets max_seqnum above the start packet's seqnum,
    // the gap between them should be tracked. Packet arrival order: 5, 1 (start), 7 (end), 6.
    // Seqnums 2, 3, 4 are never received.
    let now = arrival_time();
    let mut tracker = FrameTracker::new(FrameTrackerConfig::default(), arrival_time());

    // Seqnum 5 arrives first: nothing below it is known to be missing.
    tracker.update(
        now,
        PacketInfo {
            frame_number: 1,
            start_frame_flag: false,
            end_frame_flag: false,
            seqnum: 5,
        },
    )?;

    // Start packet at seqnum 1: below what has arrived, so the gap [2..5) is recorded.
    tracker.update(
        now,
        PacketInfo {
            frame_number: 1,
            start_frame_flag: true,
            end_frame_flag: false,
            seqnum: 1,
        },
    )?;

    // End packet at seqnum 7: gap [6..7) is tracked above max_seqnum.
    tracker.update(
        now,
        PacketInfo {
            frame_number: 1,
            start_frame_flag: false,
            end_frame_flag: true,
            seqnum: 7,
        },
    )?;

    // Fill the gap above the original max_seqnum. Seqnums 2, 3, 4 were never received.
    tracker.update(
        now,
        PacketInfo {
            frame_number: 1,
            start_frame_flag: false,
            end_frame_flag: false,
            seqnum: 6,
        },
    )?;

    // Frame is not complete: the gap below the first arrival is recorded, too.
    assert!(!tracker.is_complete(1));
    Ok(())
}

fn packet(frame_number: u64, seqnum: u64) -> PacketInfo {
    PacketInfo { seqnum, frame_number, start_frame_flag: false, end_frame_flag: false }
}

fn first(frame_number: u64, seqnum: u64) -> PacketInfo {
    PacketInfo { start_frame_flag: true, ..packet(frame_number, seqnum) }
}

fn last(frame_number: u64, seqnum: u64) -> PacketInfo {
    PacketInfo { end_frame_flag: true, ..packet(frame_number, seqnum) }
}

fn whole(frame_number: u64, seqnum: u64) -> PacketInfo {
    PacketInfo {
        start_frame_flag: true,
        end_frame_flag: true,
        ..packet(frame_number, seqnum)
    }
}

fn tracker_for(max_complete_frames: usize) -> FrameTracker {
    let config = FrameTrackerConfig { max_complete_frames, ..FrameTrackerConfig::default() };
    FrameTracker::new(config, arrival_time())
}

#[test]
fn default_config() {
    let config = FrameTrackerConfig::default();
    assert_eq!(config.max_complete_frames, 4096);
    assert_eq!(config.max_complete_frames, DEFAULT_COMPLETE_FRAMES_TRACKED);
    assert_eq!(config.prune_period, Duration::from_nanos(500_000_000));
    assert_eq!(config.frame_lifetime, Duration::from_nanos(5_000_000_000));
}

#[test]
fn default_packet() {
    assert_eq!(PacketInfo::default(), packet(0, 0));
}

#[test]
fn new_tracker_is_empty() {
    let tracker = tracker_for(3);
    assert_eq!(tracker.len(), 0);
    assert!(tracker.is_empty());
    assert!(!tracker.is_complete(0));
}

#[test]
fn every_arrival_order_completes_the_frame() {
    let seqnums = [10u64, 11, 12, 13];
    for a in 0..4 {
        for b in 0..4 {
            for c in 0..4 {
                for d in 0..4 {
                    let order = [a, b, c, d];
                    if (0..4).any(|i| !order.contains(&i)) {
                        continue;
                    }
                    let mut tracker = tracker_for(3);
                    for (count, &i) in order.iter().enumerate() {
                        assert!(!tracker.is_complete(7), "{:?} after {}", order, count);
                        let info = PacketInfo {
                            start_frame_flag: i == 0,
                            end_frame_flag: i == 3,
                            ..packet(7, seqnums[i])
                        };
                        assert_eq!(tracker.update(arrival_time(), info), Ok(()));
                    }
                    assert!(tracker.is_complete(7), "{:?}", order);
                    assert!(tracker.is_empty());
                }
            }
        }
    }
}

#[test]
fn frame_without_first_packet_stays_in_flight() {
    let mut tracker = tracker_for(3);
    tracker.update(arrival_time(), packet(1, 1)).unwrap();
    tracker.update(arrival_time(), last(1, 2)).unwrap();
    assert!(!tracker.is_complete(1));
    assert_eq!(tracker.len(), 1);
}

#[test]
fn late_repeat_is_ignored() {
    let mut tracker = tracker_for(3);
    tracker.update(arrival_time(), first(1, 1)).unwrap();
    tracker.update(arrival_time(), packet(1, 2)).unwrap();
    tracker.update(arrival_time(), packet(1, 3)).unwrap();
    tracker.update(arrival_time(), packet(1, 1)).unwrap();
    assert_eq!(tracker.update(arrival_time(), last(1, 4)), Ok(()));
    assert!(tracker.is_complete(1));
    assert!(tracker.is_empty());
}

#[test]
fn repeats_between_gaps_are_ignored() {
    let mut tracker = tracker_for(3);
    let now = arrival_time();
    for p in [first(1, 1), packet(1, 5), packet(1, 3), packet(1, 3), packet(1, 1), last(1, 7)] {
        assert_eq!(tracker.update(now, p), Ok(()));
    }
    for seqnum in [2, 4, 2, 5] {
        assert_eq!(tracker.update(now, packet(1, seqnum)), Ok(()));
        assert!(!tracker.is_complete(1));
    }
    assert_eq!(tracker.update(now, packet(1, 6)), Ok(()));
    assert!(tracker.is_complete(1));
}

#[test]
fn repeats_open_no_gaps() {
    let mut tracker = tracker_for(3);
    let now = arrival_time();
    for i in 0..21 {
        assert_eq!(tracker.update(now, packet(1, 2 * i)), Ok(()));
    }
    for i in 0..21 {
        assert_eq!(tracker.update(now, packet(1, 2 * i)), Ok(()));
    }
    assert_eq!(tracker.len(), 1);
}

#[test]
fn repeat_right_below_the_newest_is_ignored() {
    let mut tracker = tracker_for(3);
    tracker.update(arrival_time(), first(1, 1)).unwrap();
    tracker.update(arrival_time(), packet(1, 2)).unwrap();
    tracker.update(arrival_time(), packet(1, 1)).unwrap();
    tracker.update(arrival_time(), last(1, 3)).unwrap();
    assert!(tracker.is_complete(1));
}

#[test]
fn repeat_of_the_largest_sequence_number() {
    let mut tracker = tracker_for(3);
    tracker.update(arrival_time(), first(1, u64::MAX)).unwrap();
    assert_eq!(tracker.update(arrival_time(), packet(1, u64::MAX)), Ok(()));
    assert_eq!(tracker.len(), 1);
    tracker.update(arrival_time(), last(1, u64::MAX - 1)).unwrap();
    assert!(tracker.is_complete(1));
}

#[test]
fn refused_flag_changes_nothing() {
    let mut tracker = tracker_for(3);
    tracker.update(arrival_time(), first(1, 1)).unwrap();
    assert_eq!(
        tracker.update(arrival_time(), first(1, 9)),
        Err(FrameTrackerError::FrameStartFlagAlreadySet(1))
    );
    assert_eq!(tracker.len(), 1);
    // Had 9 been taken in, there would be a gap from 3 to 8.
    tracker.update(arrival_time(), last(1, 2)).unwrap();
    assert!(tracker.is_complete(1));
}

#[test]
fn frame_with_too_many_gaps_is_dropped() {
    let mut tracker = tracker_for(3);
    tracker.update(arrival_time(), first(5, 0)).unwrap();
    tracker.update(arrival_time(), first(6, 1000)).unwrap();
    for i in 1..=20u64 {
        tracker.update(arrival_time(), packet(5, 2 * i)).unwrap();
    }
    assert_eq!(tracker.len(), 2);
    assert_eq!(
        tracker.update(arrival_time(), packet(5, 42)),
        Err(FrameTrackerError::TooManyMissingPacketRanges(5))
    );
    assert_eq!(tracker.len(), 1);
    // The frame starts anew.
    tracker.update(arrival_time(), whole(5, 50)).unwrap();
    assert!(tracker.is_complete(5));
    // The other frame has not been touched.
    tracker.update(arrival_time(), last(6, 1001)).unwrap();
    assert!(tracker.is_complete(6));
}

#[test]
fn too_many_gaps_below() {
    let mut tracker = tracker_for(3);
    tracker.update(arrival_time(), last(5, 100)).unwrap();
    for i in 1..=20u64 {
        tracker.update(arrival_time(), packet(5, 100 - 2 * i)).unwrap();
    }
    assert_eq!(
        tracker.update(arrival_time(), packet(5, 58)),
        Err(FrameTrackerError::TooManyMissingPacketRanges(5))
    );
    assert!(tracker.is_empty());
}

#[test]
fn splitting_the_twentieth_gap_is_refused() {
    let mut tracker = tracker_for(3);
    tracker.update(arrival_time(), first(5, 0)).unwrap();
    for i in 1..=20u64 {
        tracker.update(arrival_time(), packet(5, 4 * i)).unwrap();
    }
    // The middle of a gap of three leaves two gaps in place of one.
    assert_eq!(
        tracker.update(arrival_time(), packet(5, 2)),
        Err(FrameTrackerError::TooManyMissingPacketRanges(5))
    );
}

#[test]
fn twenty_gaps_can_be_filled() {
    let mut tracker = tracker_for(3);
    tracker.update(arrival_time(), first(5, 0)).unwrap();
    for i in 1..20u64 {
        tracker.update(arrival_time(), packet(5, 2 * i)).unwrap();
    }
    tracker.update(arrival_time(), last(5, 40)).unwrap();
    for i in 0..20u64 {
        assert!(!tracker.is_complete(5));
        tracker.update(arrival_time(), packet(5, 2 * i + 1)).unwrap();
    }
    assert!(tracker.is_complete(5));
}

#[test]
fn filled_gap_makes_room() {
    let mut tracker = tracker_for(10);
    let now = arrival_time();
    for i in 0..21 {
        assert_eq!(tracker.update(now, packet(1, 2 * i)), Ok(()));
    }
    assert_eq!(tracker.update(now, packet(1, 7)), Ok(()));
    assert_eq!(tracker.update(now, packet(1, 42)), Ok(()));
    assert_eq!(
        tracker.update(now, packet(1, 44)),
        Err(FrameTrackerError::TooManyMissingPacketRanges(1))
    );
    assert!(tracker.is_empty());
}

#[test]
fn frames_in_flight_are_limited() {
    let mut tracker = FrameTracker::new(FrameTrackerConfig::default(), arrival_time());
    for n in 0..11u64 {
        tracker.update(arrival_time(), first(n, 3 * n)).unwrap();
    }
    assert_eq!(tracker.len(), MAX_FRAMES_IN_FLIGHT);
    // All expire together, so the smallest number has given way.
    tracker.update(arrival_time(), last(0, 1)).unwrap();
    assert!(!tracker.is_complete(0));
    assert_eq!(tracker.len(), MAX_FRAMES_IN_FLIGHT);
    // It has come into flight again, in place of the next one.
    tracker.update(arrival_time(), last(1, 4)).unwrap();
    assert!(!tracker.is_complete(1));
    for n in 3..11u64 {
        tracker.update(arrival_time(), last(n, 3 * n + 1)).unwrap();
        assert!(tracker.is_complete(n));
    }
}

#[test]
fn frame_that_expires_first_gives_way() {
    let mut tracker = tracker_for(100);
    // The larger its number, the earlier a frame has started.
    for n in (0..10u64).rev() {
        let started = arrival_time() + Duration::from_millis(9 - n);
        tracker.update(started, first(n, 10 * n)).unwrap();
    }
    let now = arrival_time() + Duration::from_millis(20);
    // A packet of a frame in flight, or a frame that is complete at once, takes no room.
    tracker.update(now, packet(3, 31)).unwrap();
    tracker.update(now, whole(50, 500)).unwrap();
    assert_eq!(tracker.len(), 10);
    tracker.update(now, first(20, 200)).unwrap();
    assert_eq!(tracker.len(), 10);
    for n in 0..9u64 {
        let end = if n == 3 { 32 } else { 10 * n + 1 };
        tracker.update(now, last(n, end)).unwrap();
        assert!(tracker.is_complete(n));
    }
    tracker.update(now, last(9, 91)).unwrap();
    assert!(!tracker.is_complete(9));
    tracker.update(now, last(20, 201)).unwrap();
    assert!(tracker.is_complete(20));
}

#[test]
fn complete_frames_are_forgotten_first_in_first_out() {
    let mut tracker = tracker_for(2);
    for n in [5u64, 1, 6] {
        tracker.update(arrival_time(), whole(n, n)).unwrap();
    }
    assert!(!tracker.is_complete(5));
    assert!(tracker.is_complete(1));
    assert!(tracker.is_complete(6));
    tracker.update(arrival_time(), whole(3, 3)).unwrap();
    assert!(!tracker.is_complete(1));
    assert!(tracker.is_complete(3));
    assert!(tracker.is_complete(6));
}

#[test]
fn frame_that_becomes_complete_twice_is_remembered_twice() {
    let mut tracker = tracker_for(3);
    for n in [4u64, 8, 4, 2] {
        tracker.update(arrival_time(), whole(n, n)).unwrap();
    }
    assert!(tracker.is_complete(2));
    assert!(tracker.is_complete(4));
    assert!(tracker.is_complete(8));
    for n in [6u64, 7] {
        tracker.update(arrival_time(), whole(n, n)).unwrap();
    }
    assert!(!tracker.is_complete(4));
    assert!(!tracker.is_complete(8));
    assert!(tracker.is_complete(2));
}

#[test]
fn newest_complete_frames_are_remembered_in_any_order() {
    let mut tracker = tracker_for(20);
    let numbers: Vec<u64> = (0..50u64).map(|i| (i * 17) % 50).collect();
    for n in &numbers {
        tracker.update(arrival_time(), whole(*n, *n)).unwrap();
    }
    for (i, n) in numbers.iter().enumerate() {
        assert_eq!(tracker.is_complete(*n), i >= 30);
    }
}

#[test]
fn nothing_is_remembered_without_room() {
    let mut tracker = tracker_for(0);
    assert_eq!(tracker.update(arrival_time(), whole(1, 1)), Ok(()));
    assert!(!tracker.is_complete(1));
    assert!(tracker.is_empty());
}

#[test]
fn search_beyond_the_newest_frames() {
    let mut tracker = tracker_for(1000);
    for n in 0..500u64 {
        tracker.update(arrival_time(), whole(3 * n, n)).unwrap();
    }
    for n in 0..1500u64 {
        assert_eq!(tracker.is_complete(n), n % 3 == 0);
    }
}

#[test]
fn cleanup_keeps_what_has_not_expired() {
    let start = arrival_time();
    let mut tracker = FrameTracker::new(FrameTrackerConfig::default(), start);
    tracker.update(start, first(1, 1)).unwrap();
    tracker.update(start + Duration::from_secs(3), first(2, 10)).unwrap();
    // The first frame does not live longer for one more packet.
    tracker.update(start + Duration::from_secs(4), packet(1, 2)).unwrap();
    tracker.do_periodic_cleanup(start + Duration::from_secs(5));
    assert_eq!(tracker.len(), 1);
    tracker.update(start + Duration::from_secs(5), last(2, 11)).unwrap();
    assert!(tracker.is_complete(2));
    tracker.do_periodic_cleanup(start + Duration::from_secs(9));
    assert!(tracker.is_complete(2));
}

#[test]
fn cleanup_waits_for_its_time() {
    let start = arrival_time();
    let config = FrameTrackerConfig {
        max_complete_frames: 3,
        prune_period: Duration::from_millis(500),
        frame_lifetime: Duration::from_millis(100),
    };
    let mut tracker = FrameTracker::new(config, start);
    tracker.update(start, first(1, 1)).unwrap();
    tracker.do_periodic_cleanup(start + Duration::from_millis(499));
    assert_eq!(tracker.len(), 1);
    tracker.do_periodic_cleanup(start + Duration::from_millis(500));
    assert_eq!(tracker.len(), 0);
    tracker.update(start + Duration::from_millis(500), first(2, 1)).unwrap();
    tracker.do_periodic_cleanup(start + Duration::from_millis(999));
    assert_eq!(tracker.len(), 1);
    tracker.do_periodic_cleanup(start + Duration::from_millis(1000));
    assert_eq!(tracker.len(), 0);
}
