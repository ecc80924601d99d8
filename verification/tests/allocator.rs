use svc::allocator::{
    AllocationError, AllocationResult, Allocator, BasicAllocationStrategy, BlastAllocator,
    DefaultAllocator, ThrottledAllocator,
};
use svc::media::{
    DecodeTarget, DecodeTargetInfo, DecodeTargetInfoList, DemuxId, Resolution, VideoHeight,
};
use svc::time::{Duration, Instant};
use svc::units::DataRate;

/// What an allocation is expected to yield.
#[derive(Debug, PartialEq)]
struct Expected {
    selected_decode_targets: Vec<Option<DecodeTarget>>,
    allocated_rate: DataRate,
}

fn outcome(
    result: Result<AllocationResult, AllocationError>,
) -> Result<Expected, AllocationError> {
    result.map(|result| Expected {
        selected_decode_targets: result.selected_decode_targets.to_vec(),
        allocated_rate: result.allocated_rate,
    })
}

#[test]
fn test_default_allocator() {
    let client_1_decode_target_info = DecodeTargetInfoList::new(vec![
        DecodeTargetInfo {
            rate: DataRate::from_kbps(1000),
            resolution: Resolution::default(),
            chain_index: 0,
        },
        DecodeTargetInfo {
            rate: DataRate::from_kbps(2000),
            resolution: Default::default(),
            chain_index: 0,
        },
        DecodeTargetInfo {
            rate: DataRate::from_kbps(3000),
            resolution: Default::default(),
            chain_index: 0,
        }
    ]);
    let client_2_decode_target_info = DecodeTargetInfoList::new(vec![
        DecodeTargetInfo {
            rate: DataRate::from_kbps(512),
            resolution: Resolution::default(),
            chain_index: 0,
        },
        DecodeTargetInfo {
            rate: DataRate::from_kbps(1500),
            resolution: Default::default(),
            chain_index: 0,
        },
        DecodeTargetInfo {
            rate: DataRate::from_kbps(2500),
            resolution: Default::default(),
            chain_index: 0,
        }
    ]);
    let decode_target_info_lists = [&client_1_decode_target_info, &client_2_decode_target_info];
    let allocator = DefaultAllocator;
    let allocation_result =
        allocator.allocate(DataRate::from_kbps(10000), None, &decode_target_info_lists);
    let expected_selected_targets: Vec<Option<DecodeTarget>> = vec![Some(2), Some(2)];

    assert_eq!(
        outcome(allocation_result),
        Ok(Expected {
            selected_decode_targets: expected_selected_targets,
            allocated_rate: DataRate::from_kbps(5500),
        })
    );
}

#[test]
fn test_default_allocator_with_different_decode_target_counts() {
    let client_1_decode_target_info = DecodeTargetInfoList::new(vec![
        DecodeTargetInfo {
            rate: DataRate::from_kbps(1000),
            resolution: Resolution::default(),
            chain_index: 0,
        },
        DecodeTargetInfo {
            rate: DataRate::from_kbps(2000),
            resolution: Default::default(),
            chain_index: 0,
        },
    ]);
    let client_2_decode_target_info = DecodeTargetInfoList::new(vec![
        DecodeTargetInfo {
            rate: DataRate::from_kbps(512),
            resolution: Resolution::default(),
            chain_index: 0,
        },
        DecodeTargetInfo {
            rate: DataRate::from_kbps(1500),
            resolution: Default::default(),
            chain_index: 0,
        },
        DecodeTargetInfo {
            rate: DataRate::from_kbps(2000),
            resolution: Default::default(),
            chain_index: 0,
        }
    ]);
    let decode_target_info_lists = [&client_1_decode_target_info, &client_2_decode_target_info];
    let allocator = DefaultAllocator;
    let allocation_result =
        allocator.allocate(DataRate::from_kbps(10000), None, &decode_target_info_lists);
    let expected_selected_targets: Vec<Option<DecodeTarget>> = vec![Some(1), Some(2)];

    assert_eq!(
        outcome(allocation_result),
        Ok(Expected {
            selected_decode_targets: expected_selected_targets,
            allocated_rate: DataRate::from_kbps(4000),
        })
    );
}

#[test]
fn test_no_senders() {
    let allocator = DefaultAllocator;
    let result = allocator.allocate(DataRate::from_kbps(10000), None, &[]);
    assert_eq!(
        outcome(result),
        Ok(Expected {
            selected_decode_targets: vec![],
            allocated_rate: DataRate::zero(),
        })
    );
}

#[test]
fn test_zero_budget() {
    let client = DecodeTargetInfoList::new(vec![DecodeTargetInfo {
        rate: DataRate::from_kbps(1000),
        resolution: Resolution::default(),
        chain_index: 0,
    }]);
    let allocator = DefaultAllocator;
    let result = allocator.allocate(DataRate::zero(), None, &[&client]);
    assert_eq!(
        outcome(result),
        Ok(Expected {
            selected_decode_targets: vec![None],
            allocated_rate: DataRate::zero(),
        })
    );
}

#[test]
fn test_single_sender() {
    let client = DecodeTargetInfoList::new(vec![
        DecodeTargetInfo {
            rate: DataRate::from_kbps(500),
            resolution: Resolution::default(),
            chain_index: 0,
        },
        DecodeTargetInfo {
            rate: DataRate::from_kbps(1000),
            resolution: Resolution::default(),
            chain_index: 0,
        },
    ]);
    let allocator = DefaultAllocator;
    let result = allocator.allocate(DataRate::from_kbps(10000), None, &[&client]);
    assert_eq!(
        outcome(result),
        Ok(Expected {
            selected_decode_targets: vec![Some(1)],
            allocated_rate: DataRate::from_kbps(1000),
        })
    );
}

#[test]
fn test_budget_caps_at_lowest_tier() {
    // 1000 fits both at tier 0 (500+500=1000) but tier 1 (1001) alone exceeds budget
    let client_1 = DecodeTargetInfoList::new(vec![
        DecodeTargetInfo {
            rate: DataRate::from_kbps(500),
            resolution: Resolution::default(),
            chain_index: 0,
        },
        DecodeTargetInfo {
            rate: DataRate::from_kbps(1001),
            resolution: Resolution::default(),
            chain_index: 0,
        },
    ]);
    let client_2 = DecodeTargetInfoList::new(vec![
        DecodeTargetInfo {
            rate: DataRate::from_kbps(500),
            resolution: Resolution::default(),
            chain_index: 0,
        },
        DecodeTargetInfo {
            rate: DataRate::from_kbps(1001),
            resolution: Resolution::default(),
            chain_index: 0,
        },
    ]);
    let allocator = DefaultAllocator;
    let result = allocator.allocate(DataRate::from_kbps(1000), None, &[&client_1, &client_2]);
    assert_eq!(
        outcome(result),
        Ok(Expected {
            selected_decode_targets: vec![Some(0), Some(0)],
            allocated_rate: DataRate::from_kbps(1000),
        })
    );
}

#[test]
fn test_tight_budget_first_sender_wins() {
    // 600+600=1200 exceeds budget of 1000, so only sender 0 gets tier 0
    let client_1 = DecodeTargetInfoList::new(vec![DecodeTargetInfo {
        rate: DataRate::from_kbps(600),
        resolution: Resolution::default(),
        chain_index: 0,
    }]);
    let client_2 = DecodeTargetInfoList::new(vec![DecodeTargetInfo {
        rate: DataRate::from_kbps(600),
        resolution: Resolution::default(),
        chain_index: 0,
    }]);
    let allocator = DefaultAllocator;
    let result = allocator.allocate(DataRate::from_kbps(1000), None, &[&client_1, &client_2]);
    assert_eq!(
        outcome(result),
        Ok(Expected {
            selected_decode_targets: vec![Some(0), None],
            allocated_rate: DataRate::from_kbps(600),
        })
    );
}

#[test]
fn test_zero_rate_decode_target_skips_selection_update() {
    // decode_target[1] has rate=0: selection stays at decode_target[0]
    let client = DecodeTargetInfoList::new(vec![
        DecodeTargetInfo {
            rate: DataRate::from_kbps(500),
            resolution: Resolution::default(),
            chain_index: 0,
        },
        DecodeTargetInfo {
            rate: DataRate::zero(),
            resolution: Resolution::default(),
            chain_index: 0,
        },
    ]);
    let allocator = DefaultAllocator;
    let result = allocator.allocate(DataRate::from_kbps(10000), None, &[&client]);
    assert_eq!(
        outcome(result),
        Ok(Expected {
            selected_decode_targets: vec![Some(0)],
            allocated_rate: DataRate::from_kbps(500),
        })
    );
}

#[test]
fn test_resolution_filter_rejects_over_height_target() {
    // Tier 1 has height 720 which exceeds the 480 limit ; should stay at tier 0.
    let client = DecodeTargetInfoList::new(vec![
        DecodeTargetInfo {
            rate: DataRate::from_kbps(500),
            resolution: Resolution {
                width: 640,
                height: 360
            },
            chain_index: 0,
        },
        DecodeTargetInfo {
            rate: DataRate::from_kbps(1000),
            resolution: Resolution {
                width: 1280,
                height: 720
            },
            chain_index: 0,
        },
    ]);
    let allocator = DefaultAllocator;
    let result =
        allocator.allocate(DataRate::from_kbps(10000), Some(&[480.into()]), &[&client]);
    assert_eq!(
        outcome(result),
        Ok(Expected {
            selected_decode_targets: vec![Some(0)],
            allocated_rate: DataRate::from_kbps(500),
        })
    );
}

#[test]
fn test_upper_tier_requires_all_senders_to_fit() {
    // 900+900=1800 > 1400, so neither sender upgrades even though sender 0 alone would fit.
    let client_1 = DecodeTargetInfoList::new(vec![
        DecodeTargetInfo {
            rate: DataRate::from_kbps(500),
            resolution: Resolution::default(),
            chain_index: 0,
        },
        DecodeTargetInfo {
            rate: DataRate::from_kbps(900),
            resolution: Resolution::default(),
            chain_index: 0,
        },
    ]);
    let client_2 = DecodeTargetInfoList::new(vec![
        DecodeTargetInfo {
            rate: DataRate::from_kbps(500),
            resolution: Resolution::default(),
            chain_index: 0,
        },
        DecodeTargetInfo {
            rate: DataRate::from_kbps(900),
            resolution: Resolution::default(),
            chain_index: 0,
        },
    ]);
    let allocator = DefaultAllocator;
    let result = allocator.allocate(DataRate::from_kbps(1400), None, &[&client_1, &client_2]);
    assert_eq!(
        outcome(result),
        Ok(Expected {
            selected_decode_targets: vec![Some(0), Some(0)],
            allocated_rate: DataRate::from_kbps(1000),
        })
    );
}

#[test]
fn test_upper_tier_upgrades_all_senders_when_budget_allows() {
    let client_1 = DecodeTargetInfoList::new(vec![
        DecodeTargetInfo {
            rate: DataRate::from_kbps(500),
            resolution: Resolution::default(),
            chain_index: 0,
        },
        DecodeTargetInfo {
            rate: DataRate::from_kbps(900),
            resolution: Resolution::default(),
            chain_index: 0,
        },
    ]);
    let client_2 = DecodeTargetInfoList::new(vec![
        DecodeTargetInfo {
            rate: DataRate::from_kbps(500),
            resolution: Resolution::default(),
            chain_index: 0,
        },
        DecodeTargetInfo {
            rate: DataRate::from_kbps(900),
            resolution: Resolution::default(),
            chain_index: 0,
        },
    ]);
    let allocator = DefaultAllocator;
    let result = allocator.allocate(DataRate::from_kbps(1800), None, &[&client_1, &client_2]);
    assert_eq!(
        outcome(result),
        Ok(Expected {
            selected_decode_targets: vec![Some(1), Some(1)],
            allocated_rate: DataRate::from_kbps(1800),
        })
    );
}

#[test]
fn test_resolution_filter_with_multiple_senders() {
    // Sender 0's tier 1 (720p) exceeds its 480p limit; sender 1's tier 1 (480p) fits.
    // Sender 0 contributes its tier-0 rate as fallback; tier 1 still commits.
    let client_1 = DecodeTargetInfoList::new(vec![
        DecodeTargetInfo {
            rate: DataRate::from_kbps(500),
            resolution: Resolution {
                width: 640,
                height: 360
            },
            chain_index: 0,
        },
        DecodeTargetInfo {
            rate: DataRate::from_kbps(1000),
            resolution: Resolution {
                width: 1280,
                height: 720
            },
            chain_index: 0,
        },
    ]);
    let client_2 = DecodeTargetInfoList::new(vec![
        DecodeTargetInfo {
            rate: DataRate::from_kbps(500),
            resolution: Resolution {
                width: 640,
                height: 360
            },
            chain_index: 0,
        },
        DecodeTargetInfo {
            rate: DataRate::from_kbps(600),
            resolution: Resolution {
                width: 854,
                height: 480
            },
            chain_index: 0,
        },
    ]);
    let allocator = DefaultAllocator;
    let result = allocator.allocate(
        DataRate::from_kbps(10000),
        Some(&[480.into(), 480.into()]),
        &[&client_1, &client_2],
    );
    assert_eq!(
        outcome(result),
        Ok(Expected {
            selected_decode_targets: vec![Some(0), Some(1)],
            allocated_rate: DataRate::from_kbps(1100), // 500 (sender 0 stays at tier 0) + 600 (sender 1 upgrades)
        })
    );
}

#[test]
fn test_default_allocator_with_no_decode_targets() {
    let client_1_decode_target_info = DecodeTargetInfoList::new(vec![]);
    let client_2_decode_target_info = DecodeTargetInfoList::new(vec![]);
    let decode_target_info_lists = [&client_1_decode_target_info, &client_2_decode_target_info];
    let allocator = DefaultAllocator;
    let allocation_result =
        allocator.allocate(DataRate::from_kbps(10000), None, &decode_target_info_lists);
    let expected_selected_targets: Vec<Option<DecodeTarget>> = vec![None, None];

    assert_eq!(
        outcome(allocation_result),
        Ok(Expected {
            selected_decode_targets: expected_selected_targets,
            allocated_rate: DataRate::zero(),
        })
    );
}

#[test]
fn test_mismatched_height_constraints() {
    let client = DecodeTargetInfoList::new(vec![DecodeTargetInfo {
        rate: DataRate::from_kbps(500),
        resolution: Resolution::default(),
        chain_index: 0,
    }]);
    let allocator = DefaultAllocator;
    // 2 height entries for 1 sender is an error
    let result = allocator.allocate(
        DataRate::from_kbps(10000),
        Some(&[480.into(), 720.into()]),
        &[&client],
    );
    assert_eq!(outcome(result), Err(AllocationError::MismatchedHeightConstraints));
}

#[test]
fn test_zero_rate_tier0_sender_promoted_to_upper_tier() {
    // Tier 0 has rate=0, so it fails the predicate and is skipped at the base layer.
    // Tier 1 has rate>0 and should be picked up during upper-layer allocation.
    let client = DecodeTargetInfoList::new(vec![
        DecodeTargetInfo {
            rate: DataRate::zero(),
            resolution: Resolution::default(),
            chain_index: 0,
        },
        DecodeTargetInfo {
            rate: DataRate::from_kbps(500),
            resolution: Resolution::default(),
            chain_index: 0,
        },
    ]);
    let allocator = DefaultAllocator;
    let result = allocator.allocate(DataRate::from_kbps(10000), None, &[&client]);
    assert_eq!(
        outcome(result),
        Ok(Expected {
            selected_decode_targets: vec![Some(1)],
            allocated_rate: DataRate::from_kbps(500),
        })
    );
}

/// A sender with targets of these rates, in kbps, the height of each 180 more than that of the
/// one before it.
fn sender(rates: &[u64]) -> DecodeTargetInfoList {
    let mut targets = Vec::new();
    for (i, &rate) in rates.iter().enumerate() {
        let height = 180 * (i as u16 + 1);
        targets.push(DecodeTargetInfo {
            rate: DataRate::from_kbps(rate),
            resolution: Resolution { width: 2 * height, height },
            chain_index: i,
        });
    }
    DecodeTargetInfoList::new(targets)
}

fn kbps(rate: u64) -> DataRate {
    DataRate::from_kbps(rate)
}

fn expected(rate: u64, targets: &[Option<DecodeTarget>]) -> Result<Expected, AllocationError> {
    Ok(Expected { selected_decode_targets: targets.to_vec(), allocated_rate: kbps(rate) })
}

fn split(budget: u64, lists: &[&DecodeTargetInfoList]) -> Result<Expected, AllocationError> {
    outcome(DefaultAllocator.allocate(kbps(budget), None, lists))
}

fn at(millis: u64) -> Instant {
    Instant::from_nanos(1_000_000 * millis as u128)
}

#[test]
fn rates() {
    assert_eq!(DataRate::from_kbps(3).as_bps(), 3000);
    assert_eq!(DataRate::from_bps(3).as_bps(), 3);
    assert_eq!(DataRate::zero().as_bps(), 0);
    assert_eq!(DataRate::default().as_bps(), 0);
    assert_eq!(DataRate::max_value().as_bps(), u64::MAX);
    assert_eq!(kbps(5).saturating_sub(kbps(2)), kbps(3));
    assert_eq!(kbps(2).saturating_sub(kbps(5)), kbps(0));
    assert_eq!(kbps(2) + kbps(5), kbps(7));
    assert!(kbps(2) < kbps(5));
}

#[test]
fn times() {
    assert_eq!(Duration::from_millis(3), Duration::from_nanos(3_000_000));
    assert_eq!(Duration::from_secs(3), Duration::from_nanos(3_000_000_000));
    assert_eq!(at(3) + Duration::from_secs(1), at(1003));
}

#[test]
fn decode_target_list() {
    let list = sender(&[1, 2]);
    assert_eq!(list.len(), 2);
    assert!(!list.is_empty());
    assert_eq!(list.get(1).map(|info| info.rate), Some(kbps(2)));
    assert!(list.get(2).is_none());
    assert!(sender(&[]).is_empty());
    assert_eq!(VideoHeight::from(480).as_u16(), 480);
    assert_eq!(Resolution::default(), Resolution { width: 0, height: 0 });
}

#[test]
fn default_result_is_empty() {
    let result = AllocationResult::default();
    assert_eq!(result.allocated_rate, DataRate::zero());
    assert_eq!(result.selected_decode_targets.to_vec(), vec![]);
}

#[test]
fn base_layers_in_order_until_one_does_not_fit() {
    let (a, b, c) = (sender(&[500]), sender(&[600]), sender(&[100]));
    // The last one would fit, but comes after one that does not.
    assert_eq!(split(1000, &[&a, &b, &c]), expected(500, &[Some(0), None, None]));
}

#[test]
fn senders_without_base_layer_are_passed_over() {
    let (a, b, c) = (sender(&[]), sender(&[0]), sender(&[100]));
    assert_eq!(split(1000, &[&a, &b, &c]), expected(100, &[None, None, Some(0)]));
}

#[test]
fn budget_used_up_by_base_layers_still_tries_upper_layers() {
    // The first sender uses up the budget, so the second gets no base layer. At the next tier
    // the first one takes less and leaves room.
    let (a, b) = (sender(&[1000, 300]), sender(&[400, 700]));
    assert_eq!(split(1000, &[&a, &b]), expected(1000, &[Some(1), Some(1)]));
    assert_eq!(split(999, &[&a, &b]), expected(0, &[None, None]));
    // With a bit more the budget is not used up, and nobody goes up.
    assert_eq!(split(1001, &[&a, &b]), expected(1000, &[Some(0), None]));
}

#[test]
fn a_tier_that_does_not_fit_ends_it() {
    // The third tier would fit again.
    let a = sender(&[100, 900, 200]);
    assert_eq!(split(500, &[&a]), expected(100, &[Some(0)]));
    assert_eq!(split(900, &[&a]), expected(200, &[Some(2)]));
}

#[test]
fn failed_tier_leaves_no_trace() {
    // The first sender could go up, the second cannot.
    let (a, b) = (sender(&[100, 200]), sender(&[100, 5000]));
    assert_eq!(split(1000, &[&a, &b]), expected(200, &[Some(0), Some(0)]));
}

#[test]
fn sum_beyond_the_largest_rate_does_not_fit() {
    let target = DecodeTargetInfo {
        rate: DataRate::max_value(),
        resolution: Resolution::default(),
        chain_index: 0,
    };
    let list = DecodeTargetInfoList::new(vec![target]);
    let result = DefaultAllocator.calculate_ideal_send_rate(None, &[&list, &list]).unwrap();
    assert_eq!(result.allocated_rate, DataRate::max_value());
    assert_eq!(result.selected_decode_targets.to_vec(), vec![Some(0), None]);
}

#[test]
fn larger_budget_yields_no_less() {
    let a = sender(&[100, 300, 700]);
    let b = sender(&[200, 250]);
    let mut before = 0;
    for budget in 0..1200 {
        let rate = split(budget, &[&a, &b]).unwrap().allocated_rate.as_bps();
        assert!(rate >= before && rate <= kbps(budget).as_bps());
        before = rate;
    }
    assert_eq!(before, 950_000);
}

#[test]
fn more_senders_than_are_stored_in_place() {
    let list = sender(&[1, 2]);
    let lists: Vec<&DecodeTargetInfoList> = vec![&list; 40];
    assert_eq!(split(80, &lists), expected(80, &[Some(1); 40]));
    assert_eq!(split(79, &lists), expected(40, &[Some(0); 40]));
}

#[test]
fn ideal_send_rate_is_unlimited() {
    let (a, b) = (sender(&[100, 200, 400]), sender(&[100, 0]));
    let ideal = DefaultAllocator.calculate_ideal_send_rate(None, &[&a, &b]);
    assert_eq!(outcome(ideal), expected(500, &[Some(2), Some(0)]));
    let limited = DefaultAllocator
        .calculate_ideal_send_rate(Some(&[VideoHeight::from(360), VideoHeight::from(100)]), &[&a, &b]);
    assert_eq!(outcome(limited), expected(200, &[Some(1), None]));
    let mismatched = DefaultAllocator.calculate_ideal_send_rate(Some(&[]), &[&a, &b]);
    assert_eq!(outcome(mismatched), Err(AllocationError::MismatchedHeightConstraints));
    // The ideal rate is all it takes.
    assert_eq!(split(500, &[&a, &b]), expected(500, &[Some(2), Some(0)]));
    assert_eq!(split(499, &[&a, &b]), expected(300, &[Some(1), Some(0)]));
}

#[test]
fn heights_that_exclude_nothing_are_like_none() {
    let (a, b) = (sender(&[100, 200]), sender(&[300, 400]));
    let heights = [VideoHeight::from(u16::MAX); 2];
    for budget in [0, 100, 399, 400, 599, 600] {
        let result = DefaultAllocator.allocate(kbps(budget), Some(&heights), &[&a, &b]);
        assert_eq!(outcome(result), split(budget, &[&a, &b]));
    }
}

#[test]
fn base_rate_counts_first_targets() {
    let (a, b, c) = (sender(&[100, 200]), sender(&[]), sender(&[30]));
    assert_eq!(DefaultAllocator::default().calculate_base_rate(&[&a, &b, &c]), kbps(130));
    assert_eq!(DefaultAllocator.calculate_base_rate(&[]), kbps(0));
}

#[test]
fn blast_allocator_disregards_budget() {
    let (a, b) = (sender(&[100, 200]), sender(&[300, 400]));
    let blast = BlastAllocator::default();
    for budget in [0, 100, 10000] {
        let result = blast.allocate(kbps(budget), None, &[&a, &b]);
        assert_eq!(outcome(result), expected(600, &[Some(1), Some(1)]));
    }
    let ideal = blast.calculate_ideal_send_rate(None, &[&a, &b]);
    assert_eq!(outcome(ideal), expected(600, &[Some(1), Some(1)]));
    assert_eq!(blast.calculate_base_rate(&[&a, &b]), kbps(400));
    let mismatched = blast.allocate(kbps(1), Some(&[]), &[&a]);
    assert_eq!(outcome(mismatched), Err(AllocationError::MismatchedHeightConstraints));
}

fn throttled() -> ThrottledAllocator<dyn Allocator + Send> {
    ThrottledAllocator::<dyn Allocator + Send>::new(
        DemuxId { id: 17 },
        Box::new(DefaultAllocator),
        Duration::from_millis(100),
    )
}

#[test]
fn throttled_allocator_pauses() {
    let mut allocator = throttled();
    assert_eq!(allocator.demux_id(), DemuxId { id: 17 });
    assert!(allocator.acquire(at(0), false));
    // It has been acquired.
    assert!(!allocator.acquire(at(1000), false));
    allocator.release(at(1000));
    assert!(!allocator.acquire(at(1000), false));
    assert!(!allocator.acquire(at(1100), false));
    assert!(allocator.acquire(at(1101), false));
}

#[test]
fn throttled_allocator_by_force() {
    let mut allocator = throttled();
    assert!(allocator.acquire(at(0), true));
    assert!(allocator.acquire(at(0), true));
    allocator.release(at(0));
    assert!(!allocator.acquire(at(50), false));
    assert!(allocator.acquire(at(50), true));
    assert!(!allocator.acquire(at(5000), false));
}

#[test]
fn throttled_allocator_tells_whether_it_is_acquired() {
    let mut allocator = throttled();
    assert!(!allocator.is_acquired());
    assert!(allocator.acquire(at(1), false));
    assert!(allocator.is_acquired());
    assert!(!allocator.acquire(at(2), false));
    assert!(allocator.is_acquired());
    allocator.release(at(3));
    assert!(!allocator.is_acquired());
    assert!(!allocator.acquire(at(3), false));
    assert!(!allocator.is_acquired());
}

#[test]
fn throttled_allocator_asks_the_wrapped_one() {
    let (a, b) = (sender(&[100, 200]), sender(&[300, 400]));
    let mut allocator = throttled();
    assert!(allocator.acquire(at(0), false));
    let result = allocator.allocate(kbps(500), None, &[&a, &b]);
    assert_eq!(outcome(result), expected(400, &[Some(0), Some(0)]));
    let ideal = allocator.calculate_ideal_send_rate(None, &[&a, &b]);
    assert_eq!(outcome(ideal), expected(600, &[Some(1), Some(1)]));
    assert_eq!(allocator.calculate_base_rate(&[&a, &b]), kbps(400));
}

fn strategy<'a>(
    lists: &[&'a DecodeTargetInfoList],
    target: u64,
    drain: u64,
    guaranteed: u64,
) -> BasicAllocationStrategy<'a> {
    BasicAllocationStrategy {
        demux_id: DemuxId { id: 1 },
        target_rate: kbps(target),
        heights: None,
        decode_target_lists: lists.to_vec(),
        outgoing_queue_drain_rate: kbps(drain),
        guaranteed_rate: kbps(guaranteed),
    }
}

#[test]
fn strategy_leaves_room_for_draining() {
    let (a, b) = (sender(&[100, 200]), sender(&[300, 400]));
    let result = strategy(&[&a, &b], 700, 200, 350).allocate(&DefaultAllocator);
    assert_eq!(result.ideal_send_rate, kbps(600));
    assert_eq!(result.requested_base_rate, kbps(400));
    assert_eq!(result.allocated_rate, kbps(400));
    assert_eq!(result.selected_decode_targets.to_vec(), vec![Some(0), Some(0)]);
}

#[test]
fn strategy_budget() {
    let lists = [];
    // What is left, the guaranteed rate, and the ideal rate.
    assert_eq!(strategy(&lists, 700, 200, 350).allocatable_rate(kbps(600)), kbps(500));
    assert_eq!(strategy(&lists, 700, 200, 550).allocatable_rate(kbps(600)), kbps(550));
    assert_eq!(strategy(&lists, 700, 900, 350).allocatable_rate(kbps(600)), kbps(350));
    assert_eq!(strategy(&lists, 700, 0, 350).allocatable_rate(kbps(600)), kbps(600));
}

#[test]
fn strategy_with_blast_allocator() {
    let (a, b) = (sender(&[100, 200]), sender(&[300, 400]));
    let result = strategy(&[&a, &b], 0, 0, 0).allocate(&BlastAllocator::default());
    assert_eq!(result.ideal_send_rate, kbps(600));
    assert_eq!(result.allocated_rate, kbps(600));
    assert_eq!(result.selected_decode_targets.to_vec(), vec![Some(1), Some(1)]);
}

/// Refuses everything.
struct Refusing;

impl Allocator for Refusing {
    fn allocate(
        &self,
        _rate_budget: DataRate,
        _heights: Option<&[VideoHeight]>,
        _lists: &[&DecodeTargetInfoList],
    ) -> Result<AllocationResult, AllocationError> {
        Err(AllocationError::MismatchedHeightConstraints)
    }

    fn calculate_ideal_send_rate(
        &self,
        _heights: Option<&[VideoHeight]>,
        _lists: &[&DecodeTargetInfoList],
    ) -> Result<AllocationResult, AllocationError> {
        Err(AllocationError::MismatchedHeightConstraints)
    }

    fn calculate_base_rate(&self, _lists: &[&DecodeTargetInfoList]) -> DataRate {
        kbps(7)
    }
}

#[test]
fn strategy_takes_a_refusal_for_nothing() {
    let a = sender(&[100]);
    let result = strategy(&[&a], 700, 0, 0).allocate(&Refusing);
    assert_eq!(result.ideal_send_rate, kbps(0));
    assert_eq!(result.requested_base_rate, kbps(7));
    assert_eq!(result.allocated_rate, kbps(0));
    assert_eq!(result.selected_decode_targets.to_vec(), vec![]);
}
