use rp_core::execution::{expiry_proposal, LATCH_DEADLINE, LATCH_INTERRUPTED, LATCH_OPEN};
use rp_core::execution::{ExecutionBudget, ExecutionReadError, ExecutionStop};
use std::sync::{
    atomic::{AtomicBool, AtomicU64, Ordering},
    Arc,
};
use std::time::Duration;

#[test]
fn exact_expiry_sticky_and_shared_nested_state() {
    let now = Arc::new(AtomicU64::new(0));
    let token = Arc::new(AtomicBool::new(false));
    let budget = ExecutionBudget::with_clock(Duration::from_secs(2), token.clone(), {
        let now = now.clone();
        move || Duration::from_millis(now.load(Ordering::Relaxed))
    });
    let nested = budget.clone();
    now.store(1999, Ordering::Relaxed);
    assert_eq!(nested.checkpoint(), Ok(()));
    now.store(2000, Ordering::Relaxed);
    assert_eq!(nested.checkpoint(), Err(ExecutionStop::Deadline));
    now.store(0, Ordering::Relaxed);
    token.store(true, Ordering::Release);
    assert_eq!(budget.checkpoint(), Err(ExecutionStop::Deadline));
}

#[test]
fn simultaneous_cancellation_wins_and_is_sticky() {
    let token = Arc::new(AtomicBool::new(true));
    let budget = ExecutionBudget::with_clock(Duration::from_secs(1), token.clone(), || {
        Duration::from_secs(1)
    });
    assert_eq!(budget.checkpoint(), Err(ExecutionStop::Interrupted));
    token.store(false, Ordering::Release);
    assert_eq!(budget.checkpoint(), Err(ExecutionStop::Interrupted));
    assert_eq!(ExecutionBudget::default().checkpoint(), Ok(()));
}

#[test]
fn read_chunk_stops_after_inflight_read_and_before_next_read() {
    struct Reader {
        token: Arc<AtomicBool>,
        calls: usize,
    }
    impl std::io::Read for Reader {
        fn read(&mut self, b: &mut [u8]) -> std::io::Result<usize> {
            self.calls += 1;
            self.token.store(true, Ordering::Release);
            b[0] = 1;
            Ok(1)
        }
    }
    let token = Arc::new(AtomicBool::new(false));
    let budget = ExecutionBudget::new(Duration::from_secs(60), token.clone());
    let mut reader = Reader { token, calls: 0 };
    for _ in 0..2 {
        assert!(matches!(
            budget.read_chunk(&mut reader, &mut [0; 10]),
            Err(ExecutionReadError::Stopped(ExecutionStop::Interrupted))
        ));
    }
    assert_eq!(reader.calls, 1);
}

#[test]
fn caller_duration_is_positive_and_bounded() {
    let budget =
        ExecutionBudget::with_clock(Duration::MAX, Arc::new(AtomicBool::new(false)), || {
            Duration::from_secs(600)
        });
    assert_eq!(budget.checkpoint(), Err(ExecutionStop::Deadline));
    let budget =
        ExecutionBudget::with_clock(Duration::ZERO, Arc::new(AtomicBool::new(false)), || {
            Duration::ZERO
        });
    assert_eq!(budget.checkpoint(), Ok(()));
}

#[test]
fn expiry_is_proposed_once_the_reading_reaches_the_limit() {
    let limit: u128 = 2_000_000_000;
    assert_eq!(expiry_proposal(false, 1_999_000_000, limit), LATCH_OPEN);
    assert_eq!(expiry_proposal(false, 2_000_000_000, limit), LATCH_DEADLINE);
    assert_eq!(expiry_proposal(true, 0, limit), LATCH_INTERRUPTED);
    assert_eq!(expiry_proposal(true, 2_000_000_000, limit), LATCH_INTERRUPTED);
}
