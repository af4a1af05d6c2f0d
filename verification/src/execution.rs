//! Command-scoped cooperative execution; not a hard wall-clock deadline.
use vstd::prelude::*;

use std::sync::atomic::{AtomicBool, AtomicU8, Ordering};
use std::sync::Arc;
use std::time::{Duration, Instant};

use crate::finding::{Finding, Severity, Status};

verus! {

/// Why a command stopped at a checkpoint.
#[derive(Clone, Copy, Debug, PartialEq, Eq, Structural)]
pub enum ExecutionStop {
    Deadline,
    Interrupted,
}

impl ExecutionStop {
    /// The terminal diagnostic of the stop.
    pub fn finding(self) -> (f: Finding)
        ensures
            f.schema@ == "rp/finding/v1"@,
            f.severity == Severity::Error,
            f.source_file is None,
            f.json_pointer@ == Seq::<char>::empty(),
            self == ExecutionStop::Deadline ==> f.error_code@ == "RP_E_RESOURCE_DEADLINE_EXCEEDED"@
                && f.finding_family@ == "resource_limit"@,
            self == ExecutionStop::Interrupted ==> f.error_code@ == "RP_E_INTERRUPTED"@
                && f.finding_family@ == "interrupted"@,
            f.message@ == crate::finding::sanitized(stop_message(self)),
    {
        proof {
            reveal_strlit("");
            reveal_strlit("cooperative command deadline exceeded");
            reveal_strlit("command cancelled by caller token");
        }
        match self {
            ExecutionStop::Deadline => Finding::new(
                "RP_E_RESOURCE_DEADLINE_EXCEEDED",
                "resource_limit",
                Severity::Error,
                "cooperative command deadline exceeded",
                None,
                "",
            ),
            ExecutionStop::Interrupted => Finding::new(
                "RP_E_INTERRUPTED",
                "interrupted",
                Severity::Error,
                "command cancelled by caller token",
                None,
                "",
            ),
        }
    }

    /// The command status of the stop.
    pub fn status(self) -> (s: Status)
        ensures
            self == ExecutionStop::Deadline ==> s == Status::Invalid,
            self == ExecutionStop::Interrupted ==> s == Status::Interrupted,
    {
        match self {
            ExecutionStop::Deadline => Status::Invalid,
            ExecutionStop::Interrupted => Status::Interrupted,
        }
    }

    /// Human-readable description of the stop.
    pub fn message(self) -> (s: &'static str)
        ensures
            s@ == stop_message(self),
    {
        proof {
            reveal_strlit("cooperative command deadline exceeded");
            reveal_strlit("command cancelled by caller token");
        }
        match self {
            ExecutionStop::Deadline => "cooperative command deadline exceeded",
            ExecutionStop::Interrupted => "command cancelled by caller token",
        }
    }
}

/// The error code of a stop's diagnostic.
pub open spec fn stop_code(stop: ExecutionStop) -> Seq<char> {
    match stop {
        ExecutionStop::Deadline => "RP_E_RESOURCE_DEADLINE_EXCEEDED"@,
        ExecutionStop::Interrupted => "RP_E_INTERRUPTED"@,
    }
}

/// The finding family of a stop's diagnostic.
pub open spec fn stop_family(stop: ExecutionStop) -> Seq<char> {
    match stop {
        ExecutionStop::Deadline => "resource_limit"@,
        ExecutionStop::Interrupted => "interrupted"@,
    }
}

pub open spec fn stop_message(stop: ExecutionStop) -> Seq<char> {
    match stop {
        ExecutionStop::Deadline => "cooperative command deadline exceeded"@,
        ExecutionStop::Interrupted => "command cancelled by caller token"@,
    }
}

/// Latch value for "no stop observed yet".
pub const LATCH_OPEN: u8 = 0;

/// Latch value recording a caller cancellation.
pub const LATCH_INTERRUPTED: u8 = 1;

/// Latch value recording an expired allowance.
pub const LATCH_DEADLINE: u8 = 2;

/// The stop a non-zero latch value stands for.
pub open spec fn latched_stop(latched: u8) -> ExecutionStop {
    if latched == LATCH_INTERRUPTED {
        ExecutionStop::Interrupted
    } else {
        ExecutionStop::Deadline
    }
}

/// The latch value a checkpoint proposes after reading the token and the clock:
/// cancellation wins over expiry; zero means keep running.
pub open spec fn proposed_stop(cancelled: bool, expired: bool) -> u8 {
    if cancelled {
        LATCH_INTERRUPTED
    } else if expired {
        LATCH_DEADLINE
    } else {
        LATCH_OPEN
    }
}

/// The outcome once the proposal has raced on the shared latch: the value that was
/// already latched (`prior`, non-zero) wins; otherwise the proposal itself.
pub open spec fn raced_stop(proposed: u8, prior: u8) -> ExecutionStop {
    if prior == LATCH_INTERRUPTED || (prior == LATCH_OPEN && proposed == LATCH_INTERRUPTED) {
        ExecutionStop::Interrupted
    } else {
        ExecutionStop::Deadline
    }
}

pub fn propose_stop(cancelled: bool, expired: bool) -> (p: u8)
    ensures
        p == proposed_stop(cancelled, expired),
{
    if cancelled {
        LATCH_INTERRUPTED
    } else if expired {
        LATCH_DEADLINE
    } else {
        LATCH_OPEN
    }
}

pub fn stop_for_latch(latched: u8) -> (s: ExecutionStop)
    requires
        latched != LATCH_OPEN,
    ensures
        s == latched_stop(latched),
{
    if latched == LATCH_INTERRUPTED {
        ExecutionStop::Interrupted
    } else {
        ExecutionStop::Deadline
    }
}

pub fn resolve_race(proposed: u8, prior: u8) -> (s: ExecutionStop)
    requires
        proposed != LATCH_OPEN,
    ensures
        s == raced_stop(proposed, prior),
{
    if prior == LATCH_INTERRUPTED || (prior == LATCH_OPEN && proposed == LATCH_INTERRUPTED) {
        ExecutionStop::Interrupted
    } else {
        ExecutionStop::Deadline
    }
}

/// What a checkpoint reports from what it read: a stop already on the shared latch;
/// otherwise the caller's token (cancellation first) and whether the clock reading has
/// reached the limit; a stop so proposed then races on the latch, where `prior` is the
/// value found there.
pub open spec fn checkpoint_outcome(latched: u8, cancelled: bool, elapsed: u128, limit: u128, prior: u8) -> Result<(), ExecutionStop> {
    if latched != LATCH_OPEN {
        Err(latched_stop(latched))
    } else {
        let proposed = proposed_stop(cancelled, elapsed >= limit);
        if proposed == LATCH_OPEN {
            Ok(())
        } else {
            Err(raced_stop(proposed, prior))
        }
    }
}

/// The latch value a checkpoint proposes from the caller's token and a clock reading:
/// the allowance has expired once the reading reaches the limit.
pub fn expiry_proposal(cancelled: bool, elapsed: u128, limit: u128) -> (p: u8)
    ensures
        p == proposed_stop(cancelled, elapsed >= limit),
{
    propose_stop(cancelled, elapsed >= limit)
}

/// A checkpoint before the limit lets the command run on; one at or after it, with no
/// stop latched and no cancellation, reports the deadline; a latched stop is reported
/// whatever the token and the clock say.
pub proof fn law_checkpoint_expiry(limit: u128, elapsed: u128, cancelled: bool, prior: u8, latched: u8)
    ensures
        elapsed < limit ==> checkpoint_outcome(LATCH_OPEN, false, elapsed, limit, prior) == Ok::<(), ExecutionStop>(()),
        elapsed >= limit ==> checkpoint_outcome(LATCH_OPEN, false, elapsed, limit, LATCH_OPEN)
            == Err::<(), ExecutionStop>(ExecutionStop::Deadline),
        checkpoint_outcome(LATCH_OPEN, true, elapsed, limit, LATCH_OPEN) == Err::<(), ExecutionStop>(ExecutionStop::Interrupted),
        latched != LATCH_OPEN ==> checkpoint_outcome(latched, cancelled, elapsed, limit, prior)
            == Err::<(), ExecutionStop>(latched_stop(latched)),
{
}

/// A stop, once latched, is what every later checkpoint reports, whatever the
/// token and the clock say then.
pub proof fn law_stop_is_sticky(latched: u8, proposed: u8)
    requires
        latched != LATCH_OPEN,
    ensures
        raced_stop(proposed, latched) == latched_stop(latched),
{
}

/// Cancellation wins when cancellation and expiry are observed at the same checkpoint.
pub proof fn law_cancellation_wins(expired: bool)
    ensures
        raced_stop(proposed_stop(true, expired), LATCH_OPEN) == ExecutionStop::Interrupted,
{
}

/// Lower bound of a caller's allowance, in nanoseconds (1 ms).
pub const MIN_LIMIT_NANOS: u128 = 1_000_000;

/// Upper bound of a caller's allowance, in nanoseconds (600 s).
pub const MAX_LIMIT_NANOS: u128 = 600_000_000_000;

/// A caller's requested allowance clamped to 1 ms ..= 600 s.
pub fn clamp_limit_nanos(requested: u128) -> (n: u128)
    ensures
        n == if requested < MIN_LIMIT_NANOS {
            MIN_LIMIT_NANOS
        } else if requested > MAX_LIMIT_NANOS {
            MAX_LIMIT_NANOS
        } else {
            requested
        },
        MIN_LIMIT_NANOS <= n <= MAX_LIMIT_NANOS,
{
    if requested < MIN_LIMIT_NANOS {
        MIN_LIMIT_NANOS
    } else if requested > MAX_LIMIT_NANOS {
        MAX_LIMIT_NANOS
    } else {
        requested
    }
}

/// Calls a caller-supplied clock closure; its reading depends on time, so nothing
/// is promised of it.
#[verifier::external_body]
fn read_clock<F: Fn() -> Duration>(clock: &F) -> Duration {
    clock()
}

/// An elapsed-time source shared between threads: time since command start.
pub trait ElapsedClock: Send + Sync {
    fn elapsed(&self) -> Duration;
}

impl<F: Fn() -> Duration + Send + Sync> ElapsedClock for F {
    fn elapsed(&self) -> Duration {
        read_clock(self)
    }
}

/// The elapsed-time source of one command.
pub type Clock = Arc<Box<dyn ElapsedClock>>;

/// One non-refundable command lifetime. Clones share clock, caller token and stop
/// latch. Cancellation is observed only at checkpoints.
#[derive(Clone)]
pub struct ExecutionBudget {
    clock: Clock,
    token: Arc<AtomicBool>,
    limit_nanos: u128,
    stopped: Arc<AtomicU8>,
}

/// The whole nanoseconds a duration spans, as `Duration::as_nanos` gives them.
pub uninterp spec fn duration_as_nanos(d: Duration) -> u128;

/// `Duration::as_nanos`: the whole nanoseconds of the duration, a function of it alone.
#[verifier::external_body]
fn duration_nanos(d: Duration) -> (n: u128)
    ensures
        n == duration_as_nanos(d),
{
    d.as_nanos()
}

/// A requested allowance clamped to 1 ms ..= 600 s.
pub open spec fn clamped_nanos(requested: u128) -> u128 {
    if requested < MIN_LIMIT_NANOS {
        MIN_LIMIT_NANOS
    } else if requested > MAX_LIMIT_NANOS {
        MAX_LIMIT_NANOS
    } else {
        requested
    }
}

/// Reads the command clock and converts the reading with `Duration::as_nanos`.
/// The reading depends on time; nothing is promised of it.
#[verifier::external_body]
fn elapsed_nanos(clock: &Clock) -> (n: u128) {
    clock.elapsed().as_nanos()
}

/// Shares a caller's clock closure behind an `Arc`.
#[verifier::external_body]
fn share_clock<F: Fn() -> Duration + Send + Sync + 'static>(clock: F) -> (c: Clock) {
    Arc::new(Box::new(clock))
}

/// A monotonic clock started now (`Instant::now`, then `Instant::elapsed` on each call).
#[verifier::external_body]
fn monotonic_clock() -> (c: Clock) {
    let start = Instant::now();
    Arc::new(Box::new(move || start.elapsed()))
}

/// `Duration::from_secs(60)`, the default command allowance: sixty whole seconds,
/// which `Duration::as_nanos` gives as 60,000,000,000 nanoseconds.
#[verifier::external_body]
fn default_limit() -> (d: Duration)
    ensures
        duration_as_nanos(d) == 60_000_000_000u128,
{
    Duration::from_secs(60)
}

impl ExecutionBudget {
    pub closed spec fn limit(&self) -> u128 {
        self.limit_nanos
    }

    /// The caller's cancellation token.
    pub closed spec fn token(&self) -> Arc<AtomicBool> {
        self.token
    }

    /// Production monotonic clock, starting now.
    pub fn new(limit: Duration, token: Arc<AtomicBool>) -> (b: Self)
        ensures
            MIN_LIMIT_NANOS <= b.limit() <= MAX_LIMIT_NANOS,
            b.limit() == clamped_nanos(duration_as_nanos(limit)),
            b.token() == token,
    {
        Self::from_clock(limit, token, monotonic_clock())
    }

    /// Injected elapsed time since command start (not wall time).
    pub fn with_clock<F: Fn() -> Duration + Send + Sync + 'static>(
        limit: Duration,
        token: Arc<AtomicBool>,
        clock: F,
    ) -> (b: Self)
        ensures
            MIN_LIMIT_NANOS <= b.limit() <= MAX_LIMIT_NANOS,
            b.limit() == clamped_nanos(duration_as_nanos(limit)),
            b.token() == token,
    {
        Self::from_clock(limit, token, share_clock(clock))
    }

    fn from_clock(limit: Duration, token: Arc<AtomicBool>, clock: Clock) -> (b: Self)
        ensures
            MIN_LIMIT_NANOS <= b.limit() <= MAX_LIMIT_NANOS,
            b.limit() == clamped_nanos(duration_as_nanos(limit)),
            b.token() == token,
    {
        let limit_nanos = clamp_limit_nanos(duration_nanos(limit));
        ExecutionBudget { clock, token, limit_nanos, stopped: Arc::new(AtomicU8::new(LATCH_OPEN)) }
    }

    /// A sixty-second allowance with a fresh, unset caller token.
    pub fn default() -> (b: Self)
        ensures
            MIN_LIMIT_NANOS <= b.limit() <= MAX_LIMIT_NANOS,
            b.limit() == 60_000_000_000u128,
    {
        Self::new(default_limit(), Arc::new(AtomicBool::new(false)))
    }

    /// Reads the shared latch, then the caller token and the clock, and latches the
    /// first stop. Whatever the shared state held, the outcome is the one that
    /// `stop_for_latch`, `propose_stop` and `resolve_race` compute from what was read.
    pub fn checkpoint(&self) -> (r: Result<(), ExecutionStop>)
        ensures
            exists|latched: u8, cancelled: bool, elapsed: u128, prior: u8|
                r == #[trigger] checkpoint_outcome(latched, cancelled, elapsed, self.limit(), prior),
    {
        let latched = self.stopped.load(Ordering::Acquire);
        if latched != LATCH_OPEN {
            let r = Err(stop_for_latch(latched));
            assert(r == checkpoint_outcome(latched, false, 0, self.limit(), 0));
            return r;
        }
        let elapsed = elapsed_nanos(&self.clock);
        let cancelled = self.token.load(Ordering::Acquire);
        let stop = expiry_proposal(cancelled, elapsed, self.limit_nanos);
        if stop == LATCH_OPEN {
            assert(Ok::<(), ExecutionStop>(()) == checkpoint_outcome(latched, cancelled, elapsed, self.limit(), 0));
            return Ok(());
        }
        let prior = match self.stopped.compare_exchange(
            LATCH_OPEN,
            stop,
            Ordering::AcqRel,
            Ordering::Acquire,
        ) {
            Result::Ok(p) => p,
            Result::Err(p) => p,
        };
        let r = Err(resolve_race(stop, prior));
        assert(r == checkpoint_outcome(latched, cancelled, elapsed, self.limit(), prior));
        r
    }
}


#[verifier::external_type_specification]
#[verifier::external_body]
pub struct ExIoError(std::io::Error);

/// Why a budgeted read did not complete.
#[derive(Debug)]
pub enum ExecutionReadError {
    Stopped(ExecutionStop),
    Io(std::io::Error),
}

/// `std::io::Read::read` into `bytes`; the reader documents `0 <= n <= bytes.len()`.
#[verifier::external_body]
fn read_into<R: std::io::Read>(reader: &mut R, bytes: &mut [u8]) -> (r: Result<usize, std::io::Error>)
    ensures
        final(bytes)@.len() == old(bytes)@.len(),
        r matches Ok(n) ==> n <= old(bytes)@.len(),
{
    reader.read(bytes)
}

impl ExecutionBudget {
    /// One read between two checkpoints: a stop observed before the read prevents
    /// it; one observed after it discards its result.
    pub fn read_chunk<R: std::io::Read>(&self, reader: &mut R, bytes: &mut [u8]) -> (r: Result<
        usize,
        ExecutionReadError,
    >)
        ensures
            final(bytes)@.len() == old(bytes)@.len(),
            r matches Ok(n) ==> n <= old(bytes)@.len(),
    {
        if let Err(stop) = self.checkpoint() {
            return Err(ExecutionReadError::Stopped(stop));
        }
        let result = read_into(reader, bytes);
        if let Err(stop) = self.checkpoint() {
            return Err(ExecutionReadError::Stopped(stop));
        }
        match result {
            Ok(n) => Ok(n),
            Err(e) => Err(ExecutionReadError::Io(e)),
        }
    }
}

} // verus!
