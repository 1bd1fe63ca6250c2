//! Time.
use vstd::prelude::*;

verus! {

/// `std::time::Instant`.
#[verifier::external_type_specification]
#[verifier::external_body]
pub struct ExInstant(std::time::Instant);

/// `std::time::SystemTime`.
#[verifier::external_type_specification]
#[verifier::external_body]
pub struct ExSystemTime(std::time::SystemTime);

/// `std::time::SystemTimeError`.
#[verifier::external_type_specification]
#[verifier::external_body]
pub struct ExSystemTimeError(std::time::SystemTimeError);

/// `std::time::Instant::now` reads a clock; nothing is said of what it shows.
pub assume_specification[ std::time::Instant::now ]() -> (r: std::time::Instant);

/// `std::time::Instant::elapsed` reads a clock; nothing is said of what it shows.
pub assume_specification[ std::time::Instant::elapsed ](start: &std::time::Instant) -> (r:
    std::time::Duration);

/// `std::time::Duration::as_millis` gives the whole milliseconds of a span of time, whose seconds
/// are counted by a 64-bit number. Nothing is said of how long the span is.
pub assume_specification[ std::time::Duration::as_millis ](span: &std::time::Duration) -> (r: u128)
    ensures
        r <= u64::MAX * 1000 + 999,
;

/// `std::time::Duration::as_nanos` gives the nanoseconds of a span of time, whose seconds are
/// counted by a 64-bit number. Nothing is said of how long the span is.
pub assume_specification[ std::time::Duration::as_nanos ](span: &std::time::Duration) -> (r: u128)
    ensures
        r <= u64::MAX * 1_000_000_000 + 999_999_999,
;

/// `std::time::SystemTime::now` reads a clock; nothing is said of what it shows.
pub assume_specification[ std::time::SystemTime::now ]() -> (r: std::time::SystemTime);

/// The time between `std::time::UNIX_EPOCH` and the given one, by
/// `std::time::SystemTime::duration_since`; nothing is said of what the clock showed.
#[verifier::external_body]
fn since_epoch(time: std::time::SystemTime) -> (r: std::result::Result<
    std::time::Duration,
    std::time::SystemTimeError,
>) {
    time.duration_since(std::time::UNIX_EPOCH)
}

/// Whether a clock that was started at the given moment has been read, and showed that so many
/// milliseconds had gone by. Only a reading shows it: nothing else is known of what a clock shows.
pub open spec fn has_shown(started: std::time::Instant, elapsed_ms: u128) -> bool {
    exists|span: std::time::Duration| #[trigger]
        call_ensures(std::time::Instant::elapsed, (&started,), span) && call_ensures(
            std::time::Duration::as_millis,
            (&span,),
            elapsed_ms,
        )
}

/// Whether a clock has been read and showed that at least so many milliseconds had gone by.
pub open spec fn ran_out(timeout_ms: u64) -> bool {
    exists|started: std::time::Instant, elapsed_ms: u128| #[trigger]
        has_shown(started, elapsed_ms) && elapsed_ms >= timeout_ms
}

/// Whether a clock has been read and showed that fewer milliseconds had gone by.
pub open spec fn was_in_time(timeout_ms: u64) -> bool {
    exists|started: std::time::Instant, elapsed_ms: u128| #[trigger]
        has_shown(started, elapsed_ms) && elapsed_ms < timeout_ms
}

/// A moment after which work is to stop.
pub struct Deadline {
    started: std::time::Instant,
    timeout_ms: u64,
}

impl Deadline {
    /// How many milliseconds there are until then, from when it was set.
    pub closed spec fn timeout(self) -> u64 {
        self.timeout_ms
    }

    /// Whether the clock that was started when it was set has shown so many milliseconds.
    pub closed spec fn saw(self, elapsed_ms: u128) -> bool {
        has_shown(self.started, elapsed_ms)
    }

    /// The moment the given number of milliseconds from now.
    pub fn after(timeout_ms: u64) -> (r: Self)
        ensures
            r.timeout() == timeout_ms,
    {
        Deadline { started: std::time::Instant::now(), timeout_ms }
    }

    /// Whether the moment has come: whether the clock, read now, shows that the time has gone by.
    /// With no time to wait it has.
    pub fn passed(&self) -> (r: bool)
        ensures
            self.timeout() == 0 ==> r,
            exists|elapsed_ms: u128| #[trigger]
                self.saw(elapsed_ms) && r == (elapsed_ms >= self.timeout()),
            r ==> ran_out(self.timeout()),
            !r ==> was_in_time(self.timeout()),
    {
        let span: std::time::Duration = self.started.elapsed();
        let elapsed_ms: u128 = span.as_millis();
        assert(has_shown(self.started, elapsed_ms));
        assert(self.saw(elapsed_ms));
        timed_out(elapsed_ms, self.timeout_ms)
    }
}

/// Whether so many milliseconds are too many.
pub fn timed_out(elapsed_ms: u128, timeout_ms: u64) -> (r: bool)
    ensures
        r == (elapsed_ms >= timeout_ms),
{
    elapsed_ms >= timeout_ms as u128
}

/// The milliseconds since the Unix epoch; zero by a clock that is set before it.
pub fn now_epoch_ms() -> (r: u128)
    ensures
        r <= u64::MAX * 1000 + 999,
{
    match since_epoch(std::time::SystemTime::now()) {
        Ok(span) => span.as_millis(),
        Err(_) => 0,
    }
}

/// The nanoseconds since the Unix epoch; zero by a clock that is set before it.
pub fn now_epoch_nanos() -> (r: u128)
    ensures
        r <= u64::MAX * 1_000_000_000 + 999_999_999,
{
    match since_epoch(std::time::SystemTime::now()) {
        Ok(span) => span.as_nanos(),
        Err(_) => 0,
    }
}

} // verus!
