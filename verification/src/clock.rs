//! Injected clock. All timing in the engine flows through this trait so tests
//! run on a manually advanced logical timeline and are fully deterministic.

use std::rc::Rc;

use vstd::prelude::*;

verus! {

/// A source of the current time in milliseconds.
pub trait Clock {
    /// The clock may answer `now` when it is read in this state.
    spec fn reads(&self, now: u64) -> bool;

    fn now_millis(&self) -> (now: u64)
        ensures
            self.reads(now),
    ;
}

impl<C: Clock + ?Sized> Clock for Rc<C> {
    open spec fn reads(&self, now: u64) -> bool {
        (**self).reads(now)
    }

    fn now_millis(&self) -> (now: u64) {
        (**self).now_millis()
    }
}

impl<C: Clock + ?Sized> Clock for &C {
    open spec fn reads(&self, now: u64) -> bool {
        (**self).reads(now)
    }

    fn now_millis(&self) -> (now: u64) {
        (**self).now_millis()
    }
}

/// A clock the test (or CLI scenario) drives by hand. Its view is the time it
/// shows.
#[derive(Clone, Copy, Debug)]
pub struct ManualClock {
    now: u64,
}

impl View for ManualClock {
    type V = u64;

    closed spec fn view(&self) -> u64 {
        self.now
    }
}

/// A time moved on by `delta`, stopping at the top of the range.
pub open spec fn moved_on(now: u64, delta: u64) -> u64 {
    if now + delta <= u64::MAX {
        (now + delta) as u64
    } else {
        u64::MAX
    }
}

impl ManualClock {
    pub fn new(start_millis: u64) -> (clock: Self)
        ensures
            clock@ == start_millis,
    {
        Self { now: start_millis }
    }

    /// Move the timeline forward by `delta` milliseconds, stopping at the top
    /// of the range.
    pub fn advance(&mut self, delta: u64)
        ensures
            final(self)@ == moved_on(old(self)@, delta),
            final(self)@ == (if old(self)@ + delta <= u64::MAX {
                old(self)@ + delta
            } else {
                u64::MAX as int
            }),
    {
        self.now = self.now.saturating_add(delta);
    }

    /// Jump the timeline to an absolute millisecond value.
    pub fn set(&mut self, millis: u64)
        ensures
            final(self)@ == millis,
    {
        self.now = millis;
    }
}

impl Clock for ManualClock {
    open spec fn reads(&self, now: u64) -> bool {
        now == self@
    }

    fn now_millis(&self) -> (now: u64) {
        self.now
    }
}

impl Default for ManualClock {
    fn default() -> (clock: Self)
        ensures
            clock@ == 0,
    {
        Self::new(0)
    }
}

/// The system's idea of the time. Nothing is known of a value but what the
/// functions below make of it.
#[verifier::external_type_specification]
#[verifier::external_body]
pub struct ExSystemTime(std::time::SystemTime);

/// What `SystemTime::duration_since` answers when the other time is later.
#[verifier::external_type_specification]
#[verifier::external_body]
pub struct ExSystemTimeError(std::time::SystemTimeError);

/// `std::time::SystemTime::now` reads the system clock. Nothing is claimed of
/// what it shows: it can be set, and can go backwards.
pub assume_specification[ std::time::SystemTime::now ]() -> std::time::SystemTime;

/// How far a time is behind the Unix epoch, if it is: what
/// `std::time::SystemTime::duration_since` makes of the time and the epoch.
pub uninterp spec fn span_since_epoch(time: std::time::SystemTime) -> Option<std::time::Duration>;

/// `std::time::SystemTime::duration_since` measures how far `time` is behind
/// `std::time::UNIX_EPOCH`, and fails when it lies before it. The distance, or
/// that there is none, is a function of the time alone. Which times lie before
/// the epoch is left unsaid, as nothing can be seen of a time.
#[verifier::external_body]
fn since_epoch(time: &std::time::SystemTime) -> (span: Result<
    std::time::Duration,
    std::time::SystemTimeError,
>)
    ensures
        match span {
            Ok(span) => span_since_epoch(*time) == Some(span),
            Err(_) => span_since_epoch(*time) is None,
        },
{
    time.duration_since(std::time::UNIX_EPOCH)
}

/// The whole milliseconds of a duration: what `std::time::Duration::as_millis`
/// gives.
pub uninterp spec fn whole_millis(span: std::time::Duration) -> u128;

/// `std::time::Duration::as_millis` gives the whole milliseconds of a duration,
/// a function of the duration alone.
pub assume_specification[ std::time::Duration::as_millis ](this: &std::time::Duration) -> (millis:
    u128)
    ensures
        millis == whole_millis(*this),
;

/// The whole milliseconds from the Unix epoch to a time, if it is not before it.
pub open spec fn millis_since_epoch(time: std::time::SystemTime) -> Option<u128> {
    match span_since_epoch(time) {
        Some(span) => Some(whole_millis(span)),
        None => None,
    }
}

/// A time span in milliseconds as a reading of a clock: zero before the clock's
/// beginning, and the top of the range past its end.
pub open spec fn reading(span: Option<u128>) -> u64 {
    match span {
        Some(millis) => if millis <= u64::MAX {
            millis as u64
        } else {
            u64::MAX
        },
        None => 0,
    }
}

/// `reading` as a number to compute with.
pub fn clock_reading(span: Option<u128>) -> (now: u64)
    ensures
        now == reading(span),
{
    match span {
        Some(millis) => if millis <= u64::MAX as u128 {
            millis as u64
        } else {
            u64::MAX
        },
        None => 0,
    }
}

/// A clock backed by the real wall clock, for a production style run. It shows the
/// milliseconds since the Unix epoch at whatever time the system has.
#[derive(Clone, Copy, Debug)]
pub struct SystemClock;

impl Clock for SystemClock {
    open spec fn reads(&self, now: u64) -> bool {
        exists|time: std::time::SystemTime| now == reading(#[trigger] millis_since_epoch(time))
    }

    fn now_millis(&self) -> (now: u64) {
        let time: std::time::SystemTime = std::time::SystemTime::now();
        let span: Option<u128> = match since_epoch(&time) {
            Ok(span) => Some(span.as_millis()),
            Err(_) => None,
        };
        assert(span == millis_since_epoch(time));
        clock_reading(span)
    }
}

/// A clock shows the milliseconds of the span it measured, as far as its range goes:
/// zero before its beginning and the top past its end.
pub proof fn law_reading_is_the_span_in_range(millis: u128)
    ensures
        reading(None) == 0,
        millis <= u64::MAX ==> reading(Some(millis)) == millis,
        millis > u64::MAX ==> reading(Some(millis)) == u64::MAX,
{
}

/// A clock that is shared or borrowed reads as the clock, and a manual clock as the time
/// it was given.
pub proof fn law_shared_clock_is_the_clock<C: Clock>(
    clock: C,
    shared: Rc<C>,
    manual: ManualClock,
    now: u64,
)
    ensures
        (&clock).reads(now) <==> clock.reads(now),
        shared.reads(now) <==> (*shared).reads(now),
        manual.reads(now) <==> now == manual@,
{
}

/// Moving a timeline forward never takes it back. It arrives exactly as far on as it was
/// told, or at the top of the range where that is beyond it.
pub proof fn law_time_moves_forward(now: u64, delta: u64)
    ensures
        now <= moved_on(now, delta),
        now + delta <= u64::MAX ==> moved_on(now, delta) - now == delta,
        now + delta > u64::MAX ==> moved_on(now, delta) == u64::MAX,
{
}

} // verus!
