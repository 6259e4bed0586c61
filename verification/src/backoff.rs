//! When to ask an upstream server that fails: the circuit breaker, and the
//! repetition of a request.
use vstd::prelude::*;

verus! {

/// `std::time::UNIX_EPOCH.elapsed()`: the milliseconds that the machine's clock
/// has counted since 1970; none if it is set to an earlier time. Nothing is
/// promised of them.
#[verifier::external_body]
fn clock_millis() -> Option<u128> {
    std::time::UNIX_EPOCH.elapsed().ok().map(|d| d.as_millis())
}

/// What a clock says in 64 bits: the lowest ones of its milliseconds, or 0 if it
/// says nothing.
pub fn clock_reading(millis: Option<u128>) -> (r: u64)
    ensures
        r == match millis {
            Some(ms) => ms % 0x1_0000_0000_0000_0000,
            None => 0,
        },
{
    match millis {
        Some(ms) => {
            assert(ms as u64 == ms % 0x1_0000_0000_0000_0000) by (bit_vector);
            #[verifier::truncate]
            (ms as u64)
        },
        None => 0,
    }
}

/// The milliseconds since 1970, in 64 bits. They are what the clock says:
/// nothing is promised of them.
pub fn millis_since_epoch() -> u64 {
    clock_reading(clock_millis())
}

/// A circuit breaker: the number of failures that opens it, for how many
/// milliseconds it stays open, the failures so far, and whether and since when
/// it is open.
pub struct BreakerView {
    pub threshold: nat,
    pub cooldown: u64,
    pub failures: nat,
    pub open_at: u64,
    pub open: bool,
}

/// What a clock of 64 bits has counted from one reading to another.
pub open spec fn elapsed(from: u64, to: u64) -> int {
    if to >= from {
        to - from
    } else {
        to - from + 0x1_0000_0000_0000_0000
    }
}

impl BreakerView {
    /// Whether a request must not be sent. A breaker without a time at which
    /// it was opened lets requests pass.
    pub open spec fn blocks(self, now: u64) -> bool {
        self.open && self.open_at != 0 && elapsed(self.open_at, now) < self.cooldown
    }

    /// The breaker closed, its failures forgotten.
    pub open spec fn closed(self) -> BreakerView {
        BreakerView { failures: 0, open_at: 0, open: false, ..self }
    }

    /// The breaker after it was asked at some time. It closes when it has been
    /// open for long enough.
    pub open spec fn asked(self, now: u64) -> BreakerView {
        if self.open && self.open_at != 0 && !self.blocks(now) {
            self.closed()
        } else {
            self
        }
    }

    /// The breaker after a failure. It opens when there are enough of them.
    pub open spec fn failed(self, now: u64) -> BreakerView {
        let counted = BreakerView { failures: self.failures + 1, ..self };
        if self.failures + 1 >= self.threshold {
            BreakerView { open: true, open_at: now, ..counted }
        } else {
            counted
        }
    }
}

/// Keeps requests away from an upstream server that fails.
pub struct CircuitBreaker {
    threshold: usize,
    cooldown_ms: u64,
    failures: usize,
    open_at: u64,
    open_flag: bool,
}

impl View for CircuitBreaker {
    type V = BreakerView;

    closed spec fn view(&self) -> BreakerView {
        BreakerView {
            threshold: self.threshold as nat,
            cooldown: self.cooldown_ms,
            failures: self.failures as nat,
            open_at: self.open_at,
            open: self.open_flag,
        }
    }
}

impl CircuitBreaker {
    /// A breaker that is closed.
    pub fn new(threshold: usize, cooldown_ms: u64) -> (r: Self)
        ensures
            r@ == (BreakerView {
                threshold: threshold as nat,
                cooldown: cooldown_ms,
                failures: 0,
                open_at: 0,
                open: false,
            }),
    {
        CircuitBreaker { threshold, cooldown_ms, failures: 0, open_at: 0, open_flag: false }
    }

    /// Whether a request may be sent now.
    pub fn allow(&mut self) -> (r: bool)
        ensures
            exists|now: u64|
                r == !(#[trigger] old(self)@.blocks(now)) && final(self)@ == old(self)@.asked(now),
    {
        let now: u64 = millis_since_epoch();
        let r: bool = self.allow_at(now);
        assert(r == !old(self)@.blocks(now));
        r
    }

    /// Whether a request may be sent at some time.
    pub fn allow_at(&mut self, now_ms: u64) -> (r: bool)
        ensures
            r == !old(self)@.blocks(now_ms),
            final(self)@ == old(self)@.asked(now_ms),
    {
        if !self.open_flag {
            return true;
        }
        if self.open_at == 0 {
            return true;
        }
        if now_ms.wrapping_sub(self.open_at) >= self.cooldown_ms {
            self.open_flag = false;
            self.failures = 0;
            self.open_at = 0;
            return true;
        }
        false
    }

    /// Notes that a request was answered.
    pub fn record_success(&mut self)
        ensures
            final(self)@ == old(self)@.closed(),
    {
        self.failures = 0;
        self.open_flag = false;
        self.open_at = 0;
    }

    /// Whether one more failure can be counted.
    pub fn can_count(&self) -> (r: bool)
        ensures
            r == (self@.failures < usize::MAX),
    {
        self.failures < usize::MAX
    }

    /// Notes now that a request failed.
    pub fn record_failure(&mut self)
        requires
            old(self)@.failures < usize::MAX,
        ensures
            exists|now: u64| final(self)@ == #[trigger] old(self)@.failed(now),
    {
        let now: u64 = millis_since_epoch();
        self.record_failure_at(now);
        assert(self@ == old(self)@.failed(now));
    }

    /// Notes that a request failed at some time.
    pub fn record_failure_at(&mut self, now_ms: u64)
        requires
            old(self)@.failures < usize::MAX,
        ensures
            final(self)@ == old(self)@.failed(now_ms),
    {
        self.failures = self.failures + 1;
        if self.failures >= self.threshold {
            self.open_flag = true;
            self.open_at = now_ms;
        }
    }
}

/// A breaker after failures at the given times.
pub open spec fn after_failures(b: BreakerView, times: Seq<u64>) -> BreakerView
    decreases times.len(),
{
    if times.len() == 0 {
        b
    } else {
        after_failures(b, times.drop_last()).failed(times.last())
    }
}

/// Failures in a row open a closed breaker when there are as many as its
/// threshold, and not before; it counts as open since the last of them.
pub proof fn law_failures_open(b: BreakerView, times: Seq<u64>)
    requires
        !b.open,
        b.failures == 0,
        times.len() > 0,
    ensures
        after_failures(b, times).failures == times.len(),
        after_failures(b, times).open <==> times.len() >= b.threshold,
        after_failures(b, times).open ==> after_failures(b, times).open_at == times.last(),
        after_failures(b, times).threshold == b.threshold,
        after_failures(b, times).cooldown == b.cooldown,
    decreases times.len(),
{
    let before = times.drop_last();
    if before.len() > 0 {
        law_failures_open(b, before);
    } else {
        assert(after_failures(b, before) == b);
    }
}

/// An open breaker keeps requests away until it has been open for its cooldown,
/// lets them pass from then on, and has then forgotten its failures.
pub proof fn law_open_until_cooldown(b: BreakerView, now: u64)
    requires
        b.open,
        b.open_at != 0,
    ensures
        b.blocks(now) <==> elapsed(b.open_at, now) < b.cooldown,
        b.blocks(now) ==> b.asked(now) == b,
        !b.blocks(now) ==> !b.asked(now).open && b.asked(now).failures == 0,
{
}

/// A request that was answered closes the breaker: every request may be sent.
pub proof fn law_success_closes(b: BreakerView, now: u64)
    ensures
        !b.closed().blocks(now),
        b.closed().failures == 0,
{
}

/// Whether a failure of the connection may be gone the next time.
pub fn is_transient(timeout: bool, connect: bool, request: bool) -> (r: bool)
    ensures
        r == (timeout || connect || request),
{
    timeout || connect || request
}

/// Whether a status may be another one the next time.
pub open spec fn transient_status(code: u16) -> bool {
    code == 500 || code == 502 || code == 503 || code == 504 || code == 429 || code == 408
}

/// Tests whether a status may be another one the next time.
pub fn is_transient_status(code: u16) -> (r: bool)
    ensures
        r == transient_status(code),
{
    matches!(code, 500 | 502 | 503 | 504 | 429 | 408)
}

/// How an attempt to send a request ended.
pub enum Attempt {
    /// With a response of the given status.
    Status(u16),
    /// With an error: a timeout, one of the connection, or one of the request.
    Error { timeout: bool, connect: bool, request: bool },
}

impl Attempt {
    /// Whether the next attempt may end otherwise.
    pub open spec fn transient(self) -> bool {
        match self {
            Attempt::Status(code) => transient_status(code),
            Attempt::Error { timeout, connect, request } => timeout || connect || request,
        }
    }
}

/// What is to be done after an attempt.
pub enum RetryStep {
    /// To wait and to try again, for the given time.
    Again { attempt: usize, delay_ms: u64 },
    /// To be content with the outcome.
    Return,
}

/// How long to wait before a repetition: 200 ms before the first, twice as long
/// before each further one, but never more than 6400 ms.
pub open spec fn delay_before(attempt: nat) -> nat
    decreases attempt,
{
    if attempt == 0 {
        100
    } else if attempt > 6 {
        6400
    } else {
        2 * delay_before((attempt - 1) as nat)
    }
}

/// Decides what is to be done after an attempt, when `attempt` repetitions have
/// been made.
pub fn retry_step(max_retries: usize, attempt: usize, outcome: &Attempt) -> (r: RetryStep)
    ensures
        r is Again <==> attempt < max_retries && outcome.transient(),
        r matches RetryStep::Again { attempt: next, delay_ms } ==> next == attempt + 1 && delay_ms
            == delay_before(attempt as nat + 1),
{
    let transient: bool = match outcome {
        Attempt::Status(code) => is_transient_status(*code),
        Attempt::Error { timeout, connect, request } => is_transient(*timeout, *connect, *request),
    };
    if attempt < max_retries && transient {
        let next: usize = attempt + 1;
        let shift: u64 = if next < 6 {
            next as u64
        } else {
            6
        };
        let delay_ms: u64 = 100u64 << shift;
        proof {
            reveal_with_fuel(delay_before, 8);
            assert(100u64 << 1u64 == 200 && 100u64 << 2u64 == 400 && 100u64 << 3u64 == 800 && 100u64
                << 4u64 == 1600 && 100u64 << 5u64 == 3200 && 100u64 << 6u64 == 6400)
                by (bit_vector);
        }
        RetryStep::Again { attempt: next, delay_ms }
    } else {
        RetryStep::Return
    }
}

/// How many repetitions follow on outcomes that come one after the other, when
/// `attempt` have been made.
pub open spec fn repetitions(max_retries: nat, attempt: nat, outcomes: Seq<Attempt>) -> nat
    decreases outcomes.len(),
{
    if outcomes.len() > 0 && attempt < max_retries && outcomes[0].transient() {
        1 + repetitions(max_retries, attempt + 1, outcomes.drop_first())
    } else {
        0
    }
}

/// A request is never repeated more often than allowed, however the attempts
/// end.
pub proof fn law_bounded_repetitions(max_retries: nat, attempt: nat, outcomes: Seq<Attempt>)
    requires
        attempt <= max_retries,
    ensures
        attempt + repetitions(max_retries, attempt, outcomes) <= max_retries,
    decreases outcomes.len(),
{
    if outcomes.len() > 0 && attempt < max_retries && outcomes[0].transient() {
        law_bounded_repetitions(max_retries, attempt + 1, outcomes.drop_first());
    }
}

/// The first repetition comes after 200 ms. Each further one comes after twice the
/// time of the one before, up to 6400 ms.
pub proof fn law_delays(attempt: nat)
    ensures
        delay_before(1) == 200,
        attempt > 0 ==> delay_before(attempt + 1) == if 2 * delay_before(attempt) <= 6400 {
            2 * delay_before(attempt)
        } else {
            6400
        },
{
    reveal_with_fuel(delay_before, 8);
}

/// A request is repeated after a timeout, after an error of the connection or of
/// the request, and after the statuses that may be gone the next time; after no
/// other status, in particular after no success.
pub proof fn law_transient(code: u16, timeout: bool, connect: bool, request: bool)
    ensures
        Attempt::Status(code).transient() <==> set![408u16, 429, 500, 502, 503, 504].contains(code),
        code < 400 ==> !Attempt::Status(code).transient(),
        (Attempt::Error { timeout, connect, request }).transient() <==> timeout || connect || request,
{
}

/// As long as the clock goes on, an open breaker keeps requests away exactly for
/// its cooldown, counted from when it was opened.
pub proof fn law_cooldown(b: BreakerView, opened: u64, now: u64)
    requires
        0 < opened <= now,
    ensures
        ({
            let open = b.failed(opened);
            &&& b.failures + 1 >= b.threshold ==> (open.blocks(now) <==> now - opened < b.cooldown)
            &&& b.failures + 1 < b.threshold && !b.open ==> !open.blocks(now)
            &&& open.failures == b.failures + 1
            &&& open.threshold == b.threshold && open.cooldown == b.cooldown
            &&& b.failures + 1 >= b.threshold && now - opened >= b.cooldown ==> open.asked(now) == (
            BreakerView { failures: 0, open_at: 0, open: false, ..b })
            &&& !b.open ==> !b.blocks(now) && b.asked(now) == b
        }),
{
}

/// A breaker that opens counts the milliseconds from then on, also when the clock
/// of 64 bits begins at 0 again, and keeps requests away until they are as many as
/// its cooldown. One that opens when the clock says 0 keeps none away.
pub proof fn law_clock_begins_again(b: BreakerView, opened: u64, counted: u64, now: u64)
    requires
        b.failures + 1 >= b.threshold,
        now == (opened + counted) % 0x1_0000_0000_0000_0000,
    ensures
        b.failed(opened).blocks(now) <==> opened != 0 && counted < b.cooldown,
        opened == 0 ==> b.failed(opened).asked(now) == b.failed(opened),
{
}

} // verus!
