//! The tap-tempo session: taps in, tempo estimate out.
//!
//! Instants are nanoseconds on a monotonic clock (`u64`), durations are
//! nanoseconds (`u128`, as `Duration::as_nanos` gives them). A tempo is kept
//! as an exact ratio of integers: the least-squares line through the points
//! (tap index, nanoseconds since the first tap) has slope
//! `covariance / variance` nanoseconds per beat, so the tempo in beats per
//! minute is `NANOS_PER_MINUTE * variance / covariance`.
use vstd::prelude::*;

verus! {

/// The most taps a session can hold at once: enough that every sum the
/// regression needs fits in 128 bits.
pub const MAX_TAPS: usize = 1_048_576;

/// Nanoseconds in one minute.
pub const NANOS_PER_MINUTE: u128 = 60_000_000_000;

/// Settings of a tap-tempo session.
#[derive(Clone, Copy, Debug)]
pub struct TapTempoConfig {
    /// A tap that comes more than this many nanoseconds after the previous
    /// one starts a new session.
    pub reset_after: u128,
    /// Taps older than this many nanoseconds are left out of the estimate.
    pub averaging_window: u128,
    /// The estimate needs more than this many taps.
    pub min_intervals: usize,
}

/// A tempo in beats per minute, as the exact ratio `numerator / denominator`.
#[derive(Clone, Copy, Debug, PartialEq, Eq, Structural)]
pub struct Tempo {
    pub numerator: u128,
    pub denominator: u128,
}

/// What a session shows after an event.
#[derive(Clone, Copy, Debug, PartialEq, Eq, Structural)]
pub struct TapTempoSnapshot {
    /// The raw estimate, once there are enough taps for one.
    pub bpm: Option<Tempo>,
    /// The whole number shown to the user; it moves only when the estimate
    /// has moved by at least one beat per minute.
    pub display_bpm: Option<u16>,
    pub tap_count: usize,
    pub is_active: bool,
}

/// Nanoseconds from `earlier` to `later`; zero when `later` is not later.
pub open spec fn elapsed(earlier: u64, later: u64) -> int {
    if later >= earlier {
        later - earlier
    } else {
        0
    }
}

/// Nanoseconds from the first tap to tap `i`.
pub open spec fn tap_offset(taps: Seq<u64>, i: int) -> int {
    elapsed(taps[0], taps[i])
}

/// Sum of the offsets of the first `k` taps.
pub open spec fn sum_offsets(taps: Seq<u64>, k: nat) -> int
    decreases k,
{
    if k == 0 {
        0
    } else {
        sum_offsets(taps, (k - 1) as nat) + tap_offset(taps, k - 1)
    }
}

/// Sum of `i * offset(i)` over the first `k` taps.
pub open spec fn sum_weighted_offsets(taps: Seq<u64>, k: nat) -> int
    decreases k,
{
    if k == 0 {
        0
    } else {
        sum_weighted_offsets(taps, (k - 1) as nat) + (k - 1) * tap_offset(taps, k - 1)
    }
}

/// `0 + 1 + ... + (k - 1)`.
pub open spec fn sum_indices(k: nat) -> int
    decreases k,
{
    if k == 0 {
        0
    } else {
        sum_indices((k - 1) as nat) + (k - 1)
    }
}

/// `0 + 1 + 4 + ... + (k - 1)^2`.
pub open spec fn sum_squared_indices(k: nat) -> int
    decreases k,
{
    if k == 0 {
        0
    } else {
        sum_squared_indices((k - 1) as nat) + (k - 1) * (k - 1)
    }
}

/// `n^2` times the covariance of tap index and tap offset.
pub open spec fn tap_covariance(taps: Seq<u64>) -> int {
    let n = taps.len();
    n * sum_weighted_offsets(taps, n) - sum_indices(n) * sum_offsets(taps, n)
}

/// `n^2` times the variance of the tap indices `0 .. n`.
pub open spec fn index_variance(n: nat) -> int {
    n * sum_squared_indices(n) - sum_indices(n) * sum_indices(n)
}

/// The least-squares tempo of `taps`: none with `min_intervals` taps or
/// fewer, none when the indices do not vary (a single tap), none when the
/// fitted beat period is not positive.
pub open spec fn estimated_tempo(taps: Seq<u64>, min_intervals: int) -> Option<Tempo> {
    if taps.len() <= min_intervals || index_variance(taps.len()) <= 0 || tap_covariance(taps)
        <= 0 {
        None
    } else {
        Some(
            Tempo {
                numerator: (NANOS_PER_MINUTE * index_variance(taps.len())) as u128,
                denominator: tap_covariance(taps) as u128,
            },
        )
    }
}

/// The bounds that every tempo this module computes stays within.
pub open spec fn tempo_in_range(t: Tempo) -> bool {
    &&& 0 < t.numerator <= 0x40_0000_0000_0000_0000_0000_0000_0000
    &&& 0 < t.denominator <= 0x1000_0000_0000_0000_0000_0000_0000_0000
}

/// The bounds a tempo must stay within for the display rounding to fit in
/// 128 bits: a positive denominator; a zero numerator (a zero tempo) is
/// allowed.
pub open spec fn displayable_tempo(t: Tempo) -> bool {
    &&& t.numerator <= 0x40_0000_0000_0000_0000_0000_0000_0000
    &&& 0 < t.denominator <= 0x1000_0000_0000_0000_0000_0000_0000_0000
}

/// `t` rounded to the nearest whole number (halves up), capped at `u16::MAX`.
pub open spec fn rounded_bpm(t: Tempo) -> int {
    let r = (2 * t.numerator + t.denominator) / (2 * t.denominator);
    if r > 0xffff {
        0xffff
    } else {
        r
    }
}

/// `|t - shown| >= 1`.
pub open spec fn differs_by_at_least_one(t: Tempo, shown: u16) -> bool {
    let diff = t.numerator - shown * t.denominator;
    diff >= t.denominator || -diff >= t.denominator
}

/// The number shown after an estimate `raw`, given the number shown before:
/// with no estimate the previous number stays (zero if there was none); a
/// new rounding replaces the shown number only when the estimate has moved
/// at least one beat per minute away from it.
pub open spec fn stabilized_display(previous: Option<u16>, raw: Option<Tempo>) -> Option<u16> {
    match raw {
        None => match previous {
            Some(p) => Some(p),
            None => Some(0u16),
        },
        Some(t) => {
            let rounded = rounded_bpm(t) as u16;
            match previous {
                None => Some(rounded),
                Some(p) => if rounded == p {
                    Some(p)
                } else if differs_by_at_least_one(t, p) {
                    Some(rounded)
                } else {
                    Some(p)
                },
            }
        },
    }
}

proof fn lemma_mul_bound(a: int, b: int, x: int, y: int)
    requires
        0 <= a <= x,
        0 <= b <= y,
    ensures
        0 <= a * b <= x * y,
{
    assert(0 <= a * b <= x * y) by (nonlinear_arith)
        requires
            0 <= a <= x,
            0 <= b <= y,
    ;
}

/// Bounds on the regression sums of the first `k` taps.
proof fn lemma_sum_bounds(taps: Seq<u64>, k: nat)
    requires
        k <= taps.len(),
    ensures
        0 <= sum_offsets(taps, k) <= k * 0xffff_ffff_ffff_ffff,
        0 <= sum_weighted_offsets(taps, k) <= k * k * 0xffff_ffff_ffff_ffff,
        0 <= sum_indices(k) <= k * k,
        0 <= sum_squared_indices(k) <= k * k * k,
    decreases k,
{
    if k > 0 {
        let j = (k - 1) as nat;
        lemma_sum_bounds(taps, j);
        let d = tap_offset(taps, j as int);
        assert(0 <= d <= 0xffff_ffff_ffff_ffff);
        lemma_mul_bound(j as int, d, j as int, 0xffff_ffff_ffff_ffff);
        assert(j * 0xffff_ffff_ffff_ffff + 0xffff_ffff_ffff_ffff == k * 0xffff_ffff_ffff_ffff)
            by (nonlinear_arith)
            requires
                k == j + 1,
        ;
        assert(j * j * 0xffff_ffff_ffff_ffff + j * 0xffff_ffff_ffff_ffff <= k * k
            * 0xffff_ffff_ffff_ffff) by (nonlinear_arith)
            requires
                k == j + 1,
        ;
        assert(j * j + j <= k * k) by (nonlinear_arith)
            requires
                k == j + 1,
        ;
        assert(0 <= j * j && j * j * j + j * j <= k * k * k) by (nonlinear_arith)
            requires
                k == j + 1,
        ;
    }
}

/// Rounds a tempo to the number shown, with hysteresis against the number
/// shown before.
fn stabilize_display_bpm(previous_display_bpm: Option<u16>, raw_bpm: Option<Tempo>) -> (shown:
    Option<u16>)
    requires
        raw_bpm matches Some(t) ==> displayable_tempo(t),
    ensures
        shown == stabilized_display(previous_display_bpm, raw_bpm),
{
    let raw = match raw_bpm {
        None => {
            return match previous_display_bpm {
                Some(p) => Some(p),
                None => Some(0),
            };
        },
        Some(t) => t,
    };
    let quotient: u128 = (2 * raw.numerator + raw.denominator) / (2 * raw.denominator);
    let rounded: u16 = if quotient > 0xffff {
        0xffff
    } else {
        quotient as u16
    };
    let previous = match previous_display_bpm {
        None => {
            return Some(rounded);
        },
        Some(p) => p,
    };
    if rounded == previous {
        return Some(previous);
    }
    let far_enough: bool = match (previous as u128).checked_mul(raw.denominator) {
        None => true,
        Some(scaled) => if scaled >= raw.numerator {
            scaled - raw.numerator >= raw.denominator
        } else {
            raw.numerator - scaled >= raw.denominator
        },
    };
    if far_enough {
        Some(rounded)
    } else {
        Some(previous)
    }
}

/// The least-squares tempo of `taps`, as `estimated_tempo` states it.
fn calculate_bpm(taps: &Vec<u64>, min_intervals: usize) -> (tempo: Option<Tempo>)
    requires
        taps.len() <= MAX_TAPS,
    ensures
        tempo == estimated_tempo(taps@, min_intervals as int),
        tempo matches Some(t) ==> tempo_in_range(t),
{
    let n = taps.len();
    if n <= min_intervals {
        return None;
    }
    let first = taps[0];
    let mut sum_d: u128 = 0;
    let mut sum_id: u128 = 0;
    let mut sum_i: u128 = 0;
    let mut sum_ii: u128 = 0;
    let mut i: usize = 0;
    while i < n
        invariant
            0 <= i <= n,
            n == taps.len(),
            1 <= n <= MAX_TAPS,
            first == taps@[0],
            sum_d == sum_offsets(taps@, i as nat),
            sum_id == sum_weighted_offsets(taps@, i as nat),
            sum_i == sum_indices(i as nat),
            sum_ii == sum_squared_indices(i as nat),
        decreases n - i,
    {
        proof {
            lemma_sum_bounds(taps@, (i + 1) as nat);
        }
        let d: u128 = taps[i].saturating_sub(first) as u128;
        let wide_i: u128 = i as u128;
        proof {
            assert(d == tap_offset(taps@, i as int));
            lemma_mul_bound(i as int, d as int, MAX_TAPS as int, 0xffff_ffff_ffff_ffff);
            lemma_mul_bound(i as int, i as int, MAX_TAPS as int, MAX_TAPS as int);
            lemma_mul_bound((i + 1) as int, (i + 1) as int, MAX_TAPS as int, MAX_TAPS as int);
            lemma_mul_bound(
                ((i + 1) * (i + 1)) as int,
                (i + 1) as int,
                MAX_TAPS * MAX_TAPS,
                MAX_TAPS as int,
            );
            lemma_mul_bound(
                ((i + 1) * (i + 1)) as int,
                0xffff_ffff_ffff_ffff,
                MAX_TAPS * MAX_TAPS,
                0xffff_ffff_ffff_ffff,
            );
        }
        sum_d = sum_d + d;
        sum_id = sum_id + wide_i * d;
        sum_i = sum_i + wide_i;
        sum_ii = sum_ii + wide_i * wide_i;
        i = i + 1;
    }
    proof {
        lemma_sum_bounds(taps@, n as nat);
        lemma_mul_bound(n as int, n as int, MAX_TAPS as int, MAX_TAPS as int);
        lemma_mul_bound((n * n) as int, n as int, MAX_TAPS * MAX_TAPS, MAX_TAPS as int);
        lemma_mul_bound(
            (n * n * n) as int,
            0xffff_ffff_ffff_ffff,
            MAX_TAPS * MAX_TAPS * MAX_TAPS,
            0xffff_ffff_ffff_ffff,
        );
        lemma_mul_bound(n as int, sum_id as int, MAX_TAPS as int, n * n * 0xffff_ffff_ffff_ffff);
        lemma_mul_bound(
            sum_i as int,
            sum_d as int,
            n * n,
            n * 0xffff_ffff_ffff_ffff,
        );
        lemma_mul_bound(n as int, sum_ii as int, MAX_TAPS as int, n * n * n);
        lemma_mul_bound(sum_i as int, sum_i as int, n * n, n * n);
        lemma_mul_bound((n * n) as int, (n * n) as int, MAX_TAPS * MAX_TAPS, MAX_TAPS * MAX_TAPS);
        assert(n * (n * n * 0xffff_ffff_ffff_ffff) == n * n * n * 0xffff_ffff_ffff_ffff)
            by (nonlinear_arith);
        assert((n * n) * (n * 0xffff_ffff_ffff_ffff) == n * n * n * 0xffff_ffff_ffff_ffff)
            by (nonlinear_arith);
        assert(n * (n * n * n) == (n * n) * (n * n)) by (nonlinear_arith);
    }
    let wide_n: i128 = n as i128;
    let covariance: i128 = wide_n * (sum_id as i128) - (sum_i as i128) * (sum_d as i128);
    let variance: i128 = wide_n * (sum_ii as i128) - (sum_i as i128) * (sum_i as i128);
    if variance <= 0 || covariance <= 0 {
        return None;
    }
    Some(Tempo { numerator: NANOS_PER_MINUTE * (variance as u128), denominator: covariance as u128 })
}


/// The taps that lie at most `window` nanoseconds before `now`, in order.
pub open spec fn within_window(taps: Seq<u64>, now: u64, window: u128) -> Seq<u64> {
    taps.filter(|t: u64| elapsed(t, now) <= window)
}

/// Whether a tap at `now` comes too long after the last tap and so starts
/// a new session.
pub open spec fn restarts(taps: Seq<u64>, now: u64, reset_after: u128) -> bool {
    taps.len() > 0 && elapsed(taps.last(), now) > reset_after
}

/// Whether the session has been idle for at least `reset_after` at `now`.
pub open spec fn inactive_at(taps: Seq<u64>, now: u64, reset_after: u128) -> bool {
    taps.len() > 0 && elapsed(taps.last(), now) >= reset_after
}

/// The taps a session holds after a tap at `now`.
pub open spec fn taps_after_tap(taps: Seq<u64>, now: u64, config: TapTempoConfig) -> Seq<u64> {
    let kept = if restarts(taps, now, config.reset_after) {
        Seq::empty()
    } else {
        taps
    };
    within_window(kept.push(now), now, config.averaging_window)
}

/// Whether a session holding `taps` can take a tap at `now`: it has room
/// for one more, or the tap starts a new session.
pub open spec fn can_take_tap(taps: Seq<u64>, now: u64, reset_after: u128) -> bool {
    taps.len() < MAX_TAPS || restarts(taps, now, reset_after)
}

/// Nanoseconds from `earlier` to `later`, zero when `later` is earlier.
pub fn elapsed_nanos(earlier: u64, later: u64) -> (nanos: u64)
    ensures
        nanos == elapsed(earlier, later),
{
    later.saturating_sub(earlier)
}

/// A tap-tempo session: the recent taps and what they give.
pub struct TapTempoSession {
    taps: Vec<u64>,
    bpm: Option<Tempo>,
    display_bpm: Option<u16>,
    is_active: bool,
}

/// What a tap at `now` does to a session: a tap more than `reset_after`
/// after the last one first clears it; then taps older than the averaging
/// window are dropped, the estimate is recomputed, and the shown number is
/// stabilized against the one shown before (none after a restart).
pub open spec fn tap_step(
    before: TapTempoSession,
    after: TapTempoSession,
    now: u64,
    config: TapTempoConfig,
) -> bool {
    &&& after.wf()
    &&& after.tap_times() == taps_after_tap(before.tap_times(), now, config)
    &&& after.current_bpm() == estimated_tempo(after.tap_times(), config.min_intervals as int)
    &&& after.current_display_bpm() == stabilized_display(
        if restarts(before.tap_times(), now, config.reset_after) {
            None
        } else {
            before.current_display_bpm()
        },
        estimated_tempo(after.tap_times(), 1),
    )
    &&& after.active()
    &&& after.tap_times().len() >= 1
    &&& after.tap_times().last() == now
    &&& after.current_display_bpm() is Some
}

impl TapTempoSession {
    /// The taps held, oldest first.
    pub closed spec fn tap_times(&self) -> Seq<u64> {
        self.taps@
    }

    /// The raw estimate held.
    pub closed spec fn current_bpm(&self) -> Option<Tempo> {
        self.bpm
    }

    /// The number shown.
    pub closed spec fn current_display_bpm(&self) -> Option<u16> {
        self.display_bpm
    }

    /// Whether a session is running.
    pub closed spec fn active(&self) -> bool {
        self.is_active
    }

    /// The session's invariant: it is active exactly when it holds taps, it
    /// shows a number exactly when it is active, and its sums fit.
    pub closed spec fn wf(&self) -> bool {
        &&& self.taps@.len() <= MAX_TAPS
        &&& self.is_active == (self.taps@.len() > 0)
        &&& self.display_bpm is Some == self.is_active
        &&& (self.bpm matches Some(t) ==> tempo_in_range(t))
    }

    /// The snapshot of the session's state.
    pub open spec fn view_snapshot(&self) -> TapTempoSnapshot {
        TapTempoSnapshot {
            bpm: self.current_bpm(),
            display_bpm: self.current_display_bpm(),
            tap_count: self.tap_times().len() as usize,
            is_active: self.active(),
        }
    }

    /// A session with no taps.
    pub fn new() -> (session: Self)
        ensures
            session.wf(),
            session.tap_times() == Seq::<u64>::empty(),
            session.current_bpm() is None,
            session.current_display_bpm() is None,
            !session.active(),
    {
        TapTempoSession { taps: Vec::new(), bpm: None, display_bpm: None, is_active: false }
    }

    /// Records a tap at `now`. A tap more than `reset_after` after the last
    /// one first clears the session; then taps older than the averaging
    /// window are dropped, and the estimate and the shown number are
    /// recomputed.
    pub fn tap(&mut self, now: u64, config: &TapTempoConfig) -> (snapshot: TapTempoSnapshot)
        requires
            old(self).wf(),
            can_take_tap(old(self).tap_times(), now, config.reset_after),
        ensures
            tap_step(*old(self), *final(self), now, *config),
            snapshot == final(self).view_snapshot(),
    {
        let len = self.taps.len();
        if len > 0 && (elapsed_nanos(self.taps[len - 1], now) as u128) > config.reset_after {
            self.clear();
        }
        let ghost base = self.taps@;
        self.taps.push(now);
        proof {
            assert(self.taps@.drop_last() =~= base);
        }
        self.prune_stale_taps(now, config.averaging_window);
        proof {
            lemma_window_keeps_now(base, now, config.averaging_window);
        }
        self.bpm = calculate_bpm(&self.taps, config.min_intervals);
        self.display_bpm = stabilize_display_bpm(self.display_bpm, calculate_bpm(&self.taps, 1));
        self.is_active = true;
        self.snapshot()
    }

    /// Records a tap at `now` as `tap` does when the session can take it;
    /// when the session already holds `MAX_TAPS` taps and the tap does not
    /// start a new session, leaves the session unchanged and returns `None`.
    pub fn try_tap(&mut self, now: u64, config: &TapTempoConfig) -> (snapshot: Option<
        TapTempoSnapshot,
    >)
        requires
            old(self).wf(),
        ensures
            can_take_tap(old(self).tap_times(), now, config.reset_after) ==> {
                &&& tap_step(*old(self), *final(self), now, *config)
                &&& snapshot == Some(final(self).view_snapshot())
            },
            !can_take_tap(old(self).tap_times(), now, config.reset_after) ==> {
                &&& *final(self) == *old(self)
                &&& snapshot is None
            },
    {
        let len = self.taps.len();
        let restarting = len > 0 && (elapsed_nanos(self.taps[len - 1], now) as u128)
            > config.reset_after;
        if len >= MAX_TAPS && !restarting {
            return None;
        }
        Some(self.tap(now, config))
    }

    /// Clears the session when it has been idle for at least `reset_after`
    /// at `now`, and then returns the cleared snapshot; otherwise leaves it
    /// as it is and returns `None`.
    pub fn reset_if_inactive(&mut self, now: u64, reset_after: u128) -> (snapshot: Option<
        TapTempoSnapshot,
    >)
        requires
            old(self).wf(),
        ensures
            final(self).wf(),
            inactive_at(old(self).tap_times(), now, reset_after) ==> {
                &&& final(self).tap_times() == Seq::<u64>::empty()
                &&& final(self).current_bpm() is None
                &&& final(self).current_display_bpm() is None
                &&& !final(self).active()
                &&& snapshot == Some(final(self).view_snapshot())
            },
            !inactive_at(old(self).tap_times(), now, reset_after) ==> {
                &&& *final(self) == *old(self)
                &&& snapshot is None
            },
    {
        let len = self.taps.len();
        let should_reset = len > 0 && (elapsed_nanos(self.taps[len - 1], now) as u128)
            >= reset_after;
        if !should_reset {
            return None;
        }
        self.clear();
        Some(self.snapshot())
    }

    /// The current state as a snapshot.
    pub fn snapshot(&self) -> (snapshot: TapTempoSnapshot)
        ensures
            snapshot == self.view_snapshot(),
    {
        TapTempoSnapshot {
            bpm: self.bpm,
            display_bpm: self.display_bpm,
            tap_count: self.taps.len(),
            is_active: self.is_active,
        }
    }

    fn clear(&mut self)
        ensures
            final(self).taps@ == Seq::<u64>::empty(),
            final(self).bpm is None,
            final(self).display_bpm is None,
            !final(self).is_active,
    {
        self.taps.clear();
        self.bpm = None;
        self.display_bpm = None;
        self.is_active = false;
    }

    fn prune_stale_taps(&mut self, now: u64, averaging_window: u128)
        ensures
            final(self).taps@ == within_window(old(self).taps@, now, averaging_window),
            final(self).bpm == old(self).bpm,
            final(self).display_bpm == old(self).display_bpm,
            final(self).is_active == old(self).is_active,
    {
        let mut kept: Vec<u64> = Vec::new();
        let mut i: usize = 0;
        while i < self.taps.len()
            invariant
                0 <= i <= self.taps@.len(),
                self.taps@ == old(self).taps@,
                self.bpm == old(self).bpm,
                self.display_bpm == old(self).display_bpm,
                self.is_active == old(self).is_active,
                kept@ == within_window(self.taps@.take(i as int), now, averaging_window),
            decreases self.taps@.len() - i,
        {
            let tap = self.taps[i];
            proof {
                lemma_window_step(self.taps@, i as int, now, averaging_window);
            }
            if (elapsed_nanos(tap, now) as u128) <= averaging_window {
                kept.push(tap);
            }
            i = i + 1;
        }
        proof {
            assert(self.taps@.take(i as int) =~= self.taps@);
        }
        self.taps = kept;
    }
}

/// Extending the prefix by one tap adds that tap to the window when it is
/// recent enough.
proof fn lemma_window_step(taps: Seq<u64>, i: int, now: u64, window: u128)
    requires
        0 <= i < taps.len(),
    ensures
        within_window(taps.take(i + 1), now, window) == if elapsed(taps[i], now) <= window {
            within_window(taps.take(i), now, window).push(taps[i])
        } else {
            within_window(taps.take(i), now, window)
        },
{
    reveal(Seq::filter);
    assert(taps.take(i + 1).drop_last() =~= taps.take(i));
}

/// A window taken at `now` of taps that end with `now` ends with `now`.
proof fn lemma_window_keeps_now(taps: Seq<u64>, now: u64, window: u128)
    ensures
        within_window(taps.push(now), now, window) == within_window(taps, now, window).push(now),
        within_window(taps, now, window).len() <= taps.len(),
{
    reveal(Seq::filter);
    assert(taps.push(now).drop_last() =~= taps);
    taps.lemma_filter_len(|t: u64| elapsed(t, now) <= window);
}

/// `2 * sum_indices(n) == n * (n - 1)` and
/// `6 * sum_squared_indices(n) == (n - 1) * n * (2n - 1)`.
proof fn lemma_index_sums_closed_form(n: nat)
    ensures
        2 * sum_indices(n) == n * (n - 1),
        6 * sum_squared_indices(n) == (n - 1) * n * (2 * n - 1),
    decreases n,
{
    if n > 0 {
        let j = (n - 1) as nat;
        lemma_index_sums_closed_form(j);
        assert(sum_indices(n) == sum_indices(j) + j);
        assert(sum_squared_indices(n) == sum_squared_indices(j) + j * j);
        assert(j * (j - 1) + 2 * j == n * (n - 1)) by (nonlinear_arith)
            requires
                n == j + 1,
        ;
        assert((j - 1) * j * (2 * j - 1) + 6 * (j * j) == (n - 1) * n * (2 * n - 1))
            by (nonlinear_arith)
            requires
                n == j + 1,
        ;
    } else {
        assert(n * (n - 1) == 0 && (n - 1) * n * (2 * n - 1) == 0) by (nonlinear_arith)
            requires
                n == 0,
        ;
    }
}

/// `12 * index_variance(n) == n^2 * (n^2 - 1)`: positive from two taps on.
proof fn lemma_index_variance(n: nat)
    ensures
        12 * index_variance(n) == n * n * (n * n - 1),
        n >= 2 ==> index_variance(n) > 0,
        n < 2 ==> index_variance(n) == 0,
{
    lemma_index_sums_closed_form(n);
    let si = sum_indices(n);
    let sii = sum_squared_indices(n);
    assert(12 * (n * sii - si * si) == n * n * (n * n - 1)) by (nonlinear_arith)
        requires
            2 * si == n * (n - 1),
            6 * sii == (n - 1) * n * (2 * n - 1),
    ;
    if n >= 2 {
        assert(n * n * (n * n - 1) > 0) by (nonlinear_arith)
            requires
                n >= 2,
        ;
    }
    if n < 2 {
        assert(n * n * (n * n - 1) == 0) by (nonlinear_arith)
            requires
                n < 2,
        ;
    }
}

/// With taps evenly spaced `period` apart, the offset sums are `period`
/// times the index sums.
proof fn lemma_steady_sums(taps: Seq<u64>, period: int, k: nat)
    requires
        k <= taps.len(),
        period >= 0,
        forall|i: int| 0 <= i < taps.len() ==> #[trigger] taps[i] == taps[0] + i * period,
    ensures
        sum_offsets(taps, k) == period * sum_indices(k),
        sum_weighted_offsets(taps, k) == period * sum_squared_indices(k),
    decreases k,
{
    if k > 0 {
        let j = (k - 1) as nat;
        lemma_steady_sums(taps, period, j);
        assert(j * period >= 0) by (nonlinear_arith)
            requires
                period >= 0,
        ;
        assert(tap_offset(taps, j as int) == j * period);
        assert(period * sum_indices(j) + j * period == period * (sum_indices(j) + j))
            by (nonlinear_arith);
        assert(period * sum_squared_indices(j) + j * (j * period) == period * (
        sum_squared_indices(j) + j * j)) by (nonlinear_arith);
    }
}

/// Steady tapping gives its exact tempo: with at least two taps (and more
/// than `min_intervals`) spaced `period > 0` nanoseconds apart, the estimate
/// is `NANOS_PER_MINUTE / period` beats per minute.
pub proof fn lemma_steady_taps_give_exact_tempo(taps: Seq<u64>, period: int, min_intervals: int)
    requires
        2 <= taps.len() <= MAX_TAPS,
        taps.len() > min_intervals,
        period > 0,
        forall|i: int| 0 <= i < taps.len() ==> #[trigger] taps[i] == taps[0] + i * period,
    ensures
        estimated_tempo(taps, min_intervals) matches Some(t) && t.numerator * period
            == NANOS_PER_MINUTE * t.denominator,
{
    let n = taps.len();
    lemma_steady_sums(taps, period, n);
    lemma_index_variance(n);
    lemma_sum_bounds(taps, n);
    let var = index_variance(n);
    let cov = tap_covariance(taps);
    assert(cov == period * var) by (nonlinear_arith)
        requires
            cov == n * sum_weighted_offsets(taps, n) - sum_indices(n) * sum_offsets(taps, n),
            var == n * sum_squared_indices(n) - sum_indices(n) * sum_indices(n),
            sum_offsets(taps, n) == period * sum_indices(n),
            sum_weighted_offsets(taps, n) == period * sum_squared_indices(n),
    ;
    assert(cov > 0) by (nonlinear_arith)
        requires
            cov == period * var,
            period > 0,
            var > 0,
    ;
    // The casts in `estimated_tempo` keep their values.
    let m: int = MAX_TAPS as int;
    let k: int = n as int;
    let u: int = 0xffff_ffff_ffff_ffff;
    let swo = sum_weighted_offsets(taps, n);
    lemma_mul_bound(k, k, m, m);
    lemma_mul_bound(k * k, k * k, m * m, m * m);
    assert(var <= k * k * k * k) by (nonlinear_arith)
        requires
            12 * var == k * k * (k * k - 1),
            k >= 2,
    ;
    assert(cov <= k * swo) by (nonlinear_arith)
        requires
            cov == k * swo - sum_indices(n) * sum_offsets(taps, n),
            sum_indices(n) >= 0,
            sum_offsets(taps, n) >= 0,
    ;
    lemma_mul_bound(k * k, u, m * m, u);
    lemma_mul_bound(k, k * k * u, m, m * m * u);
    lemma_mul_bound(k, swo, k, k * k * u);
    assert(var <= m * m * m * m) by (nonlinear_arith)
        requires
            var <= k * k * k * k,
            0 <= k <= m,
    ;
    lemma_mul_bound(var, NANOS_PER_MINUTE as int, m * m * m * m, NANOS_PER_MINUTE as int);
    let t = estimated_tempo(taps, min_intervals).unwrap();
    assert(t.numerator == NANOS_PER_MINUTE * var);
    assert(t.denominator == cov);
    assert(NANOS_PER_MINUTE * var * period == NANOS_PER_MINUTE * (period * var))
        by (nonlinear_arith);
}

/// The estimate needs more than `min_intervals` taps and at least two.
pub proof fn lemma_tempo_needs_enough_taps(taps: Seq<u64>, min_intervals: int)
    ensures
        estimated_tempo(taps, min_intervals) is Some ==> taps.len() > min_intervals
            && taps.len() >= 2,
{
    lemma_index_variance(taps.len());
}

/// A tap always lands in the session: the session then ends with `now`, and
/// every tap it holds lies within the averaging window before `now`; a tap
/// that was held and is still within the window stays held unless the tap
/// restarted the session.
pub proof fn lemma_tap_keeps_recent_taps(taps: Seq<u64>, now: u64, config: TapTempoConfig)
    ensures
        ({
            let after = taps_after_tap(taps, now, config);
            &&& after.len() >= 1
            &&& after.last() == now
            &&& forall|i: int|
                0 <= i < after.len() ==> elapsed(#[trigger] after[i], now)
                    <= config.averaging_window
            &&& !restarts(taps, now, config.reset_after) ==> forall|i: int|
                0 <= i < taps.len() && elapsed(taps[i], now) <= config.averaging_window
                    ==> after.contains(#[trigger] taps[i])
        }),
{
    let kept = if restarts(taps, now, config.reset_after) {
        Seq::empty()
    } else {
        taps
    };
    let pred = |t: u64| elapsed(t, now) <= config.averaging_window;
    lemma_window_keeps_now(kept, now, config.averaging_window);
    let after = taps_after_tap(taps, now, config);
    assert forall|i: int| 0 <= i < after.len() implies elapsed(#[trigger] after[i], now)
        <= config.averaging_window by {
        kept.push(now).lemma_filter_pred(pred, i);
    }
    if !restarts(taps, now, config.reset_after) {
        assert forall|i: int|
            0 <= i < taps.len() && elapsed(taps[i], now) <= config.averaging_window
                implies after.contains(#[trigger] taps[i]) by {
            assert(taps.push(now)[i] == taps[i]);
            taps.push(now).lemma_filter_contains(pred, i);
        }
    }
}

/// A tap that comes too long after the last one starts over: the session
/// then holds only the new tap, has no estimate and shows zero.
pub proof fn lemma_tap_after_inactivity_starts_over(
    taps: Seq<u64>,
    now: u64,
    config: TapTempoConfig,
)
    requires
        restarts(taps, now, config.reset_after),
    ensures
        taps_after_tap(taps, now, config) == seq![now],
        estimated_tempo(seq![now], config.min_intervals as int) is None,
        stabilized_display(None, estimated_tempo(seq![now], 1)) == Some(0u16),
{
    lemma_window_keeps_now(Seq::empty(), now, config.averaging_window);
    reveal(Seq::filter);
    assert(Seq::<u64>::empty().filter(|t: u64| elapsed(t, now) <= config.averaging_window)
        =~= Seq::<u64>::empty());
    assert(Seq::<u64>::empty().push(now) =~= seq![now]);
    lemma_index_variance(1);
}

/// A cleared session is not idle, so resetting twice in a row clears once.
pub proof fn lemma_reset_is_idempotent(now: u64, reset_after: u128)
    ensures
        !inactive_at(Seq::<u64>::empty(), now, reset_after),
{
}

/// The shown number follows the estimate: there is always a number; it
/// changes only when the estimate has moved at least one beat per minute
/// away from the number shown before; and, for estimates below the cap of
/// 65536, it is always less than one beat per minute away from the estimate.
pub proof fn lemma_display_follows_estimate(previous: Option<u16>, t: Tempo)
    requires
        t.denominator > 0,
    ensures
        stabilized_display(previous, Some(t)) is Some,
        ({
            let shown = stabilized_display(previous, Some(t)).unwrap();
            &&& (previous matches Some(p) ==> (shown != p ==> differs_by_at_least_one(t, p)))
            &&& t.numerator < 0x10000 * t.denominator ==> {
                let diff = t.numerator - shown * t.denominator;
                -t.denominator < diff < t.denominator
            }
        }),
{
    let a = t.numerator as int;
    let b = t.denominator as int;
    let r = (2 * a + b) / (2 * b);
    if a < 0x10000 * b {
        assert(2 * b * r <= 2 * a + b < 2 * b * (r + 1)) by (nonlinear_arith)
            requires
                b > 0,
                a >= 0,
                r == (2 * a + b) / (2 * b),
        ;
        if r <= 0xffff {
            assert(-b < a - r * b < b) by (nonlinear_arith)
                requires
                    2 * b * r <= 2 * a + b < 2 * b * (r + 1),
                    b > 0,
            ;
        } else {
            assert(-b < a - 0xffff * b < b) by (nonlinear_arith)
                requires
                    2 * b * r <= 2 * a + b,
                    r >= 0x10000,
                    a < 0x10000 * b,
                    b > 0,
            ;
        }
    }
}

/// A tap that starts over gives what the same tap gives to a fresh session:
/// the taps held and the number shown before are forgotten.
pub proof fn lemma_restart_is_fresh_session(taps: Seq<u64>, now: u64, config: TapTempoConfig)
    requires
        restarts(taps, now, config.reset_after),
    ensures
        taps_after_tap(taps, now, config) == taps_after_tap(Seq::empty(), now, config),
        !restarts(Seq::empty(), now, config.reset_after),
{
    lemma_tap_after_inactivity_starts_over(taps, now, config);
    lemma_window_keeps_now(Seq::empty(), now, config.averaging_window);
    reveal(Seq::filter);
    assert(Seq::<u64>::empty().filter(|t: u64| elapsed(t, now) <= config.averaging_window)
        =~= Seq::<u64>::empty());
    assert(Seq::<u64>::empty().push(now) =~= seq![now]);
}

/// Shifting every tap by the same amount leaves the regression sums alone.
proof fn lemma_shifted_sums(taps: Seq<u64>, shifted: Seq<u64>, shift: int, k: nat)
    requires
        k <= taps.len(),
        shifted.len() == taps.len(),
        forall|i: int| 0 <= i < taps.len() ==> #[trigger] shifted[i] == taps[i] + shift,
    ensures
        sum_offsets(shifted, k) == sum_offsets(taps, k),
        sum_weighted_offsets(shifted, k) == sum_weighted_offsets(taps, k),
    decreases k,
{
    if k > 0 {
        lemma_shifted_sums(taps, shifted, shift, (k - 1) as nat);
        assert(shifted[0] == taps[0] + shift);
        assert(shifted[k - 1] == taps[k - 1] + shift);
        assert(tap_offset(shifted, k - 1) == tap_offset(taps, k - 1));
    }
}

/// Only the times since the first tap matter: shifting every tap by the
/// same amount gives the same estimate.
pub proof fn lemma_tempo_shift_invariant(
    taps: Seq<u64>,
    shifted: Seq<u64>,
    shift: int,
    min_intervals: int,
)
    requires
        shifted.len() == taps.len(),
        forall|i: int| 0 <= i < taps.len() ==> #[trigger] shifted[i] == taps[i] + shift,
    ensures
        estimated_tempo(shifted, min_intervals) == estimated_tempo(taps, min_intervals),
{
    lemma_shifted_sums(taps, shifted, shift, taps.len());
}

/// `min_intervals` only decides whether there is an estimate, never its
/// value.
pub proof fn lemma_min_intervals_only_gates(taps: Seq<u64>, low: int, high: int)
    requires
        low <= high < taps.len(),
    ensures
        estimated_tempo(taps, high) == estimated_tempo(taps, low),
{
}

/// Stabilizing twice against the same estimate changes nothing more.
pub proof fn lemma_display_stable_under_repeat(previous: Option<u16>, raw: Option<Tempo>)
    ensures
        stabilized_display(stabilized_display(previous, raw), raw) == stabilized_display(
            previous,
            raw,
        ),
{
}

/// `n^2` times the covariance of index and offset over the first `k` taps.
spec fn prefix_covariance(taps: Seq<u64>, k: nat) -> int {
    k * sum_weighted_offsets(taps, k) - sum_indices(k) * sum_offsets(taps, k)
}

/// `sum over i < j of (k - i) * (offset(k) - offset(i))`.
spec fn weighted_gaps(taps: Seq<u64>, k: int, j: nat) -> int
    decreases j,
{
    if j == 0 {
        0
    } else {
        weighted_gaps(taps, k, (j - 1) as nat) + (k - (j - 1)) * (tap_offset(taps, k)
            - tap_offset(taps, j - 1))
    }
}

proof fn lemma_weighted_gaps_closed_form(taps: Seq<u64>, k: int, j: nat)
    requires
        j <= k < taps.len(),
    ensures
        weighted_gaps(taps, k, j) == tap_offset(taps, k) * (j * k - sum_indices(j)) - k
            * sum_offsets(taps, j) + sum_weighted_offsets(taps, j),
    decreases j,
{
    if j > 0 {
        let i = (j - 1) as nat;
        lemma_weighted_gaps_closed_form(taps, k, i);
        let d = tap_offset(taps, k);
        let di = tap_offset(taps, i as int);
        assert(sum_indices(j) == sum_indices(i) + i);
        assert(sum_offsets(taps, j) == sum_offsets(taps, i) + di);
        assert(sum_weighted_offsets(taps, j) == sum_weighted_offsets(taps, i) + i * di);
        assert(weighted_gaps(taps, k, j) == weighted_gaps(taps, k, i) + (k - i) * (d - di));
        assert(d * (j * k - (sum_indices(i) + i)) - k * (sum_offsets(taps, i) + di) + (
        sum_weighted_offsets(taps, i) + i * di) == d * (i * k - sum_indices(i)) - k * sum_offsets(
            taps,
            i,
        ) + sum_weighted_offsets(taps, i) + (k - i) * (d - di)) by (nonlinear_arith)
            requires
                j == i + 1,
        ;
    } else {
        let d = tap_offset(taps, k);
        assert(d * (0 * k - 0) == 0) by (nonlinear_arith);
        assert(k * 0 == 0);
    }
}

proof fn lemma_weighted_gaps_positive(taps: Seq<u64>, k: int, j: nat)
    requires
        1 <= j <= k < taps.len(),
        forall|a: int, b: int| 0 <= a < b < taps.len() ==> taps[a] < taps[b],
    ensures
        weighted_gaps(taps, k, j) > 0,
    decreases j,
{
    let i = (j - 1) as nat;
    if i >= 1 {
        lemma_weighted_gaps_positive(taps, k, i);
    } else {
        assert(weighted_gaps(taps, k, i) == 0);
    }
    assert(weighted_gaps(taps, k, j) == weighted_gaps(taps, k, i) + (k - i) * (tap_offset(
        taps,
        k,
    ) - tap_offset(taps, i as int)));
    assert(taps[0] <= taps[i as int]);
    assert(taps[i as int] < taps[k]);
    assert(tap_offset(taps, k) - tap_offset(taps, i as int) > 0);
    assert((k - i) * (tap_offset(taps, k) - tap_offset(taps, i as int)) > 0) by (nonlinear_arith)
        requires
            k - i >= 1,
            tap_offset(taps, k) - tap_offset(taps, i as int) > 0,
    ;
}

proof fn lemma_prefix_covariance_positive(taps: Seq<u64>, k: nat)
    requires
        2 <= k <= taps.len(),
        forall|a: int, b: int| 0 <= a < b < taps.len() ==> taps[a] < taps[b],
    ensures
        prefix_covariance(taps, k) > 0,
    decreases k,
{
    let j = (k - 1) as nat;
    if j >= 2 {
        lemma_prefix_covariance_positive(taps, j);
    } else {
        reveal_with_fuel(sum_indices, 2);
        reveal_with_fuel(sum_weighted_offsets, 2);
        assert(sum_weighted_offsets(taps, 1) == 0 * tap_offset(taps, 0));
        assert(0 * tap_offset(taps, 0) == 0);
        assert(sum_indices(1) == 0);
        assert(prefix_covariance(taps, 1) == 0);
    }
    lemma_weighted_gaps_closed_form(taps, j as int, j);
    lemma_weighted_gaps_positive(taps, j as int, j);
    lemma_index_sums_closed_form(j);
    let d = tap_offset(taps, j as int);
    let sid = sum_weighted_offsets(taps, j);
    let si = sum_indices(j);
    let sd = sum_offsets(taps, j);
    assert(sum_weighted_offsets(taps, k) == sid + j * d);
    assert(sum_indices(k) == si + j);
    assert(sum_offsets(taps, k) == sd + d);
    assert(k * (sid + j * d) - (si + j) * (sd + d) == (j * sid - si * sd) + (d * (j * j - si)
        - j * sd + sid)) by (nonlinear_arith)
        requires
            k == j + 1,
            2 * si == j * (j - 1),
    ;
}

/// Taps that come strictly later each time always give an estimate once
/// there are at least two of them and more than `min_intervals`.
pub proof fn lemma_increasing_taps_give_estimate(taps: Seq<u64>, min_intervals: int)
    requires
        2 <= taps.len(),
        taps.len() > min_intervals,
        forall|a: int, b: int| 0 <= a < b < taps.len() ==> taps[a] < taps[b],
    ensures
        estimated_tempo(taps, min_intervals) is Some,
{
    lemma_prefix_covariance_positive(taps, taps.len());
    lemma_index_variance(taps.len());
}

/// A tap continues the session when it comes at most `reset_after` after
/// the most recent tap held (whatever the time since the oldest one): every
/// held tap still within the averaging window stays held. A tap that comes
/// later than that starts over with itself alone, no estimate and zero shown.
pub proof fn lemma_tap_restarts_only_after_a_long_gap(
    before: TapTempoSession,
    after: TapTempoSession,
    now: u64,
    config: TapTempoConfig,
)
    requires
        tap_step(before, after, now, config),
    ensures
        before.tap_times().len() > 0 && elapsed(before.tap_times().last(), now)
            <= config.reset_after ==> forall|i: int|
            0 <= i < before.tap_times().len() && elapsed(before.tap_times()[i], now)
                <= config.averaging_window ==> after.tap_times().contains(
                #[trigger] before.tap_times()[i],
            ),
        before.tap_times().len() > 0 && elapsed(before.tap_times().last(), now)
            > config.reset_after ==> {
            &&& after.tap_times() == seq![now]
            &&& after.current_bpm() is None
            &&& after.current_display_bpm() == Some(0u16)
        },
{
    let taps = before.tap_times();
    if taps.len() > 0 && elapsed(taps.last(), now) <= config.reset_after {
        assert(!restarts(taps, now, config.reset_after));
        lemma_tap_keeps_recent_taps(taps, now, config);
    }
    if taps.len() > 0 && elapsed(taps.last(), now) > config.reset_after {
        lemma_tap_after_inactivity_starts_over(taps, now, config);
    }
}

/// The estimate after a tap depends on the taps the session then holds and
/// nothing else: two taps that leave the same taps held give the same
/// estimate (with the same `min_intervals`).
pub proof fn lemma_estimate_depends_on_held_taps_only(
    before1: TapTempoSession,
    after1: TapTempoSession,
    now1: u64,
    before2: TapTempoSession,
    after2: TapTempoSession,
    now2: u64,
    config1: TapTempoConfig,
    config2: TapTempoConfig,
)
    requires
        tap_step(before1, after1, now1, config1),
        tap_step(before2, after2, now2, config2),
        after1.tap_times() == after2.tap_times(),
        config1.min_intervals == config2.min_intervals,
    ensures
        after1.current_bpm() == after2.current_bpm(),
{
}

/// After a tap, when the taps the session holds (those within the averaging
/// window) are evenly spaced `period` apart and there are more of them than
/// `min_intervals`, the estimate is exactly `NANOS_PER_MINUTE / period` beats
/// per minute, whatever older taps were dropped.
pub proof fn lemma_tap_estimates_held_steady_taps(
    before: TapTempoSession,
    after: TapTempoSession,
    now: u64,
    config: TapTempoConfig,
    period: int,
)
    requires
        tap_step(before, after, now, config),
        after.tap_times().len() >= 2,
        after.tap_times().len() > config.min_intervals,
        period > 0,
        forall|i: int|
            0 <= i < after.tap_times().len() ==> #[trigger] after.tap_times()[i]
                == after.tap_times()[0] + i * period,
    ensures
        after.current_bpm() matches Some(t) && t.numerator * period == NANOS_PER_MINUTE
            * t.denominator,
{
    lemma_steady_taps_give_exact_tempo(after.tap_times(), period, config.min_intervals as int);
}

/// The inactivity check clears a session exactly when it holds taps and its
/// most recent tap is at least `reset_after` old (however old the first tap
/// is); a tap that would start a new session always finds the session idle.
pub proof fn lemma_reset_exactly_after_idle(taps: Seq<u64>, now: u64, reset_after: u128)
    ensures
        inactive_at(taps, now, reset_after) <==> (taps.len() > 0 && elapsed(
            taps[taps.len() - 1],
            now,
        ) >= reset_after),
        restarts(taps, now, reset_after) ==> inactive_at(taps, now, reset_after),
{
}

impl Default for TapTempoSession {
    fn default() -> (session: Self)
        ensures
            session.wf(),
            session.tap_times() == Seq::<u64>::empty(),
            session.current_bpm() is None,
            session.current_display_bpm() is None,
            !session.active(),
    {
        TapTempoSession::new()
    }
}

} // verus!
