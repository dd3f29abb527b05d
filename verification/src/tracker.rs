//! The tracker: the sole stateful entity of the odometer.
//!
//! It holds the last observed pointer position, the running travel total in
//! integer nanometers, and the time of the last durable checkpoint. Every
//! operation that decides something — integrating a sample, gating the
//! periodic checkpoint, resetting, producing the shutdown text — lives here
//! with an exact contract; reading the pointer device, the clock and the
//! checkpoint file is the caller's part, fed in and out as plain values.

use vstd::prelude::*;

use crate::codec::content_view;
use crate::codec::dec_seq;
use crate::codec::dec_seq_pad;
use crate::codec::format_meters;
use crate::codec::format_meters_spec;
use crate::codec::format_padded;
use crate::codec::format_u64;
use crate::codec::load_total;
use crate::codec::load_total_spec;
use crate::isqrt::isqrt_u128;
use crate::isqrt::sqrt_floor;
use crate::position::delta_sq;
use crate::position::delta_squared;
use crate::position::Position;

verus! {

/// Nanometers of travel per pixel of pointer movement: the fixed 96-DPI
/// pixel-to-meter approximation, 0.000264583 meters per pixel.
pub const NANOS_PER_PIXEL: u64 = 264_583;

/// Milliseconds that must elapse before another periodic checkpoint is
/// issued.
pub const CHECKPOINT_INTERVAL_MS: u64 = 60_000;

/// The distance one sample adds to the total: the Euclidean pixel delta
/// scaled to nanometers, rounded down.
pub open spec fn step_nm(a: Position, b: Position) -> nat {
    sqrt_floor(delta_sq(a, b) * ((NANOS_PER_PIXEL as nat) * (NANOS_PER_PIXEL as nat)))
}

/// Addition clipped to the largest representable total.
pub open spec fn sat_add_u64(a: u64, b: nat) -> u64 {
    if a + b <= u64::MAX {
        (a + b) as u64
    } else {
        u64::MAX
    }
}

/// The tracker state: baseline position, running total, checkpoint clock.
pub struct Tracker {
    /// The most recently observed coordinate, used only as the baseline for
    /// the next delta.
    pub last_pos: Position,
    /// The running travel total in nanometers; the canonical persisted
    /// value, clipped at the largest representable count.
    pub total_nm: u64,
    /// When the last durable checkpoint was issued, in milliseconds of the
    /// caller's monotonic clock.
    pub last_checkpoint_ms: u64,
}

/// One integration step on the state: the total grows by the step between
/// the old baseline and the sample, and the sample becomes the baseline —
/// also when the step is zero.
pub open spec fn integrate_spec(t: Tracker, p: Position) -> Tracker {
    Tracker {
        last_pos: p,
        total_nm: sat_add_u64(t.total_nm, step_nm(t.last_pos, p)),
        last_checkpoint_ms: t.last_checkpoint_ms,
    }
}

/// Whether the periodic checkpoint interval has elapsed at `now_ms`.
pub open spec fn checkpoint_due(t: Tracker, now_ms: u64) -> bool {
    now_ms - t.last_checkpoint_ms >= CHECKPOINT_INTERVAL_MS
}

/// One full sampling cycle on the state: integrate the sample, then, when
/// the checkpoint interval has elapsed, note the checkpoint time.
pub open spec fn update_spec(t: Tracker, p: Position, now_ms: u64) -> Tracker {
    let ti = integrate_spec(t, p);
    if checkpoint_due(ti, now_ms) {
        Tracker { last_checkpoint_ms: now_ms, ..ti }
    } else {
        ti
    }
}

/// The displayed total: kilometers to three decimal places, the third
/// rounded half-up.
pub open spec fn km_display_spec(nm: nat) -> Seq<char> {
    let m = (nm + 500_000_000) / 1_000_000_000;
    dec_seq(m / 1000) + seq!['.'] + dec_seq_pad(m % 1000, 3)
}

/// Computes the distance one sample adds, in nanometers.
pub fn step_nanometers(a: Position, b: Position) -> (d: u64)
    ensures
        d == step_nm(a, b),
{
    let dsq = delta_squared(a, b);
    let factor: u128 = (NANOS_PER_PIXEL as u128) * (NANOS_PER_PIXEL as u128);
    proof {
        assert((dsq as int) * (factor as int) <= u128::MAX as int) by (nonlinear_arith)
            requires
                dsq <= 36893488147419103232u128,
                factor == 264583u128 * 264583u128,
        ;
    }
    let scaled = dsq * factor;
    let r = isqrt_u128(scaled);
    r as u64
}

impl Tracker {
    /// Creates the tracker at startup: the total seeded from what could be
    /// read of the checkpoint file, the baseline from a fresh sample, the
    /// checkpoint clock from the creation instant.
    pub fn new(content: Option<&str>, start: Position, now_ms: u64) -> (t: Tracker)
        ensures
            t.total_nm == load_total_spec(content_view(content)),
            t.last_pos == start,
            t.last_checkpoint_ms == now_ms,
    {
        Tracker { last_pos: start, total_nm: load_total(content), last_checkpoint_ms: now_ms }
    }

    /// Integrates one sample into the running total and moves the baseline,
    /// also when the delta is zero.
    pub fn integrate(&mut self, p: Position)
        ensures
            *final(self) == integrate_spec(*old(self), p),
            final(self).last_pos == p,
            final(self).total_nm == sat_add_u64(old(self).total_nm, step_nm(old(self).last_pos, p)),
    {
        let step = step_nanometers(self.last_pos, p);
        if self.total_nm <= u64::MAX - step {
            self.total_nm = self.total_nm + step;
        } else {
            self.total_nm = u64::MAX;
        }
        self.last_pos = p;
    }

    /// One sampling cycle: integrates the sample, then issues the checkpoint
    /// text exactly when the interval has elapsed, noting the time.
    pub fn update(&mut self, p: Position, now_ms: u64) -> (save: Option<String>)
        requires
            old(self).last_checkpoint_ms <= now_ms,
        ensures
            *final(self) == update_spec(*old(self), p, now_ms),
            match save {
                Some(text) => checkpoint_due(integrate_spec(*old(self), p), now_ms) && text@
                    == format_meters_spec(final(self).total_nm as nat),
                None => !checkpoint_due(integrate_spec(*old(self), p), now_ms),
            },
    {
        self.integrate(p);
        if now_ms - self.last_checkpoint_ms >= CHECKPOINT_INTERVAL_MS {
            self.last_checkpoint_ms = now_ms;
            Some(format_meters(self.total_nm))
        } else {
            None
        }
    }

    /// Zeroes the total and yields the text of an unconditional durable
    /// write, bypassing the checkpoint interval gate.
    pub fn reset(&mut self) -> (save: String)
        ensures
            final(self).total_nm == 0,
            final(self).last_pos == old(self).last_pos,
            final(self).last_checkpoint_ms == old(self).last_checkpoint_ms,
            save@ == format_meters_spec(0),
            save@ == seq!['0'],
    {
        self.total_nm = 0;
        let s = format_meters(0);
        proof {
            assert(format_meters_spec(0) == dec_seq(0));
            assert(dec_seq(0) == seq![crate::codec::digit_char(0)]);
        }
        s
    }

    /// The reset command as the confirmation step resolved it: on an
    /// affirmative answer the total is zeroed and the zero text must be
    /// written; on a declined answer the state is untouched and nothing is
    /// written.
    pub fn apply_reset(&mut self, confirmed: bool) -> (save: Option<String>)
        ensures
            confirmed ==> final(self).total_nm == 0 && final(self).last_pos == old(self).last_pos
                && final(self).last_checkpoint_ms == old(self).last_checkpoint_ms && match save {
                Some(text) => text@ == seq!['0'],
                None => false,
            },
            !confirmed ==> *final(self) == *old(self) && save is None,
    {
        if confirmed {
            Some(self.reset())
        } else {
            None
        }
    }

    /// The text of the unconditional final write that the shutdown command
    /// must complete before the process terminates.
    pub fn shutdown_text(&self) -> (save: String)
        ensures
            save@ == format_meters_spec(self.total_nm as nat),
    {
        format_meters(self.total_nm)
    }

    /// The displayed total: kilometers to three decimal places.
    pub fn get_kilometers(&self) -> (s: String)
        ensures
            s@ == km_display_spec(self.total_nm as nat),
    {
        let rounded: u128 = ((self.total_nm as u128) + 500_000_000) / 1_000_000_000;
        proof {
            vstd::arithmetic::div_mod::lemma_multiply_divide_lt(
                (self.total_nm as u128 + 500_000_000) as int,
                1_000_000_000,
                0x1_0000_0000_0000_0000,
            );
        }
        let m: u64 = rounded as u64;
        let mut s = format_u64(m / 1000);
        s.append(".");
        let frac = format_padded(m % 1000, 3);
        s.append(frac.as_str());
        proof {
            reveal_strlit(".");
            assert(s@ =~= km_display_spec(self.total_nm as nat));
        }
        s
    }

    /// The running total in nanometers.
    pub fn total_nanometers(&self) -> (n: u64)
        ensures
            n == self.total_nm,
    {
        self.total_nm
    }

    /// The baseline position the next delta will be measured from.
    pub fn last_position(&self) -> (p: Position)
        ensures
            p == self.last_pos,
    {
        self.last_pos
    }

    /// When the last durable checkpoint was issued, on the caller's clock.
    pub fn last_checkpoint_millis(&self) -> (ms: u64)
        ensures
            ms == self.last_checkpoint_ms,
    {
        self.last_checkpoint_ms
    }
}

/// The state after feeding a sequence of samples through `integrate`.
pub open spec fn integrate_all_spec(t: Tracker, ps: Seq<Position>) -> Tracker
    decreases ps.len(),
{
    if ps.len() == 0 {
        t
    } else {
        integrate_all_spec(integrate_spec(t, ps[0]), ps.drop_first())
    }
}

/// The sum of the steps along consecutive pairs, starting from `p0`.
pub open spec fn sum_steps(p0: Position, ps: Seq<Position>) -> nat
    decreases ps.len(),
{
    if ps.len() == 0 {
        0
    } else {
        step_nm(p0, ps[0]) + sum_steps(ps[0], ps.drop_first())
    }
}

/// Feeding samples through `integrate` in order adds exactly the sum of
/// the Euclidean steps between consecutive positions to the total and
/// leaves the last position as the baseline — as long as the sum stays
/// representable, so the total never clips.
pub proof fn lemma_integrate_distance_sum(t: Tracker, ps: Seq<Position>)
    requires
        t.total_nm + sum_steps(t.last_pos, ps) <= u64::MAX,
    ensures
        integrate_all_spec(t, ps).total_nm == t.total_nm + sum_steps(t.last_pos, ps),
        integrate_all_spec(t, ps).last_pos == if ps.len() == 0 {
            t.last_pos
        } else {
            ps.last()
        },
        integrate_all_spec(t, ps).last_checkpoint_ms == t.last_checkpoint_ms,
    decreases ps.len(),
{
    if ps.len() > 0 {
        let t1 = integrate_spec(t, ps[0]);
        assert(t1.total_nm == t.total_nm + step_nm(t.last_pos, ps[0]));
        lemma_integrate_distance_sum(t1, ps.drop_first());
        if ps.len() > 1 {
            assert(ps.drop_first().last() == ps.last());
        }
    }
}

/// A zero-delta sample — the position unchanged — never changes the
/// total; it only re-affirms the baseline.
pub proof fn lemma_zero_delta_keeps_total(t: Tracker)
    ensures
        integrate_spec(t, t.last_pos) == t,
{
    assert(delta_sq(t.last_pos, t.last_pos) == 0);
    assert(step_nm(t.last_pos, t.last_pos) == 0) by {
        assert(sqrt_floor(0) == 0);
    }
    assert(sat_add_u64(t.total_nm, 0) == t.total_nm);
}

/// Checkpoint gating: after a cycle that wrote at `n1`, a second cycle at
/// `n2` writes exactly when at least the interval separates the two.
pub proof fn lemma_checkpoint_gating(t: Tracker, p1: Position, p2: Position, n1: u64, n2: u64)
    requires
        t.last_checkpoint_ms <= n1 <= n2,
        checkpoint_due(integrate_spec(t, p1), n1),
    ensures
        ({
            let t1 = update_spec(t, p1, n1);
            &&& (n2 - n1 < CHECKPOINT_INTERVAL_MS ==> !checkpoint_due(
                integrate_spec(t1, p2),
                n2,
            ))
            &&& (n2 - n1 >= CHECKPOINT_INTERVAL_MS ==> checkpoint_due(integrate_spec(t1, p2), n2))
        }),
{
    let t1 = update_spec(t, p1, n1);
    assert(t1.last_checkpoint_ms == n1);
    assert(integrate_spec(t1, p2).last_checkpoint_ms == n1);
}

} // verus!
