use crate::range::lemma_scaled_bounds;
use vstd::arithmetic::div_mod::lemma_div_is_ordered;
use vstd::prelude::*;

verus! {

/// The number of samples in a smoothing window of `time_constant_ms`
/// milliseconds at `sample_rate` samples per second, rounded up.
pub open spec fn steps_for(time_constant_ms: int, sample_rate: int) -> int {
    (time_constant_ms * sample_rate + 999) / 1000
}

/// How far a ramp over `diff` still has to go with `left` of `total` steps remaining,
/// rounded toward zero.
pub open spec fn ramp_offset(diff: int, left: int, total: int) -> int {
    if diff >= 0 {
        diff * left / total
    } else {
        -((-diff) * left / total)
    }
}

/// The value of a ramp from `start` to `target` with `left` of `total` steps remaining.
///
/// Gains are held in decibels, where a constant ratio per sample is a constant
/// step: the ramp is logarithmic in linear gain.
pub open spec fn ramp_value(start: int, target: int, left: int, total: int) -> int {
    if left <= 0 || total <= 0 {
        target
    } else {
        target - ramp_offset(target - start, left, total)
    }
}

/// `x` and then `y` are on the way from `from` to `to`, in that order,
/// without going past `to`.
pub open spec fn toward(from: int, x: int, y: int, to: int) -> bool {
    if from <= to {
        from <= x <= y <= to
    } else {
        to <= y <= x <= from
    }
}

/// A parameter value that follows its target along a ramp of fixed duration.
///
/// Values are in microdecibels. Every decibel value stands for a positive
/// linear gain, so the logarithmic ramp is defined between any two of them;
/// when the window holds no samples a new target is taken at once.
#[derive(Clone, Copy, Debug)]
pub struct Smoother {
    /// The value handed out by the last step.
    pub current: i32,
    /// The value the ramp ends on.
    pub target: i32,
    /// The value the current ramp started from.
    pub start: i32,
    /// Samples left until `current` equals `target`.
    pub steps_left: u64,
    /// Samples in a whole smoothing window at the current sample rate.
    pub total_steps: u64,
    pub time_constant_ms: u32,
    pub sample_rate: u32,
}

impl Smoother {
    /// The step counts fit the window, and `current` is the ramp's value.
    pub open spec fn wf(&self) -> bool {
        &&& self.steps_left <= self.total_steps
        &&& self.total_steps == steps_for(self.time_constant_ms as int, self.sample_rate as int)
        &&& self.current == ramp_value(
            self.start as int,
            self.target as int,
            self.steps_left as int,
            self.total_steps as int,
        )
    }

    /// The state after `k` more samples.
    pub open spec fn advanced(self, k: nat) -> Smoother {
        let left: int = if k >= self.steps_left {
            0
        } else {
            self.steps_left - k
        };
        Smoother {
            current: ramp_value(
                self.start as int,
                self.target as int,
                left,
                self.total_steps as int,
            ) as i32,
            steps_left: left as u64,
            ..self
        }
    }

    /// The state right after `target` becomes the new target: a ramp over a
    /// whole window from the current value, or the target at once when the
    /// window holds no samples.
    pub open spec fn retargeted(self, target: i32) -> Smoother {
        if self.total_steps == 0 {
            Smoother { current: target, target, start: target, steps_left: 0, ..self }
        } else {
            Smoother { target, start: self.current, steps_left: self.total_steps, ..self }
        }
    }

    /// The state right after the sample rate changes: a ramp in progress
    /// restarts from the current value over a window at the new rate.
    pub open spec fn with_sample_rate(self, sample_rate: u32) -> Smoother {
        let n = steps_for(self.time_constant_ms as int, sample_rate as int);
        let ramping = self.steps_left > 0 && n > 0;
        Smoother {
            current: if ramping {
                self.current
            } else {
                self.target
            },
            start: if ramping {
                self.current
            } else {
                self.target
            },
            steps_left: if ramping {
                n as u64
            } else {
                0
            },
            total_steps: n as u64,
            sample_rate,
            ..self
        }
    }

    /// The state with the ramp finished: the value is the target.
    pub open spec fn settled(self) -> Smoother {
        Smoother { current: self.target, start: self.target, steps_left: 0, ..self }
    }

    /// A smoother resting at `value`.
    pub fn new(value: i32, time_constant_ms: u32, sample_rate: u32) -> (r: Smoother)
        ensures
            r.wf(),
            r.current == value,
            r.target == value,
            r.start == value,
            r.steps_left == 0,
            r.time_constant_ms == time_constant_ms,
            r.sample_rate == sample_rate,
    {
        let total_steps = window_steps(time_constant_ms, sample_rate);
        Smoother {
            current: value,
            target: value,
            start: value,
            steps_left: 0,
            total_steps,
            time_constant_ms,
            sample_rate,
        }
    }

    /// Starts a ramp from the current value to `target`.
    pub fn set_target(&mut self, target: i32)
        requires
            old(self).wf(),
        ensures
            final(self).wf(),
            *final(self) == old(self).retargeted(target),
    {
        if self.total_steps == 0 {
            self.current = target;
            self.start = target;
            self.steps_left = 0;
        } else {
            self.start = self.current;
            self.steps_left = self.total_steps;
            proof {
                lemma_ramp_start(self.start as int, target as int, self.total_steps as int);
            }
        }
        self.target = target;
    }

    /// Moves one sample along the ramp and returns the new value.
    pub fn next(&mut self) -> (r: i32)
        requires
            old(self).wf(),
        ensures
            final(self).wf(),
            *final(self) == old(self).advanced(1),
            r == final(self).current,
    {
        proof {
            lemma_advance(*self, 1);
        }
        if self.steps_left > 0 {
            self.steps_left = self.steps_left - 1;
            self.current = ramp_at(self.start, self.target, self.steps_left, self.total_steps);
        }
        self.current
    }

    /// Ends the ramp in progress: the value jumps to the target.
    pub fn reset(&mut self)
        requires
            old(self).wf(),
        ensures
            final(self).wf(),
            *final(self) == old(self).settled(),
    {
        self.current = self.target;
        self.start = self.target;
        self.steps_left = 0;
    }

    /// Takes a new sample rate; a ramp in progress restarts from the current
    /// value over a window at that rate.
    pub fn set_sample_rate(&mut self, sample_rate: u32)
        requires
            old(self).wf(),
        ensures
            final(self).wf(),
            *final(self) == old(self).with_sample_rate(sample_rate),
    {
        let n = window_steps(self.time_constant_ms, sample_rate);
        if self.steps_left > 0 && n > 0 {
            self.start = self.current;
            self.steps_left = n;
            proof {
                lemma_ramp_start(self.start as int, self.target as int, n as int);
            }
        } else {
            self.current = self.target;
            self.start = self.target;
            self.steps_left = 0;
        }
        self.total_steps = n;
        self.sample_rate = sample_rate;
    }
}

/// The number of samples in a smoothing window, rounded up.
pub fn window_steps(time_constant_ms: u32, sample_rate: u32) -> (r: u64)
    ensures
        r == steps_for(time_constant_ms as int, sample_rate as int),
{
    let t = time_constant_ms as u64;
    let s = sample_rate as u64;
    proof {
        assert(t * s <= 0xffff_ffffu64 * 0xffff_ffffu64) by (nonlinear_arith)
            requires
                t <= 0xffff_ffffu64,
                s <= 0xffff_ffffu64,
        ;
    }
    (t * s + 999) / 1000
}

/// A ramp over a whole window starts on its start value.
proof fn lemma_ramp_start(start: int, target: int, total: int)
    requires
        total > 0,
    ensures
        ramp_value(start, target, total, total) == start,
{
    let d = if target >= start {
        target - start
    } else {
        start - target
    };
    vstd::arithmetic::div_mod::lemma_fundamental_div_mod_converse(d * total, total, d, 0);
}

/// Along a ramp, fewer steps left means closer to the target, never past it.
proof fn lemma_ramp_toward(start: int, target: int, l1: int, l2: int, total: int)
    requires
        0 <= l2 <= l1 <= total,
        total > 0,
    ensures
        toward(
            start,
            ramp_value(start, target, l1, total),
            ramp_value(start, target, l2, total),
            target,
        ),
{
    let d = if target >= start {
        target - start
    } else {
        start - target
    };
    lemma_ramp_start(start, target, total);
    lemma_scaled_bounds(d, l1, total);
    lemma_scaled_bounds(d, l2, total);
    assert(d * l2 <= d * l1) by (nonlinear_arith)
        requires
            d >= 0,
            l2 <= l1,
    ;
    lemma_div_is_ordered(d * l2, d * l1, total);
}

/// The value of a ramp at `left` of `total` steps remaining.
fn ramp_at(start: i32, target: i32, left: u64, total: u64) -> (r: i32)
    requires
        left <= total,
    ensures
        r == ramp_value(start as int, target as int, left as int, total as int),
{
    if left == 0 {
        return target;
    }
    let neg = target < start;
    let d: u64 = if neg {
        (start as i64 - target as i64) as u64
    } else {
        (target as i64 - start as i64) as u64
    };
    proof {
        lemma_scaled_bounds(d as int, left as int, total as int);
        assert(d * left <= d * total) by (nonlinear_arith)
            requires
                left <= total,
        ;
        assert(d * total <= 0xffff_ffffu64 * 0xffff_ffff_ffff_ffffu64) by (nonlinear_arith)
            requires
                d <= 0xffff_ffffu64,
                total <= 0xffff_ffff_ffff_ffffu64,
        ;
    }
    let off: u128 = (d as u128) * (left as u128) / (total as u128);
    if neg {
        (target as i64 + off as i64) as i32
    } else {
        (target as i64 - off as i64) as i32
    }
}

/// After a new target is set the value moves from where it was toward the
/// new target, monotonically and without overshoot, and equals the target
/// once a whole smoothing window of samples has passed. The ramp starts on
/// the value the smoother held, so a new target never makes the value jump.
pub proof fn lemma_retarget_ramp(s: Smoother, target: i32, j: nat, k: nat)
    requires
        s.wf(),
        j <= k,
    ensures
        s.retargeted(target).wf(),
        s.total_steps > 0 ==> s.retargeted(target).current == s.current,
        toward(
            s.current as int,
            s.retargeted(target).advanced(j).current as int,
            s.retargeted(target).advanced(k).current as int,
            target as int,
        ),
        k >= steps_for(s.time_constant_ms as int, s.sample_rate as int) ==> s.retargeted(
            target,
        ).advanced(k).current == target,
{
    let t = s.retargeted(target);
    if s.total_steps > 0 {
        lemma_ramp_start(s.current as int, target as int, s.total_steps as int);
        let n = s.total_steps as int;
        let l1: int = if j >= n {
            0
        } else {
            n - j
        };
        let l2: int = if k >= n {
            0
        } else {
            n - k
        };
        lemma_ramp_toward(s.current as int, target as int, l1, l2, n);
        lemma_ramp_toward(s.current as int, target as int, n, l1, n);
    }
}

/// Stepping keeps a smoother well formed and, once its steps run out, on its target.
pub proof fn lemma_advance(s: Smoother, k: nat)
    requires
        s.wf(),
    ensures
        s.advanced(k).wf(),
        k >= s.steps_left ==> s.advanced(k).current == s.target,
        s.advanced(k).target == s.target,
{
    if s.total_steps > 0 && s.steps_left > 0 {
        let l: int = if k >= s.steps_left {
            0
        } else {
            s.steps_left - k
        };
        lemma_ramp_toward(s.start as int, s.target as int, s.total_steps as int, l, s.total_steps as int);
    }
}

/// `x / n` grows by at most `d / n + 1` when `x` grows by `d`.
proof fn lemma_div_step(x: int, d: int, n: int)
    requires
        x >= 0,
        d >= 0,
        n > 0,
    ensures
        x / n <= (x + d) / n <= x / n + d / n + 1,
{
    vstd::arithmetic::div_mod::lemma_fundamental_div_mod(x, n);
    vstd::arithmetic::div_mod::lemma_fundamental_div_mod(d, n);
    vstd::arithmetic::div_mod::lemma_fundamental_div_mod(x + d, n);
    vstd::arithmetic::div_mod::lemma_mod_bound(x, n);
    vstd::arithmetic::div_mod::lemma_mod_bound(d, n);
    vstd::arithmetic::div_mod::lemma_mod_bound(x + d, n);
    lemma_div_is_ordered(x, x + d, n);
    let k = (x + d) / n - x / n - d / n;
    assert(k * n == x % n + d % n - (x + d) % n) by (nonlinear_arith)
        requires
            x == n * (x / n) + x % n,
            d == n * (d / n) + d % n,
            x + d == n * ((x + d) / n) + (x + d) % n,
            k == (x + d) / n - x / n - d / n,
    ;
    assert(k <= 1) by (nonlinear_arith)
        requires
            k * n == x % n + d % n - (x + d) % n,
            0 <= x % n < n,
            0 <= d % n < n,
            0 <= (x + d) % n < n,
            n > 0,
    ;
}

/// Each sample of a ramp moves the value by at most the whole distance
/// divided by the window length, rounded up: a ramp has no jumps.
pub proof fn lemma_ramp_step_bounded(s: Smoother, k: nat)
    requires
        s.wf(),
        s.total_steps > 0,
    ensures
        ({
            let a = s.advanced(k).current as int;
            let b = s.advanced(k + 1).current as int;
            let dist = if s.target >= s.start {
                s.target - s.start
            } else {
                s.start - s.target
            };
            let step = if b >= a {
                b - a
            } else {
                a - b
            };
            step <= dist / (s.total_steps as int) + 1
        }),
{
    lemma_advance(s, k);
    lemma_advance(s, k + 1);
    let n = s.total_steps as int;
    let d = if s.target >= s.start {
        s.target - s.start
    } else {
        s.start - s.target
    };
    let l1: int = if k >= s.steps_left {
        0
    } else {
        s.steps_left - k
    };
    let l2: int = if k + 1 >= s.steps_left {
        0
    } else {
        s.steps_left - (k + 1)
    };
    if l1 > 0 {
        assert(d * l1 == d * l2 + d) by (nonlinear_arith)
            requires
                l1 == l2 + 1,
        ;
        assert(d * l2 >= 0) by (nonlinear_arith)
            requires
                d >= 0,
                l2 >= 0,
        ;
        lemma_div_step(d * l2, d, n);
        if l2 == 0 {
            assert(d * l2 == 0);
            vstd::arithmetic::div_mod::lemma_fundamental_div_mod_converse(0, n, 0, 0);
        }
    }
}

} // verus!
