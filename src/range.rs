use vstd::arithmetic::div_mod::{lemma_div_is_ordered, lemma_fundamental_div_mod_converse};
use vstd::prelude::*;

verus! {

/// The fixed-point value that stands for a normalized position of 1.0;
/// normalized positions run over `0..=NORMALIZED_ONE`.
pub const NORMALIZED_ONE: u32 = 1000000;

/// A gain range between two decibel bounds, held in microdecibels.
///
/// The normalized control position maps linearly onto the decibel scale,
/// so that equal steps of the control are equal steps in loudness.
#[derive(Clone, Copy, Debug)]
pub struct GainRange {
    pub min_udb: i32,
    pub max_udb: i32,
}

/// A normalized position limited to `0..=NORMALIZED_ONE`.
pub open spec fn clamp_normalized(n: int) -> int {
    if n < 0 {
        0
    } else if n > NORMALIZED_ONE {
        NORMALIZED_ONE as int
    } else {
        n
    }
}

/// A value limited to `min..=max`.
pub open spec fn clamp_value(min: int, max: int, v: int) -> int {
    if v < min {
        min
    } else if v > max {
        max
    } else {
        v
    }
}

/// The decibel value at normalized position `n`, rounded down to the microdecibel.
pub open spec fn engineering_of(min: int, max: int, n: int) -> int {
    min + (max - min) * clamp_normalized(n) / (NORMALIZED_ONE as int)
}

/// The normalized position of the decibel value `v`, rounded up.
pub open spec fn normalized_of(min: int, max: int, v: int) -> int {
    ((clamp_value(min, max, v) - min) * NORMALIZED_ONE + (max - min) - 1) / (max - min)
}

/// `span * c / d` lies between zero and `span` when `c` lies between zero and `d`.
pub(crate) proof fn lemma_scaled_bounds(span: int, c: int, d: int)
    requires
        span >= 0,
        d > 0,
        0 <= c <= d,
    ensures
        0 <= span * c / d <= span,
        c == 0 ==> span * c / d == 0,
        c == d ==> span * c / d == span,
{
    assert(0 <= span * c <= span * d) by (nonlinear_arith)
        requires
            span >= 0,
            0 <= c <= d,
    ;
    lemma_div_is_ordered(0, span * c, d);
    lemma_div_is_ordered(span * c, span * d, d);
    lemma_fundamental_div_mod_converse(span * d, d, span, 0);
    if span == 0 || c == 0 {
        assert(span * c == 0) by (nonlinear_arith)
            requires
                span == 0 || c == 0,
        ;
        lemma_fundamental_div_mod_converse(0, d, 0, 0);
    }
}

impl GainRange {
    /// The bounds are in order.
    pub open spec fn wf(&self) -> bool {
        self.min_udb < self.max_udb
    }

    /// The width of the range in microdecibels.
    pub open spec fn span(&self) -> int {
        self.max_udb - self.min_udb
    }

    /// A range from `min_udb` to `max_udb`; there is none unless `min_udb < max_udb`.
    pub fn new(min_udb: i32, max_udb: i32) -> (r: Option<GainRange>)
        ensures
            r is Some <==> min_udb < max_udb,
            r matches Some(g) ==> g.min_udb == min_udb && g.max_udb == max_udb && g.wf(),
    {
        if min_udb < max_udb {
            Some(GainRange { min_udb, max_udb })
        } else {
            None
        }
    }

    /// Limits `value` to the range.
    pub fn clamp(&self, value: i32) -> (r: i32)
        requires
            self.wf(),
        ensures
            r == clamp_value(self.min_udb as int, self.max_udb as int, value as int),
    {
        if value < self.min_udb {
            self.min_udb
        } else if value > self.max_udb {
            self.max_udb
        } else {
            value
        }
    }

    /// The decibel value (in microdecibels) at a normalized position; positions
    /// past `NORMALIZED_ONE` count as `NORMALIZED_ONE`.
    pub fn to_engineering(&self, normalized: u32) -> (r: i32)
        requires
            self.wf(),
        ensures
            r == engineering_of(self.min_udb as int, self.max_udb as int, normalized as int),
            self.min_udb <= r <= self.max_udb,
            normalized == 0 ==> r == self.min_udb,
            normalized >= NORMALIZED_ONE ==> r == self.max_udb,
    {
        let c: u32 = if normalized > NORMALIZED_ONE {
            NORMALIZED_ONE
        } else {
            normalized
        };
        let span: i64 = self.max_udb as i64 - self.min_udb as i64;
        proof {
            let s = span as int;
            let k = c as int;
            lemma_scaled_bounds(s, k, NORMALIZED_ONE as int);
            assert(s * k <= s * NORMALIZED_ONE) by (nonlinear_arith)
                requires
                    s > 0,
                    k <= NORMALIZED_ONE,
            ;
        }
        let offset: i64 = span * (c as i64) / (NORMALIZED_ONE as i64);
        (self.min_udb as i64 + offset) as i32
    }

    /// The normalized position of a decibel value (in microdecibels), rounded up;
    /// values outside the range count as the nearest bound.
    pub fn to_normalized(&self, value: i32) -> (r: u32)
        requires
            self.wf(),
        ensures
            r == normalized_of(self.min_udb as int, self.max_udb as int, value as int),
            r <= NORMALIZED_ONE,
            value <= self.min_udb ==> r == 0,
            value >= self.max_udb ==> r == NORMALIZED_ONE,
    {
        let v: i32 = self.clamp(value);
        let span: i64 = self.max_udb as i64 - self.min_udb as i64;
        let d: i64 = v as i64 - self.min_udb as i64;
        proof {
            let s = span as int;
            let e = d as int;
            let one = NORMALIZED_ONE as int;
            assert(0 <= e * one <= s * one) by (nonlinear_arith)
                requires
                    0 <= e <= s,
                    one > 0,
            ;
            let x = e * one + s - 1;
            lemma_div_is_ordered(s - 1, x, s);
            lemma_div_is_ordered(x, s * one + s - 1, s);
            lemma_fundamental_div_mod_converse(s * one + s - 1, s, one, s - 1);
            lemma_fundamental_div_mod_converse(s - 1, s, 0, s - 1);
        }
        ((d * (NORMALIZED_ONE as i64) + span - 1) / span) as u32
    }
}

/// Mapping a normalized position to its decibel value and back gives the
/// position again, whenever the range is at least `NORMALIZED_ONE`
/// microdecibels wide.
pub proof fn lemma_round_trip(g: GainRange, n: u32)
    requires
        g.wf(),
        g.span() >= NORMALIZED_ONE,
        n <= NORMALIZED_ONE,
    ensures
        normalized_of(
            g.min_udb as int,
            g.max_udb as int,
            engineering_of(g.min_udb as int, g.max_udb as int, n as int),
        ) == n,
{
    let s = g.span();
    let one = NORMALIZED_ONE as int;
    let q = s * n / one;
    lemma_scaled_bounds(s, n as int, one);
    assert(q * one <= s * n < q * one + one) by {
        vstd::arithmetic::div_mod::lemma_fundamental_div_mod(s * n, one);
        vstd::arithmetic::div_mod::lemma_mod_bound(s * n, one);
        vstd::arithmetic::mul::lemma_mul_is_commutative(q, one);
    }
    let x = q * one + s - 1;
    assert(n * s <= x < n * s + s) by (nonlinear_arith)
        requires
            q * one <= s * n < q * one + one,
            s >= one,
            x == q * one + s - 1,
    ;
    lemma_fundamental_div_mod_converse(x, s, n as int, x - n * s);
}

/// Mapping a value in the range to its normalized position and back lands
/// on the value or above it, by at most the width of one position step
/// (`span / NORMALIZED_ONE` microdecibels, rounded down).
pub proof fn lemma_value_round_trip(g: GainRange, v: i32)
    requires
        g.wf(),
        g.min_udb <= v <= g.max_udb,
    ensures
        ({
            let back = engineering_of(
                g.min_udb as int,
                g.max_udb as int,
                normalized_of(g.min_udb as int, g.max_udb as int, v as int),
            );
            v <= back <= v + g.span() / (NORMALIZED_ONE as int)
        }),
{
    let s = g.span();
    let one = NORMALIZED_ONE as int;
    let e = v - g.min_udb;
    let x = e * one + s - 1;
    assert(0 <= e * one <= s * one) by (nonlinear_arith)
        requires
            0 <= e <= s,
            one > 0,
    ;
    let p = x / s;
    vstd::arithmetic::div_mod::lemma_fundamental_div_mod(x, s);
    vstd::arithmetic::div_mod::lemma_mod_bound(x, s);
    vstd::arithmetic::mul::lemma_mul_is_commutative(p, s);
    assert(e * one <= s * p <= e * one + s - 1);
    // the position lies within `0..=NORMALIZED_ONE`
    lemma_div_is_ordered(s - 1, x, s);
    lemma_div_is_ordered(x, s * one + s - 1, s);
    lemma_fundamental_div_mod_converse(s * one + s - 1, s, one, s - 1);
    lemma_fundamental_div_mod_converse(s - 1, s, 0, s - 1);
    assert(0 <= p <= one);
    // and maps back to within one step above `v`
    let a = (s - 1) / one;
    vstd::arithmetic::div_mod::lemma_fundamental_div_mod(s - 1, one);
    vstd::arithmetic::div_mod::lemma_mod_bound(s - 1, one);
    assert(e * one + s - 1 == (e + a) * one + (s - 1) % one) by (nonlinear_arith)
        requires
            s - 1 == one * a + (s - 1) % one,
    ;
    lemma_fundamental_div_mod_converse(e * one + s - 1, one, e + a, (s - 1) % one);
    lemma_fundamental_div_mod_converse(e * one, one, e, 0);
    lemma_div_is_ordered(e * one, s * p, one);
    lemma_div_is_ordered(s * p, e * one + s - 1, one);
    lemma_div_is_ordered(s - 1, s, one);
}

} // verus!
