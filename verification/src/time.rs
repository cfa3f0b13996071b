//! A span of time with nanosecond resolution, as used for lyric timestamps.

use vstd::prelude::*;

verus! {

/// Nanoseconds in one second.
pub const NANOS_PER_SEC: u128 = 1_000_000_000;

/// Nanoseconds in one millisecond.
pub const NANOS_PER_MILLI: u128 = 1_000_000;

/// The largest number of nanoseconds a duration can hold.
pub const MAX_NANOS: u128 = 0xffff_ffff_ffff_ffff_ffff_ffff_ffff_ffff;

/// A non-negative span of time, counted in nanoseconds.
#[derive(Clone, Copy, Debug, PartialEq, Eq, PartialOrd, Ord, Hash)]
pub struct Duration {
    nanos: u128,
}

impl View for Duration {
    type V = nat;

    closed spec fn view(&self) -> nat {
        self.nanos as nat
    }
}

/// Every duration holds at most `MAX_NANOS` nanoseconds.
pub broadcast proof fn lemma_duration_bounded(d: Duration)
    ensures
        #[trigger] d@ <= MAX_NANOS,
{
}

/// The share `num / den` of `span`, rounded to the nearest whole number
/// (halves upward).
pub open spec fn rounded_share(span: nat, num: nat, den: nat) -> nat {
    (2 * span * num + den) / (2 * den)
}

/// Splitting `span` into whole multiples of `den` and a remainder `r`: the
/// rounded share is `(span / den) * n` plus the share of `r * n`, rounded.
proof fn lemma_rounded_split(span: int, n: int, den: int)
    requires
        span >= 0,
        n >= 0,
        den > 0,
    ensures
        ({
            let q = span / den;
            let r = span % den;
            let t = (r * n) / den;
            let u = (r * n) % den;
            &&& rounded_share(span as nat, n as nat, den as nat) == q * n + t + if 2 * u >= den {
                1int
            } else {
                0int
            }
            &&& 0 <= r < den
            &&& 0 <= u < den
            &&& q >= 0 && t >= 0
        }),
{
    let q = span / den;
    let r = span % den;
    assert(span == q * den + r && 0 <= r < den && q >= 0) by (nonlinear_arith)
        requires
            den > 0,
            span >= 0,
            q == span / den,
            r == span % den,
    ;
    assert(r * n >= 0) by (nonlinear_arith)
        requires
            r >= 0,
            n >= 0,
    ;
    let t = (r * n) / den;
    let u = (r * n) % den;
    assert(r * n == t * den + u && 0 <= u < den && t >= 0) by (nonlinear_arith)
        requires
            den > 0,
            r * n >= 0,
            t == (r * n) / den,
            u == (r * n) % den,
    ;
    assert(q * n >= 0) by (nonlinear_arith)
        requires
            q >= 0,
            n >= 0,
    ;
    let x = q * n + t;
    assert(2 * span * n + den == (2 * den) * x + (2 * u + den)) by (nonlinear_arith)
        requires
            span == q * den + r,
            r * n == t * den + u,
            x == q * n + t,
    ;
    if 2 * u >= den {
        assert(2 * span * n + den == (2 * den) * (x + 1) + (2 * u - den)) by (nonlinear_arith)
            requires
                2 * span * n + den == (2 * den) * x + (2 * u + den),
        ;
        vstd::arithmetic::div_mod::lemma_div_multiples_vanish_fancy(x + 1, 2 * u - den, 2 * den);
    } else {
        vstd::arithmetic::div_mod::lemma_div_multiples_vanish_fancy(x, 2 * u + den, 2 * den);
    }
}

/// Rounded shares grow with the share, never exceed the span for a share of
/// at most one, and give nothing for nothing and the span for all of it;
/// each is at most one more than the share rounded down.
pub proof fn lemma_rounded_share(span: nat, a: nat, b: nat, den: nat)
    requires
        a <= b,
        den > 0,
    ensures
        rounded_share(span, a, den) <= rounded_share(span, b, den),
        b <= den ==> rounded_share(span, b, den) <= span,
        rounded_share(span, 0, den) == 0,
        rounded_share(span, den, den) == span,
        rounded_share(span, a, den) <= span * a / den + 1,
{
    assert(2 * span * a + den <= 2 * span * b + den) by (nonlinear_arith)
        requires
            a <= b,
    ;
    vstd::arithmetic::div_mod::lemma_div_is_ordered(
        (2 * span * a + den) as int,
        (2 * span * b + den) as int,
        2 * den as int,
    );
    if b <= den {
        assert(2 * span * b + den <= (2 * den) * span + den) by (nonlinear_arith)
            requires
                b <= den,
        ;
        vstd::arithmetic::div_mod::lemma_div_is_ordered(
            (2 * span * b + den) as int,
            ((2 * den) * span + den) as int,
            2 * den as int,
        );
        vstd::arithmetic::div_mod::lemma_div_multiples_vanish_fancy(span as int, den as int, 2 * den as int);
    }
    assert(2 * span * 0 + den == den) by (nonlinear_arith);
    vstd::arithmetic::div_mod::lemma_div_multiples_vanish_fancy(0, den as int, 2 * den as int);
    assert(2 * span * den + den == (2 * den) * span + den) by (nonlinear_arith);
    vstd::arithmetic::div_mod::lemma_div_multiples_vanish_fancy(span as int, den as int, 2 * den as int);
    lemma_rounded_split(span as int, a as int, den as int);
    let q = span / den;
    let r = span % den;
    let t = (r * a) / den;
    assert(span * a / den == q * a + t) by {
        let u = (r * a) % den;
        assert(span == q * den + r) by (nonlinear_arith)
            requires
                den > 0,
                q == span / den,
                r == span % den,
        ;
        assert(r * a == t * den + u) by (nonlinear_arith)
            requires
                den > 0,
                t == (r * a) / den,
                u == (r * a) % den,
        ;
        assert(span * a == den * (q * a + t) + u) by (nonlinear_arith)
            requires
                span == q * den + r,
                r * a == t * den + u,
        ;
        vstd::arithmetic::div_mod::lemma_div_multiples_vanish_fancy((q * a + t) as int, u as int, den as int);
    }
}

impl Duration {
    /// The empty duration.
    pub fn zero() -> (d: Duration)
        ensures
            d@ == 0,
    {
        Duration { nanos: 0 }
    }

    /// A duration of `secs` whole seconds.
    pub fn from_secs(secs: u64) -> (d: Duration)
        ensures
            d@ == secs * NANOS_PER_SEC,
    {
        let n: u128 = secs as u128 * NANOS_PER_SEC;
        Duration { nanos: n }
    }

    /// A duration of `millis` milliseconds.
    pub fn from_millis(millis: u64) -> (d: Duration)
        ensures
            d@ == millis * NANOS_PER_MILLI,
    {
        let n: u128 = millis as u128 * NANOS_PER_MILLI;
        Duration { nanos: n }
    }

    /// A duration of `nanos` nanoseconds.
    pub fn from_nanos(nanos: u128) -> (d: Duration)
        ensures
            d@ == nanos,
    {
        Duration { nanos }
    }

    /// The length of the duration in nanoseconds.
    pub fn as_nanos(&self) -> (n: u128)
        ensures
            n == self@,
            n <= MAX_NANOS,
    {
        self.nanos
    }

    /// The sum of two durations; the sum must fit.
    pub fn plus(self, other: Duration) -> (d: Duration)
        requires
            self@ + other@ <= MAX_NANOS,
        ensures
            d@ == self@ + other@,
    {
        Duration { nanos: self.nanos + other.nanos }
    }

    /// `self - other`, or zero when `other` is the longer one.
    pub fn saturating_sub(self, other: Duration) -> (d: Duration)
        ensures
            d@ == if self@ >= other@ { self@ - other@ } else { 0 },
    {
        if self.nanos >= other.nanos {
            Duration { nanos: self.nanos - other.nanos }
        } else {
            Duration { nanos: 0 }
        }
    }

    /// The longer of two durations.
    pub fn max(self, other: Duration) -> (d: Duration)
        ensures
            d@ == if self@ >= other@ { self@ } else { other@ },
    {
        if self.nanos >= other.nanos {
            self
        } else {
            other
        }
    }

    /// The shorter of two durations.
    pub fn min(self, other: Duration) -> (d: Duration)
        ensures
            d@ == if self@ <= other@ { self@ } else { other@ },
    {
        if self.nanos <= other.nanos {
            self
        } else {
            other
        }
    }

    /// The share `num / den` of this duration, rounded to the nearest
    /// nanosecond (halves upward). The result must fit.
    pub fn scaled(self, num: u64, den: u64) -> (d: Duration)
        requires
            den > 0,
            rounded_share(self@, num as nat, den as nat) <= MAX_NANOS,
        ensures
            d@ == rounded_share(self@, num as nat, den as nat),
    {
        let span: u128 = self.nanos;
        let n: u128 = num as u128;
        let m: u128 = den as u128;
        let q: u128 = span / m;
        let r: u128 = span % m;
        assert(r * n < 0x1_0000_0000_0000_0000_0000_0000_0000_0000) by (nonlinear_arith)
            requires
                r < m,
                m < 0x1_0000_0000_0000_0000,
                n < 0x1_0000_0000_0000_0000,
        ;
        let low: u128 = r * n / m;
        let rest: u128 = r * n % m;
        proof {
            lemma_rounded_split(span as int, n as int, m as int);
        }
        let bump: u128 = if rest >= m - rest {
            1
        } else {
            0
        };
        let high: u128 = q * n;
        Duration { nanos: high + low + bump }
    }

    /// Whether `self` is no longer than `other`.
    pub fn le(&self, other: &Duration) -> (b: bool)
        ensures
            b == (self@ <= other@),
    {
        self.nanos <= other.nanos
    }

    /// Whether `self` is strictly shorter than `other`.
    pub fn lt(&self, other: &Duration) -> (b: bool)
        ensures
            b == (self@ < other@),
    {
        self.nanos < other.nanos
    }
}

} // verus!
