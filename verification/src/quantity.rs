//! Electrical quantities as exact integers.
//!
//! A [`Quantity`] is a whole number of the unit's quantum, one of the two
//! infinities, or not a number. Resolution compares, adds and ranks
//! quantities and never rounds a sum, so a pass gives the same answer on
//! every machine; a sum past the representable range is the infinity on that
//! side.
pub mod laws;

use vstd::prelude::*;

verus! {

/// A quantity: a count of quanta, an infinity, or not a number.
#[derive(Debug, Clone, Copy, PartialEq, Eq, Structural)]
pub enum Quantity {
    /// Not a number: an unmodelled voltage.
    Nan,
    /// Below every number.
    NegInfinite,
    /// A whole number of quanta.
    Finite(i64),
    /// Above every number: an open circuit's resistance.
    Infinite,
}

/// Resistance, in micro-ohms.
pub type Ohms = Quantity;

/// Voltage, in picovolts.
pub type Volts = Quantity;

/// Current, in picoamperes.
pub type Amps = Quantity;

/// Capacitance, in femtofarads.
pub type Femtofarads = u64;

/// Micro-ohms in one ohm.
pub const QUANTA_PER_OHM: i64 = 1_000_000;

/// Picovolts in one volt.
pub const QUANTA_PER_VOLT: i64 = 1_000_000_000_000;

/// Picoamperes in one microampere, which is one picovolt over one micro-ohm.
pub const QUANTA_PER_MICROAMP: i64 = 1_000_000;

/// `10^36`: one micro-ohm's worth of `1/(hertz * femtofarad)` at the scale
/// [`TWO_PI_QUANTA`] is written in.
pub const REACTANCE_SCALE: u128 = 1_000_000_000_000_000_000_000_000_000_000_000_000;

/// `2 * pi`, in units of `10^-15`.
pub const TWO_PI_QUANTA: u128 = 6_283_185_307_179_586;

/// `2 * pi * hertz * farads` at the scale of [`REACTANCE_SCALE`].
pub open spec fn reactance_divisor(hz: u32, farads: Femtofarads) -> int {
    TWO_PI_QUANTA * (hz as int * farads as int)
}

/// The reactance of a capacitor at a rate, `1/(2 * pi * f * C)`, in whole
/// micro-ohms: infinite where the rate or the capacitance is zero, and where
/// the value is past the representable range.
pub open spec fn reactance_of(hz: u32, farads: Femtofarads) -> Ohms {
    if hz as int * farads as int == 0 {
        Quantity::Infinite
    } else {
        Quantity::of_int(REACTANCE_SCALE as int / reactance_divisor(hz, farads))
    }
}

/// A picovolt difference over a micro-ohm resistance, in picoamperes, the
/// fraction dropped.
pub open spec fn current_of_parts(volts: int, ohms: int) -> int {
    let scaled = volts * QUANTA_PER_MICROAMP;
    if scaled >= 0 {
        scaled / ohms
    } else {
        -((-scaled) / ohms)
    }
}

impl Quantity {
    /// The quantity holding the whole number `n`, or the infinity on its side
    /// of the representable range.
    pub open spec fn of_int(n: int) -> Quantity {
        if n > i64::MAX {
            Quantity::Infinite
        } else if n < i64::MIN {
            Quantity::NegInfinite
        } else {
            Quantity::Finite(n as i64)
        }
    }

    /// The position of a quantity in the total order: every number in its
    /// own order, the infinities outside them, not-a-number last.
    pub open spec fn key(self) -> int {
        match self {
            Quantity::NegInfinite => i64::MIN - 1,
            Quantity::Finite(n) => n as int,
            Quantity::Infinite => i64::MAX + 1,
            Quantity::Nan => i64::MAX + 2,
        }
    }

    /// Whether the quantity is a number (not an infinity, not not-a-number).
    pub open spec fn finite(self) -> bool {
        self is Finite
    }

    /// Whether the quantity is zero or more: a number that is, or infinite.
    pub open spec fn non_negative(self) -> bool {
        match self {
            Quantity::Finite(n) => n >= 0,
            Quantity::Infinite => true,
            _ => false,
        }
    }

    /// `self < other`; false wherever either is not a number.
    pub open spec fn below(self, other: Quantity) -> bool {
        !(self is Nan) && !(other is Nan) && self.key() < other.key()
    }

    /// `self >= other`; false wherever either is not a number.
    pub open spec fn at_least(self, other: Quantity) -> bool {
        !(self is Nan) && !(other is Nan) && self.key() >= other.key()
    }

    /// `self == other` as numbers: not-a-number equals nothing.
    pub open spec fn equals(self, other: Quantity) -> bool {
        !(self is Nan) && self == other
    }

    /// `self + other`: opposite infinities, or not-a-number on either side,
    /// are not a number.
    pub open spec fn plus(self, other: Quantity) -> Quantity {
        match (self, other) {
            (Quantity::Finite(a), Quantity::Finite(b)) => Quantity::of_int(a + b),
            (Quantity::Nan, _) => Quantity::Nan,
            (_, Quantity::Nan) => Quantity::Nan,
            (Quantity::Infinite, Quantity::NegInfinite) => Quantity::Nan,
            (Quantity::NegInfinite, Quantity::Infinite) => Quantity::Nan,
            (Quantity::Infinite, _) => Quantity::Infinite,
            (_, Quantity::Infinite) => Quantity::Infinite,
            (Quantity::NegInfinite, _) => Quantity::NegInfinite,
            (_, Quantity::NegInfinite) => Quantity::NegInfinite,
        }
    }

    /// `-self`.
    pub open spec fn negated(self) -> Quantity {
        match self {
            Quantity::Finite(n) => Quantity::of_int(-n),
            Quantity::Infinite => Quantity::NegInfinite,
            Quantity::NegInfinite => Quantity::Infinite,
            Quantity::Nan => Quantity::Nan,
        }
    }

    /// `factor * self`, for a positive factor.
    pub open spec fn multiplied(self, factor: int) -> Quantity {
        match self {
            Quantity::Finite(n) => Quantity::of_int(factor * n),
            other => other,
        }
    }

    /// The current a voltage difference `self` pushes through `ohms`. Only
    /// a positive finite resistance carries a number.
    pub open spec fn over(self, ohms: Ohms) -> Amps {
        match (self, ohms) {
            (Quantity::Finite(v), Quantity::Finite(r)) => if r > 0 {
                Quantity::of_int(current_of_parts(v as int, r as int))
            } else {
                Quantity::Nan
            },
            (Quantity::Infinite, Quantity::Finite(r)) => if r > 0 {
                Quantity::Infinite
            } else {
                Quantity::Nan
            },
            (Quantity::NegInfinite, Quantity::Finite(r)) => if r > 0 {
                Quantity::NegInfinite
            } else {
                Quantity::Nan
            },
            (Quantity::Finite(_), Quantity::Infinite) => Quantity::Finite(0),
            _ => Quantity::Nan,
        }
    }

    /// Whether the quantity is a number.
    pub fn is_finite(self) -> (r: bool)
        ensures
            r == self.finite(),
    {
        match self {
            Quantity::Finite(_) => true,
            _ => false,
        }
    }

    /// Whether the quantity is not a number.
    pub fn is_nan(self) -> (r: bool)
        ensures
            r == (self is Nan),
    {
        match self {
            Quantity::Nan => true,
            _ => false,
        }
    }

    /// The whole number `n`, or the infinity on its side of the range.
    pub fn of(n: i128) -> (q: Quantity)
        ensures
            q == Quantity::of_int(n as int),
    {
        if n > 9_223_372_036_854_775_807 {
            Quantity::Infinite
        } else if n < -9_223_372_036_854_775_808 {
            Quantity::NegInfinite
        } else {
            Quantity::Finite(n as i64)
        }
    }

    /// `self < other` in the total order.
    pub fn precedes(self, other: Quantity) -> (r: bool)
        ensures
            r == (self.key() < other.key()),
    {
        match (self, other) {
            (Quantity::Finite(a), Quantity::Finite(b)) => a < b,
            (Quantity::Nan, _) => false,
            (_, Quantity::Nan) => true,
            (Quantity::Infinite, _) => false,
            (_, Quantity::Infinite) => true,
            (Quantity::NegInfinite, Quantity::NegInfinite) => false,
            (Quantity::NegInfinite, _) => true,
            (_, Quantity::NegInfinite) => false,
        }
    }

    /// `self < other`.
    pub fn lt(self, other: Quantity) -> (r: bool)
        ensures
            r == self.below(other),
    {
        !self.is_nan() && !other.is_nan() && self.precedes(other)
    }

    /// `self >= other`.
    pub fn ge(self, other: Quantity) -> (r: bool)
        ensures
            r == self.at_least(other),
    {
        !self.is_nan() && !other.is_nan() && !self.precedes(other)
    }

    /// `self == other` as numbers.
    pub fn eq_number(self, other: Quantity) -> (r: bool)
        ensures
            r == self.equals(other),
    {
        !self.is_nan() && self == other
    }

    /// `self + other`.
    pub fn add_to(self, other: Quantity) -> (r: Quantity)
        ensures
            r == self.plus(other),
    {
        match (self, other) {
            (Quantity::Finite(a), Quantity::Finite(b)) => Quantity::of(a as i128 + b as i128),
            (Quantity::Nan, _) => Quantity::Nan,
            (_, Quantity::Nan) => Quantity::Nan,
            (Quantity::Infinite, Quantity::NegInfinite) => Quantity::Nan,
            (Quantity::NegInfinite, Quantity::Infinite) => Quantity::Nan,
            (Quantity::Infinite, _) => Quantity::Infinite,
            (_, Quantity::Infinite) => Quantity::Infinite,
            (Quantity::NegInfinite, _) => Quantity::NegInfinite,
            (_, Quantity::NegInfinite) => Quantity::NegInfinite,
        }
    }

    /// `-self`.
    pub fn negate(self) -> (r: Quantity)
        ensures
            r == self.negated(),
    {
        match self {
            Quantity::Finite(n) => Quantity::of(-(n as i128)),
            Quantity::Infinite => Quantity::NegInfinite,
            Quantity::NegInfinite => Quantity::Infinite,
            Quantity::Nan => Quantity::Nan,
        }
    }

    /// `factor * self`, for a positive factor.
    pub fn times(self, factor: u16) -> (r: Quantity)
        requires
            factor > 0,
        ensures
            r == self.multiplied(factor as int),
    {
        match self {
            Quantity::Finite(n) => {
                assert(-0x8000_0000_0000_0000 * 0x1_0000 <= factor as int * n as int
                    <= 0x7fff_ffff_ffff_ffff * 0x1_0000) by (nonlinear_arith)
                    requires
                        0 < factor < 0x1_0000,
                        -0x8000_0000_0000_0000 <= n <= 0x7fff_ffff_ffff_ffff,
                ;
                Quantity::of(factor as i128 * n as i128)
            },
            other => other,
        }
    }

    /// The current a voltage difference pushes through a resistance.
    pub fn through(self, ohms: Ohms) -> (r: Amps)
        ensures
            r == self.over(ohms),
    {
        match (self, ohms) {
            (Quantity::Finite(v), Quantity::Finite(r)) => if r > 0 {
                let scaled: i128 = v as i128 * 1_000_000;
                let amps: i128 = if scaled >= 0 {
                    let quotient: u128 = scaled as u128 / r as u128;
                    assert(quotient <= scaled) by (nonlinear_arith)
                        requires
                            quotient == scaled as int / r as int,
                            scaled >= 0,
                            r > 0,
                    ;
                    quotient as i128
                } else {
                    let quotient: u128 = (-scaled) as u128 / r as u128;
                    assert(quotient <= -scaled) by (nonlinear_arith)
                        requires
                            quotient == (-scaled) as int / r as int,
                            scaled < 0,
                            r > 0,
                    ;
                    -(quotient as i128)
                };
                Quantity::of(amps)
            } else {
                Quantity::Nan
            },
            (Quantity::Infinite, Quantity::Finite(r)) => if r > 0 {
                Quantity::Infinite
            } else {
                Quantity::Nan
            },
            (Quantity::NegInfinite, Quantity::Finite(r)) => if r > 0 {
                Quantity::NegInfinite
            } else {
                Quantity::Nan
            },
            (Quantity::Finite(_), Quantity::Infinite) => Quantity::Finite(0),
            _ => Quantity::Nan,
        }
    }
}

/// The reactance of a capacitor at a rate.
pub fn reactance(hz: u32, farads: Femtofarads) -> (ohms: Ohms)
    ensures
        ohms == reactance_of(hz, farads),
{
    assert(0 <= hz as int * farads as int <= 0xffff_ffff * 0xffff_ffff_ffff_ffff) by (nonlinear_arith)
        requires
            0 <= hz <= 0xffff_ffff,
            0 <= farads <= 0xffff_ffff_ffff_ffff,
    ;
    let product: u128 = hz as u128 * farads as u128;
    if product == 0 {
        return Quantity::Infinite;
    }
    if product > 159_154_943_091_895_347_849 {
        proof {
            let d = reactance_divisor(hz, farads);
            assert(d > REACTANCE_SCALE) by (nonlinear_arith)
                requires
                    d == 6_283_185_307_179_586 * (product as int),
                    product > 159_154_943_091_895_347_849,
                    REACTANCE_SCALE == 1_000_000_000_000_000_000_000_000_000_000_000_000,
            ;
            assert(REACTANCE_SCALE as int / d == 0) by (nonlinear_arith)
                requires
                    d > REACTANCE_SCALE,
            ;
        }
        return Quantity::Finite(0);
    }
    assert(0 < TWO_PI_QUANTA * product <= 0xffff_ffff_ffff_ffff_ffff_ffff_ffff_ffff) by (nonlinear_arith)
        requires
            TWO_PI_QUANTA == 6_283_185_307_179_586,
            0 < product <= 159_154_943_091_895_347_849,
    ;
    let divisor: u128 = TWO_PI_QUANTA * product;
    let ohms: u128 = REACTANCE_SCALE / divisor;
    assert(ohms <= REACTANCE_SCALE) by (nonlinear_arith)
        requires
            ohms == REACTANCE_SCALE / divisor,
            divisor > 0,
    ;
    Quantity::of(ohms as i128)
}

/// Whether `ratio` times the reactance of a capacitor at a rate is more than a
/// number of micro-ohms: nothing is rounded.
pub fn reactance_exceeds(hz: u32, farads: Femtofarads, ohms: i64, ratio: u16) -> (r: bool)
    requires
        0 < ratio <= 100,
    ensures
        r == (ohms * reactance_divisor(hz, farads) < ratio * REACTANCE_SCALE),
{
    let ghost divisor = reactance_divisor(hz, farads);
    assert(0 <= hz as int * farads as int <= 0xffff_ffff * 0xffff_ffff_ffff_ffff)
        by (nonlinear_arith)
        requires
            0 <= hz <= 0xffff_ffff,
            0 <= farads <= 0xffff_ffff_ffff_ffff,
    ;
    let product: u128 = hz as u128 * farads as u128;
    if ohms <= 0 {
        assert(ohms * divisor <= 0) by (nonlinear_arith)
            requires
                ohms <= 0,
                divisor == 6_283_185_307_179_586 * (product as int),
                product >= 0,
        ;
        return true;
    }
    assert(0 < TWO_PI_QUANTA * ohms <= 0xffff_ffff_ffff_ffff_ffff_ffff_ffff_ffff)
        by (nonlinear_arith)
        requires
            TWO_PI_QUANTA == 6_283_185_307_179_586,
            0 < ohms <= 0x7fff_ffff_ffff_ffff,
    ;
    let scaled: u128 = TWO_PI_QUANTA * ohms as u128;
    let top: u128 = REACTANCE_SCALE * ratio as u128 - 1;
    let most: u128 = top / scaled;
    proof {
        let (p, t, m, b) = (product as int, scaled as int, most as int, top as int);
        assert(ohms * divisor == t * p) by (nonlinear_arith)
            requires
                divisor == 6_283_185_307_179_586 * p,
                t == 6_283_185_307_179_586 * ohms,
        ;
        assert(t * m <= b < t * (m + 1)) by (nonlinear_arith)
            requires
                m == b / t,
                t > 0,
                b >= 0,
        ;
        if p <= m {
            assert(t * p <= t * m) by (nonlinear_arith)
                requires
                    p <= m,
                    t > 0,
            ;
        } else {
            assert(t * p >= t * (m + 1)) by (nonlinear_arith)
                requires
                    p >= m + 1,
                    t > 0,
            ;
        }
    }
    product <= most
}

} // verus!
