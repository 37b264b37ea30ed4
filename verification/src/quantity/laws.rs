//! Quantities add, compare and divide as numbers do.
use vstd::prelude::*;

use crate::quantity::{reactance_divisor, reactance_of, Femtofarads, Quantity};

verus! {

/// Sums are the numbers' sums, in any order; nought adds nothing.
pub proof fn sums_are_the_numbers_sums(a: Quantity, b: Quantity, c: Quantity)
    ensures
        a.plus(b) == b.plus(a),
        a.plus(Quantity::Finite(0)) == a,
        a is Finite && b is Finite && i64::MIN <= a->Finite_0 + b->Finite_0 <= i64::MAX ==> a.plus(
            b,
        ) == Quantity::Finite((a->Finite_0 + b->Finite_0) as i64),
        a is Finite && b is Finite && a->Finite_0 + b->Finite_0 > i64::MAX ==> a.plus(b)
            == Quantity::Infinite,
        a is Finite && b is Finite && a->Finite_0 + b->Finite_0 < i64::MIN ==> a.plus(b)
            == Quantity::NegInfinite,
        a is Nan ==> a.plus(b) is Nan,
        a is Infinite && b is Finite ==> a.plus(b) is Infinite,
        a is Infinite && b is Infinite ==> a.plus(b) is Infinite,
        a is Infinite && b is NegInfinite ==> a.plus(b) is Nan,
        a.non_negative() && b.non_negative() && c.non_negative() ==> a.plus(b).plus(c) == a.plus(
            b.plus(c),
        ),
{
}

/// Comparisons are the numbers' own, an infinity is outside them all, and what
/// is no number is in no order.
pub proof fn quantities_order_as_numbers(a: Quantity, b: Quantity)
    ensures
        a is Finite && b is Finite ==> (a.below(b) <==> a->Finite_0 < b->Finite_0),
        a is Finite && b is Finite ==> (a.at_least(b) <==> a->Finite_0 >= b->Finite_0),
        a is Finite && b is Infinite ==> a.below(b) && !a.at_least(b) && b.at_least(a),
        a is NegInfinite && b is Finite ==> a.below(b) && !a.at_least(b) && b.at_least(a),
        a is NegInfinite && b is Infinite ==> a.below(b),
        a is Nan || b is Nan ==> !a.below(b) && !a.at_least(b),
        !(a is Nan) && !(b is Nan) ==> (a.below(b) <==> !a.at_least(b)),
        !(a is Nan) && !(b is Nan) ==> (a.key() < b.key() <==> a.below(b)),
        a.key() == b.key() ==> a == b,
        !(a is Nan) ==> a.key() < Quantity::Nan.key(),
        a.equals(b) <==> a == b && !(a is Nan),
        a.non_negative() <==> a.at_least(Quantity::Finite(0)),
        a.finite() <==> a is Finite,
{
}

/// A negative undoes its number, and a multiple is the number times its
/// factor.
pub proof fn negatives_and_multiples(a: Quantity, factor: int)
    ensures
        a is Finite && a->Finite_0 > i64::MIN ==> a.negated() == Quantity::Finite(
            (-a->Finite_0) as i64,
        ) && a.plus(a.negated()) == Quantity::Finite(0) && a.negated().negated() == a,
        a is Infinite ==> a.negated() is NegInfinite,
        a is NegInfinite ==> a.negated() is Infinite,
        a is Nan ==> a.negated() is Nan,
        a.multiplied(1) == a,
        a is Finite && i64::MIN <= factor * a->Finite_0 <= i64::MAX ==> a.multiplied(factor)
            == Quantity::Finite((factor * a->Finite_0) as i64),
        a is Finite && factor * a->Finite_0 > i64::MAX ==> a.multiplied(factor) is Infinite,
        !(a is Finite) ==> a.multiplied(factor) == a,
{
}

/// The current a voltage pushes through a resistance is the voltage over it, to
/// the whole picoampere towards nought: current times resistance comes short
/// of the voltage by less than the resistance.
pub proof fn a_current_is_voltage_over_resistance(volts: i64, ohms: i64)
    requires
        ohms > 0,
    ensures
        Quantity::Finite(volts).over(Quantity::Finite(ohms)) matches Quantity::Finite(amps) ==> {
            &&& volts >= 0 ==> amps >= 0 && amps * ohms <= volts * 1_000_000 < (amps + 1) * ohms
            &&& volts < 0 ==> amps <= 0 && (amps - 1) * ohms < volts * 1_000_000 <= amps * ohms
        },
        Quantity::Finite(volts).over(Quantity::Infinite) == Quantity::Finite(0),
        Quantity::Finite(0).over(Quantity::Finite(ohms)) == Quantity::Finite(0),
        !(Quantity::Finite(volts).over(Quantity::Finite(ohms)) is Nan),
{
    let scaled = volts * 1_000_000;
    let (size, r) = (if scaled >= 0 {
        scaled
    } else {
        -scaled
    }, ohms as int);
    let q = size / r;
    assert(q * r <= size < (q + 1) * r && q >= 0) by (nonlinear_arith)
        requires
            q == size / r,
            r > 0,
            size >= 0,
    ;
    assert((-q) * r == -(q * r) && (-q - 1) * r == -((q + 1) * r)) by (nonlinear_arith);
    assert(0int / r == 0) by (nonlinear_arith)
        requires
            r > 0,
    ;
}

/// A reactance times the divisor it stands for makes one, short of by less
/// than the divisor; it is infinite at no rate and through no capacitor.
pub proof fn a_reactance_is_one_over_its_divisor(hz: u32, farads: Femtofarads)
    ensures
        hz == 0 || farads == 0 ==> reactance_of(hz, farads) is Infinite,
        reactance_divisor(hz, farads) == 6_283_185_307_179_586 * (hz as int * farads as int),
        reactance_of(hz, farads) matches Quantity::Finite(ohms) ==> ohms >= 0 && ohms
            * reactance_divisor(hz, farads) <= 1_000_000_000_000_000_000_000_000_000_000_000_000
            < (ohms + 1) * reactance_divisor(hz, farads),
        !(reactance_of(hz, farads) is Nan),
        !(reactance_of(hz, farads) is NegInfinite),
{
    let product = hz as int * farads as int;
    assert(product >= 0) by (nonlinear_arith)
        requires
            product == hz as int * farads as int,
            hz >= 0,
            farads >= 0,
    ;
    assert(hz == 0 || farads == 0 ==> product == 0) by (nonlinear_arith)
        requires
            product == hz as int * farads as int,
    ;
    if product > 0 {
        let d = reactance_divisor(hz, farads);
        let scale = 1_000_000_000_000_000_000_000_000_000_000_000_000int;
        let q = scale / d;
        assert(d > 0) by (nonlinear_arith)
            requires
                d == 6_283_185_307_179_586 * product,
                product > 0,
        ;
        assert(q * d <= scale < (q + 1) * d && q >= 0) by (nonlinear_arith)
            requires
                q == scale / d,
                d > 0,
                scale >= 0,
        ;
    }
}

} // verus!
