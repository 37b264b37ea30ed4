//! Findings in a line, and what of them is left out.
use vstd::prelude::*;

use crate::diagnostics::{names_view, pins_view, CallbackKind, Finding, SenseKind};
use crate::event_log::{
    elided, elided_after_a_word, elided_shift, figure, finding_text, is_boundary, names_joined,
    ohms_form, pin_form, pins_joined, pointed, scientific, volts_form,
};
use crate::quantity::Quantity;
use crate::text::laws::{
    decimal_spells_its_number, number_in, padded_spells_the_last_digits, trimming_drops_noughts,
};
use crate::text::{debug_text, decimal, padded, starts_with, ten_to, trimmed};

verus! {

/// A word that is a path under a root of the host is replaced whole, and any
/// other word, and what parts words, is kept: `rest` is elided by itself.
pub proof fn a_host_path_is_replaced_whole(word: Seq<char>, rest: Seq<char>, c: char)
    requires
        word.len() > 0,
        forall|i: int| 0 <= i < word.len() ==> !is_boundary(#[trigger] word[i]),
        rest.len() > 0 ==> is_boundary(rest[0]),
    ensures
        starts_with(word, "/tmp/"@) || starts_with(word, "/private/"@) || starts_with(
            word,
            "/var/"@,
        ) || starts_with(word, "/dev/"@) || starts_with(word, "/Users/"@) || starts_with(
            word,
            "/home/"@,
        ) || starts_with(word, "/Volumes/"@) ==> elided(word + rest) == "<path>"@ + elided(rest),
        !(starts_with(word, "/tmp/"@) || starts_with(word, "/private/"@) || starts_with(
            word,
            "/var/"@,
        ) || starts_with(word, "/dev/"@) || starts_with(word, "/Users/"@) || starts_with(
            word,
            "/home/"@,
        ) || starts_with(word, "/Volumes/"@)) ==> elided(word + rest) == word + elided(rest),
        is_boundary(c) ==> elided(seq![c] + rest) == seq![c] + elided(rest),
        elided(Seq::<char>::empty()) == Seq::<char>::empty(),
{
    elided_after_a_word(word, rest);
    let text = seq![c] + rest;
    if is_boundary(c) {
        assert(text[0] == c);
        elided_shift(text, 1, 1);
        assert(text.skip(1) =~= rest);
    }
}

/// White space, quotes, commas and parentheses part words; letters, digits and
/// slashes do not.
pub proof fn what_parts_words(c: char)
    ensures
        c == ' ' || c == '\n' || c == '\t' || c == '"' || c == '\'' || c == ',' || c == '(' || c
            == ')' ==> is_boundary(c),
        'a' <= c <= 'z' || 'A' <= c <= 'Z' || '0' <= c <= '9' || c == '/' || c == '.' || c == '-'
            || c == '_' || c == ':' || c == '<' || c == '>' ==> !is_boundary(c),
{
}

/// A finding reads as its kind and its fields, each by its name.
pub proof fn a_finding_reads_as_its_fields(finding: Finding)
    ensures
        finding matches Finding::Contention { net, drivers } ==> finding_text(finding@)
            == "Contention { net: "@ + debug_text(net@) + ", drivers: "@ + ("["@ + pins_joined(
            pins_view(drivers@),
        ) + "]"@) + " }"@,
        finding matches Finding::AmbiguousLevel { net, volts } ==> finding_text(finding@)
            == "AmbiguousLevel { net: "@ + debug_text(net@) + ", volts: "@ + volts_form(volts)
            + " }"@,
        finding matches Finding::FloatingSense { net, kind } ==> finding_text(finding@)
            == "FloatingSense { net: "@ + debug_text(net@) + ", kind: "@ + (if kind
            == SenseKind::Digital {
            "Digital"@
        } else {
            "Analog"@
        }) + " }"@,
        finding matches Finding::PowerNetUnsourced { net } ==> finding_text(finding@)
            == "PowerNetUnsourced { net: "@ + debug_text(net@) + " }"@,
        finding matches Finding::CurrentIntoFloatingNode { net, pin } ==> finding_text(finding@)
            == "CurrentIntoFloatingNode { net: "@ + debug_text(net@) + ", pin: "@ + (
        "PinRef { reference: "@ + debug_text(pin.reference@) + ", pin: "@ + debug_text(pin.pin@)
            + " }"@) + " }"@,
        finding matches Finding::NonConvergent { cluster, elements, solves } ==> finding_text(
            finding@,
        ) == "NonConvergent { cluster: "@ + debug_text(cluster@) + ", elements: "@ + ("["@
            + names_joined(names_view(elements@)) + "]"@) + ", solves: "@ + decimal(solves as nat)
            + " }"@,
        finding matches Finding::PeriodicNotCoupled {
            net,
            capacitor,
            hz,
            reactance_ohms,
            far_ohms,
        } ==> finding_text(finding@) == "PeriodicNotCoupled { net: "@ + debug_text(net@)
            + ", capacitor: "@ + debug_text(capacitor@) + ", hz: "@ + decimal(hz as nat)
            + ", reactance_ohms: "@ + ohms_form(reactance_ohms) + ", far_ohms: "@ + ohms_form(
            far_ohms,
        ) + " }"@,
        finding matches Finding::CallbackPanic { kind, subscriber } ==> finding_text(finding@)
            == "CallbackPanic { kind: "@ + (match kind {
            CallbackKind::Sense => "Sense"@,
            CallbackKind::Wake => "Wake"@,
            CallbackKind::Topology => "Topology"@,
        }) + ", subscriber: "@ + debug_text(subscriber@) + " }"@,
        finding matches Finding::DriveSeqGap { seq } ==> finding_text(finding@)
            == "DriveSeqGap { seq: "@ + decimal(seq as nat) + " }"@,
        finding matches Finding::ClassificationError { reference, part, message } ==> finding_text(
            finding@,
        ) == "ClassificationError { reference: "@ + debug_text(reference@) + ", part: "@
            + debug_text(part@) + ", message: "@ + debug_text(message@) + " }"@,
{
}

/// Lists read item by item, commas between.
pub proof fn a_list_reads_item_by_item(
    pins: Seq<crate::net::PinRefView>,
    pin: crate::net::PinRefView,
    names: Seq<Seq<char>>,
    name: Seq<char>,
)
    ensures
        pins_joined(Seq::empty()) == Seq::<char>::empty(),
        pins_joined(seq![pin]) == "PinRef { reference: "@ + debug_text(pin.reference) + ", pin: "@
            + debug_text(pin.pin) + " }"@,
        pins.len() > 0 ==> pins_joined(pins.push(pin)) == pins_joined(pins) + ", "@ + pin_form(pin),
        names_joined(Seq::empty()) == Seq::<char>::empty(),
        names_joined(seq![name]) == debug_text(name),
        names.len() > 0 ==> names_joined(names.push(name)) == names_joined(names) + ", "@
            + debug_text(name),
{
    assert(pins.push(pin).drop_last() =~= pins);
    assert(names.push(name).drop_last() =~= names);
}

proof fn noughts_behind(digits: Seq<char>, k: nat, all: Seq<char>)
    requires
        all.len() == digits.len() + k,
        forall|i: int| 0 <= i < digits.len() ==> all[i] == digits[i],
        forall|i: int| digits.len() <= i < all.len() ==> all[i] == '0',
    ensures
        number_in(all) == number_in(digits) * ten_to(k),
    decreases k,
{
    if k == 0 {
        assert(all =~= digits);
        assert(number_in(digits) * 1 == number_in(digits));
    } else {
        let front = all.drop_last();
        noughts_behind(digits, (k - 1) as nat, front);
        assert(all.last() == '0');
        assert('0' as u32 == 48);
        let (a, t) = (number_in(digits), ten_to((k - 1) as nat) as int);
        assert(10 * (a * t) == a * (10 * t)) by (nonlinear_arith);
    }
}

/// A voltage or a resistance reads, in volts or ohms, as the number it is:
/// whole units, a point, and the rest in as many digits as it takes.
pub proof fn a_figure_reads_as_its_number(n: i64, scale: int, digits: nat)
    requires
        digits > 0,
        scale == ten_to(digits),
        scale >= 10_000,
        n == 0 || n >= scale / 10_000 || -n >= scale / 10_000,
    ensures
        exists|whole: Seq<char>, rest: Seq<char>|
            {
                &&& #[trigger] (whole + seq!['.'] + rest) == (if n < 0 {
                    figure(Quantity::Finite(n), scale, digits).skip(1)
                } else {
                    figure(Quantity::Finite(n), scale, digits)
                })
                &&& 0 < rest.len() <= digits
                &&& number_in(whole) * scale + number_in(rest) * ten_to(
                    (digits - rest.len()) as nat,
                ) == (if n < 0 {
                    -n
                } else {
                    n as int
                })
            },
        n < 0 ==> figure(Quantity::Finite(n), scale, digits)[0] == '-',
{
    let size = if n < 0 {
        -n
    } else {
        n as int
    };
    let whole = decimal((size / scale) as nat);
    let part = (size % scale) as nat;
    let padding = padded(part, digits);
    let rest = trimmed(padding);
    assert(0 <= size / scale && 0 <= size % scale < scale && size == scale * (size / scale) + size
        % scale) by (nonlinear_arith)
        requires
            scale > 0,
            size >= 0,
    ;
    decimal_spells_its_number((size / scale) as nat);
    padded_spells_the_last_digits(part, digits);
    trimming_drops_noughts(padding);
    assert(part % ten_to(digits) == part) by (nonlinear_arith)
        requires
            0 <= part < ten_to(digits),
    ;
    let k = (digits - rest.len()) as nat;
    assert forall|i: int| 0 <= i < rest.len() implies padding[i] == rest[i] by {
        assert(rest[i] == padding.take(rest.len() as int)[i]);
    }
    noughts_behind(rest, k, padding);
    let text = figure(Quantity::Finite(n), scale, digits);
    assert(!(0 < size < scale / 10_000));
    if n < 0 {
        assert(text.skip(1) =~= whole + seq!['.'] + rest);
    } else {
        assert(text =~= whole + seq!['.'] + rest);
    }
    assert(number_in(whole) * scale + number_in(rest) * ten_to(k) == size) by (nonlinear_arith)
        requires
            number_in(whole) == size / scale,
            number_in(rest) * ten_to(k) == size % scale,
            size == scale * (size / scale) + size % scale,
    ;
}

/// A figure below a ten-thousandth reads as one digit, the others behind a
/// point, and the power of ten it is times.
pub proof fn a_small_figure_reads_with_its_exponent(size: nat, digits: nat)
    requires
        0 < size < ten_to(digits),
        digits > 0,
    ensures
        exists|mantissa: Seq<char>, exponent: nat, dropped: nat|
            {
                &&& #[trigger] (pointed(mantissa) + "e-"@ + decimal(exponent)) == scientific(
                    size,
                    digits,
                )
                &&& mantissa.len() > 0
                &&& number_in(mantissa) * #[trigger] ten_to(dropped) == size
                &&& exponent + mantissa.len() + dropped == digits + 1
            },
{
    let all = decimal(size);
    crate::text::decimal_fits(size, digits);
    decimal_spells_its_number(size);
    trimming_drops_noughts(all);
    let mantissa = trimmed(all);
    let dropped = (all.len() - mantissa.len()) as nat;
    let exponent = (digits + 1 - all.len()) as nat;
    assert forall|i: int| 0 <= i < mantissa.len() implies all[i] == mantissa[i] by {
        assert(mantissa[i] == all.take(mantissa.len() as int)[i]);
    }
    noughts_behind(mantissa, dropped, all);
    assert(number_in(mantissa) * ten_to(dropped) == size);
    assert(pointed(mantissa) + "e-"@ + decimal(exponent) == scientific(size, digits));
}

/// What is no finite number reads as a word.
pub proof fn what_is_no_number_reads_as_a_word(scale: int, digits: nat)
    ensures
        figure(Quantity::Nan, scale, digits) == "NaN"@,
        figure(Quantity::Infinite, scale, digits) == "inf"@,
        figure(Quantity::NegInfinite, scale, digits) == "-inf"@,
{
}

/// The point stands behind the first digit where others follow, and nothing is
/// lost: without it the digits are as they were.
pub proof fn a_point_follows_the_first_digit(digits: Seq<char>, i: int)
    requires
        digits.len() > 0,
    ensures
        digits.len() == 1 ==> pointed(digits) == digits,
        digits.len() > 1 ==> pointed(digits).len() == digits.len() + 1 && pointed(digits)[1] == '.',
        pointed(digits)[0] == digits[0],
        1 <= i < digits.len() ==> pointed(digits)[i + 1] == digits[i],
{
}

} // verus!
