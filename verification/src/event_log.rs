//! The engine's event log: what happened, in the order it happened, and the
//! canonical line two runs are compared by.
pub mod findings;
pub mod laws;

use vstd::prelude::*;

use crate::diagnostics::{
    names_view, pins_view, CallbackKind, Finding, FindingView, SenseKind,
};
use crate::net::{
    ComponentId, Drive, EndpointId, Level, NetId, NetState, PeriodicSchedule, PinRef, PinRefView,
    TheveninDrive,
};
use crate::quantity::Quantity;
use crate::text::{
    begins_with, chars_of, debug_form, debug_text, decimal, decimal_fits, hex_byte, padded,
    push_chars, push_decimal, push_hex, push_padded, push_signed, push_text, signed, starts_with,
    ten_to, text_of, trimmed, trimmed_keeps_one,
};

verus! {

/// One engine event.
#[derive(Debug, PartialEq, Eq)]
pub enum EngineEvent {
    /// A buffered drive reached the drive table.
    DriveApplied {
        /// The drive's place in the enqueue order.
        seq: u64,
        /// The endpoint whose contribution changed.
        endpoint: EndpointId,
        /// The contribution; `None` is a release.
        drive: Option<Drive>,
    },
    /// A net's resolved state changed.
    NetResolved {
        /// The net.
        net: NetId,
        /// Its state.
        state: NetState,
    },
    /// A sense was delivered.
    SenseDelivered {
        /// The net.
        net: NetId,
        /// The state handed over.
        state: NetState,
    },
    /// A timer wake fired.
    Wake {
        /// The component woken.
        component: ComponentId,
    },
    /// One byte crossed a stream route to one consumer.
    StreamByte {
        /// The endpoint it was written on.
        producer: EndpointId,
        /// The endpoint it was delivered to.
        consumer: EndpointId,
        /// The byte.
        byte: u8,
    },
    /// A topology epoch was published.
    Reroute {
        /// The epoch.
        epoch: u64,
    },
    /// A finding landed on the live bus.
    Finding(Finding),
}

/// An engine event, its text as characters.
pub enum EventView {
    /// See [`EngineEvent::DriveApplied`].
    DriveApplied { seq: u64, endpoint: EndpointId, drive: Option<Drive> },
    /// See [`EngineEvent::NetResolved`].
    NetResolved { net: NetId, state: NetState },
    /// See [`EngineEvent::SenseDelivered`].
    SenseDelivered { net: NetId, state: NetState },
    /// See [`EngineEvent::Wake`].
    Wake { component: ComponentId },
    /// See [`EngineEvent::StreamByte`].
    StreamByte { producer: EndpointId, consumer: EndpointId, byte: u8 },
    /// See [`EngineEvent::Reroute`].
    Reroute { epoch: u64 },
    /// See [`EngineEvent::Finding`].
    Finding(FindingView),
}

impl View for EngineEvent {
    type V = EventView;

    open spec fn view(&self) -> EventView {
        match self {
            EngineEvent::DriveApplied { seq, endpoint, drive } => EventView::DriveApplied {
                seq: *seq,
                endpoint: *endpoint,
                drive: *drive,
            },
            EngineEvent::NetResolved { net, state } => EventView::NetResolved {
                net: *net,
                state: *state,
            },
            EngineEvent::SenseDelivered { net, state } => EventView::SenseDelivered {
                net: *net,
                state: *state,
            },
            EngineEvent::Wake { component } => EventView::Wake { component: *component },
            EngineEvent::StreamByte { producer, consumer, byte } => EventView::StreamByte {
                producer: *producer,
                consumer: *consumer,
                byte: *byte,
            },
            EngineEvent::Reroute { epoch } => EventView::Reroute { epoch: *epoch },
            EngineEvent::Finding(finding) => EventView::Finding(finding@),
        }
    }
}

impl Clone for EngineEvent {
    fn clone(&self) -> (r: EngineEvent)
        ensures
            r@ == self@,
    {
        match self {
            EngineEvent::DriveApplied { seq, endpoint, drive } => EngineEvent::DriveApplied {
                seq: *seq,
                endpoint: *endpoint,
                drive: *drive,
            },
            EngineEvent::NetResolved { net, state } => EngineEvent::NetResolved {
                net: *net,
                state: *state,
            },
            EngineEvent::SenseDelivered { net, state } => EngineEvent::SenseDelivered {
                net: *net,
                state: *state,
            },
            EngineEvent::Wake { component } => EngineEvent::Wake { component: *component },
            EngineEvent::StreamByte { producer, consumer, byte } => EngineEvent::StreamByte {
                producer: *producer,
                consumer: *consumer,
                byte: *byte,
            },
            EngineEvent::Reroute { epoch } => EngineEvent::Reroute { epoch: *epoch },
            EngineEvent::Finding(finding) => EngineEvent::Finding(finding.clone()),
        }
    }
}

/// One log entry: its place, the virtual instant and the event.
#[derive(Debug, PartialEq, Eq)]
pub struct EngineEventRecord {
    /// The place in the log.
    pub seq: u64,
    /// Virtual microseconds at the write.
    pub v_us: u64,
    /// What happened.
    pub event: EngineEvent,
}

/// A log entry, its text as characters.
pub struct RecordView {
    /// The place in the log.
    pub seq: u64,
    /// Virtual microseconds at the write.
    pub v_us: u64,
    /// What happened.
    pub event: EventView,
}

impl View for EngineEventRecord {
    type V = RecordView;

    open spec fn view(&self) -> RecordView {
        RecordView { seq: self.seq, v_us: self.v_us, event: self.event@ }
    }
}

/// How many picovolts a voltage is rounded to: one microvolt.
pub const VOLT_QUANTUM: u32 = 1_000_000;

/// How many micro-ohms a resistance is rounded to: one milliohm.
pub const OHM_QUANTUM: u32 = 1_000;

/// A number in whole quanta, halves away from nought.
pub open spec fn rounded(n: int, quantum: int) -> int {
    if n < 0 {
        -((-n + quantum / 2) / quantum)
    } else {
        (n + quantum / 2) / quantum
    }
}

/// A figure in whole quanta; what is no finite number is a fixed word.
pub open spec fn quantized(value: Quantity, quantum: int) -> Seq<char> {
    match value {
        Quantity::Nan => "nan"@,
        Quantity::Infinite => "inf"@,
        Quantity::NegInfinite => "-inf"@,
        Quantity::Finite(n) => signed(rounded(n as int, quantum)),
    }
}

fn push_quantized(out: &mut Vec<char>, value: Quantity, quantum: u32)
    requires
        quantum > 0,
    ensures
        final(out)@ == old(out)@ + quantized(value, quantum as int),
{
    match value {
        Quantity::Nan => push_text(out, "nan"),
        Quantity::Infinite => push_text(out, "inf"),
        Quantity::NegInfinite => push_text(out, "-inf"),
        Quantity::Finite(n) => {
            let wide: i128 = n as i128;
            let by: i128 = quantum as i128;
            let r: i128 = if wide < 0 {
                -((-wide + by / 2) / by)
            } else {
                (wide + by / 2) / by
            };
            assert(-(i64::MAX as int) - 0x1_0000_0000 <= r <= i64::MAX + 0x1_0000_0000)
                by (nonlinear_arith)
                requires
                    i64::MIN <= wide <= i64::MAX,
                    1 <= by <= u32::MAX,
                    wide < 0 ==> r == -((-wide + by / 2) / (by as int)),
                    wide >= 0 ==> r == (wide + by / 2) / (by as int),
            ;
            push_signed(out, r);
        },
    }
}

/// A level in a line.
pub open spec fn level_form(level: Level) -> Seq<char> {
    match level {
        Level::Low => "low"@,
        Level::High => "high"@,
    }
}

fn push_level(out: &mut Vec<char>, level: Level)
    ensures
        final(out)@ == old(out)@ + level_form(level),
{
    match level {
        Level::Low => push_text(out, "low"),
        Level::High => push_text(out, "high"),
    }
}

/// A segment in a line: its rate, count, ceiling and anchor.
pub open spec fn segment_form(segment: PeriodicSchedule) -> Seq<char> {
    decimal(segment.freq_hz as nat) + "hz:"@ + decimal(segment.emitted as nat) + ":"@ + (
    match segment.total {
        Some(total) => decimal(total as nat),
        None => "-"@,
    }) + ":"@ + decimal(segment.since_ns as nat) + "ns"@
}

fn push_segment(out: &mut Vec<char>, segment: PeriodicSchedule)
    ensures
        final(out)@ == old(out)@ + segment_form(segment),
{
    push_decimal(out, segment.freq_hz as u128);
    push_text(out, "hz:");
    push_decimal(out, segment.emitted as u128);
    push_text(out, ":");
    match segment.total {
        Some(total) => push_decimal(out, total as u128),
        None => push_text(out, "-"),
    }
    push_text(out, ":");
    push_decimal(out, segment.since_ns as u128);
    push_text(out, "ns");
    assert(out@ =~= old(out)@ + segment_form(segment));
}

/// A resolved state in a line.
pub open spec fn state_form(state: NetState) -> Seq<char> {
    match state {
        NetState::Floating => "floating"@,
        NetState::Driven(level) => "driven:"@ + level_form(level),
        NetState::Pulled(level, ohms) => "pulled:"@ + level_form(level) + ":"@ + quantized(
            ohms,
            OHM_QUANTUM as int,
        ) + "mohm"@,
        NetState::Analog(volts) => "analog:"@ + quantized(volts, VOLT_QUANTUM as int) + "uv"@,
        NetState::Contention => "contention"@,
        NetState::Periodic { hi, lo, segment } => "periodic:"@ + level_form(hi) + "/"@
            + level_form(lo) + ":"@ + segment_form(segment),
    }
}

fn push_state(out: &mut Vec<char>, state: &NetState)
    ensures
        final(out)@ == old(out)@ + state_form(*state),
{
    match *state {
        NetState::Floating => push_text(out, "floating"),
        NetState::Driven(level) => {
            push_text(out, "driven:");
            push_level(out, level);
        },
        NetState::Pulled(level, ohms) => {
            push_text(out, "pulled:");
            push_level(out, level);
            push_text(out, ":");
            push_quantized(out, ohms, OHM_QUANTUM);
            push_text(out, "mohm");
        },
        NetState::Analog(volts) => {
            push_text(out, "analog:");
            push_quantized(out, volts, VOLT_QUANTUM);
            push_text(out, "uv");
        },
        NetState::Contention => push_text(out, "contention"),
        NetState::Periodic { hi, lo, segment } => {
            push_text(out, "periodic:");
            push_level(out, hi);
            push_text(out, "/");
            push_level(out, lo);
            push_text(out, ":");
            push_segment(out, segment);
        },
    }
    assert(out@ =~= old(out)@ + state_form(*state));
}

/// A Thevenin port in a line.
pub open spec fn port_form(port: TheveninDrive) -> Seq<char> {
    quantized(port.volts, VOLT_QUANTUM as int) + "uv@"@ + quantized(
        port.impedance,
        OHM_QUANTUM as int,
    ) + "mohm"@
}

fn push_port(out: &mut Vec<char>, port: &TheveninDrive)
    ensures
        final(out)@ == old(out)@ + port_form(*port),
{
    push_quantized(out, port.volts, VOLT_QUANTUM);
    push_text(out, "uv@");
    push_quantized(out, port.impedance, OHM_QUANTUM);
    push_text(out, "mohm");
    assert(out@ =~= old(out)@ + port_form(*port));
}

/// A contribution in a line.
pub open spec fn drive_form(drive: Option<Drive>) -> Seq<char> {
    match drive {
        None => "release"@,
        Some(Drive::Thevenin(port)) => port_form(port),
        Some(Drive::Current { amps }) => "current:"@ + quantized(amps, 1) + "pa"@,
        Some(Drive::Periodic { hi, lo, segment }) => "periodic:"@ + port_form(hi) + "/"@
            + port_form(lo) + ":"@ + segment_form(segment),
    }
}

fn push_drive(out: &mut Vec<char>, drive: &Option<Drive>)
    ensures
        final(out)@ == old(out)@ + drive_form(*drive),
{
    match *drive {
        None => push_text(out, "release"),
        Some(Drive::Thevenin(port)) => push_port(out, &port),
        Some(Drive::Current { amps }) => {
            push_text(out, "current:");
            push_quantized(out, amps, 1);
            push_text(out, "pa");
        },
        Some(Drive::Periodic { hi, lo, segment }) => {
            push_text(out, "periodic:");
            push_port(out, &hi);
            push_text(out, "/");
            push_port(out, &lo);
            push_text(out, ":");
            push_segment(out, segment);
        },
    }
    assert(out@ =~= old(out)@ + drive_form(*drive));
}

/// Digits with a point behind the first, where there are more.
pub open spec fn pointed(digits: Seq<char>) -> Seq<char> {
    if digits.len() == 1 {
        digits
    } else {
        seq![digits[0], '.'] + digits.skip(1)
    }
}

/// A number of quanta that is a figure below a ten-thousandth: its digits with
/// an exponent.
pub open spec fn scientific(size: nat, digits: nat) -> Seq<char> {
    pointed(trimmed(decimal(size))) + "e-"@ + decimal(
        (digits + 1 - decimal(size).len()) as nat,
    )
}

/// A figure in decimal, `digits` of them behind the point at most; one below a
/// ten-thousandth carries an exponent.
pub open spec fn figure(value: Quantity, scale: int, digits: nat) -> Seq<char> {
    match value {
        Quantity::Nan => "NaN"@,
        Quantity::Infinite => "inf"@,
        Quantity::NegInfinite => "-inf"@,
        Quantity::Finite(n) => {
            let size = if n < 0 {
                -n
            } else {
                n as int
            };
            (if n < 0 {
                seq!['-']
            } else {
                Seq::empty()
            }) + if 0 < size < scale / 10_000 {
                scientific(size as nat, digits)
            } else {
                decimal((size / scale) as nat) + seq!['.'] + trimmed(
                    padded((size % scale) as nat, digits),
                )
            }
        },
    }
}

/// Drop the noughts behind the last other digit.
fn trim(digits: &mut Vec<char>)
    ensures
        final(digits)@ == trimmed(old(digits)@),
{
    while digits.len() > 1 && digits[digits.len() - 1] == '0'
        invariant
            trimmed(digits@) == trimmed(old(digits)@),
        decreases digits@.len(),
    {
        let ghost before = digits@;
        digits.pop();
        assert(digits@ =~= before.drop_last());
    }
}

fn push_scientific(out: &mut Vec<char>, size: u128, digits: u32)
    requires
        size < ten_to(digits as nat),
        0 < digits < 1_000,
    ensures
        final(out)@ == old(out)@ + scientific(size as nat, digits as nat),
{
    let mut all: Vec<char> = Vec::new();
    push_decimal(&mut all, size);
    assert(all@ =~= decimal(size as nat));
    proof {
        decimal_fits(size as nat, digits as nat);
        trimmed_keeps_one(all@);
    }
    let exponent: usize = digits as usize + 1 - all.len();
    trim(&mut all);
    out.push(all[0]);
    if all.len() > 1 {
        out.push('.');
    }
    let mut i: usize = 1;
    while i < all.len()
        invariant
            1 <= i <= all@.len(),
            out@ =~= old(out)@ + (if all@.len() == 1 {
                all@
            } else {
                seq![all@[0], '.'] + all@.subrange(1, i as int)
            }),
        decreases all@.len() - i,
    {
        out.push(all[i]);
        i += 1;
    }
    assert(out@ =~= old(out)@ + pointed(all@));
    push_text(out, "e-");
    push_decimal(out, exponent as u128);
    assert(out@ =~= old(out)@ + scientific(size as nat, digits as nat));
}

fn push_figure(out: &mut Vec<char>, value: Quantity, scale: u64, digits: u32)
    requires
        scale == ten_to(digits as nat),
        0 < digits < 1_000,
        scale >= 10_000,
    ensures
        final(out)@ == old(out)@ + figure(value, scale as int, digits as nat),
{
    match value {
        Quantity::Nan => push_text(out, "NaN"),
        Quantity::Infinite => push_text(out, "inf"),
        Quantity::NegInfinite => push_text(out, "-inf"),
        Quantity::Finite(n) => {
            let wide: i128 = n as i128;
            let size: u128 = if wide < 0 {
                (-wide) as u128
            } else {
                wide as u128
            };
            if wide < 0 {
                out.push('-');
            }
            if 0 < size && size < (scale / 10_000) as u128 {
                push_scientific(out, size, digits);
            } else {
                push_decimal(out, size / (scale as u128));
                out.push('.');
                let mut fraction: Vec<char> = Vec::new();
                push_padded(&mut fraction, size % (scale as u128), digits);
                assert(fraction@ =~= padded((size % (scale as u128)) as nat, digits as nat));
                trim(&mut fraction);
                push_chars(out, &fraction);
            }
        },
    }
    assert(out@ =~= old(out)@ + figure(value, scale as int, digits as nat));
}

/// Picovolts in a volt.
const VOLT: u64 = 1_000_000_000_000;

/// Digits of a picovolt behind the point of a volt.
const VOLT_DIGITS: u32 = 12;

/// Micro-ohms in an ohm.
const OHM: u64 = 1_000_000;

/// Digits of a micro-ohm behind the point of an ohm.
const OHM_DIGITS: u32 = 6;

/// A voltage in volts.
pub open spec fn volts_form(volts: Quantity) -> Seq<char> {
    figure(volts, 1_000_000_000_000, 12)
}

/// A resistance in ohms.
pub open spec fn ohms_form(ohms: Quantity) -> Seq<char> {
    figure(ohms, 1_000_000, 6)
}

/// A pin in a finding's text.
pub open spec fn pin_form(pin: PinRefView) -> Seq<char> {
    "PinRef { reference: "@ + debug_text(pin.reference) + ", pin: "@ + debug_text(pin.pin) + " }"@
}

fn push_quoted(out: &mut Vec<char>, text: &String)
    ensures
        final(out)@ == old(out)@ + debug_text(text@),
{
    let quoted = debug_form(text.as_str());
    push_text(out, quoted.as_str());
}

fn push_pin(out: &mut Vec<char>, pin: &PinRef)
    ensures
        final(out)@ == old(out)@ + pin_form(pin@),
{
    push_text(out, "PinRef { reference: ");
    push_quoted(out, &pin.reference);
    push_text(out, ", pin: ");
    push_quoted(out, &pin.pin);
    push_text(out, " }");
    assert(out@ =~= old(out)@ + pin_form(pin@));
}

/// Pins behind one another, commas between.
pub open spec fn pins_joined(pins: Seq<PinRefView>) -> Seq<char>
    decreases pins.len(),
{
    if pins.len() == 0 {
        Seq::empty()
    } else if pins.len() == 1 {
        pin_form(pins[0])
    } else {
        pins_joined(pins.drop_last()) + ", "@ + pin_form(pins.last())
    }
}

/// Quoted names behind one another, commas between.
pub open spec fn names_joined(names: Seq<Seq<char>>) -> Seq<char>
    decreases names.len(),
{
    if names.len() == 0 {
        Seq::empty()
    } else if names.len() == 1 {
        debug_text(names[0])
    } else {
        names_joined(names.drop_last()) + ", "@ + debug_text(names.last())
    }
}

fn push_pins(out: &mut Vec<char>, pins: &Vec<PinRef>)
    ensures
        final(out)@ == old(out)@ + "["@ + pins_joined(pins_view(pins@)) + "]"@,
{
    push_text(out, "[");
    let mut i: usize = 0;
    while i < pins.len()
        invariant
            i <= pins@.len(),
            out@ =~= old(out)@ + "["@ + pins_joined(pins_view(pins@).take(i as int)),
        decreases pins@.len() - i,
    {
        let ghost next = pins_view(pins@).take(i + 1);
        assert(next.drop_last() =~= pins_view(pins@).take(i as int));
        assert(next.last() == pins@[i as int]@);
        if i > 0 {
            push_text(out, ", ");
        }
        push_pin(out, &pins[i]);
        assert(out@ =~= old(out)@ + "["@ + pins_joined(next));
        i += 1;
    }
    assert(pins_view(pins@).take(i as int) =~= pins_view(pins@));
    push_text(out, "]");
}

fn push_names(out: &mut Vec<char>, names: &Vec<String>)
    ensures
        final(out)@ == old(out)@ + "["@ + names_joined(names_view(names@)) + "]"@,
{
    push_text(out, "[");
    let mut i: usize = 0;
    while i < names.len()
        invariant
            i <= names@.len(),
            out@ =~= old(out)@ + "["@ + names_joined(names_view(names@).take(i as int)),
        decreases names@.len() - i,
    {
        let ghost next = names_view(names@).take(i + 1);
        assert(next.drop_last() =~= names_view(names@).take(i as int));
        assert(next.last() == names@[i as int]@);
        if i > 0 {
            push_text(out, ", ");
        }
        push_quoted(out, &names[i]);
        assert(out@ =~= old(out)@ + "["@ + names_joined(next));
        i += 1;
    }
    assert(names_view(names@).take(i as int) =~= names_view(names@));
    push_text(out, "]");
}

/// What a floating pin reads, by name.
pub open spec fn sense_kind_form(kind: SenseKind) -> Seq<char> {
    match kind {
        SenseKind::Digital => "Digital"@,
        SenseKind::Analog => "Analog"@,
    }
}

/// A callback's kind by name.
pub open spec fn callback_form(kind: CallbackKind) -> Seq<char> {
    match kind {
        CallbackKind::Sense => "Sense"@,
        CallbackKind::Wake => "Wake"@,
        CallbackKind::Topology => "Topology"@,
    }
}

/// A finding's text: its kind and its fields by name.
pub open spec fn finding_text(finding: FindingView) -> Seq<char> {
    match finding {
        FindingView::Contention { net, drivers } => "Contention { net: "@ + debug_text(net)
            + ", drivers: "@ + ("["@ + pins_joined(drivers) + "]"@) + " }"@,
        FindingView::AmbiguousLevel { net, volts } => "AmbiguousLevel { net: "@ + debug_text(net)
            + ", volts: "@ + volts_form(volts) + " }"@,
        FindingView::FloatingSense { net, kind } => "FloatingSense { net: "@ + debug_text(net)
            + ", kind: "@ + sense_kind_form(kind) + " }"@,
        FindingView::PowerNetUnsourced { net } => "PowerNetUnsourced { net: "@ + debug_text(net)
            + " }"@,
        FindingView::CurrentIntoFloatingNode { net, pin } => "CurrentIntoFloatingNode { net: "@
            + debug_text(net) + ", pin: "@ + pin_form(pin) + " }"@,
        FindingView::NonConvergent { cluster, elements, solves } => "NonConvergent { cluster: "@
            + debug_text(cluster) + ", elements: "@ + ("["@ + names_joined(elements) + "]"@)
            + ", solves: "@ + decimal(solves as nat) + " }"@,
        FindingView::PeriodicNotCoupled { net, capacitor, hz, reactance_ohms, far_ohms } =>
            "PeriodicNotCoupled { net: "@ + debug_text(net) + ", capacitor: "@ + debug_text(
            capacitor,
        ) + ", hz: "@ + decimal(hz as nat) + ", reactance_ohms: "@ + ohms_form(reactance_ohms)
            + ", far_ohms: "@ + ohms_form(far_ohms) + " }"@,
        FindingView::CallbackPanic { kind, subscriber } => "CallbackPanic { kind: "@
            + callback_form(kind) + ", subscriber: "@ + debug_text(subscriber) + " }"@,
        FindingView::VirtualClockUninitialized { context } =>
            "VirtualClockUninitialized { context: "@ + debug_text(context) + " }"@,
        FindingView::QuiescenceTimeout { actors } => "QuiescenceTimeout { actors: "@ + ("["@
            + names_joined(actors) + "]"@) + " }"@,
        FindingView::DriveSeqGap { seq } => "DriveSeqGap { seq: "@ + decimal(seq as nat) + " }"@,
        FindingView::ClassificationError { reference, part, message } =>
            "ClassificationError { reference: "@ + debug_text(reference) + ", part: "@
            + debug_text(part) + ", message: "@ + debug_text(message) + " }"@,
        FindingView::StreamOverrun { producer } => "StreamOverrun { producer: "@ + pin_form(
            producer,
        ) + " }"@,
    }
}

/// A finding's text behind the characters.
#[verifier::rlimit(40)]
fn push_finding(out: &mut Vec<char>, finding: &Finding)
    ensures
        final(out)@ == old(out)@ + finding_text(finding@),
{
    match finding {
        Finding::Contention { net, drivers } => {
            push_text(out, "Contention { net: ");
            push_quoted(out, net);
            push_text(out, ", drivers: ");
            push_pins(out, drivers);
        },
        Finding::AmbiguousLevel { net, volts } => {
            push_text(out, "AmbiguousLevel { net: ");
            push_quoted(out, net);
            push_text(out, ", volts: ");
            proof {
                reveal_with_fuel(ten_to, 13);
            }
            push_figure(out, *volts, VOLT, VOLT_DIGITS);
        },
        Finding::FloatingSense { net, kind } => {
            push_text(out, "FloatingSense { net: ");
            push_quoted(out, net);
            push_text(out, ", kind: ");
            match kind {
                SenseKind::Digital => push_text(out, "Digital"),
                SenseKind::Analog => push_text(out, "Analog"),
            }
        },
        Finding::PowerNetUnsourced { net } => {
            push_text(out, "PowerNetUnsourced { net: ");
            push_quoted(out, net);
        },
        Finding::CurrentIntoFloatingNode { net, pin } => {
            push_text(out, "CurrentIntoFloatingNode { net: ");
            push_quoted(out, net);
            push_text(out, ", pin: ");
            push_pin(out, pin);
        },
        Finding::NonConvergent { cluster, elements, solves } => {
            push_text(out, "NonConvergent { cluster: ");
            push_quoted(out, cluster);
            push_text(out, ", elements: ");
            push_names(out, elements);
            push_text(out, ", solves: ");
            push_decimal(out, *solves as u128);
        },
        Finding::PeriodicNotCoupled { net, capacitor, hz, reactance_ohms, far_ohms } => {
            push_text(out, "PeriodicNotCoupled { net: ");
            push_quoted(out, net);
            push_text(out, ", capacitor: ");
            push_quoted(out, capacitor);
            push_text(out, ", hz: ");
            push_decimal(out, *hz as u128);
            push_text(out, ", reactance_ohms: ");
            proof {
                reveal_with_fuel(ten_to, 7);
            }
            push_figure(out, *reactance_ohms, OHM, OHM_DIGITS);
            push_text(out, ", far_ohms: ");
            push_figure(out, *far_ohms, OHM, OHM_DIGITS);
        },
        Finding::CallbackPanic { kind, subscriber } => {
            push_text(out, "CallbackPanic { kind: ");
            match kind {
                CallbackKind::Sense => push_text(out, "Sense"),
                CallbackKind::Wake => push_text(out, "Wake"),
                CallbackKind::Topology => push_text(out, "Topology"),
            }
            push_text(out, ", subscriber: ");
            push_quoted(out, subscriber);
        },
        Finding::VirtualClockUninitialized { context } => {
            push_text(out, "VirtualClockUninitialized { context: ");
            push_quoted(out, context);
        },
        Finding::QuiescenceTimeout { actors } => {
            push_text(out, "QuiescenceTimeout { actors: ");
            push_names(out, actors);
        },
        Finding::DriveSeqGap { seq } => {
            push_text(out, "DriveSeqGap { seq: ");
            push_decimal(out, *seq as u128);
        },
        Finding::ClassificationError { reference, part, message } => {
            push_text(out, "ClassificationError { reference: ");
            push_quoted(out, reference);
            push_text(out, ", part: ");
            push_quoted(out, part);
            push_text(out, ", message: ");
            push_quoted(out, message);
        },
        Finding::StreamOverrun { producer } => {
            push_text(out, "StreamOverrun { producer: ");
            push_pin(out, producer);
        },
    }
    push_text(out, " }");
    assert(out@ =~= old(out)@ + finding_text(finding@));
}

/// Whether a character is white space in Unicode.
pub open spec fn is_blank(c: char) -> bool {
    let code = c as u32;
    9 <= code <= 13 || code == 0x20 || code == 0x85 || code == 0xA0 || code == 0x1680 || 0x2000
        <= code <= 0x200A || code == 0x2028 || code == 0x2029 || code == 0x202F || code == 0x205F
        || code == 0x3000
}

/// Whether a character parts the words of a text.
pub open spec fn is_boundary(c: char) -> bool {
    is_blank(c) || c == '"' || c == '\'' || c == ',' || c == '(' || c == ')'
}

fn parts_words(c: char) -> (r: bool)
    ensures
        r == is_boundary(c),
{
    let code: u32 = c as u32;
    (9 <= code && code <= 13) || code == 0x20 || code == 0x85 || code == 0xA0 || code == 0x1680 || (
    0x2000 <= code && code <= 0x200A) || code == 0x2028 || code == 0x2029 || code == 0x202F || code
        == 0x205F || code == 0x3000 || c == '"' || c == '\'' || c == ',' || c == '(' || c == ')'
}

/// Whether a word is a path of the host's file system.
pub open spec fn is_host_path(word: Seq<char>) -> bool {
    starts_with(word, "/tmp/"@) || starts_with(word, "/private/"@) || starts_with(word, "/var/"@)
        || starts_with(word, "/dev/"@) || starts_with(word, "/Users/"@) || starts_with(
        word,
        "/home/"@,
    ) || starts_with(word, "/Volumes/"@)
}

fn host_path(word: &Vec<char>) -> (r: bool)
    ensures
        r == is_host_path(word@),
{
    begins_with(word, "/tmp/") || begins_with(word, "/private/") || begins_with(word, "/var/")
        || begins_with(word, "/dev/") || begins_with(word, "/Users/") || begins_with(word, "/home/")
        || begins_with(word, "/Volumes/")
}

/// Where the word that `at` stands in ends: at the first boundary from there.
pub open spec fn word_end(text: Seq<char>, at: int) -> int
    decreases text.len() - at,
{
    if 0 <= at < text.len() && !is_boundary(text[at]) {
        word_end(text, at + 1)
    } else {
        at
    }
}

/// A word's end is no earlier than the word.
pub proof fn words_advance(text: Seq<char>, at: int)
    requires
        0 <= at <= text.len(),
    ensures
        at <= word_end(text, at) <= text.len(),
        at < text.len() && !is_boundary(text[at]) ==> at < word_end(text, at),
    decreases text.len() - at,
{
    if at < text.len() && !is_boundary(text[at]) {
        words_advance(text, at + 1);
    }
}

/// A text from a position on, its host paths replaced.
pub open spec fn elided_from(text: Seq<char>, at: int) -> Seq<char>
    decreases text.len() - at,
{
    if at < 0 || at >= text.len() {
        Seq::empty()
    } else if is_boundary(text[at]) {
        seq![text[at]] + elided_from(text, at + 1)
    } else {
        proof {
            words_advance(text, at);
        }
        let end = word_end(text, at);
        let word = text.subrange(at, end);
        (if is_host_path(word) {
            "<path>"@
        } else {
            word
        }) + elided_from(text, end)
    }
}

/// A text with its host paths replaced.
pub open spec fn elided(text: Seq<char>) -> Seq<char> {
    elided_from(text, 0)
}

/// Put a text without its host paths behind the characters.
fn push_elided(out: &mut Vec<char>, text: &Vec<char>)
    ensures
        final(out)@ == old(out)@ + elided(text@),
{
    let mut at: usize = 0;
    while at < text.len()
        invariant
            at <= text@.len(),
            out@ + elided_from(text@, at as int) =~= old(out)@ + elided(text@),
        decreases text@.len() - at,
    {
        if parts_words(text[at]) {
            out.push(text[at]);
            assert(elided_from(text@, at as int) == seq![text@[at as int]] + elided_from(
                text@,
                at + 1,
            ));
            at += 1;
        } else {
            let ghost start = at as int;
            let ghost before = out@;
            let mut word: Vec<char> = Vec::new();
            while at < text.len() && !parts_words(text[at])
                invariant
                    0 <= start <= at <= text@.len(),
                    word@ =~= text@.subrange(start, at as int),
                    word_end(text@, at as int) == word_end(text@, start),
                    at == start ==> start < text@.len() && !is_boundary(text@[start]),
                decreases text@.len() - at,
            {
                word.push(text[at]);
                at += 1;
            }
            assert(at > start);
            assert(word_end(text@, start) == at);
            if host_path(&word) {
                push_text(out, "<path>");
            } else {
                push_chars(out, &word);
            }
            assert(out@ + elided_from(text@, at as int) =~= before + elided_from(text@, start));
        }
    }
}

/// Replace host paths in a text.
pub fn elide_host_paths(text: &str) -> (r: String)
    ensures
        r@ == elided(text@),
{
    let chars = chars_of(text);
    let mut out: Vec<char> = Vec::new();
    push_elided(&mut out, &chars);
    assert(out@ =~= elided(text@));
    text_of(&out)
}

/// An event in a line.
pub open spec fn event_form(event: EventView) -> Seq<char> {
    match event {
        EventView::DriveApplied { seq, endpoint, drive } => "drive_applied seq="@ + decimal(
            seq as nat,
        ) + " endpoint="@ + decimal(endpoint.0 as nat) + " drive="@ + drive_form(drive),
        EventView::NetResolved { net, state } => "net_resolved net="@ + decimal(net.0 as nat)
            + " state="@ + state_form(state),
        EventView::SenseDelivered { net, state } => "sense net="@ + decimal(net.0 as nat)
            + " state="@ + state_form(state),
        EventView::Wake { component } => "wake component="@ + decimal(component.0 as nat),
        EventView::StreamByte { producer, consumer, byte } => "stream_byte producer="@ + decimal(
            producer.0 as nat,
        ) + " consumer="@ + decimal(consumer.0 as nat) + " byte="@ + hex_byte(byte),
        EventView::Reroute { epoch } => "reroute epoch="@ + decimal(epoch as nat),
        EventView::Finding(finding) => "finding "@ + elided(finding_text(finding)),
    }
}

fn push_event(out: &mut Vec<char>, event: &EngineEvent)
    ensures
        final(out)@ == old(out)@ + event_form(event@),
{
    match event {
        EngineEvent::DriveApplied { seq, endpoint, drive } => {
            push_text(out, "drive_applied seq=");
            push_decimal(out, *seq as u128);
            push_text(out, " endpoint=");
            push_decimal(out, endpoint.0 as u128);
            push_text(out, " drive=");
            push_drive(out, drive);
        },
        EngineEvent::NetResolved { net, state } => {
            push_text(out, "net_resolved net=");
            push_decimal(out, net.0 as u128);
            push_text(out, " state=");
            push_state(out, state);
        },
        EngineEvent::SenseDelivered { net, state } => {
            push_text(out, "sense net=");
            push_decimal(out, net.0 as u128);
            push_text(out, " state=");
            push_state(out, state);
        },
        EngineEvent::Wake { component } => {
            push_text(out, "wake component=");
            push_decimal(out, component.0 as u128);
        },
        EngineEvent::StreamByte { producer, consumer, byte } => {
            push_text(out, "stream_byte producer=");
            push_decimal(out, producer.0 as u128);
            push_text(out, " consumer=");
            push_decimal(out, consumer.0 as u128);
            push_text(out, " byte=");
            push_hex(out, *byte);
        },
        EngineEvent::Reroute { epoch } => {
            push_text(out, "reroute epoch=");
            push_decimal(out, *epoch as u128);
        },
        EngineEvent::Finding(finding) => {
            push_text(out, "finding ");
            let mut text: Vec<char> = Vec::new();
            push_finding(&mut text, finding);
            assert(text@ =~= finding_text(finding@));
            push_elided(out, &text);
        },
    }
    assert(out@ =~= old(out)@ + event_form(event@));
}

/// A record's canonical line.
pub open spec fn line(record: RecordView) -> Seq<char> {
    decimal(record.seq as nat) + " v="@ + decimal(record.v_us as nat) + " "@ + event_form(
        record.event,
    )
}

/// A record's canonical line without its timestamp.
pub open spec fn shape_line(record: RecordView) -> Seq<char> {
    decimal(record.seq as nat) + " "@ + event_form(record.event)
}

impl Clone for EngineEventRecord {
    fn clone(&self) -> (r: EngineEventRecord)
        ensures
            r@ == self@,
    {
        EngineEventRecord { seq: self.seq, v_us: self.v_us, event: self.event.clone() }
    }
}

impl EngineEventRecord {
    /// The canonical line, timestamp and all.
    pub fn normalized(&self) -> (r: String)
        ensures
            r@ == line(self@),
    {
        let mut out: Vec<char> = Vec::new();
        push_decimal(&mut out, self.seq as u128);
        push_text(&mut out, " v=");
        push_decimal(&mut out, self.v_us as u128);
        push_text(&mut out, " ");
        push_event(&mut out, &self.event);
        assert(out@ =~= line(self@));
        text_of(&out)
    }

    /// The canonical line without the timestamp.
    pub fn normalized_shape(&self) -> (r: String)
        ensures
            r@ == shape_line(self@),
    {
        let mut out: Vec<char> = Vec::new();
        push_decimal(&mut out, self.seq as u128);
        push_text(&mut out, " ");
        push_event(&mut out, &self.event);
        assert(out@ =~= shape_line(self@));
        text_of(&out)
    }
}

/// Records as their views.
pub open spec fn records_view(records: Seq<EngineEventRecord>) -> Seq<RecordView> {
    Seq::new(records.len(), |i: int| records[i]@)
}

/// The engine's log: nothing, or every record in the order of the writes.
#[derive(Debug)]
pub struct EventLog {
    inner: Option<Vec<EngineEventRecord>>,
}

impl View for EventLog {
    type V = Option<Seq<RecordView>>;

    closed spec fn view(&self) -> Option<Seq<RecordView>> {
        match self.inner {
            Some(records) => Some(records_view(records@)),
            None => None,
        }
    }
}

/// A log with one record more; a log that is off stays off.
pub open spec fn logged(log: Option<Seq<RecordView>>, event: EventView, v_us: u64) -> Option<
    Seq<RecordView>,
> {
    match log {
        Some(records) => Some(
            records.push(RecordView { seq: records.len() as u64, v_us, event }),
        ),
        None => None,
    }
}

/// The records of a log; one that is off has none.
pub open spec fn recorded(log: Option<Seq<RecordView>>) -> Seq<RecordView> {
    match log {
        Some(records) => records,
        None => Seq::empty(),
    }
}

impl EventLog {
    /// A log that records.
    pub fn enabled() -> (r: EventLog)
        ensures
            r@ == Some(Seq::<RecordView>::empty()),
    {
        let r = EventLog { inner: Some(Vec::new()) };
        assert(r@->0 =~= Seq::<RecordView>::empty());
        r
    }

    /// A log that is off.
    pub fn disabled() -> (r: EventLog)
        ensures
            r@ is None,
    {
        EventLog { inner: None }
    }

    /// Whether the log records.
    pub fn is_enabled(&self) -> (r: bool)
        ensures
            r == (self@ is Some),
    {
        self.inner.is_some()
    }

    /// Write an event behind the others, numbered by its place. The event is
    /// built only where the log records.
    pub fn record(&mut self, event: impl FnOnce() -> EngineEvent, v_us: u64)
        requires
            old(self)@ is Some ==> event.requires(()),
        ensures
            match old(self)@ {
                Some(_) => exists|built: EngineEvent| #[trigger]
                    event.ensures((), built) && final(self)@ == logged(
                        old(self)@,
                        built@,
                        v_us,
                    ),
                None => final(self)@ is None,
            },
    {
        match &mut self.inner {
            Some(records) => {
                let seq: u64 = records.len() as u64;
                let ghost before = records@;
                let event = event();
                let ghost written = event@;
                records.push(EngineEventRecord { seq, v_us, event });
                assert(records_view(records@) =~= records_view(before).push(
                    RecordView { seq, v_us, event: written },
                ));
            },
            None => {},
        }
    }

    /// Every record, in the order of the writes.
    pub fn records(&self) -> (r: Vec<EngineEventRecord>)
        ensures
            records_view(r@) == recorded(self@),
    {
        let mut r: Vec<EngineEventRecord> = Vec::new();
        if let Some(records) = &self.inner {
            let mut i: usize = 0;
            while i < records.len()
                invariant
                    i <= records@.len(),
                    r@.len() == i,
                    forall|j: int| 0 <= j < i ==> (#[trigger] r@[j])@ == records@[j]@,
                decreases records@.len() - i,
            {
                r.push(records[i].clone());
                i += 1;
            }
        }
        assert(records_view(r@) =~= recorded(self@));
        r
    }

    /// How many records there are.
    pub fn len(&self) -> (r: usize)
        ensures
            r == recorded(self@).len(),
    {
        match &self.inner {
            Some(records) => records.len(),
            None => 0,
        }
    }

    /// Whether nothing has been recorded.
    pub fn is_empty(&self) -> (r: bool)
        ensures
            r == (recorded(self@).len() == 0),
    {
        self.len() == 0
    }

    /// Every record's canonical line.
    pub fn normalized(&self) -> (r: Vec<String>)
        ensures
            names_view(r@) == recorded(self@).map_values(|record: RecordView| line(record)),
    {
        let mut r: Vec<String> = Vec::new();
        if let Some(records) = &self.inner {
            let mut i: usize = 0;
            while i < records.len()
                invariant
                    i <= records@.len(),
                    r@.len() == i,
                    forall|j: int| 0 <= j < i ==> (#[trigger] r@[j])@ == line(records@[j]@),
                decreases records@.len() - i,
            {
                r.push(records[i].normalized());
                i += 1;
            }
        }
        assert(names_view(r@) =~= recorded(self@).map_values(|record: RecordView| line(record)));
        r
    }

    /// Every record's canonical line without its timestamp.
    pub fn normalized_shape(&self) -> (r: Vec<String>)
        ensures
            names_view(r@) == recorded(self@).map_values(
                |record: RecordView| shape_line(record),
            ),
    {
        let mut r: Vec<String> = Vec::new();
        if let Some(records) = &self.inner {
            let mut i: usize = 0;
            while i < records.len()
                invariant
                    i <= records@.len(),
                    r@.len() == i,
                    forall|j: int| 0 <= j < i ==> (#[trigger] r@[j])@ == shape_line(records@[j]@),
                decreases records@.len() - i,
            {
                r.push(records[i].normalized_shape());
                i += 1;
            }
        }
        assert(names_view(r@) =~= recorded(self@).map_values(
            |record: RecordView| shape_line(record),
        ));
        r
    }
}

/// A text none of whose words is a path of the host is kept as it is.
pub proof fn other_words_are_kept(text: Seq<char>)
    requires
        forall|at: int, end: int|
            0 <= at <= end <= text.len() ==> !is_host_path(#[trigger] text.subrange(at, end)),
    ensures
        elided(text) == text,
{
    kept_from(text, 0);
    assert(text.skip(0) =~= text);
}

proof fn kept_from(text: Seq<char>, at: int)
    requires
        0 <= at <= text.len(),
        forall|a: int, b: int|
            0 <= a <= b <= text.len() ==> !is_host_path(#[trigger] text.subrange(a, b)),
    ensures
        elided_from(text, at) == text.skip(at),
    decreases text.len() - at,
{
    if at < text.len() {
        words_advance(text, at);
        let next = if is_boundary(text[at]) {
            at + 1
        } else {
            word_end(text, at)
        };
        kept_from(text, next);
        assert(!is_host_path(text.subrange(at, next)));
        assert(elided_from(text, at) =~= text.subrange(at, next) + text.skip(next));
    }
    assert(elided_from(text, at) =~= text.skip(at));
}

/// Words end alike in a text and in what follows some of it.
proof fn words_shift(text: Seq<char>, by: int, at: int)
    requires
        0 <= by <= at <= text.len(),
    ensures
        word_end(text.skip(by), at - by) == word_end(text, at) - by,
    decreases text.len() - at,
{
    if at < text.len() && !is_boundary(text[at]) {
        assert(text.skip(by)[at - by] == text[at]);
        words_shift(text, by, at + 1);
    } else if at < text.len() {
        assert(text.skip(by)[at - by] == text[at]);
    }
}

/// Eliding from a position on is eliding what follows it.
pub proof fn elided_shift(text: Seq<char>, by: int, at: int)
    requires
        0 <= by <= at <= text.len(),
    ensures
        elided_from(text.skip(by), at - by) == elided_from(text, at),
    decreases text.len() - at,
{
    let rest = text.skip(by);
    if at < text.len() {
        assert(rest[at - by] == text[at]);
        if is_boundary(text[at]) {
            elided_shift(text, by, at + 1);
        } else {
            words_advance(text, at);
            words_advance(rest, at - by);
            words_shift(text, by, at);
            let end = word_end(text, at);
            assert(rest.subrange(at - by, end - by) =~= text.subrange(at, end));
            elided_shift(text, by, end);
        }
    }
}

/// A word ends where the next boundary is.
proof fn word_runs(word: Seq<char>, rest: Seq<char>, at: int)
    requires
        0 <= at <= word.len(),
        forall|i: int| 0 <= i < word.len() ==> !is_boundary(#[trigger] word[i]),
        rest.len() > 0 ==> is_boundary(rest[0]),
    ensures
        word_end(word + rest, at) == word.len(),
    decreases word.len() - at,
{
    let text = word + rest;
    if at < word.len() {
        assert(text[at] == word[at]);
        word_runs(word, rest, at + 1);
    } else if rest.len() > 0 {
        assert(text[at] == rest[0]);
    }
}

/// What a word is elided to.
pub open spec fn elided_word(word: Seq<char>) -> Seq<char> {
    if is_host_path(word) {
        "<path>"@
    } else {
        word
    }
}

/// A word is elided by itself.
pub proof fn elided_after_a_word(word: Seq<char>, rest: Seq<char>)
    requires
        word.len() > 0,
        forall|i: int| 0 <= i < word.len() ==> !is_boundary(#[trigger] word[i]),
        rest.len() > 0 ==> is_boundary(rest[0]),
    ensures
        elided(word + rest) == elided_word(word) + elided(rest),
{
    let text = word + rest;
    let n = word.len() as int;
    assert(text[0] == word[0]);
    word_runs(word, rest, 0);
    words_advance(text, 0);
    assert(text.subrange(0, n) =~= word);
    elided_shift(text, n, n);
    assert(text.skip(n) =~= rest);
}

/// The placeholder is a word, and no path of the host.
proof fn the_placeholder_is_a_word()
    ensures
        "<path>"@.len() > 0,
        forall|i: int| 0 <= i < "<path>"@.len() ==> !is_boundary(#[trigger] "<path>"@[i]),
        !is_host_path("<path>"@),
{
    reveal_strlit("<path>");
    reveal_strlit("/tmp/");
    reveal_strlit("/private/");
    reveal_strlit("/var/");
    reveal_strlit("/dev/");
    reveal_strlit("/Users/");
    reveal_strlit("/home/");
    reveal_strlit("/Volumes/");
    let word = "<path>"@;
    assert(word[0] == '<');
    assert forall|root: Seq<char>| root.len() > 0 && root[0] == '/' implies !#[trigger] starts_with(
        word,
        root,
    ) by {}
}

/// Every run of characters that parts no words is a word of its own.
proof fn word_has_no_boundary(text: Seq<char>, at: int)
    requires
        0 <= at <= text.len(),
    ensures
        at <= word_end(text, at) <= text.len(),
        forall|i: int| at <= i < word_end(text, at) ==> !is_boundary(#[trigger] text[i]),
        word_end(text, at) < text.len() ==> is_boundary(text[word_end(text, at)]),
    decreases text.len() - at,
{
    if at < text.len() && !is_boundary(text[at]) {
        word_has_no_boundary(text, at + 1);
    }
}

/// Eliding a text that was elided changes nothing.
pub proof fn eliding_twice_is_eliding_once(text: Seq<char>)
    ensures
        elided(elided(text)) == elided(text),
    decreases text.len(),
{
    if text.len() > 0 {
        if is_boundary(text[0]) {
            let rest = text.skip(1);
            elided_shift(text, 1, 1);
            eliding_twice_is_eliding_once(rest);
            let after = elided(text);
            assert(after =~= seq![text[0]] + elided(rest));
            assert(after[0] == text[0]);
            elided_shift(after, 1, 1);
            assert(after.skip(1) =~= elided(rest));
        } else {
            word_has_no_boundary(text, 0);
            words_advance(text, 0);
            let end = word_end(text, 0);
            let word = text.subrange(0, end);
            let rest = text.skip(end);
            assert(text =~= word + rest);
            elided_after_a_word(word, rest);
            eliding_twice_is_eliding_once(rest);
            the_placeholder_is_a_word();
            let next = elided(rest);
            if rest.len() > 0 {
                assert(next =~= seq![rest[0]] + elided_from(rest, 1));
                assert(next[0] == rest[0]);
            }
            elided_after_a_word(elided_word(word), next);
        }
    }
}

/// When a record was written has no part in its line without the timestamp.
pub proof fn timestamps_leave_the_shape(a: RecordView, b: RecordView)
    requires
        a.seq == b.seq,
        a.event == b.event,
    ensures
        shape_line(a) == shape_line(b),
{
}

/// Figures that round to the same whole quanta read the same in a line.
pub proof fn a_line_reads_whole_quanta(a: i64, b: i64)
    requires
        rounded(a as int, VOLT_QUANTUM as int) == rounded(b as int, VOLT_QUANTUM as int),
    ensures
        state_form(NetState::Analog(Quantity::Finite(a))) == state_form(
            NetState::Analog(Quantity::Finite(b)),
        ),
{
}

/// Writes number the records by their places.
pub proof fn writes_number_by_place(
    log: Seq<RecordView>,
    event: EventView,
    v_us: u64,
)
    requires
        forall|i: int| 0 <= i < log.len() ==> (#[trigger] log[i]).seq == i,
        log.len() <= u64::MAX,
    ensures
        logged(Some(log), event, v_us) is Some,
        logged(Some(log), event, v_us)->0.len() == log.len() + 1,
        forall|i: int|
            0 <= i <= log.len() ==> (#[trigger] logged(Some(log), event, v_us)->0[i]).seq == i,
        forall|i: int|
            0 <= i < log.len() ==> logged(Some(log), event, v_us)->0[i] == log[i],
{
}

/// Events of different kinds never read alike.
pub proof fn kinds_read_apart(a: EventView, b: EventView)
    requires
        event_form(a) == event_form(b),
    ensures
        a is DriveApplied <==> b is DriveApplied,
        a is NetResolved <==> b is NetResolved,
        a is SenseDelivered <==> b is SenseDelivered,
        a is Wake <==> b is Wake,
        a is StreamByte <==> b is StreamByte,
        a is Reroute <==> b is Reroute,
        a is Finding <==> b is Finding,
{
    reads_by_kind(a);
    reads_by_kind(b);
}

/// How the two first letters of an event's line tell its kind.
proof fn reads_by_kind(event: EventView)
    ensures
        event_form(event)[0] == 'd' <==> event is DriveApplied,
        event_form(event)[0] == 'n' <==> event is NetResolved,
        event_form(event)[0] == 'w' <==> event is Wake,
        event_form(event)[0] == 'r' <==> event is Reroute,
        event_form(event)[0] == 'f' <==> event is Finding,
        event_form(event)[0] == 's' && event_form(event)[1] == 'e' <==> event is SenseDelivered,
        event_form(event)[0] == 's' && event_form(event)[1] == 't' <==> event is StreamByte,
{
    let form = event_form(event);
    match event {
        EventView::DriveApplied { .. } => {
            reveal_strlit("drive_applied seq=");
            assert(form[0] == "drive_applied seq="@[0]);
        },
        EventView::NetResolved { .. } => {
            reveal_strlit("net_resolved net=");
            assert(form[0] == "net_resolved net="@[0]);
        },
        EventView::SenseDelivered { .. } => {
            reveal_strlit("sense net=");
            assert(form[0] == "sense net="@[0] && form[1] == "sense net="@[1]);
        },
        EventView::Wake { .. } => {
            reveal_strlit("wake component=");
            assert(form[0] == "wake component="@[0]);
        },
        EventView::StreamByte { .. } => {
            reveal_strlit("stream_byte producer=");
            assert(form[0] == "stream_byte producer="@[0] && form[1]
                == "stream_byte producer="@[1]);
        },
        EventView::Reroute { .. } => {
            reveal_strlit("reroute epoch=");
            assert(form[0] == "reroute epoch="@[0]);
        },
        EventView::Finding(_) => {
            reveal_strlit("finding ");
            assert(form[0] == "finding "@[0]);
        },
    }
}

} // verus!
