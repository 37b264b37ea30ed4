//! Lines tell apart what differs: two records read alike only where they say
//! the same, in whole quanta.
use vstd::prelude::*;

use crate::event_log::{
    drive_form, event_form, kinds_read_apart, level_form, line, logged, port_form, quantized,
    recorded, rounded, segment_form, shape_line, state_form, EngineEvent, EngineEventRecord,
    EventView, RecordView,
};
use crate::net::{Drive, Level, NetState, PeriodicSchedule, TheveninDrive};
use crate::quantity::Quantity;
use crate::text::laws::{
    bytes_read_apart, decimal_spells_its_number, is_digit, no_digit_next, number_in, numbers_read_apart,
    signed_numbers_read_apart, signs_show,
};
use crate::text::{decimal, hex_byte, starts_with};

verus! {

/// Whether a whole number of quanta is the nearest to a figure; of two as near
/// the one farther from nought.
pub open spec fn nearest(n: int, quantum: int, whole: int) -> bool {
    let off = whole * quantum - n;
    &&& -quantum <= 2 * off <= quantum
    &&& 2 * off == quantum ==> n > 0
    &&& 2 * off == -quantum ==> n < 0
}

/// Whether two figures are one in whole quanta.
pub open spec fn one_figure(a: Quantity, b: Quantity, quantum: int) -> bool {
    a == b || (a is Finite && b is Finite && exists|whole: int| #[trigger]
        nearest(a->Finite_0 as int, quantum, whole) && nearest(b->Finite_0 as int, quantum, whole))
}

/// Whether two ports are one in whole microvolts and milliohms.
pub open spec fn one_port(a: TheveninDrive, b: TheveninDrive) -> bool {
    one_figure(a.volts, b.volts, 1_000_000) && one_figure(a.impedance, b.impedance, 1_000)
}

/// Whether two states are one: the same kind, the same levels, the same
/// figures in whole quanta.
pub open spec fn one_state(a: NetState, b: NetState) -> bool {
    match (a, b) {
        (NetState::Pulled(m, r), NetState::Pulled(n, s)) => m == n && one_figure(r, s, 1_000),
        (NetState::Analog(u), NetState::Analog(v)) => one_figure(u, v, 1_000_000),
        _ => a == b,
    }
}

/// Whether two contributions are one, in whole quanta.
pub open spec fn one_drive(a: Option<Drive>, b: Option<Drive>) -> bool {
    match (a, b) {
        (Some(Drive::Thevenin(p)), Some(Drive::Thevenin(q))) => one_port(p, q),
        (Some(Drive::Current { amps: i }), Some(Drive::Current { amps: j })) => i == j,
        (
            Some(Drive::Periodic { hi, lo, segment }),
            Some(Drive::Periodic { hi: h, lo: l, segment: s }),
        ) => one_port(hi, h) && one_port(lo, l) && segment == s,
        _ => a is None && b is None,
    }
}

/// What is behind one text in two that are alike is alike.
proof fn behind_one_text(text: Seq<char>, x: Seq<char>, y: Seq<char>)
    requires
        text + x == text + y,
    ensures
        x == y,
{
    assert(x =~= (text + x).skip(text.len() as int));
    assert(y =~= (text + y).skip(text.len() as int));
}

/// Texts behind one another are one however they are grouped.
proof fn regroup(a: Seq<char>, b: Seq<char>, c: Seq<char>)
    ensures
        (a + b) + c == a + (b + c),
{
    assert((a + b) + c =~= a + (b + c));
}

/// Numbers in front of one text that starts without a digit are read apart.
proof fn number_then(a: nat, b: nat, text: Seq<char>, x: Seq<char>, y: Seq<char>)
    requires
        decimal(a) + (text + x) == decimal(b) + (text + y),
        text.len() > 0,
        !is_digit(text[0]),
    ensures
        a == b,
        x == y,
{
    assert((text + x)[0] == text[0]);
    assert((text + y)[0] == text[0]);
    numbers_read_apart(a, b, text + x, text + y);
    behind_one_text(text, x, y);
}

/// Figures are rounded to the nearest whole quantum, halves away from nought.
pub proof fn figures_round_to_the_nearest(n: int, quantum: int)
    requires
        quantum > 0,
    ensures
        nearest(n, quantum, rounded(n, quantum)),
{
    let half = quantum / 2;
    let size = if n < 0 {
        -n
    } else {
        n
    };
    let k = (size + half) / quantum;
    assert(k * quantum <= size + half < k * quantum + quantum) by (nonlinear_arith)
        requires
            k == (size + half) / quantum,
            quantum > 0,
    ;
    if n == 0 {
        assert(k == 0) by (nonlinear_arith)
            requires
                k * quantum <= half,
                half < k * quantum + quantum,
                0 <= half < quantum,
        ;
    }
    let whole = rounded(n, quantum);
    assert(whole == (if n < 0 {
        -k
    } else {
        k
    }));
    assert(whole * quantum == (if n < 0 {
        -(k * quantum)
    } else {
        k * quantum
    })) by (nonlinear_arith)
        requires
            whole == (if n < 0 {
                -k
            } else {
                k
            }),
    ;
}

/// A figure of quanta is spelled as the number of them it is nearest to.
pub proof fn a_figure_spells_its_quanta(n: i64, quantum: int)
    requires
        quantum > 0,
    ensures
        exists|whole: int| #[trigger]
            nearest(n as int, quantum, whole) && (if whole < 0 {
                quantized(Quantity::Finite(n), quantum)[0] == '-' && number_in(
                    quantized(Quantity::Finite(n), quantum).skip(1),
                ) == -whole
            } else {
                number_in(quantized(Quantity::Finite(n), quantum)) == whole
            }),
{
    figures_round_to_the_nearest(n as int, quantum);
    signs_show(rounded(n as int, quantum));
}

/// How a figure's text starts.
proof fn figures_start(value: Quantity, quantum: int)
    ensures
        quantized(value, quantum).len() > 0,
        value is Nan <==> quantized(value, quantum)[0] == 'n',
        value is Infinite <==> quantized(value, quantum)[0] == 'i',
        value is Finite ==> is_digit(quantized(value, quantum)[0]) || quantized(value, quantum)[0]
            == '-',
        value is NegInfinite ==> quantized(value, quantum)[0] == '-' && quantized(
            value,
            quantum,
        ).len() > 1 && quantized(value, quantum)[1] == 'i',
        value is Finite && quantized(value, quantum)[0] == '-' ==> quantized(value, quantum).len()
            > 1 && is_digit(quantized(value, quantum)[1]),
        quantized(value, quantum)[0] != 'c',
        quantized(value, quantum)[0] != 'p',
        quantized(value, quantum)[0] != 'r',
{
    reveal_strlit("nan");
    reveal_strlit("inf");
    reveal_strlit("-inf");
    if let Quantity::Finite(n) = value {
        signs_show(rounded(n as int, quantum));
    }
}

/// Figures in front of texts that go on without a digit are read apart.
proof fn figures_read_apart(a: Quantity, b: Quantity, quantum: int, x: Seq<char>, y: Seq<char>)
    requires
        quantum > 0,
        quantized(a, quantum) + x == quantized(b, quantum) + y,
        no_digit_next(x),
        no_digit_next(y),
    ensures
        one_figure(a, b, quantum),
        quantum == 1 ==> a == b,
        x == y,
{
    let (p, q) = (quantized(a, quantum), quantized(b, quantum));
    figures_start(a, quantum);
    figures_start(b, quantum);
    assert((p + x)[0] == p[0]);
    assert((q + y)[0] == q[0]);
    if p.len() > 1 && q.len() > 1 {
        assert((p + x)[1] == p[1]);
        assert((q + y)[1] == q[1]);
    }
    match (a, b) {
        (Quantity::Finite(m), Quantity::Finite(n)) => {
            signed_numbers_read_apart(
                rounded(m as int, quantum),
                rounded(n as int, quantum),
                x,
                y,
            );
            figures_round_to_the_nearest(m as int, quantum);
            figures_round_to_the_nearest(n as int, quantum);
        },
        _ => {
            assert(a == b);
            behind_one_text(p, x, y);
        },
    }
}

proof fn levels_read_apart(a: Level, b: Level, x: Seq<char>, y: Seq<char>)
    requires
        level_form(a) + x == level_form(b) + y,
    ensures
        a == b,
        x == y,
{
    reveal_strlit("low");
    reveal_strlit("high");
    assert((level_form(a) + x)[0] == level_form(a)[0]);
    assert((level_form(b) + y)[0] == level_form(b)[0]);
    behind_one_text(level_form(a), x, y);
}

/// A ceiling in a segment's text.
spec fn ceiling(total: Option<u64>) -> Seq<char> {
    match total {
        Some(total) => decimal(total as nat),
        None => "-"@,
    }
}

/// A segment's anchor in its text.
spec fn anchor(segment: PeriodicSchedule) -> Seq<char> {
    decimal(segment.since_ns as nat) + "ns"@
}

/// A segment's text from its ceiling on.
spec fn from_ceiling(segment: PeriodicSchedule) -> Seq<char> {
    ceiling(segment.total) + (":"@ + anchor(segment))
}

/// A segment's text from its count on.
spec fn from_count(segment: PeriodicSchedule) -> Seq<char> {
    decimal(segment.emitted as nat) + (":"@ + from_ceiling(segment))
}

proof fn segment_parts(segment: PeriodicSchedule)
    ensures
        segment_form(segment) == decimal(segment.freq_hz as nat) + ("hz:"@ + from_count(segment)),
{
    let p1 = decimal(segment.freq_hz as nat);
    let p2 = p1 + "hz:"@;
    let p3 = p2 + decimal(segment.emitted as nat);
    let p4 = p3 + ":"@;
    let p5 = p4 + ceiling(segment.total);
    let p6 = p5 + ":"@;
    let p7 = p6 + decimal(segment.since_ns as nat);
    assert(segment_form(segment) == p7 + "ns"@);
    regroup(p6, decimal(segment.since_ns as nat), "ns"@);
    regroup(p5, ":"@, anchor(segment));
    regroup(p4, ceiling(segment.total), ":"@ + anchor(segment));
    regroup(p3, ":"@, from_ceiling(segment));
    regroup(p2, decimal(segment.emitted as nat), ":"@ + from_ceiling(segment));
    regroup(p1, "hz:"@, from_count(segment));
}

proof fn ceilings_read_apart(a: Option<u64>, b: Option<u64>, x: Seq<char>, y: Seq<char>)
    requires
        ceiling(a) + (":"@ + x) == ceiling(b) + (":"@ + y),
    ensures
        a == b,
        x == y,
{
    reveal_strlit(":");
    reveal_strlit("-");
    if let Some(n) = a {
        decimal_spells_its_number(n as nat);
    }
    if let Some(n) = b {
        decimal_spells_its_number(n as nat);
    }
    assert((ceiling(a) + (":"@ + x))[0] == ceiling(a)[0]);
    assert((ceiling(b) + (":"@ + y))[0] == ceiling(b)[0]);
    match (a, b) {
        (Some(m), Some(n)) => {
            number_then(m as nat, n as nat, ":"@, x, y);
        },
        _ => {
            behind_one_text("-"@, ":"@ + x, ":"@ + y);
            behind_one_text(":"@, x, y);
        },
    }
}

/// Two segments read alike only where they are one.
pub proof fn segments_read_apart(a: PeriodicSchedule, b: PeriodicSchedule)
    requires
        segment_form(a) == segment_form(b),
    ensures
        a == b,
{
    segment_parts(a);
    segment_parts(b);
    assert("hz:"@.len() > 0 && !is_digit("hz:"@[0])) by {
        reveal_strlit("hz:");
    }
    assert(":"@.len() > 0 && !is_digit(":"@[0])) by {
        reveal_strlit(":");
    }
    assert("ns"@.len() > 0 && !is_digit("ns"@[0])) by {
        reveal_strlit("ns");
    }
    number_then(a.freq_hz as nat, b.freq_hz as nat, "hz:"@, from_count(a), from_count(b));
    number_then(a.emitted as nat, b.emitted as nat, ":"@, from_ceiling(a), from_ceiling(b));
    ceilings_read_apart(a.total, b.total, anchor(a), anchor(b));
    numbers_read_apart(a.since_ns as nat, b.since_ns as nat, "ns"@, "ns"@);
}

proof fn ports_read_apart(a: TheveninDrive, b: TheveninDrive, x: Seq<char>, y: Seq<char>)
    requires
        port_form(a) + x == port_form(b) + y,
    ensures
        one_port(a, b),
        x == y,
{
    reveal_strlit("uv@");
    reveal_strlit("mohm");
    let a1 = quantized(a.impedance, 1_000) + ("mohm"@ + x);
    let b1 = quantized(b.impedance, 1_000) + ("mohm"@ + y);
    assert(port_form(a) + x =~= quantized(a.volts, 1_000_000) + ("uv@"@ + a1));
    assert(port_form(b) + y =~= quantized(b.volts, 1_000_000) + ("uv@"@ + b1));
    figures_read_apart(a.volts, b.volts, 1_000_000, "uv@"@ + a1, "uv@"@ + b1);
    behind_one_text("uv@"@, a1, b1);
    figures_read_apart(a.impedance, b.impedance, 1_000, "mohm"@ + x, "mohm"@ + y);
    behind_one_text("mohm"@, x, y);
}

/// How a state's text starts.
proof fn states_start(state: NetState)
    ensures
        state_form(state).len() > 1,
        state is Floating <==> state_form(state)[0] == 'f',
        state is Driven <==> state_form(state)[0] == 'd',
        state is Analog <==> state_form(state)[0] == 'a',
        state is Contention <==> state_form(state)[0] == 'c',
        state is Pulled <==> state_form(state)[0] == 'p' && state_form(state)[1] == 'u',
        state is Periodic <==> state_form(state)[0] == 'p' && state_form(state)[1] == 'e',
{
    reveal_strlit("floating");
    reveal_strlit("driven:");
    reveal_strlit("pulled:");
    reveal_strlit("analog:");
    reveal_strlit("contention");
    reveal_strlit("periodic:");
}

proof fn pulls_read_apart(m: Level, r: Quantity, n: Level, t: Quantity)
    requires
        state_form(NetState::Pulled(m, r)) == state_form(NetState::Pulled(n, t)),
    ensures
        m == n,
        one_figure(r, t, 1_000),
{
    assert(no_digit_next("mohm"@)) by {
        reveal_strlit("mohm");
    }
    let x = quantized(r, 1_000) + "mohm"@;
    let y = quantized(t, 1_000) + "mohm"@;
    let (p, q) = ("pulled:"@ + level_form(m), "pulled:"@ + level_form(n));
    regroup(p + ":"@, quantized(r, 1_000), "mohm"@);
    regroup(p, ":"@, x);
    regroup("pulled:"@, level_form(m), ":"@ + x);
    regroup(q + ":"@, quantized(t, 1_000), "mohm"@);
    regroup(q, ":"@, y);
    regroup("pulled:"@, level_form(n), ":"@ + y);
    behind_one_text("pulled:"@, level_form(m) + (":"@ + x), level_form(n) + (":"@ + y));
    levels_read_apart(m, n, ":"@ + x, ":"@ + y);
    behind_one_text(":"@, x, y);
    figures_read_apart(r, t, 1_000, "mohm"@, "mohm"@);
}

proof fn voltages_read_apart(u: Quantity, v: Quantity)
    requires
        state_form(NetState::Analog(u)) == state_form(NetState::Analog(v)),
    ensures
        one_figure(u, v, 1_000_000),
{
    assert(no_digit_next("uv"@)) by {
        reveal_strlit("uv");
    }
    let x = quantized(u, 1_000_000) + "uv"@;
    let y = quantized(v, 1_000_000) + "uv"@;
    regroup("analog:"@, quantized(u, 1_000_000), "uv"@);
    regroup("analog:"@, quantized(v, 1_000_000), "uv"@);
    behind_one_text("analog:"@, x, y);
    figures_read_apart(u, v, 1_000_000, "uv"@, "uv"@);
}

proof fn waves_read_apart(
    hi: Level,
    lo: Level,
    segment: PeriodicSchedule,
    h: Level,
    l: Level,
    s: PeriodicSchedule,
)
    requires
        state_form(NetState::Periodic { hi, lo, segment }) == state_form(
            NetState::Periodic { hi: h, lo: l, segment: s },
        ),
    ensures
        hi == h,
        lo == l,
        segment == s,
{
    let x1 = ":"@ + segment_form(segment);
    let y1 = ":"@ + segment_form(s);
    let x = "/"@ + (level_form(lo) + x1);
    let y = "/"@ + (level_form(l) + y1);
    let (p, q) = ("periodic:"@ + level_form(hi), "periodic:"@ + level_form(h));
    regroup(p + "/"@ + level_form(lo), ":"@, segment_form(segment));
    regroup(p + "/"@, level_form(lo), x1);
    regroup(p, "/"@, level_form(lo) + x1);
    regroup("periodic:"@, level_form(hi), x);
    regroup(q + "/"@ + level_form(l), ":"@, segment_form(s));
    regroup(q + "/"@, level_form(l), y1);
    regroup(q, "/"@, level_form(l) + y1);
    regroup("periodic:"@, level_form(h), y);
    behind_one_text("periodic:"@, level_form(hi) + x, level_form(h) + y);
    levels_read_apart(hi, h, x, y);
    behind_one_text("/"@, level_form(lo) + x1, level_form(l) + y1);
    levels_read_apart(lo, l, x1, y1);
    behind_one_text(":"@, segment_form(segment), segment_form(s));
    segments_read_apart(segment, s);
}

/// Two states read alike only where they are of one kind, with the same levels
/// and the same figures in whole quanta: a net pulled low never reads as one
/// pulled high.
pub proof fn states_read_apart(a: NetState, b: NetState)
    requires
        state_form(a) == state_form(b),
    ensures
        one_state(a, b),
{
    states_start(a);
    states_start(b);
    match (a, b) {
        (NetState::Driven(m), NetState::Driven(n)) => {
            behind_one_text("driven:"@, level_form(m), level_form(n));
            assert(level_form(m) + Seq::empty() =~= level_form(m));
            assert(level_form(n) + Seq::empty() =~= level_form(n));
            levels_read_apart(m, n, Seq::empty(), Seq::empty());
        },
        (NetState::Pulled(m, r), NetState::Pulled(n, t)) => {
            pulls_read_apart(m, r, n, t);
        },
        (NetState::Analog(u), NetState::Analog(v)) => {
            voltages_read_apart(u, v);
        },
        (
            NetState::Periodic { hi, lo, segment },
            NetState::Periodic { hi: h, lo: l, segment: s },
        ) => {
            waves_read_apart(hi, lo, segment, h, l, s);
        },
        _ => {},
    }
}

/// A state reads as what it is: its kind, and low as low and high as high.
pub proof fn a_state_reads_as_it_is(state: NetState)
    ensures
        state == NetState::Floating ==> state_form(state) == "floating"@,
        state == NetState::Contention ==> state_form(state) == "contention"@,
        state == NetState::Driven(Level::Low) ==> state_form(state) == "driven:low"@,
        state == NetState::Driven(Level::High) ==> state_form(state) == "driven:high"@,
        state matches NetState::Pulled(Level::Low, _) ==> starts_with(
            state_form(state),
            "pulled:low:"@,
        ),
        state matches NetState::Pulled(Level::High, _) ==> starts_with(
            state_form(state),
            "pulled:high:"@,
        ),
        state is Analog ==> starts_with(state_form(state), "analog:"@),
        state matches NetState::Periodic { hi: Level::High, lo: Level::Low, .. } ==> starts_with(
            state_form(state),
            "periodic:high/low:"@,
        ),
        state matches NetState::Periodic { hi: Level::Low, lo: Level::High, .. } ==> starts_with(
            state_form(state),
            "periodic:low/high:"@,
        ),
{
    reveal_strlit("driven:");
    reveal_strlit("pulled:");
    reveal_strlit("analog:");
    reveal_strlit("periodic:");
    reveal_strlit("low");
    reveal_strlit("high");
    reveal_strlit(":");
    reveal_strlit("/");
    reveal_strlit("driven:low");
    reveal_strlit("driven:high");
    reveal_strlit("pulled:low:");
    reveal_strlit("pulled:high:");
    reveal_strlit("periodic:high/low:");
    reveal_strlit("periodic:low/high:");
    let form = state_form(state);
    match state {
        NetState::Driven(Level::Low) => {
            assert(form =~= "driven:low"@);
        },
        NetState::Driven(Level::High) => {
            assert(form =~= "driven:high"@);
        },
        NetState::Pulled(Level::Low, _) => {
            assert(form.subrange(0, 11) =~= "pulled:low:"@);
        },
        NetState::Pulled(Level::High, _) => {
            assert(form.subrange(0, 12) =~= "pulled:high:"@);
        },
        NetState::Analog(_) => {
            assert(form.subrange(0, 7) =~= "analog:"@);
        },
        NetState::Periodic { hi: Level::High, lo: Level::Low, .. } => {
            assert(form.subrange(0, 18) =~= "periodic:high/low:"@);
        },
        NetState::Periodic { hi: Level::Low, lo: Level::High, .. } => {
            assert(form.subrange(0, 18) =~= "periodic:low/high:"@);
        },
        _ => {},
    }
}

/// How a contribution's text starts.
proof fn drives_start(drive: Option<Drive>)
    ensures
        drive_form(drive).len() > 0,
        drive is None <==> drive_form(drive)[0] == 'r',
        (drive is Some && drive->0 is Current) <==> drive_form(drive)[0] == 'c',
        (drive is Some && drive->0 is Periodic) <==> drive_form(drive)[0] == 'p',
{
    reveal_strlit("release");
    reveal_strlit("current:");
    reveal_strlit("periodic:");
    if let Some(Drive::Thevenin(port)) = drive {
        figures_start(port.volts, 1_000_000);
        assert(drive_form(drive)[0] == quantized(port.volts, 1_000_000)[0]);
    }
}

/// Two contributions read alike only where they are one in whole quanta.
pub proof fn drives_read_apart(a: Option<Drive>, b: Option<Drive>)
    requires
        drive_form(a) == drive_form(b),
    ensures
        one_drive(a, b),
{
    drives_start(a);
    drives_start(b);
    reveal_strlit("pa");
    match (a, b) {
        (Some(Drive::Thevenin(p)), Some(Drive::Thevenin(q))) => {
            assert(port_form(p) + Seq::empty() =~= port_form(p));
            assert(port_form(q) + Seq::empty() =~= port_form(q));
            ports_read_apart(p, q, Seq::empty(), Seq::empty());
        },
        (Some(Drive::Current { amps: i }), Some(Drive::Current { amps: j })) => {
            let x = quantized(i, 1) + "pa"@;
            let y = quantized(j, 1) + "pa"@;
            assert(drive_form(a) =~= "current:"@ + x);
            assert(drive_form(b) =~= "current:"@ + y);
            behind_one_text("current:"@, x, y);
            figures_read_apart(i, j, 1, "pa"@, "pa"@);
        },
        (
            Some(Drive::Periodic { hi, lo, segment }),
            Some(Drive::Periodic { hi: h, lo: l, segment: s }),
        ) => {
            let x1 = ":"@ + segment_form(segment);
            let y1 = ":"@ + segment_form(s);
            let x = "/"@ + (port_form(lo) + x1);
            let y = "/"@ + (port_form(l) + y1);
            assert(drive_form(a) =~= "periodic:"@ + (port_form(hi) + x));
            assert(drive_form(b) =~= "periodic:"@ + (port_form(h) + y));
            behind_one_text("periodic:"@, port_form(hi) + x, port_form(h) + y);
            ports_read_apart(hi, h, x, y);
            behind_one_text("/"@, port_form(lo) + x1, port_form(l) + y1);
            ports_read_apart(lo, l, x1, y1);
            behind_one_text(":"@, segment_form(segment), segment_form(s));
            segments_read_apart(segment, s);
        },
        _ => {},
    }
}

/// Whether two events say the same, in whole quanta; of findings only that
/// both are.
pub open spec fn one_event(a: EngineEvent, b: EngineEvent) -> bool {
    match (a, b) {
        (
            EngineEvent::DriveApplied { seq, endpoint, drive },
            EngineEvent::DriveApplied { seq: s, endpoint: e, drive: d },
        ) => seq == s && endpoint.0 == e.0 && one_drive(drive, d),
        (
            EngineEvent::NetResolved { net, state },
            EngineEvent::NetResolved { net: n, state: s },
        ) => net.0 == n.0 && one_state(state, s),
        (
            EngineEvent::SenseDelivered { net, state },
            EngineEvent::SenseDelivered { net: n, state: s },
        ) => net.0 == n.0 && one_state(state, s),
        (EngineEvent::Wake { component }, EngineEvent::Wake { component: c }) => component.0 == c.0,
        (
            EngineEvent::StreamByte { producer, consumer, byte },
            EngineEvent::StreamByte { producer: p, consumer: c, byte: b },
        ) => producer.0 == p.0 && consumer.0 == c.0 && byte == b,
        (EngineEvent::Reroute { epoch }, EngineEvent::Reroute { epoch: e }) => epoch == e,
        (EngineEvent::Finding(_), EngineEvent::Finding(_)) => true,
        _ => false,
    }
}

/// Two events read alike only where they say the same.
pub proof fn events_read_apart(a: EngineEvent, b: EngineEvent)
    requires
        event_form(a@) == event_form(b@),
    ensures
        one_event(a, b),
{
    kinds_read_apart(a@, b@);
    reveal_strlit(" endpoint=");
    reveal_strlit(" drive=");
    reveal_strlit(" state=");
    reveal_strlit(" consumer=");
    reveal_strlit(" byte=");
    let none = Seq::<char>::empty();
    match (a, b) {
        (
            EngineEvent::DriveApplied { seq, endpoint, drive },
            EngineEvent::DriveApplied { seq: s, endpoint: e, drive: d },
        ) => {
            let x2 = " drive="@ + drive_form(drive);
            let y2 = " drive="@ + drive_form(d);
            let x1 = " endpoint="@ + (decimal(endpoint.0 as nat) + x2);
            let y1 = " endpoint="@ + (decimal(e.0 as nat) + y2);
            let x = decimal(seq as nat) + x1;
            let y = decimal(s as nat) + y1;
            assert(event_form(a@) =~= "drive_applied seq="@ + x);
            assert(event_form(b@) =~= "drive_applied seq="@ + y);
            behind_one_text("drive_applied seq="@, x, y);
            numbers_read_apart(seq as nat, s as nat, x1, y1);
            behind_one_text(
                " endpoint="@,
                decimal(endpoint.0 as nat) + x2,
                decimal(e.0 as nat) + y2,
            );
            numbers_read_apart(endpoint.0 as nat, e.0 as nat, x2, y2);
            behind_one_text(" drive="@, drive_form(drive), drive_form(d));
            drives_read_apart(drive, d);
        },
        (
            EngineEvent::NetResolved { net, state },
            EngineEvent::NetResolved { net: n, state: s },
        ) => {
            named_states_read_apart("net_resolved net="@, net.0 as nat, n.0 as nat, state, s);
        },
        (
            EngineEvent::SenseDelivered { net, state },
            EngineEvent::SenseDelivered { net: n, state: s },
        ) => {
            named_states_read_apart("sense net="@, net.0 as nat, n.0 as nat, state, s);
        },
        (EngineEvent::Wake { component }, EngineEvent::Wake { component: c }) => {
            behind_one_text(
                "wake component="@,
                decimal(component.0 as nat),
                decimal(c.0 as nat),
            );
            assert(decimal(component.0 as nat) + none =~= decimal(component.0 as nat));
            assert(decimal(c.0 as nat) + none =~= decimal(c.0 as nat));
            numbers_read_apart(component.0 as nat, c.0 as nat, none, none);
        },
        (
            EngineEvent::StreamByte { producer, consumer, byte },
            EngineEvent::StreamByte { producer: p, consumer: c, byte: other },
        ) => {
            let x2 = " byte="@ + hex_byte(byte);
            let y2 = " byte="@ + hex_byte(other);
            let x1 = " consumer="@ + (decimal(consumer.0 as nat) + x2);
            let y1 = " consumer="@ + (decimal(c.0 as nat) + y2);
            let x = decimal(producer.0 as nat) + x1;
            let y = decimal(p.0 as nat) + y1;
            assert(event_form(a@) =~= "stream_byte producer="@ + x);
            assert(event_form(b@) =~= "stream_byte producer="@ + y);
            behind_one_text("stream_byte producer="@, x, y);
            numbers_read_apart(producer.0 as nat, p.0 as nat, x1, y1);
            behind_one_text(
                " consumer="@,
                decimal(consumer.0 as nat) + x2,
                decimal(c.0 as nat) + y2,
            );
            numbers_read_apart(consumer.0 as nat, c.0 as nat, x2, y2);
            behind_one_text(" byte="@, hex_byte(byte), hex_byte(other));
            bytes_read_apart(byte, other);
        },
        (EngineEvent::Reroute { epoch }, EngineEvent::Reroute { epoch: e }) => {
            behind_one_text("reroute epoch="@, decimal(epoch as nat), decimal(e as nat));
            assert(decimal(epoch as nat) + none =~= decimal(epoch as nat));
            assert(decimal(e as nat) + none =~= decimal(e as nat));
            numbers_read_apart(epoch as nat, e as nat, none, none);
        },
        _ => {},
    }
}

proof fn named_states_read_apart(
    kind: Seq<char>,
    a_net: nat,
    b_net: nat,
    a: NetState,
    b: NetState,
)
    requires
        kind + decimal(a_net) + " state="@ + state_form(a) == kind + decimal(b_net) + " state="@
            + state_form(b),
    ensures
        a_net == b_net,
        one_state(a, b),
{
    reveal_strlit(" state=");
    let x1 = " state="@ + state_form(a);
    let y1 = " state="@ + state_form(b);
    assert(kind + decimal(a_net) + " state="@ + state_form(a) =~= kind + (decimal(a_net) + x1));
    assert(kind + decimal(b_net) + " state="@ + state_form(b) =~= kind + (decimal(b_net) + y1));
    behind_one_text(kind, decimal(a_net) + x1, decimal(b_net) + y1);
    numbers_read_apart(a_net, b_net, x1, y1);
    behind_one_text(" state="@, state_form(a), state_form(b));
    states_read_apart(a, b);
}

/// Two records' lines are alike only where their places, their instants and
/// what they say are: runs that compare equal are the same run.
pub proof fn lines_read_apart(a: EngineEventRecord, b: EngineEventRecord)
    ensures
        line(a@) == line(b@) ==> a.seq == b.seq && a.v_us == b.v_us && one_event(a.event, b.event),
        shape_line(a@) == shape_line(b@) ==> a.seq == b.seq && one_event(a.event, b.event),
{
    reveal_strlit(" v=");
    reveal_strlit(" ");
    let x2 = " "@ + event_form(a.event@);
    let y2 = " "@ + event_form(b.event@);
    if line(a@) == line(b@) {
        let x1 = " v="@ + (decimal(a.v_us as nat) + x2);
        let y1 = " v="@ + (decimal(b.v_us as nat) + y2);
        assert(line(a@) =~= decimal(a.seq as nat) + x1);
        assert(line(b@) =~= decimal(b.seq as nat) + y1);
        numbers_read_apart(a.seq as nat, b.seq as nat, x1, y1);
        behind_one_text(" v="@, decimal(a.v_us as nat) + x2, decimal(b.v_us as nat) + y2);
        numbers_read_apart(a.v_us as nat, b.v_us as nat, x2, y2);
        behind_one_text(" "@, event_form(a.event@), event_form(b.event@));
        events_read_apart(a.event, b.event);
    }
    if shape_line(a@) == shape_line(b@) {
        assert(shape_line(a@) =~= decimal(a.seq as nat) + x2);
        assert(shape_line(b@) =~= decimal(b.seq as nat) + y2);
        numbers_read_apart(a.seq as nat, b.seq as nat, x2, y2);
        behind_one_text(" "@, event_form(a.event@), event_form(b.event@));
        events_read_apart(a.event, b.event);
    }
}

/// A line names what its record holds: the place, the instant, the kind, and
/// the parties to it.
pub proof fn a_line_names_what_it_holds(a: EngineEventRecord)
    ensures
        starts_with(line(a@), decimal(a.seq as nat) + " v="@ + decimal(a.v_us as nat) + " "@),
        starts_with(shape_line(a@), decimal(a.seq as nat) + " "@),
        line(a@).skip((decimal(a.seq as nat) + " v="@ + decimal(a.v_us as nat)).len() as int)
            == shape_line(a@).skip(decimal(a.seq as nat).len() as int),
        a.event matches EngineEvent::NetResolved { net, state } ==> event_form(a.event@)
            == "net_resolved net="@ + decimal(net.0 as nat) + " state="@ + state_form(state),
        a.event matches EngineEvent::SenseDelivered { net, state } ==> event_form(a.event@)
            == "sense net="@ + decimal(net.0 as nat) + " state="@ + state_form(state),
        a.event matches EngineEvent::DriveApplied { seq, endpoint, drive } ==> starts_with(
            event_form(a.event@),
            "drive_applied seq="@ + decimal(seq as nat) + " endpoint="@ + decimal(
                endpoint.0 as nat,
            ) + " drive="@,
        ),
        a.event matches EngineEvent::Wake { component } ==> event_form(a.event@)
            == "wake component="@ + decimal(component.0 as nat),
        a.event matches EngineEvent::Reroute { epoch } ==> event_form(a.event@)
            == "reroute epoch="@ + decimal(epoch as nat),
        a.event matches EngineEvent::StreamByte { producer, consumer, byte } ==> event_form(
            a.event@,
        ) == "stream_byte producer="@ + decimal(producer.0 as nat) + " consumer="@ + decimal(
            consumer.0 as nat,
        ) + " byte="@ + hex_byte(byte),
        a.event is Finding ==> starts_with(event_form(a.event@), "finding "@),
{
    let event = event_form(a.event@);
    let head = decimal(a.seq as nat) + " v="@ + decimal(a.v_us as nat) + " "@;
    assert(line(a@).subrange(0, head.len() as int) =~= head);
    let short = decimal(a.seq as nat) + " "@;
    assert(shape_line(a@).subrange(0, short.len() as int) =~= short);
    let stamped = decimal(a.seq as nat) + " v="@ + decimal(a.v_us as nat);
    assert(line(a@).skip(stamped.len() as int) =~= " "@ + event);
    assert(shape_line(a@).skip(decimal(a.seq as nat).len() as int) =~= " "@ + event);
    match a.event {
        EngineEvent::DriveApplied { seq, endpoint, drive } => {
            let start = "drive_applied seq="@ + decimal(seq as nat) + " endpoint="@ + decimal(
                endpoint.0 as nat,
            ) + " drive="@;
            assert(event.subrange(0, start.len() as int) =~= start);
        },
        EngineEvent::Finding(_) => {
            assert(event.subrange(0, "finding "@.len() as int) =~= "finding "@);
        },
        _ => {},
    }
}

/// A contribution reads as what it is: a voltage in microvolts and then the
/// milliohms it is behind, a current in picoamperes, the two ports of a wave
/// high first and its segment, or a release.
pub proof fn a_drive_reads_as_it_is(
    port: TheveninDrive,
    amps: Quantity,
    hi: TheveninDrive,
    lo: TheveninDrive,
    segment: PeriodicSchedule,
)
    ensures
        drive_form(None) == "release"@,
        drive_form(Some(Drive::Thevenin(port))) == quantized(port.volts, 1_000_000) + "uv@"@
            + quantized(port.impedance, 1_000) + "mohm"@,
        drive_form(Some(Drive::Current { amps })) == "current:"@ + quantized(amps, 1) + "pa"@,
        starts_with(
            drive_form(Some(Drive::Periodic { hi, lo, segment })),
            "periodic:"@ + drive_form(Some(Drive::Thevenin(hi))) + "/"@ + drive_form(
                Some(Drive::Thevenin(lo)),
            ) + ":"@,
        ),
{
    let text = drive_form(Some(Drive::Periodic { hi, lo, segment }));
    let start = "periodic:"@ + port_form(hi) + "/"@ + port_form(lo) + ":"@;
    assert(text.subrange(0, start.len() as int) =~= start);
}

/// A segment reads as its rate in hertz, its count, its ceiling where it has
/// one, and the nanosecond it is anchored at.
pub proof fn a_segment_reads_as_it_is(segment: PeriodicSchedule)
    ensures
        starts_with(
            segment_form(segment),
            decimal(segment.freq_hz as nat) + "hz:"@ + decimal(segment.emitted as nat) + ":"@,
        ),
        segment.total is None ==> segment_form(segment) == decimal(segment.freq_hz as nat) + "hz:"@
            + decimal(segment.emitted as nat) + ":"@ + "-"@ + ":"@ + decimal(
            segment.since_ns as nat,
        ) + "ns"@,
        segment.total matches Some(total) ==> segment_form(segment) == decimal(
            segment.freq_hz as nat,
        ) + "hz:"@ + decimal(segment.emitted as nat) + ":"@ + decimal(total as nat) + ":"@ + decimal(
            segment.since_ns as nat,
        ) + "ns"@,
{
    let start = decimal(segment.freq_hz as nat) + "hz:"@ + decimal(segment.emitted as nat) + ":"@;
    assert(segment_form(segment).subrange(0, start.len() as int) =~= start);
}

/// A state's figure is in its unit: the ohms of a pull in milliohms behind its
/// level, a voltage in microvolts.
pub proof fn a_states_figure_is_in_its_unit(level: Level, ohms: Quantity, volts: Quantity)
    ensures
        state_form(NetState::Pulled(level, ohms)) == (if level == Level::Low {
            "pulled:low:"@
        } else {
            "pulled:high:"@
        }) + quantized(ohms, 1_000) + "mohm"@,
        state_form(NetState::Analog(volts)) == "analog:"@ + quantized(volts, 1_000_000) + "uv"@,
        quantized(Quantity::Nan, 1_000) == "nan"@,
        quantized(Quantity::Infinite, 1_000) == "inf"@,
        quantized(Quantity::NegInfinite, 1_000) == "-inf"@,
{
    reveal_strlit("pulled:");
    reveal_strlit("low");
    reveal_strlit("high");
    reveal_strlit(":");
    reveal_strlit("pulled:low:");
    reveal_strlit("pulled:high:");
    assert("pulled:"@ + level_form(Level::Low) + ":"@ =~= "pulled:low:"@);
    assert("pulled:"@ + level_form(Level::High) + ":"@ =~= "pulled:high:"@);
}

/// A log that records has every event that was written, as it was written and
/// when, numbered by its place; one that is off has none.
pub proof fn a_write_is_recorded_as_it_is(
    log: Seq<RecordView>,
    event: EventView,
    v_us: u64,
    i: int,
)
    requires
        log.len() <= u64::MAX,
    ensures
        logged(Some(log), event, v_us) is Some,
        logged(Some(log), event, v_us)->0.len() == log.len() + 1,
        logged(Some(log), event, v_us)->0[log.len() as int].event == event,
        logged(Some(log), event, v_us)->0[log.len() as int].v_us == v_us,
        logged(Some(log), event, v_us)->0[log.len() as int].seq == log.len(),
        0 <= i < log.len() ==> logged(Some(log), event, v_us)->0[i] == log[i],
        logged(None, event, v_us) is None,
        recorded(None).len() == 0,
        recorded(Some(log)) == log,
{
}

} // verus!
