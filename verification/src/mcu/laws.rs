//! What a controller's channels carry.
use vstd::prelude::*;

use crate::mcu::{
    active_level, bridged_gpio_requests, built_channels_are_known, claimed, count_after,
    decoded_bytes, encoder_requests, gpio_requests, granted, granted_pins_are_distinct, input_read,
    output_action, pin_text, pulse_requests, pump_after, refusal, serial_requests, step_wave,
    EncoderChannelConfig, GpioChannelConfig, GpioDirection, McuBuildError, McuPin, McuPlan,
    PinAction, PinKind, PulseOutChannelConfig, PumpRead, PumpStep, QuadratureSlip, QuadratureState,
    Request, SerialChannelConfig,
};
use crate::net::{Drive, Level, PeriodicSchedule, TheveninDrive};
use crate::quantity::Quantity;
use crate::text::decimal;
use crate::text::laws::{decimal_spells_its_number, number_in};

verus! {

/// What is delivered is the bytes of the frames that decoded, each once and in
/// order: as many as decoded, whatever the bytes are.
pub proof fn every_decoded_byte_is_delivered<F>(frames: Seq<Result<u8, F>>)
    ensures
        decoded_bytes(frames) == frames.filter(|frame: Result<u8, F>| frame is Ok).map_values(
            |frame: Result<u8, F>| frame->Ok_0,
        ),
        decoded_bytes(frames).len() == frames.filter(|frame: Result<u8, F>| frame is Ok).len(),
    decreases frames.len(),
{
    reveal(Seq::filter);
    let ok = |frame: Result<u8, F>| frame is Ok;
    let byte = |frame: Result<u8, F>| frame->Ok_0;
    if frames.len() > 0 {
        every_decoded_byte_is_delivered(frames.drop_last());
    }
    assert(decoded_bytes(frames) =~= frames.filter(ok).map_values(byte));
}

/// Where every frame decoded, the i-th byte delivered is the i-th frame's and
/// there are as many as there were frames.
pub proof fn well_framed_bytes_are_delivered_one_for_one<F>(frames: Seq<Result<u8, F>>)
    requires
        forall|i: int| 0 <= i < frames.len() ==> (#[trigger] frames[i]) is Ok,
    ensures
        decoded_bytes(frames).len() == frames.len(),
        forall|i: int|
            0 <= i < frames.len() ==> Ok::<u8, F>(#[trigger] decoded_bytes(frames)[i]) == frames[i],
    decreases frames.len(),
{
    if frames.len() > 0 {
        let front = frames.drop_last();
        assert forall|i: int| 0 <= i < front.len() implies (#[trigger] front[i]) is Ok by {
            assert(front[i] == frames[i]);
        }
        well_framed_bytes_are_delivered_one_for_one(front);
        let last = frames[frames.len() - 1];
        assert(last is Ok);
        assert forall|i: int| 0 <= i < frames.len() implies Ok::<u8, F>(
            #[trigger] decoded_bytes(frames)[i],
        ) == frames[i] by {
            if i < front.len() {
                assert(decoded_bytes(frames)[i] == decoded_bytes(front)[i]);
                assert(front[i] == frames[i]);
            }
        }
    }
}

/// How the wire's frames are batched is immaterial: two deliveries behind one
/// another are one of all their frames.
pub proof fn deliveries_join<F>(a: Seq<Result<u8, F>>, b: Seq<Result<u8, F>>)
    ensures
        decoded_bytes(a + b) == decoded_bytes(a) + decoded_bytes(b),
    decreases b.len(),
{
    if b.len() == 0 {
        assert(a + b =~= a);
        assert(decoded_bytes(a) + decoded_bytes(b) =~= decoded_bytes(a));
    } else {
        deliveries_join(a, b.drop_last());
        assert((a + b).drop_last() =~= a + b.drop_last());
        assert(decoded_bytes(a + b) =~= decoded_bytes(a) + decoded_bytes(b));
    }
}

/// A frame that did not decode delivers nothing, and one that did its byte.
pub proof fn a_frame_delivers_its_byte<F>(byte: u8, error: F)
    ensures
        decoded_bytes(seq![Ok::<u8, F>(byte)]) == seq![byte],
        decoded_bytes(seq![Err::<u8, F>(error)]) == Seq::<u8>::empty(),
{
    let ok = seq![Ok::<u8, F>(byte)];
    let err = seq![Err::<u8, F>(error)];
    reveal_with_fuel(decoded_bytes, 2);
    assert(ok.drop_last() =~= Seq::empty());
    assert(err.drop_last() =~= Seq::empty());
    assert(decoded_bytes(ok) =~= seq![byte]);
}

/// The pump forwards exactly what it read, goes on after an interruption, parks
/// where there is nothing, and stops once its peer is gone.
pub proof fn the_pump_forwards_what_it_read(n: usize)
    ensures
        n > 0 ==> pump_after(PumpRead::Bytes(n)) == PumpStep::Forward(n),
        pump_after(PumpRead::Bytes(0)) == PumpStep::Stop,
        pump_after(PumpRead::Closed) == PumpStep::Stop,
        pump_after(PumpRead::Failed) == PumpStep::Stop,
        pump_after(PumpRead::WouldBlock) == PumpStep::Park,
        pump_after(PumpRead::Interrupted) == PumpStep::Again,
{
}

/// A running controller's output is seen by whoever reads the pin: what the
/// firmware writes is driven at the channel's polarity, and reads back as what
/// was written.
pub proof fn an_output_drives_what_was_written(
    active: bool,
    active_low: bool,
    port: Option<TheveninDrive>,
)
    ensures
        ({
            let volts = if active != active_low {
                Quantity::Finite(3_300_000_000_000)
            } else {
                Quantity::Finite(0)
            };
            output_action(false, true, active, active_low, false, port) == PinAction::Drive(
                Drive::Thevenin(
                    TheveninDrive { volts, impedance: Quantity::Finite(25_000_000) },
                ),
            )
        }),
        port matches Some(pad) ==> output_action(false, true, active, active_low, true, port)
            == PinAction::Drive(Drive::Thevenin(pad)),
        port is None ==> output_action(false, true, active, active_low, true, port)
            == PinAction::Release,
        output_action(true, true, active, active_low, false, port) == PinAction::Keep,
        output_action(false, false, active, active_low, false, port) == PinAction::Keep,
        input_read(false, Some(active_level(active, active_low)), active_low) == Some(active),
        input_read(false, Some(Level::High), false) == Some(true),
        input_read(false, Some(Level::Low), false) == Some(false),
        input_read(false, Some(Level::High), true) == Some(false),
        input_read(false, Some(Level::Low), true) == Some(true),
        input_read(false, None, active_low) is None,
        input_read(true, Some(Level::High), active_low) is None,
{
}

/// A step pin alternates between the pad's own ports, by the segment it is
/// given; a pad without a supply presents nothing.
pub proof fn a_step_pin_follows_its_segment(
    high: Option<TheveninDrive>,
    low: Option<TheveninDrive>,
    segment: PeriodicSchedule,
)
    ensures
        high is Some && low is Some ==> step_wave(true, high, low, segment) == Some(
            Drive::Periodic { hi: high->0, lo: low->0, segment },
        ),
        high is None || low is None ==> step_wave(true, high, low, segment) is None,
        step_wave(false, high, low, segment) matches Some(Drive::Periodic { hi, lo, segment: s })
            && hi.volts == Quantity::Finite(3_300_000_000_000) && lo.volts == Quantity::Finite(0)
            && s == segment,
{
}

/// A quadrature signal counts up one for every edge in the order low-low,
/// high-low, high-high, low-high, and down one for every edge in the other,
/// whichever phase is delivered; a phase delivered again counts nothing.
pub proof fn a_quadrature_signal_counts_its_edges(
    state: QuadratureState,
    a: bool,
    b: bool,
    first_phase: bool,
    level: Level,
)
    requires
        state.a == Some(a),
        state.b == Some(b),
        state.position == state.pair(),
    ensures
        ({
            let high = level == Level::High;
            let (c, d) = if first_phase {
                (high, b)
            } else {
                (a, high)
            };
            let up = (!a && !b && c && !d) || (a && !b && c && d) || (a && b && !c && d) || (!a && b
                && !c && !d);
            let counted = state.counts(first_phase, level);
            let then = state.sensed(first_phase, level);
            &&& then.a == Some(c)
            &&& then.b == Some(d)
            &&& then.position == then.pair()
            &&& c == a && d == b ==> counted == Ok::<Option<i32>, QuadratureSlip>(None)
            &&& (c != a || d != b) && up ==> counted == Ok::<Option<i32>, QuadratureSlip>(Some(1))
            &&& (c != a || d != b) && !up ==> counted == Ok::<Option<i32>, QuadratureSlip>(
                Some((-1) as i32),
            )
        }),
{
}

/// Nothing is counted until both phases are known, nor at the first pair.
pub proof fn a_first_pair_counts_nothing(state: QuadratureState, first_phase: bool, level: Level)
    requires
        state.position is None,
    ensures
        state.counts(first_phase, level) == Ok::<Option<i32>, QuadratureSlip>(None),
        first_phase ==> state.sensed(first_phase, level).a == Some(level == Level::High)
            && state.sensed(first_phase, level).b == state.b,
        !first_phase ==> state.sensed(first_phase, level).b == Some(level == Level::High)
            && state.sensed(first_phase, level).a == state.a,
{
}

/// A counter moves by its count, and stays at a limit it would pass.
pub proof fn a_counter_moves_by_its_count(current: i32, delta: i32)
    ensures
        i32::MIN <= current + delta <= i32::MAX ==> count_after(current, delta) == current + delta,
        current + delta > i32::MAX ==> count_after(current, delta) == i32::MAX,
        current + delta < i32::MIN ==> count_after(current, delta) == i32::MIN,
{
}

/// Pins are named by their number.
pub proof fn pins_are_named_by_number(a: u32, b: u32)
    ensures
        pin_text(a)[0] == 'P',
        number_in(pin_text(a).skip(1)) == a,
        pin_text(a) == pin_text(b) ==> a == b,
{
    decimal_spells_its_number(a as nat);
    decimal_spells_its_number(b as nat);
    assert(pin_text(a).skip(1) =~= decimal(a as nat));
    assert(pin_text(b).skip(1) =~= decimal(b as nat));
}

proof fn joined_keeps(a: Seq<Request>, b: Seq<Request>, request: Request)
    ensures
        a.contains(request) || b.contains(request) ==> (a + b).contains(request),
{
    if a.contains(request) {
        let i = choose|i: int| 0 <= i < a.len() && a[i] == request;
        assert((a + b)[i] == request);
    }
    if b.contains(request) {
        let i = choose|i: int| 0 <= i < b.len() && b[i] == request;
        assert((a + b)[a.len() + i] == request);
    }
}

proof fn pushed_keeps(list: Seq<Request>, last: Request, request: Request)
    ensures
        list.push(last).contains(request) <==> list.contains(request) || request == last,
{
    let all = list.push(last);
    if list.contains(request) {
        let i = choose|i: int| 0 <= i < list.len() && list[i] == request;
        assert(all[i] == request);
    }
    assert(all[list.len() as int] == last);
    if all.contains(request) {
        let i = choose|i: int| 0 <= i < all.len() && all[i] == request;
        if i < list.len() {
            assert(list[i] == request);
        }
    }
}

proof fn serial_is_requested(table: Seq<SerialChannelConfig>, channels: Seq<usize>, k: nat, i: int)
    requires
        0 <= i < k <= channels.len(),
        channels[i] < table.len(),
    ensures
        serial_requests(table, channels, k).contains(
            Request::Claim(
                McuPin { pin: table[channels[i] as int].tx_pin, kind: PinKind::DigitalOut },
            ),
        ),
        serial_requests(table, channels, k).contains(
            Request::Claim(
                McuPin { pin: table[channels[i] as int].rx_pin, kind: PinKind::DigitalIn },
            ),
        ),
    decreases k,
{
    let tx = Request::Claim(
        McuPin { pin: table[channels[i] as int].tx_pin, kind: PinKind::DigitalOut },
    );
    let rx = Request::Claim(
        McuPin { pin: table[channels[i] as int].rx_pin, kind: PinKind::DigitalIn },
    );
    let rest = serial_requests(table, channels, (k - 1) as nat);
    let all = serial_requests(table, channels, k);
    if i == k - 1 {
        assert(all[rest.len() as int] == tx);
        assert(all[rest.len() as int + 1] == rx);
    } else {
        serial_is_requested(table, channels, (k - 1) as nat, i);
        assert forall|request: Request| #[trigger] rest.contains(request) implies all.contains(
            request,
        ) by {
            let j = choose|j: int| 0 <= j < rest.len() && rest[j] == request;
            assert(all[j] == request);
        }
    }
}

proof fn encoder_is_requested(
    table: Seq<EncoderChannelConfig>,
    channels: Seq<usize>,
    k: nat,
    i: int,
)
    requires
        0 <= i < k <= channels.len(),
        channels[i] < table.len(),
    ensures
        encoder_requests(table, channels, k).contains(
            Request::Claim(
                McuPin { pin: table[channels[i] as int].pin_a, kind: PinKind::DigitalIn },
            ),
        ),
        encoder_requests(table, channels, k).contains(
            Request::Claim(
                McuPin { pin: table[channels[i] as int].pin_b, kind: PinKind::DigitalIn },
            ),
        ),
    decreases k,
{
    let a = Request::Claim(
        McuPin { pin: table[channels[i] as int].pin_a, kind: PinKind::DigitalIn },
    );
    let b = Request::Claim(
        McuPin { pin: table[channels[i] as int].pin_b, kind: PinKind::DigitalIn },
    );
    let rest = encoder_requests(table, channels, (k - 1) as nat);
    let all = encoder_requests(table, channels, k);
    if i == k - 1 {
        assert(all[rest.len() as int] == a);
        assert(all[rest.len() as int + 1] == b);
    } else {
        encoder_is_requested(table, channels, (k - 1) as nat, i);
        assert forall|request: Request| #[trigger] rest.contains(request) implies all.contains(
            request,
        ) by {
            let j = choose|j: int| 0 <= j < rest.len() && rest[j] == request;
            assert(all[j] == request);
        }
    }
}

proof fn gpio_is_requested(gpio: Seq<(GpioChannelConfig, GpioDirection)>, k: nat, i: int)
    requires
        0 <= i < k <= gpio.len(),
    ensures
        gpio_requests(gpio, k).contains(
            Request::Claim(
                McuPin {
                    pin: gpio[i].0.pin,
                    kind: if gpio[i].1 == GpioDirection::Output {
                        PinKind::DigitalOut
                    } else {
                        PinKind::DigitalIn
                    },
                },
            ),
        ),
    decreases k,
{
    let request = Request::Claim(
        McuPin {
            pin: gpio[i].0.pin,
            kind: if gpio[i].1 == GpioDirection::Output {
                PinKind::DigitalOut
            } else {
                PinKind::DigitalIn
            },
        },
    );
    let rest = gpio_requests(gpio, (k - 1) as nat);
    let last = gpio_requests(gpio, k).last();
    assert(gpio_requests(gpio, k) == rest.push(last));
    if i < k - 1 {
        gpio_is_requested(gpio, (k - 1) as nat, i);
    }
    pushed_keeps(rest, last, request);
}

proof fn bridged_gpio_is_requested(
    table: Seq<GpioChannelConfig>,
    channels: Seq<(usize, GpioDirection)>,
    k: nat,
    i: int,
)
    requires
        0 <= i < k <= channels.len(),
        channels[i].0 < table.len(),
    ensures
        bridged_gpio_requests(table, channels, k).contains(
            Request::Claim(
                McuPin {
                    pin: table[channels[i].0 as int].pin,
                    kind: if channels[i].1 == GpioDirection::Output {
                        PinKind::DigitalOut
                    } else {
                        PinKind::DigitalIn
                    },
                },
            ),
        ),
    decreases k,
{
    let request = Request::Claim(
        McuPin {
            pin: table[channels[i].0 as int].pin,
            kind: if channels[i].1 == GpioDirection::Output {
                PinKind::DigitalOut
            } else {
                PinKind::DigitalIn
            },
        },
    );
    let rest = bridged_gpio_requests(table, channels, (k - 1) as nat);
    let all = bridged_gpio_requests(table, channels, k);
    assert(all == rest.push(all.last()));
    if i < k - 1 {
        bridged_gpio_is_requested(table, channels, (k - 1) as nat, i);
    }
    pushed_keeps(rest, all.last(), request);
}

proof fn pulse_is_requested(
    table: Seq<PulseOutChannelConfig>,
    channels: Seq<usize>,
    k: nat,
    i: int,
)
    requires
        0 <= i < k <= channels.len(),
        channels[i] < table.len(),
    ensures
        pulse_requests(table, channels, k).contains(
            Request::Claim(
                McuPin { pin: table[channels[i] as int].pin, kind: PinKind::DigitalOut },
            ),
        ),
    decreases k,
{
    let request = Request::Claim(
        McuPin { pin: table[channels[i] as int].pin, kind: PinKind::DigitalOut },
    );
    let rest = pulse_requests(table, channels, (k - 1) as nat);
    let all = pulse_requests(table, channels, k);
    assert(all == rest.push(all.last()));
    if i < k - 1 {
        pulse_is_requested(table, channels, (k - 1) as nat, i);
    }
    pushed_keeps(rest, all.last(), request);
}

proof fn requested_is_declared(plan: McuPlan, pin: McuPin)
    requires
        plan.pins() is Ok,
        plan.requests().contains(Request::Claim(pin)),
    ensures
        plan.pins()->Ok_0.contains(pin),
{
    let all = plan.requests();
    granted_pins_are_distinct(all, all.len());
    let pins = plan.pins()->Ok_0;
    let i = choose|i: int| 0 <= i < all.len() && all[i] == Request::Claim(pin);
    assert(all[i] == Request::Claim(pins[i]));
    assert(pins[i] == pin);
}

/// A controller that builds has, for every channel that is bridged, the pins
/// its table wires it to: a serial channel transmits on one and receives on the
/// other, a pulse channel drives its step pin, an encoder senses both phases,
/// and a GPIO pin is driven or sensed as declared.
pub proof fn every_bridged_channel_has_its_pins(plan: McuPlan)
    requires
        plan.pins() is Ok,
    ensures
        forall|i: int|
            0 <= i < plan.bridged_serial.len() ==> plan.pins()->Ok_0.contains(
                McuPin {
                    pin: plan.serial_table[(#[trigger] plan.bridged_serial[i]) as int].tx_pin,
                    kind: PinKind::DigitalOut,
                },
            ) && plan.pins()->Ok_0.contains(
                McuPin {
                    pin: plan.serial_table[plan.bridged_serial[i] as int].rx_pin,
                    kind: PinKind::DigitalIn,
                },
            ),
        forall|i: int|
            0 <= i < plan.bridged_pulse_out.len() ==> plan.pins()->Ok_0.contains(
                McuPin {
                    pin: plan.pulse_out_table[(#[trigger] plan.bridged_pulse_out[i]) as int].pin,
                    kind: PinKind::DigitalOut,
                },
            ),
        forall|i: int|
            0 <= i < plan.bridged_encoder.len() ==> plan.pins()->Ok_0.contains(
                McuPin {
                    pin: plan.encoder_table[(#[trigger] plan.bridged_encoder[i]) as int].pin_a,
                    kind: PinKind::DigitalIn,
                },
            ) && plan.pins()->Ok_0.contains(
                McuPin {
                    pin: plan.encoder_table[plan.bridged_encoder[i] as int].pin_b,
                    kind: PinKind::DigitalIn,
                },
            ),
        forall|i: int|
            0 <= i < plan.gpio.len() ==> plan.pins()->Ok_0.contains(
                McuPin {
                    pin: (#[trigger] plan.gpio[i]).0.pin,
                    kind: if plan.gpio[i].1 == GpioDirection::Output {
                        PinKind::DigitalOut
                    } else {
                        PinKind::DigitalIn
                    },
                },
            ),
        forall|i: int|
            0 <= i < plan.bridged_gpio.len() ==> plan.pins()->Ok_0.contains(
                McuPin {
                    pin: plan.gpio_table[(#[trigger] plan.bridged_gpio[i]).0 as int].pin,
                    kind: if plan.bridged_gpio[i].1 == GpioDirection::Output {
                        PinKind::DigitalOut
                    } else {
                        PinKind::DigitalIn
                    },
                },
            ),
{
    built_channels_are_known(plan);
    let s = serial_requests(plan.serial_table, plan.bridged_serial, plan.bridged_serial.len());
    let g = gpio_requests(plan.gpio, plan.gpio.len());
    let b = bridged_gpio_requests(plan.gpio_table, plan.bridged_gpio, plan.bridged_gpio.len());
    let p = pulse_requests(
        plan.pulse_out_table,
        plan.bridged_pulse_out,
        plan.bridged_pulse_out.len(),
    );
    let e = encoder_requests(
        plan.encoder_table,
        plan.bridged_encoder,
        plan.bridged_encoder.len(),
    );
    assert forall|request: Request|
        s.contains(request) || g.contains(request) || b.contains(request) || p.contains(request)
            || e.contains(request) implies #[trigger] plan.requests().contains(request) by {
        joined_keeps(s, g, request);
        joined_keeps(s + g, b, request);
        joined_keeps(s + g + b, p, request);
        joined_keeps(s + g + b + p, e, request);
    }
    assert forall|i: int| 0 <= i < plan.bridged_serial.len() implies plan.pins()->Ok_0.contains(
        McuPin {
            pin: plan.serial_table[(#[trigger] plan.bridged_serial[i]) as int].tx_pin,
            kind: PinKind::DigitalOut,
        },
    ) && plan.pins()->Ok_0.contains(
        McuPin {
            pin: plan.serial_table[plan.bridged_serial[i] as int].rx_pin,
            kind: PinKind::DigitalIn,
        },
    ) by {
        let config = plan.serial_table[plan.bridged_serial[i] as int];
        serial_is_requested(plan.serial_table, plan.bridged_serial, plan.bridged_serial.len(), i);
        let tx = McuPin { pin: config.tx_pin, kind: PinKind::DigitalOut };
        let rx = McuPin { pin: config.rx_pin, kind: PinKind::DigitalIn };
        assert(plan.requests().contains(Request::Claim(tx)));
        assert(plan.requests().contains(Request::Claim(rx)));
        requested_is_declared(plan, tx);
        requested_is_declared(plan, rx);
    }
    assert forall|i: int| 0 <= i < plan.bridged_pulse_out.len() implies plan.pins()->Ok_0.contains(
        McuPin {
            pin: plan.pulse_out_table[(#[trigger] plan.bridged_pulse_out[i]) as int].pin,
            kind: PinKind::DigitalOut,
        },
    ) by {
        let pin = McuPin {
            pin: plan.pulse_out_table[plan.bridged_pulse_out[i] as int].pin,
            kind: PinKind::DigitalOut,
        };
        pulse_is_requested(
            plan.pulse_out_table,
            plan.bridged_pulse_out,
            plan.bridged_pulse_out.len(),
            i,
        );
        assert(plan.requests().contains(Request::Claim(pin)));
        requested_is_declared(plan, pin);
    }
    assert forall|i: int| 0 <= i < plan.bridged_encoder.len() implies plan.pins()->Ok_0.contains(
        McuPin {
            pin: plan.encoder_table[(#[trigger] plan.bridged_encoder[i]) as int].pin_a,
            kind: PinKind::DigitalIn,
        },
    ) && plan.pins()->Ok_0.contains(
        McuPin {
            pin: plan.encoder_table[plan.bridged_encoder[i] as int].pin_b,
            kind: PinKind::DigitalIn,
        },
    ) by {
        let config = plan.encoder_table[plan.bridged_encoder[i] as int];
        encoder_is_requested(
            plan.encoder_table,
            plan.bridged_encoder,
            plan.bridged_encoder.len(),
            i,
        );
        let first = McuPin { pin: config.pin_a, kind: PinKind::DigitalIn };
        let second = McuPin { pin: config.pin_b, kind: PinKind::DigitalIn };
        assert(plan.requests().contains(Request::Claim(first)));
        assert(plan.requests().contains(Request::Claim(second)));
        requested_is_declared(plan, first);
        requested_is_declared(plan, second);
    }
    assert forall|i: int| 0 <= i < plan.gpio.len() implies plan.pins()->Ok_0.contains(
        McuPin {
            pin: (#[trigger] plan.gpio[i]).0.pin,
            kind: if plan.gpio[i].1 == GpioDirection::Output {
                PinKind::DigitalOut
            } else {
                PinKind::DigitalIn
            },
        },
    ) by {
        let pin = McuPin {
            pin: plan.gpio[i].0.pin,
            kind: if plan.gpio[i].1 == GpioDirection::Output {
                PinKind::DigitalOut
            } else {
                PinKind::DigitalIn
            },
        };
        gpio_is_requested(plan.gpio, plan.gpio.len(), i);
        assert(plan.requests().contains(Request::Claim(pin)));
        requested_is_declared(plan, pin);
    }
    assert forall|i: int| 0 <= i < plan.bridged_gpio.len() implies plan.pins()->Ok_0.contains(
        McuPin {
            pin: plan.gpio_table[(#[trigger] plan.bridged_gpio[i]).0 as int].pin,
            kind: if plan.bridged_gpio[i].1 == GpioDirection::Output {
                PinKind::DigitalOut
            } else {
                PinKind::DigitalIn
            },
        },
    ) by {
        let pin = McuPin {
            pin: plan.gpio_table[plan.bridged_gpio[i].0 as int].pin,
            kind: if plan.bridged_gpio[i].1 == GpioDirection::Output {
                PinKind::DigitalOut
            } else {
                PinKind::DigitalIn
            },
        };
        bridged_gpio_is_requested(
            plan.gpio_table,
            plan.bridged_gpio,
            plan.bridged_gpio.len(),
            i,
        );
        assert(plan.requests().contains(Request::Claim(pin)));
        requested_is_declared(plan, pin);
    }
}

/// A plan builds exactly if every channel it bridges is in its table and its
/// pins are there and claimed once; a refusal says which of these fails.
pub proof fn a_refused_plan_has_its_reason(requests: Seq<Request>, k: nat)
    requires
        k <= requests.len(),
    ensures
        granted(requests, k) matches Err(McuBuildError::PinOutOfRange { pin }) ==> pin >= 64
            || exists|i: int|
            0 <= i < k && #[trigger] requests[i] == Request::Unknown(
                McuBuildError::PinOutOfRange { pin },
            ),
        granted(requests, k) is Ok <==> {
            &&& forall|i: int| 0 <= i < k ==> (#[trigger] requests[i]) is Claim
            &&& forall|i: int| 0 <= i < k ==> (#[trigger] requests[i])->Claim_0.pin < 64
            &&& forall|i: int, j: int|
                0 <= i < j < k ==> (#[trigger] requests[i])->Claim_0.pin != (
                #[trigger] requests[j])->Claim_0.pin
        },
    decreases k,
{
    if k > 0 {
        let m = (k - 1) as nat;
        a_refused_plan_has_its_reason(requests, m);
        if granted(requests, m) is Ok && refusal(requests, m as int) is None {
            assert forall|i: int, j: int| 0 <= i < j < k implies (
            #[trigger] requests[i])->Claim_0.pin != (#[trigger] requests[j])->Claim_0.pin by {
                if j == m {
                    assert(requests[i] is Claim);
                    assert(!claimed(requests, m as int, requests[j]->Claim_0.pin));
                }
            }
        }
        if granted(requests, m) is Ok && refusal(requests, m as int) is Some {
            if requests[m as int] is Claim && requests[m as int]->Claim_0.pin < 64 {
                let pin = requests[m as int]->Claim_0.pin;
                assert(claimed(requests, m as int, pin));
                let j = choose|j: int|
                    0 <= j < m && ((#[trigger] requests[j]) matches Request::Claim(held)
                        && held.pin == pin);
                assert(requests[j]->Claim_0.pin == requests[m as int]->Claim_0.pin);
            }
        }
    }
}

/// A controller that builds has every bridged channel as its table wires it, in
/// the order they were bridged, and its own name.
pub proof fn bridges_are_wired_as_their_tables_say(plan: McuPlan, pins: Seq<McuPin>, i: int)
    ensures
        plan.parts(pins).name == plan.name,
        plan.parts(pins).pins == pins,
        plan.parts(pins).serial.len() == plan.bridged_serial.len(),
        plan.parts(pins).gpio.len() == plan.bridged_gpio.len(),
        plan.parts(pins).pulses.len() == plan.bridged_pulse_out.len(),
        plan.parts(pins).encoders.len() == plan.bridged_encoder.len(),
        0 <= i < plan.bridged_serial.len() ==> plan.parts(pins).serial[i].channel
            == plan.bridged_serial[i] && plan.parts(pins).serial[i].config
            == plan.serial_table[plan.bridged_serial[i] as int],
        0 <= i < plan.bridged_gpio.len() ==> plan.parts(pins).gpio[i].channel
            == plan.bridged_gpio[i].0 && plan.parts(pins).gpio[i].direction
            == plan.bridged_gpio[i].1 && plan.parts(pins).gpio[i].config
            == plan.gpio_table[plan.bridged_gpio[i].0 as int],
        0 <= i < plan.bridged_pulse_out.len() ==> plan.parts(pins).pulses[i].channel
            == plan.bridged_pulse_out[i] && plan.parts(pins).pulses[i].pin
            == plan.pulse_out_table[plan.bridged_pulse_out[i] as int].pin,
        0 <= i < plan.bridged_encoder.len() ==> plan.parts(pins).encoders[i].channel
            == plan.bridged_encoder[i] && plan.parts(pins).encoders[i].pin_a
            == plan.encoder_table[plan.bridged_encoder[i] as int].pin_a
            && plan.parts(pins).encoders[i].pin_b
            == plan.encoder_table[plan.bridged_encoder[i] as int].pin_b,
{
}

} // verus!
