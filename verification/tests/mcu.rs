//! The microcontroller facade.
use embsim_board::mcu::{
    active_of_level, counted_on, deliver_rx, gpio_input, gpio_output, level_of_active, pad_drive,
    pin_name, publish, pump_step, step_drive, EncoderChannelConfig, GpioChannelConfig,
    GpioDirection, McuBuildError, McuBuilder, McuComponent, McuPin, NoEntry, PinAction, PinKind,
    PulseOutChannelConfig, PumpRead, PumpStep, QuadratureSlip, QuadratureState,
    SerialChannelConfig,
};
use embsim_board::net::{digital_drive, Drive, Level, PeriodicSchedule, TheveninDrive};
use embsim_board::quantity::Quantity;

const FG: SerialChannelConfig = SerialChannelConfig { rx_pin: 0, tx_pin: 2, baud: 115_200 };

fn builder() -> McuBuilder<NoEntry> {
    McuComponent::<NoEntry>::builder("p2")
}

fn pin_of<E>(mcu: &McuComponent<E>, pin: u32) -> Option<McuPin> {
    mcu.pins().iter().copied().find(|p| p.pin == pin)
}

#[test]
fn bridged_serial_channel_declares_stream_pins() {
    let mcu = builder().serial_table(vec![FG]).bridge_serial(0).build().expect("builds");
    assert_eq!(pin_of(&mcu, 2), Some(McuPin { pin: 2, kind: PinKind::DigitalOut }));
    assert_eq!(pin_of(&mcu, 0), Some(McuPin { pin: 0, kind: PinKind::DigitalIn }));
    assert_eq!(mcu.name(), "p2");
    assert_eq!(mcu.serial_bridges().len(), 1);
    assert_eq!(mcu.serial_bridges()[0].config, FG);
}

#[test]
fn unbridged_channels_declare_no_pins() {
    let main = SerialChannelConfig { rx_pin: 53, tx_pin: 55, baud: 2_000_000 };
    let mcu = builder().serial_table(vec![FG, main]).bridge_serial(0).build().expect("builds");
    assert_eq!(mcu.pins().len(), 2);
    assert_eq!(pin_of(&mcu, 53), None);
    assert_eq!(pin_of(&mcu, 55), None);
}

#[test]
fn gpio_declarations_follow_direction() {
    let mcu = builder()
        .gpio(GpioChannelConfig { pin: 6, active_low: false }, GpioDirection::Output)
        .gpio(GpioChannelConfig { pin: 16, active_low: true }, GpioDirection::Input)
        .build()
        .expect("builds");
    assert_eq!(pin_of(&mcu, 6), Some(McuPin { pin: 6, kind: PinKind::DigitalOut }));
    assert_eq!(pin_of(&mcu, 16), Some(McuPin { pin: 16, kind: PinKind::DigitalIn }));
}

#[test]
fn builder_validation_errors() {
    assert_eq!(
        builder().serial_table(vec![FG]).bridge_serial(1).build().unwrap_err(),
        McuBuildError::UnknownSerialChannel { channel: 1, table_len: 1 }
    );
    let far = SerialChannelConfig { rx_pin: 0, tx_pin: 64, baud: 9600 };
    assert_eq!(
        builder().serial_table(vec![far]).bridge_serial(0).build().unwrap_err(),
        McuBuildError::PinOutOfRange { pin: 64 }
    );
    assert_eq!(
        builder()
            .serial_table(vec![FG])
            .bridge_serial(0)
            .gpio(GpioChannelConfig { pin: 2, active_low: false }, GpioDirection::Output)
            .build()
            .unwrap_err(),
        McuBuildError::DuplicatePin { pin: 2 }
    );
}

#[test]
fn pin_names_cover_the_p2_pin_space() {
    assert_eq!(pin_name(0).as_deref(), Some("P0"));
    assert_eq!(pin_name(63).as_deref(), Some("P63"));
    assert_eq!(pin_name(64), None);
    for i in 0..64u32 {
        assert_eq!(pin_name(i), Some(format!("P{i}")));
    }
}

#[test]
fn error_display() {
    assert!(McuBuildError::UnknownSerialChannel { channel: 3, table_len: 2 }
        .describe()
        .contains('3'));
    assert!(McuBuildError::PinOutOfRange { pin: 99 }.describe().contains("99"));
    assert!(McuBuildError::DuplicatePin { pin: 2 }.describe().contains("P2"));
    for error in [
        McuBuildError::UnknownGpioChannel { channel: 1, table_len: 0 },
        McuBuildError::UnknownPulseOutChannel { channel: 2, table_len: 0 },
        McuBuildError::UnknownEncoderChannel { channel: 3, table_len: 0 },
    ] {
        assert!(!error.describe().is_empty());
    }
}

#[test]
fn a_bridged_pulse_channel_declares_one_step_pin() {
    let mcu = builder()
        .pulse_out_table(vec![PulseOutChannelConfig { pin: 8 }])
        .bridge_pulse_out(0)
        .build()
        .expect("builds");
    assert_eq!(*mcu.pins(), vec![McuPin { pin: 8, kind: PinKind::DigitalOut }]);
    assert_eq!(mcu.pulse_bridges()[0].pin, 8);
}

#[test]
fn a_step_drive_swings_between_the_pads_own_ports() {
    let segment =
        PeriodicSchedule { emitted: 7, freq_hz: 20_000, total: Some(4_000), since_ns: 1_000_000 };
    assert_eq!(
        step_drive(false, None, None, segment),
        Some(Drive::Periodic {
            hi: digital_drive(Level::High),
            lo: digital_drive(Level::Low),
            segment,
        })
    );
    let at = |volts: i64| TheveninDrive {
        volts: Quantity::Finite(volts),
        impedance: Quantity::Finite(18_000_000),
    };
    let (hi, lo) = (at(1_800_000_000_000), at(0));
    assert_eq!(
        step_drive(true, Some(hi), Some(lo), segment),
        Some(Drive::Periodic { hi, lo, segment })
    );
    assert_eq!(step_drive(true, None, Some(lo), segment), None);
    assert_eq!(step_drive(true, Some(hi), None, segment), None);
    assert_eq!(step_drive(true, None, None, segment), None);
    assert_eq!(pad_drive(true, Some(hi), Level::Low), Some(hi));
}

#[test]
fn a_bridged_encoder_channel_declares_a_sensed_phase_pair() {
    let mcu = builder()
        .encoder_table(vec![EncoderChannelConfig { pin_a: 20, pin_b: 21 }])
        .bridge_encoder(0)
        .build()
        .expect("builds");
    assert_eq!(
        *mcu.pins(),
        vec![
            McuPin { pin: 20, kind: PinKind::DigitalIn },
            McuPin { pin: 21, kind: PinKind::DigitalIn },
        ]
    );
    assert_eq!((mcu.encoder_bridges()[0].pin_a, mcu.encoder_bridges()[0].pin_b), (20, 21));
}

#[test]
fn motion_channel_validation_errors() {
    assert_eq!(
        builder().bridge_pulse_out(0).build().unwrap_err(),
        McuBuildError::UnknownPulseOutChannel { channel: 0, table_len: 0 }
    );
    assert_eq!(
        builder().bridge_encoder(2).build().unwrap_err(),
        McuBuildError::UnknownEncoderChannel { channel: 2, table_len: 0 }
    );
    assert_eq!(
        builder().gpio_table(vec![]).bridge_gpio(0, GpioDirection::Input).build().unwrap_err(),
        McuBuildError::UnknownGpioChannel { channel: 0, table_len: 0 }
    );
    assert_eq!(
        builder()
            .pulse_out_table(vec![PulseOutChannelConfig { pin: 8 }])
            .encoder_table(vec![EncoderChannelConfig { pin_a: 8, pin_b: 9 }])
            .bridge_pulse_out(0)
            .bridge_encoder(0)
            .build()
            .unwrap_err(),
        McuBuildError::DuplicatePin { pin: 8 }
    );
}

#[test]
fn gpio_polarity_round_trips() {
    for (active_low, active, expect) in [
        (false, true, Level::High),
        (false, false, Level::Low),
        (true, true, Level::Low),
        (true, false, Level::High),
    ] {
        assert_eq!(level_of_active(active, active_low), expect);
        assert_eq!(active_of_level(expect, active_low), active);
        assert_eq!(gpio_input(false, Some(expect), active_low), Some(active));
        assert_eq!(gpio_input(true, Some(expect), active_low), None);
        assert_eq!(
            gpio_output(false, true, active, active_low, false, None),
            PinAction::Drive(Drive::Thevenin(digital_drive(expect)))
        );
    }
    assert_eq!(gpio_input(false, None, false), None);
    assert_eq!(gpio_output(false, true, true, false, true, None), PinAction::Release);
    assert_eq!(gpio_output(true, true, true, false, false, None), PinAction::Keep);
    assert_eq!(publish(false, false, None), PinAction::Keep);
}

fn decode(sequence: &[(bool, bool)]) -> Result<i32, QuadratureSlip> {
    let mut state = QuadratureState::new();
    let mut count = 0;
    for &(a, b) in sequence {
        state.a = Some(a);
        state.b = Some(b);
        if let Some(delta) = state.step()? {
            count += delta;
        }
    }
    Ok(count)
}

#[test]
fn a_gray_cycle_counts_four_in_the_direction_it_walks() {
    let up = [(false, false), (true, false), (true, true), (false, true), (false, false)];
    assert_eq!(decode(&up).expect("clean walk"), 4);
    let mut down = up;
    down.reverse();
    assert_eq!(decode(&down).expect("clean walk"), -4);
}

#[test]
fn a_repeated_phase_pair_counts_nothing() {
    assert_eq!(
        decode(&[(true, false), (true, false), (true, false)]).expect("no transition"),
        0
    );
}

#[test]
fn a_two_state_jump_is_reported_not_guessed() {
    for (from, to) in [((false, false), (true, true)), ((true, false), (false, true))] {
        let slip = decode(&[from, to]).expect_err("a two-state jump is a slip");
        assert_ne!(slip.previous, slip.position);
        assert!(format!("{slip:?}").contains("QuadratureSlip"));
    }
}

#[test]
fn phases_arrive_one_at_a_time() {
    let mut state = QuadratureState::new();
    assert_eq!(state.sense(true, Some(Level::Low)), Ok(None));
    assert_eq!(state.gray_position(), None);
    assert_eq!(state.sense(false, Some(Level::Low)), Ok(None));
    assert_eq!(state.sense(true, Some(Level::High)), Ok(Some(1)));
    assert_eq!(state.sense(true, Some(Level::Low)), Ok(Some(-1)));
    assert_eq!(state.sense(true, None), Ok(None));
    assert_eq!(state.gray_position(), Some(0));
}

#[test]
fn a_counter_stays_at_its_limits() {
    assert_eq!(counted_on(5, -1), 4);
    assert_eq!(counted_on(i32::MAX, 1), i32::MAX);
    assert_eq!(counted_on(i32::MIN, -1), i32::MIN);
}

#[test]
fn a_receiver_hands_on_what_decoded() {
    let frames: Vec<Result<u8, ()>> = vec![Ok(1), Err(()), Ok(3)];
    assert_eq!(deliver_rx(&frames), vec![1, 3]);
}

#[test]
fn a_pump_goes_on_until_its_peer_closes() {
    assert_eq!(pump_step(PumpRead::Bytes(3)), PumpStep::Forward(3));
    assert_eq!(pump_step(PumpRead::Bytes(0)), PumpStep::Stop);
    assert_eq!(pump_step(PumpRead::Closed), PumpStep::Stop);
    assert_eq!(pump_step(PumpRead::WouldBlock), PumpStep::Park);
    assert_eq!(pump_step(PumpRead::Interrupted), PumpStep::Again);
    assert_eq!(pump_step(PumpRead::Failed), PumpStep::Stop);
}

#[test]
fn a_controller_publishes_once_it_runs() {
    let mut mcu = builder().entry(7u8).build().expect("builds");
    assert!(!mcu.running());
    assert!(mcu.attach());
    assert!(mcu.running());
    let start = mcu.start();
    assert!(!start.publish);
    assert_eq!(start.entry, Some(7));
    assert_eq!(mcu.start().entry, None);

    assert!(mcu.has_instance());
    assert!(!builder().build().expect("builds").has_instance());

    let mut hosted = builder().entry(7u8).build().expect("builds");
    hosted.host_pads();
    assert!(!hosted.attach());
    assert!(hosted.start().publish);
}
