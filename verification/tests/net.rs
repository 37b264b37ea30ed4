//! Net states, levels and the published thresholds.
use embsim_board::net::{
    digital_drive, level_of, normalise_drive, phase_port, same_drive, Drive, Level, Net, NetId,
    NetMove, NetState, NetVolts, PeriodicSchedule, Phase, PinRef, TheveninDrive,
    COUPLED_REACH_OHMS, COUPLING_REACTANCE_RATIO, ESCALATION_IMPEDANCE_RATIO, DEFAULT_PUSH_PULL_IMPEDANCE, LOGIC_HIGH_VOLTS, LOGIC_THRESHOLD_VOLTS,
    V_IH, V_IL, WEAK_DRIVE_OHMS,
};
use embsim_board::quantity::{reactance, Quantity};
use embsim_board::volts::VoltsTable;

fn volts(value: f64) -> Quantity {
    Quantity::Finite((value * 1e12).round() as i64)
}

fn ohms(value: f64) -> Quantity {
    Quantity::Finite((value * 1e6).round() as i64)
}

fn periodic(freq_hz: u32, since_ns: u64) -> NetState {
    NetState::Periodic {
        hi: Level::High,
        lo: Level::Low,
        segment: PeriodicSchedule { emitted: 0, freq_hz, total: None, since_ns },
    }
}

#[test]
fn pin_ref_equality_is_structural() {
    for (r1, p1, r2, p2, eq) in [
        ("U1", "3", "U1", "3", true),
        ("U1", "3", "U1", "4", false),
        ("U1", "3", "U2", "3", false),
    ] {
        let (a, b) = (PinRef::new(r1, p1), PinRef::new(r2, p2));
        assert_eq!(a == b, eq);
        assert_eq!(a.same(&b), eq);
    }
}

#[test]
fn net_state_equals_self() {
    for state in [
        NetState::Driven(Level::High),
        NetState::Driven(Level::Low),
        NetState::Pulled(Level::High, ohms(4_700.0)),
        NetState::Pulled(Level::Low, ohms(10_000.0)),
        NetState::Floating,
        NetState::Contention,
        NetState::Analog(volts(1.65)),
        periodic(8_192, 1_000),
    ] {
        let copy = state;
        assert_eq!(state, copy);
    }
}

#[test]
fn net_state_projections_are_distinct() {
    for (a, b) in [
        (NetState::Driven(Level::High), NetState::Pulled(Level::High, ohms(4_700.0))),
        (NetState::Driven(Level::High), NetState::Driven(Level::Low)),
        (
            NetState::Pulled(Level::High, ohms(1_000.0)),
            NetState::Pulled(Level::High, ohms(4_700.0)),
        ),
        (NetState::Floating, NetState::Contention),
        (NetState::Analog(volts(3.3)), NetState::Driven(Level::High)),
        (periodic(8_192, 0), NetState::Driven(Level::High)),
        (periodic(8_192, 0), periodic(16_384, 0)),
        (periodic(8_192, 0), periodic(8_192, 1)),
    ] {
        assert_ne!(a, b);
    }
}

#[test]
fn input_projection_never_invents_a_level() {
    for (state, expect) in [
        (NetState::Driven(Level::High), Some(Level::High)),
        (NetState::Driven(Level::Low), Some(Level::Low)),
        (NetState::Pulled(Level::High, ohms(10_000.0)), Some(Level::High)),
        (NetState::Analog(volts(3.0)), Some(Level::High)),
        (NetState::Analog(volts(0.4)), Some(Level::Low)),
        (NetState::Floating, None),
        (NetState::Contention, None),
        (periodic(8_192, 0), None),
        (periodic(0, 0), None),
    ] {
        assert_eq!(level_of(state), expect);
    }
}

#[test]
fn a_digital_output_drives_the_rail() {
    assert_eq!(
        digital_drive(Level::High),
        TheveninDrive {
            volts: Quantity::Finite(LOGIC_HIGH_VOLTS),
            impedance: Quantity::Finite(DEFAULT_PUSH_PULL_IMPEDANCE),
        }
    );
    assert_eq!(
        digital_drive(Level::Low),
        TheveninDrive {
            volts: Quantity::Finite(0),
            impedance: Quantity::Finite(DEFAULT_PUSH_PULL_IMPEDANCE),
        }
    );
}

#[test]
fn published_thresholds_match_design_doc() {
    assert_eq!(Quantity::Finite(DEFAULT_PUSH_PULL_IMPEDANCE), ohms(25.0));
    assert_eq!(Quantity::Finite(COUPLED_REACH_OHMS), ohms(1_000.0));
    assert_eq!(Quantity::Finite(WEAK_DRIVE_OHMS), ohms(1_000.0));
    assert_eq!(Quantity::Finite(V_IL), volts(0.8));
    assert_eq!(Quantity::Finite(V_IH), volts(2.0));
    assert_eq!(ESCALATION_IMPEDANCE_RATIO, 10);
    assert_eq!(COUPLING_REACTANCE_RATIO, 10);
    assert_eq!(ohms(25.0).times(ESCALATION_IMPEDANCE_RATIO), ohms(250.0));
}

#[test]
fn the_dead_band_brackets_the_logic_threshold() {
    for (at, expect) in
        [(V_IL, Level::Low), (LOGIC_THRESHOLD_VOLTS, Level::High), (V_IH, Level::High)]
    {
        assert_eq!(level_of(NetState::Analog(Quantity::Finite(at))), Some(expect));
    }
}

#[test]
fn thevenin_drive_is_copy_eq() {
    let d = TheveninDrive {
        volts: volts(3.3),
        impedance: Quantity::Finite(DEFAULT_PUSH_PULL_IMPEDANCE),
    };
    let d2 = d;
    assert_eq!(d, d2);
}

#[test]
fn net_struct_holds_membership_and_state() {
    let net = Net {
        id: NetId(0),
        name: "NET".into(),
        nodes: vec![PinRef::new("U1", "1"), PinRef::new("R1", "1")],
        state: NetState::Floating,
        volts: NetVolts::none(),
    };
    assert_eq!(net.nodes.len(), 2);
    assert_eq!(net.state, NetState::Floating);
}

#[test]
fn a_drive_behind_no_finite_impedance_is_a_release() {
    let at = |impedance| {
        Some(Drive::Thevenin(TheveninDrive { volts: volts(3.3), impedance }))
    };
    assert_eq!(normalise_drive(at(ohms(25.0))), at(ohms(25.0)));
    assert_eq!(normalise_drive(at(Quantity::Infinite)), None);
    assert_eq!(normalise_drive(at(Quantity::NegInfinite)), None);
    assert_eq!(normalise_drive(at(Quantity::Nan)), None);
    assert_eq!(normalise_drive(Some(Drive::Current { amps: Quantity::Nan })), None);
    assert!(same_drive(&at(Quantity::Nan), &at(Quantity::Nan)));
}

#[test]
fn a_clock_presents_the_port_of_its_phase() {
    let hi = TheveninDrive { volts: volts(3.3), impedance: ohms(25.0) };
    let lo = TheveninDrive { volts: volts(0.0), impedance: Quantity::Infinite };
    let segment = PeriodicSchedule { emitted: 0, freq_hz: 1, total: None, since_ns: 0 };
    let clock = Some(Drive::Periodic { hi, lo, segment });
    assert_eq!(phase_port(clock, Some(Phase::High)), Some(hi));
    assert_eq!(phase_port(clock, Some(Phase::Low)), None);
    assert_eq!(phase_port(None, None), None);
}

#[test]
fn a_net_moves_by_its_state_or_by_the_voltage_behind_it() {
    let mut net = Net::new(NetId(0), "N0");
    net.state = NetState::Driven(Level::High);
    net.volts = NetVolts::dc(Some(volts(3.3)));
    let (state, at) = (net.state, net.volts);
    assert_eq!(NetMove::of(&state, &at, &net), None);
    net.volts = NetVolts::dc(Some(volts(1.8)));
    assert_eq!(NetMove::of(&state, &at, &net), Some(NetMove::Volts));
    net.state = NetState::Driven(Level::Low);
    assert_eq!(NetMove::of(&state, &at, &net), Some(NetMove::State));
}

#[test]
fn the_reactance_of_a_capacitor_falls_with_the_rate() {
    // 100 nF at 1 kHz: 1591.549430 ohms, in whole micro-ohms.
    assert_eq!(reactance(1_000, 100_000_000), Quantity::Finite(1_591_549_430));
    assert_eq!(reactance(1_000_000, 100_000_000), Quantity::Finite(1_591_549));
}

#[test]
fn a_voltage_table_gives_back_what_was_stored() {
    let mut table = VoltsTable::of(vec![NetVolts::none(), NetVolts::dc(Some(volts(1.0)))]);
    assert_eq!(table.dc(1), Some(volts(1.0)));
    let swing = NetVolts { dc: None, phases: Some((Some(volts(3.3)), None)) };
    table.store(0, swing);
    assert_eq!(table.load(0), swing);
    assert_eq!(table.load(1), NetVolts::dc(Some(volts(1.0))));
    // A net the table does not hold is dropped, and names none.
    table.store(7, swing);
    assert_eq!(table.load(7), NetVolts::none());
    assert_eq!(table.dc(7), None);
}
