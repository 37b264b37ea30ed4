//! The event log and its canonical lines.
use embsim_board::diagnostics::{CallbackKind, Finding, SenseKind};
use embsim_board::event_log::{elide_host_paths, EngineEvent, EngineEventRecord, EventLog};
use embsim_board::net::{
    ComponentId, Drive, EndpointId, Level, NetId, NetState, PeriodicSchedule, PinRef,
    TheveninDrive,
};
use embsim_board::quantity::Quantity;

fn quanta(value: f64, per_unit: f64) -> Quantity {
    if value.is_nan() {
        Quantity::Nan
    } else if value == f64::INFINITY {
        Quantity::Infinite
    } else if value == f64::NEG_INFINITY {
        Quantity::NegInfinite
    } else {
        Quantity::Finite((value * per_unit).round() as i64)
    }
}

fn volts(value: f64) -> Quantity {
    quanta(value, 1e12)
}

fn ohms(value: f64) -> Quantity {
    quanta(value, 1e6)
}

fn record(event: EngineEvent) -> EngineEventRecord {
    EngineEventRecord { seq: 7, v_us: 1234, event }
}

fn resolved(net: usize, state: NetState) -> EngineEventRecord {
    record(EngineEvent::NetResolved { net: NetId(net), state })
}

#[test]
fn disabled_log_records_nothing_and_never_builds_an_event() {
    let mut log = EventLog::disabled();
    assert!(!log.is_enabled());
    for _ in 0..10 {
        log.record(|| panic!("a disabled log must not build the event"), 0);
    }
    assert!(log.is_empty());
    assert!(log.records().is_empty());
    assert!(log.normalized().is_empty());
    assert!(log.normalized_shape().is_empty());
}

#[test]
fn enabled_log_appends_in_order_and_clones_share_the_buffer() {
    let mut log = EventLog::enabled();
    assert!(log.is_enabled());
    for i in 0..5u64 {
        log.record(|| EngineEvent::Reroute { epoch: i }, 10 * i);
    }
    let records = log.records();
    assert_eq!(records.len(), 5);
    assert_eq!(log.len(), 5);
    let seqs: Vec<u64> = records.iter().map(|r| r.seq).collect();
    assert_eq!(seqs, vec![0, 1, 2, 3, 4]);
    let epochs: Vec<u64> = records
        .iter()
        .map(|r| match r.event {
            EngineEvent::Reroute { epoch } => epoch,
            ref other => panic!("unexpected event {other:?}"),
        })
        .collect();
    assert_eq!(epochs, vec![0, 1, 2, 3, 4]);
    assert_eq!(log.normalized()[3], "3 v=30 reroute epoch=3");
    assert_eq!(log.normalized_shape()[3], "3 reroute epoch=3");
}

#[test]
fn net_states_quantize_to_the_spec_quanta() {
    for (state, expected) in [
        (NetState::Analog(volts(1.234_567_891)), "net_resolved net=3 state=analog:1234568uv"),
        (NetState::Analog(volts(1.234_567_499)), "net_resolved net=3 state=analog:1234567uv"),
        (
            NetState::Pulled(Level::High, ohms(4_700.000_000_1)),
            "net_resolved net=3 state=pulled:high:4700000mohm",
        ),
        (NetState::Driven(Level::Low), "net_resolved net=3 state=driven:low"),
        (NetState::Floating, "net_resolved net=3 state=floating"),
        (NetState::Contention, "net_resolved net=3 state=contention"),
    ] {
        assert_eq!(resolved(3, state).normalized(), format!("7 v=1234 {expected}"));
    }
}

#[test]
fn sub_quantum_float_differences_normalize_away() {
    let a = resolved(0, NetState::Analog(Quantity::Finite(2_894_382_877_392)));
    let b = resolved(0, NetState::Analog(Quantity::Finite(2_894_382_877_393)));
    assert_ne!(a, b);
    assert_eq!(a.normalized(), b.normalized());
}

#[test]
fn halves_round_away_from_nought() {
    let line = |n| resolved(0, NetState::Analog(Quantity::Finite(n))).normalized_shape();
    assert_eq!(line(499_999), "7 net_resolved net=0 state=analog:0uv");
    assert_eq!(line(500_000), "7 net_resolved net=0 state=analog:1uv");
    assert_eq!(line(-500_000), "7 net_resolved net=0 state=analog:-1uv");
    assert_eq!(line(-499_999), "7 net_resolved net=0 state=analog:0uv");
}

#[test]
fn shape_projection_drops_only_the_virtual_timestamp() {
    let event = EngineEvent::Wake { component: ComponentId(2) };
    let early = EngineEventRecord { seq: 4, v_us: 10, event: event.clone() };
    let late = EngineEventRecord { seq: 4, v_us: 999_999, event };
    assert_ne!(early.normalized(), late.normalized());
    assert_eq!(early.normalized_shape(), late.normalized_shape());
    assert_eq!(early.normalized_shape(), "4 wake component=2");
}

#[test]
fn host_paths_are_elided_but_net_names_survive() {
    for (token, elided) in [
        ("/tmp/sd/DATA.CSV", true),
        ("/dev/ttys004", true),
        ("/Users/someone/embsim", true),
        ("/private/x", true),
        ("/var/x", true),
        ("/home/x", true),
        ("/Volumes/x", true),
        ("/Sheet1/RESET", false),
        ("sd/DATA.CSV", false),
        ("/tmp", false),
    ] {
        let payload = format!("value at {token} end");
        let out = elide_host_paths(&payload);
        if elided {
            assert_eq!(out, "value at <path> end", "{token}");
        } else {
            assert_eq!(out, payload, "{token}");
        }
    }
    assert_eq!(elide_host_paths("(/tmp/a,/dev/b)\u{2003}'/var/c'"), "(<path>,<path>)\u{2003}'<path>'");
    assert_eq!(elide_host_paths(""), "");
}

#[test]
fn eliding_twice_is_eliding_once() {
    for text in ["(/tmp/a,/dev/b) '/var/c' /Sheet1/NET", "/home/x/tmp/y", "<path>", "</tmp/z>", ""] {
        let once = elide_host_paths(text);
        assert_eq!(elide_host_paths(&once), once);
    }
}

#[test]
fn elision_handles_debug_quoted_paths() {
    let line = record(EngineEvent::Finding(Finding::ClassificationError {
        reference: "U1".to_string(),
        part: "ADS122U04".to_string(),
        message: "could not read /tmp/embsim-xyz/board.net".to_string(),
    }))
    .normalized();
    assert!(line.contains("<path>") && !line.contains("/tmp/"), "{line}");
    assert!(line.contains("\"U1\"") && line.contains("\"ADS122U04\""), "{line}");
}

#[test]
fn every_event_variant_normalizes_distinctly() {
    let port = TheveninDrive { volts: volts(3.3), impedance: ohms(25.0) };
    let applied = |drive| EngineEvent::DriveApplied { seq: 1, endpoint: EndpointId(0), drive };
    let segment = PeriodicSchedule { emitted: 7, freq_hz: 20_000, total: Some(9), since_ns: 5 };
    let events = vec![
        applied(Some(Drive::Thevenin(port))),
        applied(None),
        EngineEvent::NetResolved { net: NetId(0), state: NetState::Floating },
        EngineEvent::SenseDelivered { net: NetId(0), state: NetState::Floating },
        EngineEvent::Wake { component: ComponentId(0) },
        EngineEvent::StreamByte { producer: EndpointId(0), consumer: EndpointId(1), byte: 0x5a },
        EngineEvent::Reroute { epoch: 0 },
        EngineEvent::Finding(Finding::FloatingSense {
            net: "N0".to_string(),
            kind: SenseKind::Digital,
        }),
        EngineEvent::Finding(Finding::StreamOverrun { producer: PinRef::new("U1", "1") }),
        applied(Some(Drive::Current { amps: Quantity::Finite(1_000_000) })),
        applied(Some(Drive::Periodic { hi: port, lo: port, segment })),
        EngineEvent::NetResolved {
            net: NetId(0),
            state: NetState::Periodic { hi: Level::High, lo: Level::Low, segment },
        },
    ];
    let forms: Vec<String> = events.into_iter().map(|e| record(e).normalized_shape()).collect();
    let mut unique = forms.clone();
    unique.sort();
    unique.dedup();
    assert_eq!(unique.len(), forms.len(), "{forms:?}");
    assert_eq!(forms[0], "7 drive_applied seq=1 endpoint=0 drive=3300000uv@25000mohm");
    assert_eq!(forms[1], "7 drive_applied seq=1 endpoint=0 drive=release");
    assert_eq!(forms[5], "7 stream_byte producer=0 consumer=1 byte=0x5a");
}

#[test]
fn non_finite_floats_encode_as_tokens() {
    for (value, expected) in
        [(f64::NAN, "nan"), (f64::INFINITY, "inf"), (f64::NEG_INFINITY, "-inf")]
    {
        assert_eq!(
            resolved(0, NetState::Analog(volts(value))).normalized_shape(),
            format!("7 net_resolved net=0 state=analog:{expected}uv")
        );
    }
}

#[test]
fn a_finding_reads_as_its_fields() {
    let pin = || PinRef::new("U1", "3");
    let text = |finding| {
        let line = record(EngineEvent::Finding(finding)).normalized_shape();
        line.strip_prefix("7 finding ").expect("a finding").to_string()
    };
    for (finding, expected) in [
        (
            Finding::Contention { net: "N0".to_string(), drivers: vec![pin(), PinRef::new("U2", "4")] },
            "Contention { net: \"N0\", drivers: [PinRef { reference: \"U1\", pin: \"3\" }, PinRef { reference: \"U2\", pin: \"4\" }] }",
        ),
        (
            Finding::AmbiguousLevel { net: "A\"B".to_string(), volts: volts(1.65) },
            "AmbiguousLevel { net: \"A\\\"B\", volts: 1.65 }",
        ),
        (
            Finding::FloatingSense { net: "N".to_string(), kind: SenseKind::Analog },
            "FloatingSense { net: \"N\", kind: Analog }",
        ),
        (Finding::PowerNetUnsourced { net: "N".to_string() }, "PowerNetUnsourced { net: \"N\" }"),
        (
            Finding::CurrentIntoFloatingNode { net: "N".to_string(), pin: pin() },
            "CurrentIntoFloatingNode { net: \"N\", pin: PinRef { reference: \"U1\", pin: \"3\" } }",
        ),
        (
            Finding::NonConvergent {
                cluster: "N".to_string(),
                elements: vec!["D1".to_string()],
                solves: 12,
            },
            "NonConvergent { cluster: \"N\", elements: [\"D1\"], solves: 12 }",
        ),
        (
            Finding::PeriodicNotCoupled {
                net: "N".to_string(),
                capacitor: "C1".to_string(),
                hz: 1_000,
                reactance_ohms: ohms(5.0),
                far_ohms: Quantity::Infinite,
            },
            "PeriodicNotCoupled { net: \"N\", capacitor: \"C1\", hz: 1000, reactance_ohms: 5.0, far_ohms: inf }",
        ),
        (
            Finding::CallbackPanic { kind: CallbackKind::Wake, subscriber: "component 3".to_string() },
            "CallbackPanic { kind: Wake, subscriber: \"component 3\" }",
        ),
        (
            Finding::VirtualClockUninitialized { context: "schedule_at".to_string() },
            "VirtualClockUninitialized { context: \"schedule_at\" }",
        ),
        (
            Finding::QuiescenceTimeout { actors: vec!["a".to_string(), "b".to_string()] },
            "QuiescenceTimeout { actors: [\"a\", \"b\"] }",
        ),
        (Finding::DriveSeqGap { seq: 0 }, "DriveSeqGap { seq: 0 }"),
        (
            Finding::ClassificationError {
                reference: "U1".to_string(),
                part: "P".to_string(),
                message: "m".to_string(),
            },
            "ClassificationError { reference: \"U1\", part: \"P\", message: \"m\" }",
        ),
        (
            Finding::StreamOverrun { producer: pin() },
            "StreamOverrun { producer: PinRef { reference: \"U1\", pin: \"3\" } }",
        ),
        (
            Finding::AmbiguousLevel { net: "N".to_string(), volts: volts(-0.000_001) },
            "AmbiguousLevel { net: \"N\", volts: -1e-6 }",
        ),
    ] {
        assert_eq!(text(finding), expected);
    }
}

#[test]
fn a_figure_reads_as_the_number_it_is() {
    for n in [
        0i64,
        1,
        9,
        10,
        1_234,
        99_999_999,
        100_000_000,
        100_000_001,
        -120_000,
        1_000_000_000_000,
        1_650_000_000_000,
        -3_300_000_000_000,
        2_894_382_877_393,
        900_719_925_474_099,
    ] {
        let line = record(EngineEvent::Finding(Finding::AmbiguousLevel {
            net: "N".to_string(),
            volts: Quantity::Finite(n),
        }))
        .normalized_shape();
        let expected = n as f64 / 1e12;
        assert_eq!(
            line,
            format!("7 finding AmbiguousLevel {{ net: \"N\", volts: {expected:?} }}")
        );
    }
}
