//! The engine, driven the way a thread that owns it drives it.
use std::collections::VecDeque;

use embsim_board::board::ReadKind;
use embsim_board::cluster::{
    Cluster, ClusterInputs, ClusterInputsView, ClusterSolution, ClusterSolutionView,
    ClusterSolver, ClusterView,
};
use embsim_board::diagnostics::{CallbackKind, Finding, SenseKind};
use embsim_board::dsu::Dsu;
use embsim_board::engine::commands::{Action, Command, Response};
use embsim_board::engine::{Clock, EngineCore, Subscriber};
use embsim_board::event_log::EventLog;
use embsim_board::iteration::{Event, Iteration, Turn};
use embsim_board::link::{EngineLink, Sent};
use embsim_board::net::{
    ComponentId, Drive, EndpointId, Level, Net, NetId, NetState, PinRef, TheveninDrive,
};
use embsim_board::quantity::Quantity;
use embsim_board::resolver::Resolver;

fn volts(value: f64) -> Quantity {
    if value.is_nan() {
        Quantity::Nan
    } else {
        Quantity::Finite((value * 1e12).round() as i64)
    }
}

fn ohms(value: f64) -> Quantity {
    Quantity::Finite((value * 1e6).round() as i64)
}

fn amps(value: f64) -> Quantity {
    Quantity::Finite((value * 1e12).round() as i64)
}

fn number(value: Quantity, per_unit: f64) -> f64 {
    match value {
        Quantity::Finite(n) => n as f64 / per_unit,
        other => panic!("no number: {other:?}"),
    }
}

fn level(v: f64, z: f64) -> Option<Drive> {
    Some(Drive::Thevenin(TheveninDrive { volts: volts(v), impedance: ohms(z) }))
}

fn high() -> Option<Drive> {
    level(3.3, 25.0)
}

fn low() -> Option<Drive> {
    level(0.0, 25.0)
}

/// Relaxes a resistive cluster, a node at a time.
struct Relaxing;

impl ClusterSolver for Relaxing {
    fn solution(&self, _: ClusterView, _: ClusterInputsView) -> ClusterSolutionView {
        unreachable!()
    }

    fn floor(&self) -> Quantity {
        unreachable!()
    }

    fn ideal_source_floor(&self) -> Quantity {
        ohms(1e-3)
    }

    fn solve(&self, cluster: &Cluster, inputs: &ClusterInputs) -> ClusterSolution {
        let nodes = &cluster.nodes;
        let mut at: Vec<Option<f64>> = vec![None; nodes.len()];
        let place = |node: NetId| nodes.iter().position(|&n| n == node);
        for _ in 0..2_000 {
            for (i, &node) in nodes.iter().enumerate() {
                if let Some(held) = inputs.terminals.iter().find(|t| t.node == node) {
                    at[i] = Some(number(held.volts, 1e12));
                    continue;
                }
                let (mut g, mut into) = (0.0f64, 0.0f64);
                for source in inputs.sources.iter().filter(|s| s.node == node) {
                    let conductance = 1.0 / number(source.impedance, 1e6).max(1e-3);
                    g += conductance;
                    into += conductance * number(source.volts, 1e12);
                }
                for injection in inputs.injections.iter().filter(|x| x.node == node) {
                    into += number(injection.amps, 1e12);
                }
                for resistor in &cluster.resistors {
                    let far = if resistor.a == node {
                        resistor.b
                    } else if resistor.b == node {
                        resistor.a
                    } else {
                        continue;
                    };
                    if let Some(v) = place(far).and_then(|j| at[j]) {
                        let conductance = 1.0 / number(resistor.ohms, 1e6);
                        g += conductance;
                        into += conductance * v;
                    }
                }
                if g > 0.0 {
                    at[i] = Some(into / g);
                }
            }
        }
        ClusterSolution {
            node_states: nodes
                .iter()
                .zip(&at)
                .map(|(&n, v)| {
                    (n, v.map_or(NetState::Floating, |v| NetState::Analog(volts(v))))
                })
                .collect(),
            branch_currents: vec![None; inputs.elements.len()],
            converged: true,
            solves: 1,
        }
    }
}

type SenseHook = Box<dyn FnMut(usize, NetState, &EngineCore<Relaxing>) -> Vec<(EndpointId, Option<Drive>)>>;
type WakeHook = Box<dyn FnMut(usize, u64) -> Vec<Command>>;

/// An engine with its queues, its clock and whoever it calls back.
struct Rig {
    core: EngineCore<Relaxing>,
    link: EngineLink,
    control: VecDeque<Command>,
    data: VecDeque<Command>,
    ready: bool,
    now: u64,
    sensed: Vec<(usize, NetState)>,
    read: Vec<(usize, Option<Quantity>)>,
    woken: Vec<(usize, u64)>,
    epochs: Vec<u64>,
    meter: Option<Quantity>,
    on_sense: Option<SenseHook>,
    on_wake: Option<WakeHook>,
    idle_polls: usize,
    stopped: bool,
}

fn nets(count: usize) -> Vec<Net> {
    (0..count).map(|i| Net::new(NetId(i), &format!("N{i}"))).collect()
}

impl Rig {
    fn over(resolver: Resolver, count: usize, log: EventLog) -> Rig {
        let clock = Clock { ready: true, ns: 0, us: 0 };
        Rig {
            core: EngineCore::new(resolver, nets(count), Relaxing, log, clock),
            link: EngineLink::live(),
            control: VecDeque::new(),
            data: VecDeque::new(),
            ready: true,
            now: 0,
            sensed: Vec::new(),
            read: Vec::new(),
            woken: Vec::new(),
            epochs: Vec::new(),
            meter: None,
            on_sense: None,
            on_wake: None,
            idle_polls: 0,
            stopped: false,
        }
    }

    fn clock(&self) -> Clock {
        Clock { ready: self.ready, ns: self.now, us: self.now / 1_000 }
    }

    fn send(&mut self, command: Command) {
        assert!(self.link.send(&command, Sent::Queued));
        self.data.push_back(command);
    }

    fn send_control(&mut self, command: Command) {
        self.link.begin_control();
        self.control.push_back(command);
        assert!(self.link.end_control(Sent::Queued));
    }

    fn drive(&mut self, endpoint: EndpointId, drive: Option<Drive>) {
        let seq = self.link.next_drive_seq();
        self.send(Command::Drive { seq, endpoint, drive });
    }

    fn sense(&mut self, net: usize) {
        self.send(Command::RegisterSense { net: NetId(net), reference: None, supply: None });
    }

    fn wake(&mut self, component: usize) {
        self.send_control(Command::RegisterWake { component: ComponentId(component) });
    }

    fn at(&mut self, component: usize, at_ns: u64) {
        self.send_control(Command::ScheduleAt { component: ComponentId(component), at_ns });
    }

    fn told(&mut self, sub: usize, state: NetState) {
        self.sensed.push((sub, state));
        if let Some(mut hook) = self.on_sense.take() {
            for (endpoint, drive) in hook(sub, state, &self.core) {
                self.drive(endpoint, drive);
            }
            self.on_sense = Some(hook);
        }
    }

    /// Deliver and apply whatever waits.
    fn settle(&mut self) {
        loop {
            match self.core.advance(self.clock()) {
                Action::Idle => return,
                Action::Continue => {}
                Action::Sense { sub, delivery } => self.told(sub, delivery.state),
                Action::Measure { instrument } => {
                    if self.core.measured(instrument, self.meter) {
                        self.read.push((instrument, self.meter));
                    }
                }
            }
        }
    }

    fn handle(&mut self, command: Command) -> bool {
        match self.core.handle(command, self.clock()) {
            Response::Nothing => {}
            Response::Sense { sub, delivery } => {
                self.told(sub.unwrap_or(usize::MAX), delivery.state);
            }
            Response::Current { instrument, amps } => self.read.push((instrument, amps)),
            Response::Topology { epoch } => self.epochs.push(epoch),
            Response::Stop => return true,
        }
        self.settle();
        false
    }

    fn taken(&mut self, control: bool, empty: Event) -> Event {
        if control {
            match self.control.pop_front() {
                None => empty,
                Some(command) => {
                    self.link.took_control();
                    Event::Handled(self.handle(command))
                }
            }
        } else {
            match self.data.pop_front() {
                None => empty,
                Some(command) => Event::Handled(self.handle(command)),
            }
        }
    }

    fn iterate(&mut self) {
        let mut it = Iteration::new();
        loop {
            let event = match it.turn {
                Turn::Quiesce => Event::Done,
                Turn::TakeControl | Turn::IdleControl => self.taken(true, Event::Empty),
                Turn::TakeData => self.taken(false, Event::Empty),
                Turn::AwaitControl => self.taken(true, Event::TimedOut),
                Turn::AwaitData => self.taken(false, Event::TimedOut),
                Turn::DeclareReads => {
                    let any = self.core.declare_pending(self.clock());
                    self.settle();
                    Event::Declared(any)
                }
                Turn::FireDue => {
                    let mut fired = 0;
                    while let Some(wake) = self.core.fire_next(self.clock()) {
                        fired += 1;
                        if wake.deliver {
                            self.woken.push((wake.component.0, self.now));
                            if let Some(mut hook) = self.on_wake.take() {
                                for command in hook(wake.component.0, self.now) {
                                    self.send_control(command);
                                }
                                self.on_wake = Some(hook);
                            }
                        }
                    }
                    Event::Fired(fired)
                }
                Turn::AskDeadline => {
                    Event::Deadline { now: self.now, next: self.core.next_virtual_deadline(None) }
                }
                Turn::CheckSchedules => Event::Pending(self.link.pending()),
                Turn::Choose => Event::Clock {
                    released: self.core.time_released(),
                    now: self.now,
                    next: self.core.next_virtual_deadline(None),
                },
                Turn::AdvanceTo(to) => {
                    assert!(to > self.now);
                    self.now = to;
                    Event::Done
                }
                Turn::PollGap => {
                    self.idle_polls += 1;
                    self.core.poll_gap(self.clock());
                    self.settle();
                    Event::Done
                }
                Turn::Over => return,
                Turn::Stop => {
                    self.stopped = true;
                    return;
                }
            };
            it.next(event);
        }
    }

    fn run(&mut self, iterations: usize) {
        for _ in 0..iterations {
            self.iterate();
        }
    }

    fn states_of(&self, sub: usize) -> Vec<NetState> {
        self.sensed.iter().filter(|(s, _)| *s == sub).map(|&(_, state)| state).collect()
    }

    fn stamps(&self) -> Vec<u64> {
        self.woken.iter().map(|&(_, ns)| ns).collect()
    }
}

fn one_net(pins: usize) -> (Resolver, Vec<EndpointId>) {
    let mut resolver = Resolver::new(1, Dsu::new(1));
    let endpoints = (0..pins)
        .map(|i| resolver.add_endpoint(0, PinRef::new(&format!("U{}", i + 1), "1"), None))
        .collect();
    (resolver, endpoints)
}

fn empty() -> Rig {
    Rig::over(Resolver::new(0, Dsu::new(0)), 0, EventLog::disabled())
}

fn released() -> Rig {
    let mut rig = empty();
    rig.send_control(Command::ReleaseTime);
    rig.run(1);
    rig
}

#[test]
fn drives_apply_in_enqueue_seq_order_despite_arrival_order() {
    let (resolver, e) = one_net(2);
    let mut rig = Rig::over(resolver, 1, EventLog::disabled());
    rig.sense(0);
    rig.send(Command::Drive { seq: 1, endpoint: e[1], drive: low() });
    rig.run(3);
    assert_eq!(rig.core.net_state(NetId(0)), Some(NetState::Floating));
    rig.send(Command::Drive { seq: 0, endpoint: e[0], drive: high() });
    rig.run(3);
    assert_eq!(
        rig.states_of(0),
        vec![NetState::Floating, NetState::Driven(Level::High), NetState::Contention]
    );
    assert!(rig
        .core
        .findings()
        .iter()
        .any(|f| matches!(f, Finding::Contention { net, .. } if net == "N0")));
}

#[test]
fn racing_public_drives_all_apply_individually() {
    for (first, then, expect) in
        [(high(), low(), Level::High), (low(), high(), Level::Low)]
    {
        let (resolver, e) = one_net(2);
        let mut rig = Rig::over(resolver, 1, EventLog::disabled());
        rig.sense(0);
        rig.drive(e[0], first);
        rig.drive(e[1], then);
        rig.run(2);
        assert_eq!(
            rig.states_of(0),
            vec![NetState::Floating, NetState::Driven(expect), NetState::Contention]
        );
        assert_eq!(rig.core.net_state(NetId(0)), Some(NetState::Contention));
    }
}

#[test]
fn sense_callback_drive_is_enqueued_not_inline_and_loop_converges() {
    let mut resolver = Resolver::new(2, Dsu::new(2));
    let e_a = resolver.add_endpoint(0, PinRef::new("U1", "1"), None);
    let e_a2 = resolver.add_endpoint(0, PinRef::new("U3", "1"), None);
    let e_b = resolver.add_endpoint(1, PinRef::new("U2", "1"), None);
    let mut rig = Rig::over(resolver, 2, EventLog::disabled());
    rig.on_sense = Some(Box::new(move |sub, state, core: &EngineCore<Relaxing>| {
        if state != NetState::Driven(Level::High) {
            return Vec::new();
        }
        if sub == 0 {
            // The drive this sense makes is not applied inline.
            assert_eq!(core.net_state(NetId(1)), Some(NetState::Floating));
            vec![(e_b, high())]
        } else {
            vec![(e_a2, high())]
        }
    }));
    rig.sense(0);
    rig.sense(1);
    rig.drive(e_a, high());
    rig.run(5);
    assert_eq!(rig.states_of(1), vec![NetState::Floating, NetState::Driven(Level::High)]);
    assert_eq!(rig.states_of(0), vec![NetState::Floating, NetState::Driven(Level::High)]);
    assert_eq!(rig.core.net_state(NetId(0)), Some(NetState::Driven(Level::High)));
}

#[test]
fn unmodeled_power_rail_publishes_stable_non_nan_state() {
    let mut resolver = Resolver::new(2, Dsu::new(2));
    resolver.add_power_source(0, Quantity::Nan);
    resolver.add_digital_sense(0);
    let e1 = resolver.add_endpoint(1, PinRef::new("U1", "1"), None);
    let mut rig = Rig::over(resolver, 2, EventLog::disabled());
    rig.sense(0);
    rig.sense(1);
    for seq in 0..10 {
        rig.send(Command::Drive {
            seq,
            endpoint: e1,
            drive: if seq % 2 == 0 { high() } else { low() },
        });
    }
    rig.run(2);
    assert_eq!(rig.states_of(1).len(), 11);
    assert_eq!(rig.states_of(0), vec![NetState::Pulled(Level::High, ohms(0.0))]);
}

#[test]
fn nan_rail_sense_feedback_loop_converges() {
    let mut resolver = Resolver::new(2, Dsu::new(2));
    resolver.add_power_source(0, Quantity::Nan);
    let e1 = resolver.add_endpoint(1, PinRef::new("U1", "1"), None);
    let mut rig = Rig::over(resolver, 2, EventLog::disabled());
    rig.on_sense = Some(Box::new(move |_, _, _: &EngineCore<Relaxing>| vec![(e1, high())]));
    rig.sense(0);
    rig.run(5);
    assert_eq!(rig.core.net_state(NetId(1)), Some(NetState::Driven(Level::High)));
    assert_eq!(rig.sensed.len(), 1);
    assert_eq!(rig.core.net_state(NetId(0)), Some(NetState::Pulled(Level::High, ohms(0.0))));
}

#[test]
fn the_wheel_separates_sub_microsecond_deadlines() {
    let mut rig = released();
    rig.wake(0);
    let deadlines: Vec<u64> = (1..=8).map(|i| i * 500).collect();
    for &at_ns in &deadlines {
        rig.at(0, at_ns);
    }
    rig.run(20);
    assert_eq!(rig.stamps(), deadlines);
}

#[test]
fn a_deadline_armed_repeatedly_wakes_once() {
    let mut rig = empty();
    rig.wake(0);
    for _ in 0..50 {
        rig.at(0, 1_000_000);
    }
    rig.at(0, 2_000_000);
    rig.run(3);
    assert!(rig.woken.is_empty());
    rig.send_control(Command::ReleaseTime);
    rig.run(10);
    assert_eq!(rig.stamps(), vec![1_000_000, 2_000_000]);
}

#[test]
fn a_periodic_chain_survives_a_one_shot_at_its_instant() {
    let mut rig = empty();
    rig.wake(0);
    rig.at(0, 1_000_000);
    rig.send_control(Command::ScheduleEvery {
        component: ComponentId(0),
        period_ns: 1_000_000,
    });
    rig.send_control(Command::ReleaseTime);
    rig.run(8);
    assert_eq!(&rig.stamps()[..3], &[1_000_000, 2_000_000, 3_000_000]);
}

#[test]
fn one_shot_timer_fires_once_at_virtual_deadline() {
    let mut rig = released();
    rig.wake(0);
    rig.at(0, 100_000_000);
    rig.run(10);
    assert_eq!(rig.stamps(), vec![100_000_000]);
}

#[test]
fn periodic_timer_fires_repeatedly_against_scaled_clock() {
    let mut rig = released();
    rig.wake(0);
    rig.send_control(Command::ScheduleEvery {
        component: ComponentId(0),
        period_ns: 20_000_000,
    });
    rig.run(8);
    let stamps = rig.stamps();
    assert!(stamps.len() >= 3, "{stamps:?}");
    assert!(stamps.windows(2).all(|w| w[1] - w[0] == 20_000_000), "{stamps:?}");
}

#[test]
fn late_wakeups_fire_immediately_in_deadline_order() {
    let mut rig = released();
    rig.now = 5_000;
    rig.wake(0);
    rig.wake(1);
    rig.at(1, 2_000);
    rig.at(0, 1_000);
    rig.run(1);
    assert_eq!(rig.woken, vec![(0, 5_000), (1, 5_000)]);
}

#[test]
fn shutdown_joins_cleanly_with_pending_timers() {
    let mut rig = empty();
    rig.wake(0);
    rig.at(0, 60_000_000_000);
    rig.run(2);
    rig.send(Command::Shutdown);
    rig.run(1);
    assert!(rig.stopped);
    assert!(rig.woken.is_empty());
}

#[test]
fn time_does_not_run_past_a_schedule_still_in_flight() {
    const BIT_NS: u64 = 500;
    const BITS: usize = 20;
    let (resolver, e) = one_net(1);
    let mut rig = Rig::over(resolver, 1, EventLog::disabled());
    rig.send_control(Command::ReleaseTime);
    rig.wake(0);
    let mut rest = BITS;
    rig.on_wake = Some(Box::new(move |component, now_ns| {
        rest -= 1;
        if rest == 0 {
            return Vec::new();
        }
        vec![Command::ScheduleAt { component: ComponentId(component), at_ns: now_ns + BIT_NS }]
    }));
    rig.at(0, BIT_NS);
    let mut up = false;
    for _ in 0..60 {
        for _ in 0..80 {
            up = !up;
            rig.drive(e[0], if up { high() } else { low() });
        }
        rig.iterate();
    }
    let stamps = rig.stamps();
    assert_eq!(stamps.len(), BITS, "{stamps:?}");
    assert!(stamps.windows(2).all(|w| w[1] - w[0] == BIT_NS), "{stamps:?}");
}

#[test]
fn sustained_drive_flood_does_not_starve_the_timer_wheel() {
    let (resolver, e) = one_net(1);
    let mut rig = Rig::over(resolver, 1, EventLog::disabled());
    rig.send_control(Command::ReleaseTime);
    rig.wake(0);
    rig.at(0, 10_000_000);
    for _ in 0..10_000 {
        rig.drive(e[0], high());
    }
    // More wait than one iteration takes: time advances all the same.
    rig.run(1);
    assert!(!rig.data.is_empty());
    assert_eq!(rig.now, 10_000_000);
    rig.run(1);
    assert_eq!(rig.stamps(), vec![10_000_000]);
}

#[test]
fn missing_drive_seq_is_skipped_after_a_bounded_wait() {
    let (resolver, e) = one_net(1);
    let mut rig = Rig::over(resolver, 1, EventLog::disabled());
    // Reserved, and never sent.
    assert_eq!(rig.link.next_drive_seq(), 0);
    rig.drive(e[0], high());
    rig.run(99);
    assert_eq!(rig.idle_polls, 99);
    assert_eq!(rig.core.net_state(NetId(0)), Some(NetState::Floating));
    rig.run(1);
    assert_eq!(rig.core.net_state(NetId(0)), Some(NetState::Driven(Level::High)));
    assert!(rig.core.findings().contains(&Finding::DriveSeqGap { seq: 0 }));
}

#[test]
fn sense_callback_panic_is_contained_and_reported() {
    let (resolver, e) = one_net(1);
    let mut rig = Rig::over(resolver, 1, EventLog::disabled());
    rig.sense(0);
    rig.sense(0);
    rig.run(1);
    rig.core.contain(Subscriber::Net(0), rig.clock());
    rig.drive(e[0], high());
    rig.run(1);
    rig.core.contain(Subscriber::Net(0), rig.clock());
    assert_eq!(rig.states_of(1), vec![NetState::Floating, NetState::Driven(Level::High)]);
    let panics: Vec<&Finding> = rig
        .core
        .findings()
        .iter()
        .filter(|f| matches!(f, Finding::CallbackPanic { .. }))
        .collect();
    assert_eq!(
        panics,
        vec![&Finding::CallbackPanic {
            kind: CallbackKind::Sense,
            subscriber: "N0".to_string(),
        }]
    );
    let clock = rig.clock();
    rig.core.contain(Subscriber::Component(ComponentId(3)), clock);
    rig.core.contain(Subscriber::Topology, clock);
    assert!(rig.core.findings().iter().any(
        |f| matches!(f, Finding::CallbackPanic { kind: CallbackKind::Wake, subscriber } if subscriber.contains('3'))
    ));
    assert!(rig
        .core
        .findings()
        .iter()
        .any(|f| matches!(f, Finding::CallbackPanic { kind: CallbackKind::Topology, .. })));
}

#[test]
fn a_current_drive_reaches_the_live_engine_like_any_other() {
    let mut resolver = Resolver::new(2, Dsu::new(2));
    resolver.add_power_source(0, volts(0.0));
    resolver.add_edge(0, 1, ohms(1_000.0));
    let endpoint = resolver.add_endpoint(1, PinRef::new("IC6", "K"), None);
    let mut rig = Rig::over(resolver, 2, EventLog::disabled());
    rig.drive(endpoint, Some(Drive::Current { amps: amps(1e-3) }));
    rig.run(1);
    match rig.core.net_state(NetId(1)) {
        Some(NetState::Analog(v)) => assert!((number(v, 1e12) - 1.0).abs() < 1e-6, "{v:?}"),
        other => panic!("{other:?}"),
    }
    assert_eq!(rig.core.net_volts(NetId(1)).dc, Some(volts(1.0)));
    assert!(rig.core.escalated_solves() > 0);
    rig.drive(endpoint, None);
    rig.run(1);
    assert_eq!(
        rig.core.net_state(NetId(1)),
        Some(NetState::Pulled(Level::Low, ohms(1_000.0)))
    );
}

#[test]
fn a_clock_without_an_origin_is_reported_by_what_asked() {
    let mut rig = empty();
    rig.ready = false;
    rig.wake(0);
    rig.at(0, 5);
    rig.send_control(Command::ScheduleEvery { component: ComponentId(0), period_ns: 5 });
    rig.send_control(Command::ScheduleEvery { component: ComponentId(0), period_ns: 0 });
    rig.run(2);
    assert_eq!(
        *rig.core.findings(),
        vec![
            Finding::VirtualClockUninitialized { context: "schedule_at".to_string() },
            Finding::VirtualClockUninitialized { context: "schedule_every".to_string() },
        ]
    );
    assert_eq!(rig.core.next_virtual_deadline(None), None);
    assert_eq!(rig.core.next_virtual_deadline(Some(9)), Some(9));
}

#[test]
fn a_period_of_nought_is_no_period() {
    let mut rig = released();
    rig.wake(0);
    rig.send_control(Command::ScheduleEvery { component: ComponentId(0), period_ns: 0 });
    rig.run(3);
    assert!(rig.woken.is_empty());
    assert!(rig.core.findings().is_empty());
}

#[test]
fn a_wake_nobody_handles_is_not_delivered() {
    let mut rig = released();
    rig.at(4, 10);
    rig.run(4);
    assert_eq!(rig.now, 10);
    assert!(rig.woken.is_empty());
}

#[test]
fn the_next_deadline_is_the_earlier_of_the_wheels_and_of_a_park() {
    let mut rig = empty();
    rig.at(0, 100);
    rig.run(1);
    assert_eq!(rig.core.next_virtual_deadline(None), Some(100));
    assert_eq!(rig.core.next_virtual_deadline(Some(70)), Some(70));
    assert_eq!(rig.core.next_virtual_deadline(Some(170)), Some(100));
}

#[test]
fn a_stall_is_reported_once() {
    let mut rig = empty();
    assert!(rig.core.awaits_actors());
    let actors = vec!["pump".to_string()];
    let clock = rig.clock();
    rig.core.note_stall(&actors, clock);
    rig.core.note_stall(&vec!["other".to_string()], clock);
    assert!(!rig.core.awaits_actors());
    assert_eq!(*rig.core.findings(), vec![Finding::QuiescenceTimeout { actors }]);
}

#[test]
fn a_start_is_logged_findings_first_and_the_epoch_last() {
    let mut resolver = Resolver::new(2, Dsu::new(2));
    resolver.add_digital_sense(0);
    resolver.add_power_source(1, volts(3.3));
    let mut rig = Rig::over(resolver, 2, EventLog::enabled());
    assert_eq!(
        *rig.core.findings(),
        vec![Finding::FloatingSense { net: "N0".to_string(), kind: SenseKind::Digital }]
    );
    assert_eq!(
        rig.core.event_log().normalized_shape(),
        vec![
            "0 finding FloatingSense { net: \"N0\", kind: Digital }",
            "1 net_resolved net=1 state=analog:3300000uv",
            "2 reroute epoch=0",
        ]
    );
    rig.send(Command::RegisterTopologyObserver);
    rig.sense(1);
    rig.sense(7);
    rig.run(1);
    assert_eq!(rig.epochs, vec![0]);
    assert_eq!(
        rig.core.event_log().normalized_shape()[3..],
        [
            "3 sense net=1 state=analog:3300000uv",
            "4 sense net=7 state=floating",
        ]
    );
    assert_eq!(rig.states_of(usize::MAX), vec![NetState::Floating]);
}

#[test]
fn a_drive_is_logged_ahead_of_what_it_moves() {
    let (resolver, e) = one_net(1);
    let mut rig = Rig::over(resolver, 1, EventLog::enabled());
    rig.sense(0);
    rig.now = 7_500;
    rig.drive(e[0], high());
    rig.drive(e[0], high());
    rig.run(1);
    let lines = rig.core.event_log().normalized();
    assert_eq!(
        lines[2..],
        [
            "2 v=7 drive_applied seq=0 endpoint=0 drive=3300000uv@25000mohm",
            "3 v=7 net_resolved net=0 state=driven:high",
            "4 v=7 sense net=0 state=driven:high",
            "5 v=7 drive_applied seq=1 endpoint=0 drive=3300000uv@25000mohm",
        ]
    );
}

#[test]
fn a_read_declared_late_is_answered_once_it_is_taken_up() {
    let (resolver, _) = one_net(1);
    let mut rig = Rig::over(resolver, 1, EventLog::disabled());
    assert!(rig.core.findings().is_empty());
    rig.send(Command::DeclareRead { net: NetId(0), kind: ReadKind::Digital });
    rig.run(1);
    assert_eq!(
        *rig.core.findings(),
        vec![Finding::FloatingSense { net: "N0".to_string(), kind: SenseKind::Digital }]
    );
    let clock = rig.clock();
    assert!(!rig.core.declare_pending(clock));
}

#[test]
fn a_read_of_a_net_past_the_board_is_taken_and_touches_nothing() {
    let (resolver, endpoints) = one_net(1);
    let mut rig = Rig::over(resolver, 1, EventLog::enabled());
    let logged = rig.core.event_log().len();
    rig.handle(Command::DeclareRead { net: NetId(1), kind: ReadKind::Digital });
    rig.handle(Command::DeclareRead { net: NetId(usize::MAX), kind: ReadKind::Instrument });
    let clock = rig.clock();
    assert!(rig.core.declare_pending(clock));
    assert!(!rig.core.declare_pending(clock));
    assert!(rig.core.findings().is_empty());
    assert_eq!(rig.core.event_log().len(), logged);
    // What comes behind it is answered as ever.
    rig.handle(Command::DeclareRead { net: NetId(0), kind: ReadKind::Digital });
    assert!(rig.core.declare_pending(clock));
    assert_eq!(
        *rig.core.findings(),
        vec![Finding::FloatingSense { net: "N0".to_string(), kind: SenseKind::Digital }]
    );
    rig.drive(endpoints[0], high());
    rig.run(1);
    assert_eq!(rig.core.net_state(NetId(0)), Some(NetState::Driven(Level::High)));
}

#[test]
fn no_wake_that_is_due_is_left_behind() {
    let mut rig = released();
    rig.now = 5_000;
    let (first, second) = (ComponentId(0), ComponentId(1));
    rig.handle(Command::RegisterWake { component: first });
    rig.handle(Command::RegisterWake { component: second });
    for at_ns in [4_000, 9_000, 1_000, 5_000, 1_000] {
        rig.handle(Command::ScheduleAt { component: first, at_ns });
    }
    rig.handle(Command::ScheduleAt { component: second, at_ns: 1_000 });
    let clock = rig.clock();
    let mut woken = Vec::new();
    while let Some(fired) = rig.core.fire_next(clock) {
        if fired.deliver {
            woken.push(fired.component.0);
        }
    }
    assert_eq!(woken, vec![0, 1, 0, 0]);
    assert_eq!(rig.core.next_virtual_deadline(None), Some(9_000));
}

#[test]
fn an_instrument_is_told_when_its_reading_moves() {
    let mut resolver = Resolver::new(1, Dsu::new(1));
    let e = resolver.add_endpoint(0, PinRef::new("U1", "1"), None);
    resolver.add_power_source(0, volts(0.0));
    resolver.add_current_instrument(0);
    let mut rig = Rig::over(resolver, 1, EventLog::disabled());
    rig.send(Command::RegisterCurrent { net: NetId(0), now: None });
    rig.run(1);
    rig.meter = Some(amps(0.132));
    rig.drive(e, high());
    rig.run(1);
    assert_eq!(rig.read, vec![(0, None), (0, Some(amps(0.132)))]);
    assert!(rig.core.currents().endpoints.len() == 1);
}

#[test]
fn inert_handles_are_safe_noops() {
    let mut link = EngineLink::inert();
    let drive = Command::Drive { seq: 0, endpoint: EndpointId(4), drive: high() };
    assert!(!link.send(&drive, Sent::Inert));
    assert_eq!(link.recorded_drives(), Some(&vec![(EndpointId(4), high())]));
    assert!(!link.send(&Command::ReleaseTime, Sent::Inert));
    link.begin_control();
    assert_eq!(link.pending(), 1);
    assert!(!link.end_control(Sent::Inert));
    assert_eq!(link.pending(), 0);
    let mut gone = EngineLink::live();
    assert!(!gone.send(&drive, Sent::Gone));
    assert_eq!(gone.recorded_drives(), None);
    gone.begin_control();
    assert!(!gone.end_control(Sent::Gone));
    assert_eq!(gone.pending(), 0);
}
