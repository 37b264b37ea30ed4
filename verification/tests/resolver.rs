//! Resolution of boards, solved by nodal analysis.
use std::cell::RefCell;

use embsim_board::board::{element_home, Element, ReadKind};
use embsim_board::cluster::{
    Cluster, ClusterElement, ClusterInjection, ClusterInputs, ClusterInputsView, ClusterResistor,
    ClusterSolution, ClusterSolutionView, ClusterSolver, ClusterSource, ClusterTerminal,
    ClusterView, PwlCurve, RegionTest,
};
use embsim_board::coupling::{
    coupled_reach, overlay_arrivals, refused_crossings, Arrival, CouplingCrossing, RootCoupling,
    Step,
};
use embsim_board::diagnostics::{Diagnostics, Finding, SenseKind};
use embsim_board::dsu::Dsu;
use embsim_board::net::{
    level_of_volts, phase_port, same_state, Drive, EndpointId, Level, Net, NetId, NetState,
    NetVolts, PeriodicSchedule, Phase, PinRef, TheveninDrive,
};
use embsim_board::paths::Edge;
use embsim_board::phases::{combine_phases, PhaseRoot, RootResult};
use embsim_board::quantity::Quantity;
use embsim_board::ranking::{needs_solve, project_root, ReachingSource, RootOutcome};
use embsim_board::resolver::Resolver;
use embsim_board::terminal::{decide_terminal, TerminalDrive, TerminalId, TerminalState};

fn quanta(value: f64, per_unit: f64) -> Quantity {
    if value.is_nan() {
        Quantity::Nan
    } else if value == f64::INFINITY {
        Quantity::Infinite
    } else if value == f64::NEG_INFINITY {
        Quantity::NegInfinite
    } else {
        Quantity::Finite((value * per_unit).round() as i64)
    }
}

fn volts(value: f64) -> Quantity {
    quanta(value, 1e12)
}

fn ohms(value: f64) -> Quantity {
    quanta(value, 1e6)
}

fn amps(value: f64) -> Quantity {
    quanta(value, 1e12)
}

fn number(value: Quantity, per_unit: f64) -> f64 {
    match value {
        Quantity::Nan => f64::NAN,
        Quantity::Infinite => f64::INFINITY,
        Quantity::NegInfinite => f64::NEG_INFINITY,
        Quantity::Finite(n) => n as f64 / per_unit,
    }
}

fn in_volts(value: Quantity) -> f64 {
    number(value, 1e12)
}

fn in_ohms(value: Quantity) -> f64 {
    number(value, 1e6)
}

/// The impedance an ideal source is stamped behind.
const FLOOR_OHMS: f64 = 1e-3;

/// Nodal analysis of a cluster, its elements' regions found by iteration.
struct Nodal;

impl ClusterSolver for Nodal {
    fn solution(&self, _: ClusterView, _: ClusterInputsView) -> ClusterSolutionView {
        unreachable!()
    }

    fn floor(&self) -> Quantity {
        unreachable!()
    }

    fn solve(&self, cluster: &Cluster, inputs: &ClusterInputs) -> ClusterSolution {
        nodal(cluster, inputs)
    }

    fn ideal_source_floor(&self) -> Quantity {
        ohms(FLOOR_OHMS)
    }
}

fn place(nodes: &[NetId], node: NetId) -> usize {
    nodes.iter().position(|&n| n == node).expect("a node of the cluster")
}

fn lead(parent: &[usize], mut i: usize) -> usize {
    while parent[i] != i {
        i = parent[i];
    }
    i
}

fn nodal(cluster: &Cluster, inputs: &ClusterInputs) -> ClusterSolution {
    // A control's constant is no node of the cluster; a branch to a node
    // without a voltage is no branch.
    let mut nodes: Vec<NetId> = cluster.nodes.clone();
    for terminal in &inputs.terminals {
        if !nodes.contains(&terminal.node) {
            nodes.push(terminal.node);
        }
    }
    let nodes = &nodes;
    let n = nodes.len();
    let resistors: Vec<ClusterResistor> = cluster
        .resistors
        .iter()
        .copied()
        .filter(|r| nodes.contains(&r.a) && nodes.contains(&r.b))
        .collect();
    let branch = |e: &ClusterElement| nodes.contains(&e.a) && nodes.contains(&e.b);
    // A resistor of nought ohms makes one node of two.
    let mut parent: Vec<usize> = (0..n).collect();
    for resistor in &resistors {
        if in_ohms(resistor.ohms) <= 0.0 {
            let (a, b) = (place(nodes, resistor.a), place(nodes, resistor.b));
            let (ra, rb) = (lead(&parent, a), lead(&parent, b));
            if ra != rb {
                parent[ra.max(rb)] = ra.min(rb);
            }
        }
    }
    let at = |node: NetId| lead(&parent, place(nodes, node));
    // A control the cluster does not hold has no voltage.
    let known =
        |node: NetId| nodes.iter().position(|&n| n == node).map(|i| lead(&parent, i));
    let mut regions: Vec<bool> = vec![false; inputs.elements.len()];
    let mut seen: Vec<Vec<bool>> = Vec::new();
    let mut solves = 0usize;
    loop {
        solves += 1;
        let mut fixed: Vec<Option<f64>> = vec![None; n];
        for terminal in &inputs.terminals {
            fixed[at(terminal.node)] = Some(in_volts(terminal.volts));
        }
        let mut matrix = vec![vec![0.0f64; n]; n];
        let mut rhs = vec![0.0f64; n];
        let mut joins: Vec<(usize, usize)> = Vec::new();
        let mut sourced: Vec<bool> = fixed.iter().map(|f| f.is_some()).collect();
        for resistor in &resistors {
            let (a, b) = (at(resistor.a), at(resistor.b));
            let r = in_ohms(resistor.ohms);
            if a == b || r <= 0.0 {
                continue;
            }
            joins.push((a, b));
            let g = 1.0 / r;
            matrix[a][a] += g;
            matrix[b][b] += g;
            matrix[a][b] -= g;
            matrix[b][a] -= g;
        }
        for source in &inputs.sources {
            let c = at(source.node);
            let g = 1.0 / in_ohms(source.impedance).max(FLOOR_OHMS);
            matrix[c][c] += g;
            rhs[c] += g * in_volts(source.volts);
            sourced[c] = true;
        }
        for injection in &inputs.injections {
            rhs[at(injection.node)] += number(injection.amps, 1e12);
        }
        for (element, &on) in inputs.elements.iter().zip(&regions) {
            if !on || !branch(element) {
                continue;
            }
            let (a, b) = (at(element.a), at(element.b));
            if a == b {
                continue;
            }
            let (r, vf) = match element.curve {
                PwlCurve::Diode { vf, r_d } => (in_ohms(r_d), in_volts(vf)),
                PwlCurve::Channel { r_on } => (in_ohms(r_on), 0.0),
            };
            let g = 1.0 / r.max(FLOOR_OHMS);
            joins.push((a, b));
            matrix[a][a] += g;
            matrix[b][b] += g;
            matrix[a][b] -= g;
            matrix[b][a] -= g;
            rhs[a] += g * vf;
            rhs[b] -= g * vf;
        }
        // What no source reaches floats.
        loop {
            let mut more = false;
            for &(a, b) in &joins {
                if sourced[a] != sourced[b] {
                    sourced[a] = true;
                    sourced[b] = true;
                    more = true;
                }
            }
            if !more {
                break;
            }
        }
        let free: Vec<usize> =
            (0..n).filter(|&i| lead(&parent, i) == i && fixed[i].is_none() && sourced[i]).collect();
        let mut v: Vec<Option<f64>> = fixed.clone();
        let k = free.len();
        let mut m: Vec<Vec<f64>> = Vec::new();
        for &i in &free {
            let mut row: Vec<f64> = free.iter().map(|&j| matrix[i][j]).collect();
            let mut right = rhs[i];
            for j in 0..n {
                if let Some(held) = fixed[j] {
                    right -= matrix[i][j] * held;
                }
            }
            row.push(right);
            m.push(row);
        }
        for c in 0..k {
            let pivot = (c..k)
                .max_by(|&x, &y| m[x][c].abs().total_cmp(&m[y][c].abs()))
                .expect("a pivot");
            m.swap(c, pivot);
            for r in c + 1..k {
                let factor = m[r][c] / m[c][c];
                for x in c..=k {
                    let lower = m[c][x];
                    m[r][x] -= factor * lower;
                }
            }
        }
        let mut x = vec![0.0f64; k];
        for c in (0..k).rev() {
            let mut right = m[c][k];
            for y in c + 1..k {
                right -= m[c][y] * x[y];
            }
            x[c] = right / m[c][c];
        }
        for (c, &i) in free.iter().enumerate() {
            v[i] = Some(x[c]);
        }
        let mut next: Vec<bool> = Vec::new();
        let mut currents: Vec<Option<f64>> = Vec::new();
        for (element, &on) in inputs.elements.iter().zip(&regions) {
            if !branch(element) {
                next.push(false);
                currents.push(None);
                continue;
            }
            let (a, b) = (at(element.a), at(element.b));
            let controlled = match element.control {
                None => true,
                Some((node, test)) => match (known(node).and_then(|c| v[c]), test) {
                    (None, _) => false,
                    (Some(c), RegionTest::AtLeast(t)) => c >= in_volts(t),
                    (Some(c), RegionTest::AtMost(t)) => c <= in_volts(t),
                },
            };
            let across = match (v[a], v[b]) {
                (Some(x), Some(y)) => Some(x - y),
                _ => None,
            };
            let (r, vf) = match element.curve {
                PwlCurve::Diode { vf, r_d } => (in_ohms(r_d).max(FLOOR_OHMS), in_volts(vf)),
                PwlCurve::Channel { r_on } => (in_ohms(r_on).max(FLOOR_OHMS), 0.0),
            };
            let current = if on { across.map(|d| (d - vf) / r) } else { across.map(|_| 0.0) };
            currents.push(current);
            next.push(match element.curve {
                PwlCurve::Diode { .. } => {
                    controlled
                        && if on {
                            current.is_some_and(|i| i >= 0.0)
                        } else {
                            across.is_some_and(|d| d > vf)
                        }
                }
                PwlCurve::Channel { .. } => controlled && element.control.is_some(),
            });
        }
        let settled = next == regions;
        let looping = seen.contains(&next);
        if settled || looping {
            return ClusterSolution {
                node_states: cluster
                    .nodes
                    .iter()
                    .map(|&node| {
                        (
                            node,
                            match v[at(node)] {
                                Some(x) => NetState::Analog(volts(x)),
                                None => NetState::Floating,
                            },
                        )
                    })
                    .collect(),
                branch_currents: currents.into_iter().map(|i| i.map(amps)).collect(),
                converged: settled,
                solves,
            };
        }
        seen.push(regions);
        regions = next;
    }
}

fn nets(count: usize) -> Vec<Net> {
    (0..count).map(|i| Net::new(NetId(i), &format!("N{i}"))).collect()
}

fn port(v: f64, z: f64) -> TheveninDrive {
    TheveninDrive { volts: volts(v), impedance: ohms(z) }
}

fn high() -> TheveninDrive {
    port(3.3, 25.0)
}

fn low() -> TheveninDrive {
    port(0.0, 25.0)
}

fn level(v: f64, z: f64) -> Option<Drive> {
    Some(Drive::Thevenin(port(v, z)))
}

fn pin(reference: &str, number: &str) -> PinRef {
    PinRef::new(reference, number)
}

fn resolver(n: usize) -> Resolver {
    Resolver::new(n, Dsu::new(n))
}

fn pulled(to: Level, through: f64) -> NetState {
    NetState::Pulled(to, ohms(through))
}

fn analog(v: f64) -> NetState {
    NetState::Analog(volts(v))
}

fn reads(state: NetState, v: f64, tolerance: f64) -> bool {
    matches!(state, NetState::Analog(x) if (in_volts(x) - v).abs() < tolerance)
}

/// The nets of a full pass, and what it found.
fn resolved(r: &mut Resolver, n: usize) -> (Vec<Net>, Diagnostics) {
    let mut table = nets(n);
    let mut found = Diagnostics::new();
    r.resolve(&mut table, &mut found, &Nodal);
    (table, found)
}

fn contention_naming(found: &Diagnostics, net: &str, pins: &[PinRef]) -> bool {
    found.findings().iter().any(|f| {
        matches!(
            f,
            Finding::Contention { net: n, drivers }
                if n == net
                    && drivers.len() == pins.len()
                    && pins.iter().all(|p| drivers.contains(p))
        )
    })
}

/// A solver that notes what it is handed.
struct Noting {
    nodes: RefCell<Vec<Vec<NetId>>>,
    sources: RefCell<Vec<Vec<(f64, f64)>>>,
    terminals: RefCell<Vec<Vec<ClusterTerminal>>>,
    elements: RefCell<Vec<usize>>,
    answer: Option<f64>,
}

impl Noting {
    fn new(answer: Option<f64>) -> Noting {
        Noting {
            nodes: RefCell::new(Vec::new()),
            sources: RefCell::new(Vec::new()),
            terminals: RefCell::new(Vec::new()),
            elements: RefCell::new(Vec::new()),
            answer,
        }
    }
}

impl ClusterSolver for Noting {
    fn solution(&self, _: ClusterView, _: ClusterInputsView) -> ClusterSolutionView {
        unreachable!()
    }

    fn floor(&self) -> Quantity {
        unreachable!()
    }

    fn solve(&self, cluster: &Cluster, inputs: &ClusterInputs) -> ClusterSolution {
        self.nodes.borrow_mut().push(cluster.nodes.clone());
        self.sources.borrow_mut().push(
            inputs
                .sources
                .iter()
                .map(|s| (in_volts(s.volts), in_ohms(s.impedance)))
                .chain(inputs.terminals.iter().map(|t| (in_volts(t.volts), 0.0)))
                .collect(),
        );
        self.terminals.borrow_mut().push(inputs.terminals.clone());
        self.elements.borrow_mut().push(inputs.elements.len());
        match self.answer {
            None => nodal(cluster, inputs),
            Some(v) => ClusterSolution {
                node_states: cluster.nodes.iter().map(|&n| (n, analog(v))).collect(),
                branch_currents: vec![None; inputs.elements.len()],
                converged: true,
                solves: 1,
            },
        }
    }

    fn ideal_source_floor(&self) -> Quantity {
        ohms(FLOOR_OHMS)
    }
}

#[test]
fn a_terminal_slots_idle_drive_keeps_its_declared_impedance() {
    let mut r = resolver(3);
    let declared = Drive::Thevenin(port(3.3, 0.1));
    let e0 = r.add_terminal_endpoint(0, pin("U", "OUT"), Some(declared));
    let e1 =
        r.add_terminal_endpoint(1, pin("U", "OUT2"), TerminalDrive::Released.idle_slot_drive());
    let e2 =
        r.add_terminal_endpoint(2, pin("U", "OUT3"), TerminalDrive::Unmodelled.idle_slot_drive());
    let held = |e: EndpointId| {
        let board = r.assembled();
        board.terminal_source(board.slots[e.0].terminal.unwrap()).drive
    };
    assert_eq!(r.assembled().slots[e0.0].drive, Some(declared));
    assert_eq!(held(e0), TerminalDrive::Volts(volts(3.3)));
    assert_eq!(r.assembled().slots[e1.0].drive, None);
    assert_eq!(held(e1), TerminalDrive::Released);
    match r.assembled().slots[e2.0].drive {
        Some(Drive::Thevenin(t)) => {
            assert_eq!(t.volts, Quantity::Nan);
            assert_eq!(t.impedance, ohms(0.0));
        }
        other => panic!("{other:?}"),
    }
    assert_eq!(held(e2), TerminalDrive::Unmodelled);
}

#[test]
fn competing_path_within_ratio_escalates_to_cluster_solver() {
    let solver = Noting::new(Some(42.0));
    let mut r = resolver(2);
    r.add_endpoint(0, pin("U1", "1"), Some(low()));
    r.add_edge(0, 1, ohms(47.0));
    r.add_power_source(1, volts(3.3));
    let mut table = nets(2);
    let mut found = Diagnostics::new();
    r.resolve(&mut table, &mut found, &solver);
    assert_eq!(solver.nodes.borrow().len(), 1);
    assert!(solver.nodes.borrow()[0].contains(&NetId(0)));
    assert!(solver.nodes.borrow()[0].contains(&NetId(1)));
    assert_eq!(table[0].state, analog(42.0));
    assert_eq!(table[1].state, analog(3.3));

    let solver = Noting::new(Some(42.0));
    let mut r = resolver(2);
    r.add_endpoint(0, pin("U1", "1"), Some(low()));
    r.add_edge(0, 1, ohms(47_000.0));
    r.add_power_source(1, volts(3.3));
    let mut table = nets(2);
    let mut found = Diagnostics::new();
    r.resolve(&mut table, &mut found, &solver);
    assert!(solver.nodes.borrow().is_empty());
    assert_eq!(table[0].state, NetState::Driven(Level::Low));
    assert_eq!(table[1].state, analog(3.3));

    let mut r = resolver(2);
    r.add_endpoint(0, pin("U1", "1"), Some(high()));
    r.add_edge(0, 1, ohms(47.0));
    r.add_power_source(1, volts(3.3));
    let mut table = nets(2);
    let mut found = Diagnostics::new();
    r.resolve(&mut table, &mut found, &solver);
    assert!(solver.nodes.borrow().is_empty());
    assert_eq!(table[0].state, NetState::Driven(Level::High));
}

fn sources_in_endpoint_order(drivers: usize) {
    let solver = Noting::new(None);
    let mut r = resolver(drivers + 1);
    for i in 0..drivers {
        r.add_endpoint(i, pin("U1", "1"), Some(port(3.3, 25.0 + i as f64)));
    }
    for i in 0..drivers {
        r.add_edge(i, i + 1, ohms(10.0));
    }
    r.add_analog_sense(drivers);
    let mut table = nets(drivers + 1);
    let mut found = Diagnostics::new();
    r.resolve(&mut table, &mut found, &solver);
    let expected: Vec<(f64, f64)> = (0..drivers).map(|i| (3.3, 25.0 + i as f64)).collect();
    assert_eq!(*solver.sources.borrow(), vec![expected]);
}

#[test]
fn cluster_sources_follow_dense_endpoint_order_of_two() {
    sources_in_endpoint_order(2);
}

#[test]
fn cluster_sources_follow_dense_endpoint_order_of_three() {
    sources_in_endpoint_order(3);
}

#[test]
fn cluster_sources_follow_dense_endpoint_order_of_eight() {
    sources_in_endpoint_order(8);
}

#[test]
fn repeated_resolutions_of_a_multi_source_cluster_are_bit_identical() {
    let drivers =
        [(3.31, 23.7), (3.29, 31.1), (3.27, 47.3), (3.33, 19.9), (3.19, 29.3), (3.23, 41.7)];
    let mut expected: Vec<(f64, f64)> = drivers.to_vec();
    expected.push((0.0, 0.0));
    let mut first: Option<NetState> = None;
    for _ in 0..64 {
        let solver = Noting::new(None);
        let mut r = resolver(7);
        for (i, (v, z)) in drivers.into_iter().enumerate() {
            r.add_endpoint(i, pin("U1", "1"), Some(port(v, z)));
        }
        for i in 0..5 {
            r.add_edge(i, i + 1, ohms(0.0));
        }
        r.add_edge(5, 6, ohms(37.0));
        r.add_power_source(6, volts(0.0));
        let mut table = nets(7);
        let mut found = Diagnostics::new();
        r.resolve(&mut table, &mut found, &solver);
        assert!(matches!(table[0].state, NetState::Analog(_)), "{:?}", table[0].state);
        match first {
            None => first = Some(table[0].state),
            Some(state) => assert_eq!(table[0].state, state),
        }
        assert_eq!(*solver.sources.borrow(), vec![expected.clone()]);
    }
}

fn level_crosses(drive: TheveninDrive, expect: Level) {
    let mut r = resolver(2);
    let endpoint = r.add_endpoint(0, pin("U1", "1"), None);
    r.add_edge(0, 1, ohms(47.0));
    assert!(r.set_drive(endpoint, Some(Drive::Thevenin(drive))));
    let (table, _) = resolved(&mut r, 2);
    assert_eq!(table[0].state, NetState::Driven(expect));
    assert_eq!(table[1].state, pulled(expect, 47.0));
}

#[test]
fn a_driven_level_crosses_a_series_resistor() {
    level_crosses(low(), Level::Low);
    level_crosses(high(), Level::High);
}

fn outvotes_a_pull(rail: f64, drive: TheveninDrive, expect: Level) {
    let mut r = resolver(3);
    let endpoint = r.add_endpoint(0, pin("U1", "1"), None);
    r.add_edge(0, 1, ohms(47.0));
    r.add_edge(1, 2, ohms(10_000.0));
    r.add_power_source(2, volts(rail));
    r.add_digital_sense(1);
    r.set_drive(endpoint, Some(Drive::Thevenin(drive)));
    let (table, found) = resolved(&mut r, 3);
    assert_eq!(table[0].state, NetState::Driven(expect));
    assert_eq!(table[1].state, pulled(expect, 47.0));
    assert_eq!(table[2].state, analog(rail));
    assert!(found.is_empty(), "{:?}", found.findings());
}

#[test]
fn a_driver_through_a_small_resistor_outvotes_a_pull_to_the_opposite_rail() {
    outvotes_a_pull(3.3, low(), Level::Low);
    outvotes_a_pull(0.0, high(), Level::High);
}

#[test]
fn an_injected_short_outvotes_a_driver_reached_through_resistance() {
    let build = |stuck: bool| {
        let mut r = resolver(3);
        let endpoint = r.add_endpoint(2, pin("U1", "1"), None);
        r.add_edge(0, 1, ohms(47.0));
        r.add_edge(1, 2, ohms(10_000.0));
        r.set_drive(endpoint, Some(Drive::Thevenin(low())));
        if stuck {
            r.add_stuck_source(0, volts(3.3));
        }
        resolved(&mut r, 3).0[1].state
    };
    assert!(matches!(build(false), NetState::Pulled(Level::Low, _)), "{:?}", build(false));
    assert!(matches!(build(true), NetState::Pulled(Level::High, _)), "{:?}", build(true));
}

#[test]
fn stuck_fault_fighting_a_power_rail_projects_contention() {
    let mut r = resolver(1);
    r.add_power_source(0, volts(3.3));
    r.add_stuck_source(0, volts(0.0));
    let (table, found) = resolved(&mut r, 1);
    assert_eq!(table[0].state, NetState::Contention);
    assert!(found
        .findings()
        .iter()
        .any(|f| matches!(f, Finding::Contention { net, .. } if net == "N0")));

    let mut r = resolver(1);
    r.add_power_source(0, volts(3.3));
    r.add_stuck_source(0, volts(3.3));
    let (table, found) = resolved(&mut r, 1);
    assert_eq!(table[0].state, analog(3.3));
    assert!(found.is_empty());
}

#[test]
fn sourced_divider_without_a_driver_reaches_the_cluster_solver() {
    let mut r = resolver(3);
    r.add_power_source(0, volts(3.3));
    r.add_power_source(2, volts(0.0));
    r.add_edge(0, 1, ohms(4_700.0));
    r.add_edge(1, 2, ohms(4_700.0));
    let (table, found) = resolved(&mut r, 3);
    assert!(reads(table[1].state, 1.65, 1e-6), "{:?}", table[1].state);
    assert!(found.is_empty(), "{:?}", found.findings());
}

#[test]
fn analog_sense_escalates_sourced_cluster_but_pull_up_stays_pulled() {
    let mut r = resolver(2);
    r.add_power_source(0, volts(3.3));
    r.add_edge(0, 1, ohms(4_700.0));
    r.add_analog_sense(1);
    let (table, _) = resolved(&mut r, 2);
    assert_eq!(table[1].state, analog(3.3));
    assert_eq!(r.escalated_solves(), 0);

    let mut r = resolver(2);
    r.add_power_source(0, volts(3.3));
    r.add_edge(0, 1, ohms(4_700.0));
    r.add_digital_sense(1);
    let (table, _) = resolved(&mut r, 2);
    assert_eq!(table[1].state, pulled(Level::High, 4_700.0));
}

#[test]
fn disagreeing_drivers_across_a_small_resistor_solve_and_project_each_side_through_the_dead_band() {
    let mut r = resolver(2);
    r.add_endpoint(0, pin("U1", "1"), Some(high()));
    r.add_endpoint(1, pin("U2", "1"), Some(low()));
    r.add_edge(0, 1, ohms(47.0));
    let (table, found) = resolved(&mut r, 2);
    assert!(reads(table[0].state, 3.3 * 72.0 / 97.0, 1e-9), "{:?}", table[0].state);
    assert_eq!(table[1].state, NetState::Contention);
    for net in ["N0", "N1"] {
        assert!(
            found.findings().iter().any(|f| matches!(
                f,
                Finding::Contention { net: n, drivers }
                    if n == net
                        && drivers.contains(&pin("U1", "1"))
                        && drivers.contains(&pin("U2", "1"))
            )),
            "{net}: {:?}",
            found.findings()
        );
    }
    assert!(found.findings().iter().any(|f| matches!(
        f,
        Finding::AmbiguousLevel { net, volts }
            if net == "N1" && (in_volts(*volts) - 3.3 * 25.0 / 97.0).abs() < 1e-9
    )));

    let mut r = resolver(2);
    r.add_endpoint(0, pin("U1", "1"), Some(high()));
    r.add_endpoint(1, pin("U2", "1"), Some(low()));
    r.add_edge(0, 1, ohms(1_000.0));
    let (table, found) = resolved(&mut r, 2);
    assert_eq!(table[0].state, NetState::Driven(Level::High));
    assert_eq!(table[1].state, NetState::Driven(Level::Low));
    assert!(found.is_empty(), "{:?}", found.findings());
}

#[test]
fn an_led_chain_to_a_terminal_solves_with_two_unknowns() {
    let mut r = resolver(3);
    r.add_endpoint(0, pin("U9", "Y"), Some(high()));
    r.add_edge(0, 1, ohms(220.0));
    let curve = PwlCurve::Diode { vf: volts(2.0), r_d: ohms(0.0) };
    r.add_element(1, 2, curve, None, "D1".to_string());
    r.add_power_source(2, volts(0.0));
    let solver = Noting::new(None);
    let mut table = nets(3);
    let mut found = Diagnostics::new();
    r.resolve(&mut table, &mut found, &solver);
    assert_eq!(
        *solver.terminals.borrow(),
        vec![vec![ClusterTerminal { node: NetId(2), volts: volts(0.0) }]]
    );
    // Two nodes beside the rail are solved for.
    assert_eq!(solver.nodes.borrow()[0].len() - solver.terminals.borrow()[0].len(), 2);
    assert_eq!(solver.sources.borrow()[0], vec![(3.3, 25.0), (0.0, 0.0)]);
    assert_eq!(*solver.elements.borrow(), vec![1]);
    let current = 1.3 / 245.0;
    assert!(reads(table[0].state, 3.3 - 25.0 * current, 1e-6), "{:?}", table[0].state);
    assert!(reads(table[1].state, 2.0, 1e-5), "{:?}", table[1].state);
    assert_eq!(table[2].state, analog(0.0));
    assert_eq!(r.escalated_solves(), 1);
    assert!(found.is_empty(), "{:?}", found.findings());
}

#[test]
fn the_far_side_of_an_off_diode_is_in_the_cluster_and_floats() {
    let mut r = resolver(2);
    r.add_endpoint(0, pin("U9", "Y"), Some(high()));
    let curve = PwlCurve::Diode { vf: volts(0.75), r_d: ohms(0.0) };
    r.add_element(0, 1, curve, None, "D1".to_string());
    assert_eq!(r.cluster_roots(2), vec![vec![NetId(0), NetId(1)]]);
    let (table, _) = resolved(&mut r, 2);
    assert_eq!(table[0].state, analog(3.3));
    assert_eq!(table[1].state, NetState::Floating);
}

#[test]
fn a_weak_pad_high_against_a_strong_sink_low_is_driven_low() {
    let mut r = resolver(1);
    r.add_endpoint(0, pin("P2", "P28"), Some(port(3.3, 15_000.0)));
    r.add_endpoint(0, pin("U2", "SDA"), Some(port(0.0, 30.0)));
    let (table, found) = resolved(&mut r, 1);
    assert_eq!(table[0].state, NetState::Driven(Level::Low));
    assert!(found.is_empty(), "{:?}", found.findings());
    assert_eq!(r.escalated_solves(), 0);
}

#[test]
fn a_weak_pad_alone_pulls_its_net_through_its_own_impedance() {
    let mut r = resolver(1);
    r.add_endpoint(0, pin("P2", "P28"), Some(port(3.3, 15_000.0)));
    let (table, found) = resolved(&mut r, 1);
    assert_eq!(table[0].state, pulled(Level::High, 15_000.0));
    assert!(found.is_empty(), "{:?}", found.findings());
}

#[test]
fn a_source_inside_the_dead_band_projects_its_voltage() {
    let mut r = resolver(1);
    r.add_endpoint(0, pin("U101", "2Y"), Some(port(1.65, 29.0)));
    let (table, found) = resolved(&mut r, 1);
    assert_eq!(table[0].state, analog(1.65));
    assert!(found.is_empty(), "{:?}", found.findings());
    assert_eq!(r.escalated_solves(), 0);

    let mut r = resolver(2);
    r.add_endpoint(0, pin("U101", "2Y"), Some(port(1.65, 29.0)));
    r.add_edge(0, 1, ohms(100_000.0));
    let (table, found) = resolved(&mut r, 2);
    assert_eq!(table[1].state, analog(1.65));
    assert!(found.is_empty(), "{:?}", found.findings());
    assert_eq!(r.escalated_solves(), 0);
}

#[test]
fn comparable_drivers_disagreeing_solve_to_the_divided_voltage() {
    let mut r = resolver(1);
    r.add_endpoint(0, pin("U1", "1"), Some(port(3.3, 25.0)));
    r.add_endpoint(0, pin("U2", "1"), Some(port(0.0, 100.0)));
    let (table, found) = resolved(&mut r, 1);
    assert!(reads(table[0].state, 2.64, 1e-9), "{:?}", table[0].state);
    assert_eq!(found.len(), 1, "{:?}", found.findings());
    assert!(contention_naming(&found, "N0", &[pin("U1", "1"), pin("U2", "1")]));
    assert_eq!(r.escalated_solves(), 1);
}

#[test]
fn equal_drivers_disagreeing_sit_in_the_dead_band() {
    let mut r = resolver(1);
    r.add_endpoint(0, pin("U1", "1"), Some(high()));
    r.add_endpoint(0, pin("U2", "1"), Some(low()));
    let (table, found) = resolved(&mut r, 1);
    assert_eq!(table[0].state, NetState::Contention);
    assert!(contention_naming(&found, "N0", &[pin("U1", "1"), pin("U2", "1")]));
    assert!(found.findings().iter().any(|f| matches!(
        f,
        Finding::AmbiguousLevel { net, volts }
            if net == "N0" && (in_volts(*volts) - 1.65).abs() < 1e-9
    )));
}

#[test]
fn a_driver_against_an_injected_short_on_its_own_net_reads_the_short() {
    let mut r = resolver(1);
    r.add_endpoint(0, pin("U1", "1"), Some(low()));
    r.add_stuck_source(0, volts(3.3));
    let (table, found) = resolved(&mut r, 1);
    assert_eq!(table[0].state, analog(3.3));
    assert!(contention_naming(&found, "N0", &[pin("U1", "1")]), "{:?}", found.findings());
}

fn ten_times_further(near: TheveninDrive, far: TheveninDrive, near_level: Level, far_level: Level) {
    let mut r = resolver(2);
    r.add_endpoint(0, pin("U301", "DO"), Some(near));
    r.add_endpoint(1, pin("J301", "DAT0"), Some(far));
    r.add_edge(0, 1, ohms(240.0));
    let (table, found) = resolved(&mut r, 2);
    assert_eq!(table[0].state, NetState::Driven(near_level));
    assert_eq!(table[1].state, NetState::Driven(far_level));
    let both = [pin("U301", "DO"), pin("J301", "DAT0")];
    assert!(contention_naming(&found, "N0", &both), "{:?}", found.findings());
    assert!(contention_naming(&found, "N1", &both), "{:?}", found.findings());
    assert_eq!(r.escalated_solves(), 0);
}

#[test]
fn a_driver_ten_times_further_away_loses_with_a_finding() {
    ten_times_further(high(), low(), Level::High, Level::Low);
    ten_times_further(low(), high(), Level::Low, Level::High);
}

#[test]
fn a_wired_and_reads_low_when_any_sink_pulls_and_the_pull_up_otherwise() {
    let mut r = resolver(2);
    r.add_power_source(0, volts(3.3));
    r.add_edge(0, 1, ohms(4_700.0));
    let a = r.add_endpoint(1, pin("U1", "SDA"), None);
    let b = r.add_endpoint(1, pin("U2", "SDA"), None);
    let (mut table, _) = resolved(&mut r, 2);
    assert_eq!(table[1].state, pulled(Level::High, 4_700.0));
    let sink = |on: bool| if on { Some(Drive::Thevenin(low())) } else { None };
    for (sink_a, sink_b) in [(true, false), (false, true), (true, true)] {
        r.set_drive(a, sink(sink_a));
        r.set_drive(b, sink(sink_b));
        let mut found = Diagnostics::new();
        r.resolve_dirty(&mut table, &mut found, &Nodal);
        assert_eq!(table[1].state, NetState::Driven(Level::Low), "{sink_a} {sink_b}");
        assert!(found.is_empty(), "{:?}", found.findings());
    }
    r.set_drive(a, None);
    r.set_drive(b, None);
    let mut found = Diagnostics::new();
    r.resolve_dirty(&mut table, &mut found, &Nodal);
    assert_eq!(table[1].state, pulled(Level::High, 4_700.0));
}

#[test]
fn an_infinite_impedance_drive_is_a_release() {
    let solver = Noting::new(Some(42.0));
    let mut r = resolver(1);
    let ghost = r.add_endpoint(0, pin("U1", "1"), None);
    r.add_endpoint(0, pin("U2", "1"), Some(low()));
    assert!(!r.set_drive(ghost, level(3.3, f64::INFINITY)));
    let mut table = nets(1);
    let mut found = Diagnostics::new();
    r.resolve(&mut table, &mut found, &solver);
    assert_eq!(table[0].state, NetState::Driven(Level::Low));
    assert!(found.is_empty(), "{:?}", found.findings());
    assert!(solver.nodes.borrow().is_empty());
    assert_eq!(r.escalated_solves(), 0);

    assert!(r.set_drive(ghost, Some(Drive::Thevenin(high()))));
    assert!(r.set_drive(ghost, level(3.3, f64::NEG_INFINITY)));
    let mut found = Diagnostics::new();
    r.resolve_dirty(&mut table, &mut found, &solver);
    assert_eq!(table[0].state, NetState::Driven(Level::Low));
}

#[test]
fn an_unmodelled_rail_presents_as_up_through_its_path() {
    let mut r = resolver(2);
    r.add_power_source(0, Quantity::Nan);
    r.add_edge(0, 1, ohms(4_700.0));
    r.add_digital_sense(1);
    let (table, found) = resolved(&mut r, 2);
    assert_eq!(table[1].state, pulled(Level::High, 4_700.0));
    assert_eq!(table[0].state, pulled(Level::High, 0.0));
    assert!(found.is_empty(), "{:?}", found.findings());
}

fn injection(current: f64, expect: f64) {
    let mut r = resolver(2);
    r.add_power_source(0, volts(0.0));
    r.add_edge(0, 1, ohms(1_000.0));
    r.add_endpoint_with(1, pin("IC6", "K"), Some(Drive::Current { amps: amps(current) }));
    let (table, found) = resolved(&mut r, 2);
    assert!(reads(table[1].state, expect, 1e-6), "{:?}", table[1].state);
    assert!(reads(table[0].state, 0.0, 1e-6), "{:?}", table[0].state);
    assert_eq!(r.escalated_solves(), 1);
    assert!(found.is_empty(), "{:?}", found.findings());
}

#[test]
fn a_current_injection_into_a_resistor_to_a_terminal_reads_i_times_r() {
    injection(1e-3, 1.0);
    injection(-100e-6, -0.1);
}

#[test]
fn a_current_injected_where_nothing_reaches_leaves_the_net_floating() {
    let mut r = resolver(1);
    r.add_endpoint_with(0, pin("IC6", "K"), Some(Drive::Current { amps: amps(1e-3) }));
    r.add_digital_sense(0);
    let (table, found) = resolved(&mut r, 1);
    assert_eq!(table[0].state, NetState::Floating);
    assert!(found.contains(&Finding::CurrentIntoFloatingNode {
        net: "N0".to_string(),
        pin: pin("IC6", "K"),
    }));
    assert!(found.contains(&Finding::FloatingSense {
        net: "N0".to_string(),
        kind: SenseKind::Digital,
    }));
    assert_eq!(r.escalated_solves(), 0);
}

#[test]
fn a_source_does_not_reach_past_a_terminal() {
    let mut r = resolver(3);
    r.add_endpoint(0, pin("U100", "P59"), Some(high()));
    r.add_edge(0, 1, ohms(10_500.0));
    r.add_stuck_source(1, volts(0.0));
    r.add_edge(1, 2, ohms(10_500.0));
    r.add_digital_sense(2);
    let (table, found) = resolved(&mut r, 3);
    assert_eq!(table[0].state, NetState::Driven(Level::High));
    assert_eq!(table[1].state, analog(0.0));
    assert_eq!(table[2].state, pulled(Level::Low, 10_500.0));
    assert_eq!(r.escalated_solves(), 0);
    assert!(found.is_empty(), "{:?}", found.findings());
}

#[test]
fn an_analog_sense_reads_the_operating_point_of_a_fought_node() {
    let mut r = resolver(1);
    r.add_endpoint(0, pin("U1", "1"), Some(high()));
    r.add_endpoint(0, pin("U2", "1"), Some(low()));
    r.add_analog_sense(0);
    let (table, found) = resolved(&mut r, 1);
    assert!(reads(table[0].state, 1.65, 1e-9), "{:?}", table[0].state);
    assert!(contention_naming(&found, "N0", &[pin("U1", "1"), pin("U2", "1")]));
    assert!(found.findings().iter().any(|f| matches!(
        f,
        Finding::AmbiguousLevel { volts, .. } if (in_volts(*volts) - 1.65).abs() < 1e-9
    )));
    assert_eq!(found.findings().len(), 2, "{:?}", found.findings());
}

#[test]
fn a_power_net_without_a_source_is_found() {
    let mut r = resolver(1);
    r.add_power_sense(0);
    let (table, found) = resolved(&mut r, 1);
    assert_eq!(table[0].state, NetState::Floating);
    assert_eq!(
        *found.findings(),
        vec![Finding::PowerNetUnsourced { net: "N0".to_string() }]
    );
}

#[test]
fn a_floating_analog_sense_is_found_as_one() {
    let mut r = resolver(1);
    r.add_analog_sense(0);
    let (_, found) = resolved(&mut r, 1);
    assert_eq!(
        *found.findings(),
        vec![Finding::FloatingSense { net: "N0".to_string(), kind: SenseKind::Analog }]
    );
}

// ---- Clocks ----

const SEGMENT: PeriodicSchedule =
    PeriodicSchedule { emitted: 0, freq_hz: 8_192, total: None, since_ns: 1_000_000 };

fn clock(hi_ohms: f64, lo_ohms: f64, segment: PeriodicSchedule) -> Option<Drive> {
    Some(Drive::Periodic { hi: port(3.3, hi_ohms), lo: port(0.0, lo_ohms), segment })
}

fn fights(found: &Diagnostics) -> Vec<(String, Vec<PinRef>)> {
    found
        .findings()
        .iter()
        .filter_map(|f| match f {
            Finding::Contention { net, drivers } => Some((net.clone(), drivers.clone())),
            _ => None,
        })
        .collect()
}

fn resolve_one(drives: &[(&str, Option<Drive>)]) -> (NetState, Diagnostics, u64) {
    let mut r = resolver(1);
    for (number, drive) in drives {
        r.add_endpoint_with(0, pin("U1", number), *drive);
    }
    let (table, found) = resolved(&mut r, 1);
    (table[0].state, found, r.escalated_solves())
}

fn square(segment: PeriodicSchedule) -> NetState {
    NetState::Periodic { hi: Level::High, lo: Level::Low, segment }
}

#[test]
fn a_clock_against_a_pull_up_is_a_square_wave_carrying_its_segment() {
    let (state, found, solves) =
        resolve_one(&[("STEP", clock(25.0, 25.0, SEGMENT)), ("PU", level(3.3, 10_000.0))]);
    assert_eq!(state, square(SEGMENT));
    assert!(found.is_empty(), "{:?}", found.findings());
    assert_eq!(solves, 0);
}

fn fought_clock(stuck_volts: f64, stuck_ohms: f64, ambiguous: Option<f64>) {
    let (state, found, solves) = resolve_one(&[
        ("STEP", clock(25.0, 25.0, SEGMENT)),
        ("STUCK", level(stuck_volts, stuck_ohms)),
    ]);
    assert_eq!(state, NetState::Contention);
    assert_eq!(
        fights(&found),
        vec![("N0".to_string(), vec![pin("U1", "STEP"), pin("U1", "STUCK")])]
    );
    let reported = found.findings().iter().find_map(|f| match f {
        Finding::AmbiguousLevel { volts, .. } => Some(in_volts(*volts)),
        _ => None,
    });
    match (ambiguous, reported) {
        (Some(expected), Some(v)) => assert!((v - expected).abs() < 1e-9),
        (None, None) => {}
        other => panic!("ambiguous level {other:?}"),
    }
    assert_eq!(solves, 1);
}

#[test]
fn a_clock_fought_by_a_comparable_static_driver_is_contention() {
    fought_clock(0.0, 25.0, Some(1.65));
    fought_clock(3.3, 100.0, None);
}

#[test]
fn two_clocks_on_one_net_are_contention() {
    for other in [SEGMENT, PeriodicSchedule { freq_hz: 16_384, ..SEGMENT }] {
        let (state, found, _) =
            resolve_one(&[("A", clock(25.0, 25.0, SEGMENT)), ("B", clock(25.0, 25.0, other))]);
        assert_eq!(state, NetState::Contention);
        assert_eq!(
            fights(&found),
            vec![("N0".to_string(), vec![pin("U1", "A"), pin("U1", "B")])]
        );
    }
}

#[test]
fn a_clock_that_releases_high_needs_a_pull_up() {
    let (state, found, _) = resolve_one(&[("SCL", clock(f64::INFINITY, 25.0, SEGMENT))]);
    assert_eq!(state, NetState::Floating);
    assert!(fights(&found).is_empty(), "{:?}", found.findings());
    let (state, found, _) = resolve_one(&[
        ("SCL", clock(f64::INFINITY, 25.0, SEGMENT)),
        ("PU", level(3.3, 4_700.0)),
    ]);
    assert_eq!(state, square(SEGMENT));
    assert!(fights(&found).is_empty(), "{:?}", found.findings());
}

#[test]
fn a_clock_outvoted_by_a_far_stronger_driver_is_that_drivers_level() {
    let (state, found, solves) =
        resolve_one(&[("STEP", clock(25.0, 25.0, SEGMENT)), ("HOLD", level(3.3, 2.0))]);
    assert_eq!(state, NetState::Driven(Level::High));
    assert_eq!(
        fights(&found),
        vec![("N0".to_string(), vec![pin("U1", "STEP"), pin("U1", "HOLD")])]
    );
    assert_eq!(solves, 0);
}

fn losing_clock(clock_ohms: f64, hold_ohms: f64) {
    let run = |step: Option<Drive>, read: bool| {
        let mut r = resolver(1);
        r.add_endpoint_with(0, pin("U1", "STEP"), step);
        r.add_endpoint_with(0, pin("U1", "HOLD"), level(3.3, hold_ohms));
        if read {
            r.add_analog_sense(0);
        }
        let (table, found) = resolved(&mut r, 1);
        (table[0].state, table[0].volts, fights(&found))
    };
    let step = clock(clock_ohms, clock_ohms, SEGMENT);
    let (unread, _, unread_fights) = run(step, false);
    assert_eq!(unread, NetState::Driven(Level::High));
    let (state, at, read_fights) = run(step, true);
    let held_high = run(level(3.3, clock_ohms), true);
    assert!(!matches!(state, NetState::Periodic { .. }), "{state:?}");
    assert_eq!((state, at), (held_high.0, held_high.1));
    assert_eq!(at.phases, None);
    assert_eq!(read_fights, unread_fights);
}

#[test]
fn a_losing_clock_under_a_reader_is_the_static_drivers_net() {
    losing_clock(25.0, 2.0);
    losing_clock(10_000.0, 25.0);
    losing_clock(1_000.0, 200.0);
}

#[test]
fn a_clock_crosses_a_series_resistor() {
    let mut r = resolver(2);
    r.add_endpoint_with(0, pin("U1", "STEP"), clock(25.0, 25.0, SEGMENT));
    r.add_endpoint_with(1, pin("R2", "1"), level(0.0, 10_000.0));
    r.add_edge(0, 1, ohms(47.0));
    let (table, found) = resolved(&mut r, 2);
    assert_eq!(table[1].state, square(SEGMENT));
    assert!(found.is_empty(), "{:?}", found.findings());
}

#[test]
fn a_clock_inside_one_report_band_is_still_a_clock() {
    let mut r = resolver(1);
    r.add_endpoint_with(
        0,
        pin("U1", "CLK"),
        Some(Drive::Periodic { hi: port(1.2, 25.0), lo: port(0.0, 25.0), segment: SEGMENT }),
    );
    let (table, _) = resolved(&mut r, 1);
    assert_eq!(
        table[0].state,
        NetState::Periodic { hi: Level::Low, lo: Level::Low, segment: SEGMENT }
    );
    assert_eq!(
        table[0].volts,
        NetVolts { dc: None, phases: Some((Some(volts(1.2)), Some(volts(0.0)))) }
    );
}

#[test]
fn a_held_clock_rests_at_its_low_port() {
    let held =
        PeriodicSchedule { emitted: 400, freq_hz: 0, total: Some(400), since_ns: 2_000_000 };
    let mut r = resolver(1);
    r.add_endpoint_with(0, pin("U1", "STEP"), clock(25.0, 25.0, held));
    let (table, _) = resolved(&mut r, 1);
    assert_eq!(table[0].state, square(held));
    assert_eq!(
        table[0].volts,
        NetVolts { dc: Some(volts(0.0)), phases: Some((Some(volts(3.3)), Some(volts(0.0)))) }
    );
}

#[test]
fn a_rail_driven_periodic_is_released_and_couples_nothing() {
    let mut r = resolver(2);
    let rail =
        r.add_terminal_endpoint(0, pin("U1", "OUT"), TerminalDrive::Released.idle_slot_drive());
    r.add_endpoint_with(1, pin("R1", "1"), level(0.0, 10_000.0));
    // One microfarad.
    r.add_coupling(0, 1, 1_000_000_000, "C1".to_string());
    let (mut table, _) = resolved(&mut r, 2);
    r.set_drive(rail, clock(0.0, 0.0, SEGMENT));
    let mut found = Diagnostics::new();
    r.resolve(&mut table, &mut found, &Nodal);
    let board = r.assembled();
    assert_eq!(
        board.terminal_source(board.slots[rail.0].terminal.unwrap()).drive,
        TerminalDrive::Released
    );
    assert!(matches!(table[1].state, NetState::Pulled(Level::Low, _)), "{:?}", table[1].state);
    assert!(!found.findings().iter().any(|f| matches!(f, Finding::PeriodicNotCoupled { .. })));
}

#[test]
fn a_clock_crosses_a_capacitor_that_passes_its_rate() {
    // 100 nF at 20 MHz is far below an ohm; 10 pF at 1 kHz is megohms.
    let rate = PeriodicSchedule { freq_hz: 20_000_000, ..SEGMENT };
    let mut r = resolver(3);
    r.add_endpoint_with(0, pin("U1", "CLK"), clock(25.0, 25.0, rate));
    r.add_edge(1, 2, ohms(10_000.0));
    r.add_power_source(2, volts(0.0));
    r.add_coupling(0, 1, 100_000_000, "C1".to_string());
    let (table, found) = resolved(&mut r, 3);
    assert!(matches!(table[1].state, NetState::Periodic { segment, .. } if segment == rate));
    assert!(found.is_empty(), "{:?}", found.findings());

    let slow = PeriodicSchedule { freq_hz: 1_000, ..SEGMENT };
    let mut r = resolver(3);
    r.add_endpoint_with(0, pin("U1", "CLK"), clock(25.0, 25.0, slow));
    r.add_edge(1, 2, ohms(10_000.0));
    r.add_power_source(2, volts(0.0));
    r.add_coupling(0, 1, 10_000, "C1".to_string());
    let (table, found) = resolved(&mut r, 3);
    assert_eq!(table[1].state, pulled(Level::Low, 10_000.0));
    assert!(
        found.findings().iter().any(|f| matches!(
            f,
            Finding::PeriodicNotCoupled { net, capacitor, hz: 1_000, reactance_ohms, far_ohms }
                if net == "N1"
                    && capacitor == "C1"
                    && (in_ohms(*reactance_ohms) - 15_915_494.309).abs() < 1e-2
                    && *far_ohms == ohms(10_000.0)
        )),
        "{:?}",
        found.findings()
    );
}

#[test]
fn a_periodic_state_changes_only_when_its_segment_does() {
    assert!(same_state(&square(SEGMENT), &square(SEGMENT)));
    assert!(!same_state(
        &square(SEGMENT),
        &square(PeriodicSchedule { since_ns: SEGMENT.since_ns + 1, ..SEGMENT })
    ));
    assert!(!same_state(&square(SEGMENT), &square(PeriodicSchedule { freq_hz: 1, ..SEGMENT })));
}

#[test]
fn an_element_that_cannot_settle_is_found() {
    struct Unsettled;
    impl ClusterSolver for Unsettled {
        fn solution(&self, _: ClusterView, _: ClusterInputsView) -> ClusterSolutionView {
            unreachable!()
        }

        fn floor(&self) -> Quantity {
            unreachable!()
        }

        fn solve(&self, cluster: &Cluster, inputs: &ClusterInputs) -> ClusterSolution {
            ClusterSolution { converged: false, solves: 7, ..nodal(cluster, inputs) }
        }

        fn ideal_source_floor(&self) -> Quantity {
            ohms(FLOOR_OHMS)
        }
    }
    let mut r = resolver(2);
    r.add_endpoint(0, pin("U9", "Y"), Some(high()));
    r.add_element(0, 1, PwlCurve::Channel { r_on: ohms(1.0) }, None, "B.Q1".to_string());
    let mut table = nets(2);
    let mut found = Diagnostics::new();
    r.resolve(&mut table, &mut found, &Unsettled);
    assert!(
        found.contains(&Finding::NonConvergent {
            cluster: "N0".to_string(),
            elements: vec!["B.Q1".to_string()],
            solves: 7,
        }),
        "{:?}",
        found.findings()
    );
}

#[test]
fn an_instrument_reads_the_current_of_its_pin() {
    // 3.3 V behind 25 ohms into 1975 ohms to ground: 1.65 mA out of the pin.
    let mut r = resolver(2);
    let e = r.add_endpoint(0, pin("U1", "1"), Some(high()));
    r.add_edge(0, 1, ohms(1_975.0));
    r.add_power_source(1, volts(0.0));
    r.add_current_instrument(0);
    let (_, found) = resolved(&mut r, 2);
    assert!(found.is_empty(), "{:?}", found.findings());
    assert!(r.take_currents_changed());
    assert!(!r.take_currents_changed());
    let table = r.current_table();
    let current = table.endpoints[e.0].expect("a solved pin has a current");
    assert!((number(current, 1e12) + 1.65e-3).abs() < 1e-8, "{current:?}");
}

// ---- Passes over the touched clusters ----

struct Dice(u64);

impl Dice {
    fn below(&mut self, n: usize) -> usize {
        self.0 = self.0.wrapping_mul(6_364_136_223_846_793_005).wrapping_add(1);
        ((self.0 >> 33) as usize) % n
    }

    fn pick(&mut self, of: &[f64]) -> f64 {
        of[self.below(of.len())]
    }

    fn drive(&mut self) -> Option<Drive> {
        match self.below(11) {
            0 | 1 => None,
            2..=7 => level(
                self.pick(&[0.0, 3.3, 5.0]),
                self.pick(&[25.0, 100.0, 470.0, 15_000.0, 100_000.0, f64::INFINITY]),
            ),
            8 => Some(Drive::Current { amps: amps(self.pick(&[-1e-3, 0.0, 100e-6, 1e-3])) }),
            _ => {
                let freq_hz = [0u32, 1_000, 20_000_000][self.below(3)];
                Some(Drive::Periodic {
                    hi: port(3.3, self.pick(&[25.0, 15_000.0, f64::INFINITY])),
                    lo: port(0.0, 25.0),
                    segment: PeriodicSchedule { emitted: 0, freq_hz, total: None, since_ns: 0 },
                })
            }
        }
    }

    fn held(&mut self) -> TerminalDrive {
        match self.below(6) {
            0 => TerminalDrive::Released,
            1 => TerminalDrive::Unmodelled,
            2 => TerminalDrive::Volts(volts(0.0)),
            3 => TerminalDrive::Volts(volts(3.3)),
            4 => TerminalDrive::Volts(volts(5.0)),
            _ => TerminalDrive::Volts(volts(1.5)),
        }
    }
}

struct Built {
    resolver: Resolver,
    n: usize,
    ids: Vec<EndpointId>,
    terminals: Vec<TerminalId>,
    rails: Vec<EndpointId>,
}

fn build(seed: u64) -> Built {
    let mut d = Dice(seed);
    let n = 2 + d.below(8);
    let mut identity = Dsu::new(n);
    for _ in 0..d.below(3) {
        let (a, b) = (d.below(n), d.below(n));
        identity.union(a, b);
    }
    let mut r = Resolver::new(n, identity);
    for _ in 0..d.below(4) {
        let (a, b) = (d.below(n), d.below(n));
        r.add_edge(a, b, ohms(d.pick(&[0.0, 47.0, 470.0, 4_700.0, 15_000.0])));
    }
    let mut ids = Vec::new();
    for i in 0..1 + d.below(7) {
        let net = d.below(n);
        let drive = d.drive();
        ids.push(r.add_endpoint_with(net, pin("U", &format!("{i}")), drive));
    }
    let mut terminals = Vec::new();
    for _ in 0..d.below(3) {
        let net = d.below(n);
        terminals.push(r.add_power_source(net, volts(d.pick(&[0.0, 3.3, f64::NAN]))));
    }
    let mut rails = Vec::new();
    for i in 0..d.below(2) {
        let net = d.below(n);
        rails.push(r.add_terminal_endpoint(
            net,
            pin("U", &format!("OUT{i}")),
            TerminalDrive::Unmodelled.idle_slot_drive(),
        ));
    }
    for _ in 0..d.below(2) {
        let net = d.below(n);
        terminals.push(r.add_stuck_source(net, volts(d.pick(&[0.0, 3.3]))));
    }
    for _ in 0..d.below(3) {
        r.add_digital_sense(d.below(n));
    }
    for _ in 0..d.below(3) {
        r.add_analog_sense(d.below(n));
    }
    for _ in 0..d.below(2) {
        r.add_current_instrument(d.below(n));
    }
    for _ in 0..d.below(2) {
        r.add_power_sense(d.below(n));
    }
    for i in 0..d.below(3) {
        let (a, b) = (d.below(n), d.below(n));
        let curve = match d.below(4) {
            0 => PwlCurve::Diode { vf: volts(0.75), r_d: ohms(0.0) },
            1 => PwlCurve::Diode { vf: volts(2.0), r_d: ohms(5.0) },
            2 => PwlCurve::Channel { r_on: ohms(1.0) },
            _ => PwlCurve::Channel { r_on: ohms(20.0) },
        };
        let control = match d.below(4) {
            0 => None,
            _ => {
                let net = d.below(n);
                let test = match d.below(4) {
                    0 => RegionTest::AtLeast(volts(2.0)),
                    1 => RegionTest::AtLeast(volts(1.5)),
                    2 => RegionTest::AtMost(volts(-2.0)),
                    _ => RegionTest::AtMost(volts(1.5)),
                };
                Some((net, test))
            }
        };
        r.add_element(a, b, curve, control, format!("B.D{i}"));
    }
    for i in 0..d.below(3) {
        let (a, b) = (d.below(n), d.below(n));
        r.add_coupling(a, b, [10_000, 100_000_000][d.below(2)], format!("C{i}"));
    }
    Built { resolver: r, n, ids, terminals, rails }
}

// ---- One global pass, as an oracle ----

/// The terminals a cluster reads.
struct ReadTerminals {
    constants: Vec<ClusterTerminal>,
    ideal: Vec<(usize, Quantity)>,
    unmodelled: Vec<usize>,
    sourced: bool,
    boundary_nodes: Vec<NetId>,
    own_fight: Option<Quantity>,
}

type Sources = Vec<(usize, ClusterSource, usize)>;

/// The least series resistance from a root to every root it reaches.
fn paths(edges: &[(usize, usize, Quantity)], from: usize, barriers: &[usize]) -> Vec<(usize, f64)> {
    let mut dist: Vec<(usize, f64)> = vec![(from, 0.0)];
    let get = |dist: &Vec<(usize, f64)>, root: usize| {
        dist.iter().find(|(r, _)| *r == root).map(|(_, d)| *d)
    };
    loop {
        let mut changed = false;
        for &(a, b, z) in edges {
            for (x, y) in [(a, b), (b, a)] {
                if x != from && barriers.contains(&x) {
                    continue;
                }
                let Some(dx) = get(&dist, x) else {
                    continue;
                };
                let candidate = dx + in_ohms(z);
                match get(&dist, y) {
                    Some(dy) if candidate >= dy => {}
                    _ => {
                        dist.retain(|(r, _)| *r != y);
                        dist.push((y, candidate));
                        changed = true;
                    }
                }
            }
        }
        if !changed {
            return dist;
        }
    }
}

/// How a rate reaches every root: the ohms, and the capacitors crossed with
/// the root each was crossed into.
fn rate_paths(
    edges: &[(usize, usize, Quantity)],
    couplings: &[(usize, usize, usize)],
    from: usize,
    barriers: &[usize],
) -> Vec<(usize, f64, Vec<(usize, usize)>)> {
    let mut reach: Vec<(usize, f64, Vec<(usize, usize)>)> = vec![(from, 0.0, Vec::new())];
    let get = |reach: &Vec<(usize, f64, Vec<(usize, usize)>)>, root: usize| {
        reach.iter().find(|(r, _, _)| *r == root).map(|(_, d, p)| (*d, p.clone()))
    };
    loop {
        let mut changed = false;
        for &(a, b, z) in edges {
            for (x, y) in [(a, b), (b, a)] {
                if x != from && barriers.contains(&x) {
                    continue;
                }
                let Some((dx, path)) = get(&reach, x) else {
                    continue;
                };
                let candidate = dx + in_ohms(z);
                if get(&reach, y).is_none_or(|(dy, _)| candidate < dy) {
                    reach.retain(|(r, _, _)| *r != y);
                    reach.push((y, candidate, path));
                    changed = true;
                }
            }
        }
        for &(a, b, ci) in couplings {
            for (x, y) in [(a, b), (b, a)] {
                if x != from && barriers.contains(&x) {
                    continue;
                }
                let Some((dx, path)) = get(&reach, x) else {
                    continue;
                };
                if path.iter().any(|(crossed, _)| *crossed == ci) {
                    continue;
                }
                if get(&reach, y).is_none_or(|(dy, _)| dx < dy) {
                    let mut crossed = path;
                    crossed.push((ci, y));
                    reach.retain(|(r, _, _)| *r != y);
                    reach.push((y, dx, crossed));
                    changed = true;
                }
            }
        }
        if !changed {
            return reach;
        }
    }
}

/// One global pass over every net: the clusters found on the fly, the paths
/// walked afresh for every root, nothing kept between passes.
fn global_pass(r: &mut Resolver, table: &mut Vec<Net>, found: &mut Diagnostics) {
    let n = table.len();
    let root_of = r.identity_roots(n);
    let board = r.assembled();
    let mut terminal_roots: Vec<usize> = board
        .power_sources
        .iter()
        .chain(&board.stuck_sources)
        .map(|source| root_of[source.net])
        .collect();
    terminal_roots.sort();
    terminal_roots.dedup();
    let is_terminal = |root: usize| terminal_roots.contains(&root);

    let mut parent: Vec<usize> = (0..n).collect();
    let mut join = |a: usize, b: usize| {
        let (ra, rb) = (lead(&parent, a), lead(&parent, b));
        if ra != rb {
            parent[ra.max(rb)] = ra.min(rb);
        }
    };
    for (i, &root) in root_of.iter().enumerate() {
        join(root, i);
    }
    for edge in &board.edges {
        let (ra, rb) = (root_of[edge.a], root_of[edge.b]);
        if !is_terminal(ra) && !is_terminal(rb) {
            join(ra, rb);
        }
    }
    let nets_of = |e: &Element| {
        let mut list = vec![e.a, e.b];
        if let Some((net, _)) = e.control {
            list.push(net);
        }
        list
    };
    let homes: Vec<Option<usize>> = board
        .elements
        .iter()
        .map(|e| nets_of(e).into_iter().map(|net| root_of[net]).find(|&root| !is_terminal(root)))
        .collect();
    for (element, home) in board.elements.iter().zip(&homes) {
        let Some(home) = home else {
            continue;
        };
        for net in nets_of(element) {
            if !is_terminal(root_of[net]) {
                join(*home, root_of[net]);
            }
        }
    }
    let cluster_of: Vec<usize> = (0..n).map(|i| lead(&parent, i)).collect();
    let root_edges: Vec<(usize, usize, Quantity)> = board
        .edges
        .iter()
        .map(|e| (root_of[e.a], root_of[e.b], e.ohms))
        .filter(|(a, b, _)| a != b)
        .collect();
    let held: Vec<TerminalState> = terminal_roots
        .iter()
        .map(|&root| {
            let drives: Vec<TerminalDrive> = board
                .power_sources
                .iter()
                .chain(&board.stuck_sources)
                .filter(|source| root_of[source.net] == root)
                .map(|source| source.drive)
                .collect();
            decide_terminal(&Nodal, root, &drives).0
        })
        .collect();
    let held_at = |root: usize| {
        held[terminal_roots.iter().position(|&t| t == root).expect("a terminal")]
    };
    let boundary_of = |cluster: usize| -> Vec<usize> {
        let mut boundary: Vec<usize> = Vec::new();
        for &(a, b, _) in &root_edges {
            for (x, y) in [(a, b), (b, a)] {
                if !is_terminal(x) && cluster_of[x] == cluster && is_terminal(y) {
                    boundary.push(y);
                }
            }
        }
        for (element, home) in board.elements.iter().zip(&homes) {
            if home.is_some_and(|home| cluster_of[home] == cluster) {
                for net in [element.a, element.b] {
                    if is_terminal(root_of[net]) {
                        boundary.push(root_of[net]);
                    }
                }
            }
        }
        boundary.sort();
        boundary.dedup();
        boundary
    };
    let controls_of = |cluster: usize| -> Vec<usize> {
        let boundary = boundary_of(cluster);
        let mut controls: Vec<usize> = Vec::new();
        for (element, home) in board.elements.iter().zip(&homes) {
            if home.is_some_and(|home| cluster_of[home] == cluster) {
                if let Some((net, _)) = element.control {
                    if is_terminal(root_of[net]) && !boundary.contains(&root_of[net]) {
                        controls.push(root_of[net]);
                    }
                }
            }
        }
        controls.sort();
        controls.dedup();
        controls
    };
    let elements_of = |cluster: usize| -> Vec<(ClusterElement, usize)> {
        board
            .elements
            .iter()
            .enumerate()
            .filter(|(ei, _)| homes[*ei].is_some_and(|home| cluster_of[home] == cluster))
            .map(|(ei, e)| {
                (
                    ClusterElement {
                        a: NetId(root_of[e.a]),
                        b: NetId(root_of[e.b]),
                        curve: e.curve,
                        control: e.control.map(|(net, test)| (NetId(root_of[net]), test)),
                    },
                    ei,
                )
            })
            .collect()
    };
    let rate_of = |si: usize| match board.slots[si].drive {
        Some(Drive::Periodic { segment, .. }) => Some(segment),
        _ => None,
    };
    let periodic = |cluster: usize| {
        board.slots.iter().enumerate().any(|(si, slot)| {
            slot.terminal.is_none() && rate_of(si).is_some() && cluster_of[slot.net] == cluster
        })
    };
    let sources_in = |phase: Phase| -> Sources {
        let mut list: Sources = Vec::new();
        for (si, slot) in board.slots.iter().enumerate() {
            if slot.terminal.is_some() {
                continue;
            }
            let cluster = cluster_of[slot.net];
            let phase = if periodic(cluster) { Some(phase) } else { None };
            if let Some(at) = phase_port(slot.drive, phase) {
                list.push((
                    cluster,
                    ClusterSource {
                        node: NetId(root_of[slot.net]),
                        volts: at.volts,
                        impedance: at.impedance,
                    },
                    si,
                ));
            }
        }
        list
    };
    let sources_hi = sources_in(Phase::High);
    let sources_lo = sources_in(Phase::Low);
    let slot_sourced = |cluster: usize| {
        sources_hi.iter().chain(&sources_lo).any(|(c, _, _)| *c == cluster)
    };
    let injections_of = |cluster: usize| -> Vec<ClusterInjection> {
        board
            .slots
            .iter()
            .filter(|slot| slot.terminal.is_none() && cluster_of[slot.net] == cluster)
            .filter_map(|slot| match slot.drive {
                Some(Drive::Current { amps }) => {
                    Some(ClusterInjection { node: NetId(root_of[slot.net]), amps })
                }
                _ => None,
            })
            .collect()
    };
    let read_terminals = |cluster: usize| -> ReadTerminals {
        let mut read = ReadTerminals {
            constants: Vec::new(),
            ideal: Vec::new(),
            unmodelled: Vec::new(),
            sourced: false,
            boundary_nodes: Vec::new(),
            own_fight: None,
        };
        let own: Vec<usize> =
            terminal_roots.iter().copied().filter(|&root| cluster_of[root] == cluster).collect();
        for (root, boundary) in
            own.iter().map(|&t| (t, false)).chain(boundary_of(cluster).into_iter().map(|t| (t, true)))
        {
            let state = held_at(root);
            match state.drive {
                TerminalDrive::Volts(v) => {
                    read.constants.push(ClusterTerminal { node: NetId(root), volts: v });
                    read.ideal.push((root, v));
                    read.sourced = true;
                    if boundary {
                        read.boundary_nodes.push(NetId(root));
                    } else if state.fought {
                        read.own_fight = Some(v);
                    }
                }
                TerminalDrive::Unmodelled => {
                    read.unmodelled.push(root);
                    read.sourced = true;
                }
                TerminalDrive::Released => {}
            }
        }
        for root in controls_of(cluster) {
            if let TerminalDrive::Volts(v) = held_at(root).drive {
                read.constants.push(ClusterTerminal { node: NetId(root), volts: v });
            }
        }
        read
    };
    let solve = |cluster: usize, sources: &Sources| -> ClusterSolution {
        let read = read_terminals(cluster);
        let mut nodes: Vec<NetId> =
            (0..n).filter(|&i| root_of[i] == i && cluster_of[i] == cluster).map(NetId).collect();
        nodes.extend(read.boundary_nodes.iter().copied());
        let resistors: Vec<ClusterResistor> = root_edges
            .iter()
            .filter(|(a, b, _)| {
                (cluster_of[*a] == cluster && !is_terminal(*a))
                    || (cluster_of[*b] == cluster && !is_terminal(*b))
            })
            .map(|&(a, b, ohms)| ClusterResistor { a: NetId(a), b: NetId(b), ohms })
            .collect();
        let inputs = ClusterInputs {
            sources: sources
                .iter()
                .filter(|(c, _, _)| *c == cluster)
                .map(|(_, source, _)| *source)
                .collect(),
            injections: injections_of(cluster),
            terminals: read.constants,
            elements: elements_of(cluster).into_iter().map(|(e, _)| e).collect(),
        };
        Nodal.solve(&Cluster { nodes, resistors }, &inputs)
    };
    let has_elements = |cluster: usize| !elements_of(cluster).is_empty();
    let injected =
        |cluster: usize| injections_of(cluster).iter().any(|i| i.amps != Quantity::Finite(0));
    let sourced =
        |cluster: usize| slot_sourced(cluster) || !read_terminals(cluster).ideal.is_empty();
    let listed = |list: &Vec<usize>, cluster: usize| {
        list.iter().any(|&net| cluster_of[net] == cluster)
    };
    let eager = |cluster: usize| {
        sourced(cluster)
            && (injected(cluster)
                || listed(&board.current_instruments, cluster)
                || has_elements(cluster))
    };
    let on_request = |cluster: usize| {
        eager(cluster) || (sourced(cluster) && listed(&board.analog_senses, cluster))
    };
    let volts_at = |solution: &ClusterSolution, root: usize| {
        solution.node_states.iter().find(|(node, _)| node.0 == root).and_then(|(_, state)| {
            match state {
                NetState::Analog(v) => Some(*v),
                _ => None,
            }
        })
    };
    let named = |state: NetState| match state {
        NetState::Analog(v) => Some(v),
        _ => None,
    };
    let in_band = |v: Quantity| 0.8 < in_volts(v) && in_volts(v) < 2.0;

    type Roots = Vec<Option<PhaseRoot>>;
    let pass = |sources: &Sources, periodic_only: bool| -> (Roots, Vec<(usize, ClusterSolution)>) {
        let mut escalated: Vec<(usize, ClusterSolution)> = Vec::new();
        let mut outcomes: Roots = (0..n).map(|_| None).collect();
        for root in (0..n).filter(|&i| root_of[i] == i) {
            let cluster = cluster_of[root];
            if periodic_only && !periodic(cluster) {
                continue;
            }
            let read = read_terminals(cluster);
            let dist = if is_terminal(root) {
                vec![(root, 0.0)]
            } else {
                paths(&root_edges, root, &terminal_roots)
            };
            let at = |to: usize| dist.iter().find(|(t, _)| *t == to).map(|(_, d)| *d);
            let mut reaching: Vec<ReachingSource> = sources
                .iter()
                .filter(|(c, _, _)| *c == cluster)
                .filter_map(|(_, source, slot)| {
                    Some(ReachingSource {
                        slot: Some(*slot),
                        volts: source.volts,
                        impedance: source.impedance,
                        path: ohms(at(source.node.0)?),
                        segment: rate_of(*slot),
                    })
                })
                .collect();
            for &(terminal_root, v) in &read.ideal {
                if let Some(path) = at(terminal_root) {
                    reaching.push(ReachingSource {
                        slot: None,
                        volts: v,
                        impedance: ohms(0.0),
                        path: ohms(path),
                        segment: None,
                    });
                }
            }
            let nearest = read
                .unmodelled
                .iter()
                .filter_map(|&root| at(root))
                .fold(f64::INFINITY, f64::min);
            let unmodelled_or_floating = if nearest.is_finite() {
                NetState::Pulled(Level::High, ohms(nearest))
            } else {
                NetState::Floating
            };
            let mut solved = || -> (Option<Quantity>, bool) {
                if !escalated.iter().any(|(c, _)| *c == cluster) {
                    escalated.push((cluster, solve(cluster, sources)));
                }
                let (_, solution) =
                    escalated.iter().find(|(c, _)| *c == cluster).expect("solved");
                (volts_at(solution, root), solution.converged)
            };
            let mut outcome = if has_elements(cluster) && on_request(cluster) {
                let (v, converged) = solved();
                let ranked = if reaching.is_empty() {
                    None
                } else {
                    Some(project_root(&reaching, v))
                };
                let state = match v {
                    Some(v) => NetState::Analog(v),
                    None if !converged => NetState::Floating,
                    None => unmodelled_or_floating,
                };
                RootOutcome {
                    state,
                    volts: named(state),
                    ..ranked.unwrap_or_else(|| RootOutcome::quiet(state))
                }
            } else if reaching.is_empty() {
                RootOutcome::quiet(unmodelled_or_floating)
            } else if reaching.len() == 1 && !eager(cluster) && on_request(cluster) {
                RootOutcome {
                    state: NetState::Analog(reaching[0].volts),
                    volts: Some(reaching[0].volts),
                    fight: None,
                    ambiguous: None,
                    solved: false,
                }
            } else if on_request(cluster) {
                let (v, _) = solved();
                let state = match v {
                    Some(v) => NetState::Analog(v),
                    None => NetState::Floating,
                };
                RootOutcome { state, volts: named(state), ..project_root(&reaching, v) }
            } else if needs_solve(&reaching) {
                let (v, _) = solved();
                project_root(&reaching, v)
            } else {
                project_root(&reaching, None)
            };
            if let Some(v) = read.own_fight {
                outcome.fight = Some(outcome.fight.take().unwrap_or_default());
                outcome.solved = false;
                outcome.volts = Some(v);
                outcome.ambiguous = if in_band(v) { Some(v) } else { None };
                if !on_request(cluster) {
                    outcome.state =
                        if in_band(v) { NetState::Contention } else { NetState::Analog(v) };
                }
            }
            outcomes[root] = Some(PhaseRoot::of(outcome, &reaching));
        }
        (outcomes, escalated)
    };
    let (hi_roots, mut escalated) = pass(&sources_hi, false);
    let (lo_roots, escalated_lo) = pass(&sources_lo, true);
    for (cluster, solution) in escalated_lo {
        match escalated.iter().position(|(c, _)| *c == cluster) {
            Some(k) if !escalated[k].1.converged => {}
            Some(k) => escalated[k].1 = solution,
            None => escalated.push((cluster, solution)),
        }
    }

    let mut arrivals: Vec<Arrival> = Vec::new();
    let root_couplings: Vec<(usize, usize, usize)> = board
        .couplings
        .iter()
        .enumerate()
        .map(|(ci, c)| (root_of[c.a], root_of[c.b], ci))
        .filter(|(a, b, _)| a != b)
        .collect();
    let smallest_edge_at = |root: usize| {
        root_edges
            .iter()
            .filter(|(a, b, _)| *a == root || *b == root)
            .map(|(_, _, z)| in_ohms(*z))
            .fold(f64::INFINITY, f64::min)
    };
    for (si, slot) in board.slots.iter().enumerate() {
        let Some(Drive::Periodic { hi, lo, segment }) = slot.drive else {
            continue;
        };
        if slot.terminal.is_some() {
            continue;
        }
        let from = root_of[slot.net];
        let mut reached = rate_paths(&root_edges, &root_couplings, from, &terminal_roots);
        reached.retain(|(root, z, path)| {
            *z < 1_000.0
                && !path.is_empty()
                && !is_terminal(*root)
                && cluster_of[*root] != cluster_of[from]
        });
        reached.sort_by_key(|(root, _, _)| *root);
        for (root, _, path) in reached {
            arrivals.push(Arrival {
                root,
                slot: si,
                crossings: path
                    .iter()
                    .map(|&(ci, far_root)| CouplingCrossing {
                        capacitor: ci,
                        far_root,
                        farads: board.couplings[ci].farads,
                        far_ohms: ohms(smallest_edge_at(far_root)),
                    })
                    .collect(),
                hi: level_of_volts(hi.volts),
                lo: level_of_volts(lo.volts),
                swing: Arrival::swing_of(hi, lo),
                segment,
            });
        }
    }
    let mut results: Vec<Option<RootResult>> = (0..n).map(|_| None).collect();
    for root in (0..n).filter(|&i| root_of[i] == i) {
        let hi = hi_roots[root].as_ref().expect("every root is resolved");
        let (result, driving) = match &lo_roots[root] {
            Some(lo) => {
                let mut driving = hi.contending.clone();
                driving.extend(lo.contending.iter().copied());
                driving.sort();
                driving.dedup();
                (combine_phases(hi, lo), driving)
            }
            None => (
                RootResult {
                    state: hi.state,
                    fight: hi.fight.clone(),
                    ambiguous: hi.ambiguous,
                    volts: NetVolts { dc: hi.volts, phases: None },
                },
                Vec::new(),
            ),
        };
        results[root] = Some(overlay_arrivals(result, root, &arrivals, &driving));
    }
    for i in 0..n {
        table[i].state = results[root_of[i]].as_ref().expect("resolved").state;
    }

    let mut told: Vec<usize> = Vec::new();
    for i in 0..n {
        let root = root_of[i];
        let result = results[root].as_ref().expect("resolved");
        let Some(fighting) = &result.fight else {
            continue;
        };
        if told.contains(&root) {
            continue;
        }
        told.push(root);
        let name = table[root.min(i)].name.clone();
        found.report(Finding::Contention {
            net: name.clone(),
            drivers: fighting.iter().map(|&si| board.slots[si].pin.clone()).collect(),
        });
        if let Some(volts) = result.ambiguous {
            found.report(Finding::AmbiguousLevel { net: name, volts });
        }
    }
    for (senses, kind) in [
        (&board.digital_senses, SenseKind::Digital),
        (&board.analog_senses, SenseKind::Analog),
    ] {
        let mut told: Vec<usize> = Vec::new();
        for &net in senses {
            if table[net].state == NetState::Floating && !told.contains(&root_of[net]) {
                told.push(root_of[net]);
                found.report(Finding::FloatingSense { net: table[net].name.clone(), kind });
            }
        }
    }
    let mut told: Vec<usize> = Vec::new();
    for &net in &board.power_senses {
        let cluster = cluster_of[net];
        let diverged = escalated.iter().any(|(c, s)| *c == cluster && !s.converged);
        let unsourced = !(slot_sourced(cluster) || read_terminals(cluster).sourced)
            || (has_elements(cluster) && !diverged && table[net].state == NetState::Floating);
        if unsourced && !told.contains(&root_of[net]) {
            told.push(root_of[net]);
            found.report(Finding::PowerNetUnsourced { net: table[net].name.clone() });
        }
    }
    for slot in &board.slots {
        let Some(Drive::Current { amps }) = slot.drive else {
            continue;
        };
        if amps == Quantity::Finite(0) || slot.terminal.is_some() {
            continue;
        }
        let cluster = cluster_of[slot.net];
        let dist = paths(&root_edges, root_of[slot.net], &terminal_roots);
        let reached = sources_hi
            .iter()
            .chain(&sources_lo)
            .any(|(c, s, _)| *c == cluster && dist.iter().any(|(t, _)| *t == s.node.0))
            || read_terminals(cluster)
                .ideal
                .iter()
                .any(|(root, _)| dist.iter().any(|(t, _)| t == root));
        if !reached {
            found.report(Finding::CurrentIntoFloatingNode {
                net: table[slot.net].name.clone(),
                pin: slot.pin.clone(),
            });
        }
    }
    let mut diverged: Vec<(usize, Finding)> = Vec::new();
    for (cluster, solution) in &escalated {
        let elements = elements_of(*cluster);
        if solution.converged || elements.is_empty() {
            continue;
        }
        let first = (0..n).find(|&i| cluster_of[i] == *cluster).expect("a cluster has a net");
        diverged.push((
            first,
            Finding::NonConvergent {
                cluster: table[first].name.clone(),
                elements: elements
                    .iter()
                    .map(|(_, ei)| board.elements[*ei].reference.clone())
                    .collect(),
                solves: solution.solves,
            },
        ));
    }
    diverged.sort_by_key(|(first, _)| *first);
    for (_, finding) in diverged {
        found.report(finding);
    }
    let mut refused = refused_crossings(&arrivals, table, &board.couplings);
    refused.sort_by_key(|(far_root, _)| *far_root);
    for (_, finding) in refused {
        found.report(finding);
    }
}

fn bus_of(bus: &Diagnostics) -> Vec<String> {
    let mut found: Vec<String> = bus.findings().iter().map(|f| format!("{f:?}")).collect();
    found.sort();
    found
}

fn merge_into(bus: &mut Diagnostics, pass: &Diagnostics) {
    for finding in pass.findings() {
        bus.report(finding.clone());
    }
}

fn touched_cluster_case(seed: u64) {
    let mut incremental = build(seed);
    let mut full = build(seed).resolver;
    let n = incremental.n;
    let (mut nets_inc, mut nets_full) = (nets(n), nets(n));
    let (mut bus_inc, mut bus_full) = (Diagnostics::new(), Diagnostics::new());

    let mut pass = Diagnostics::new();
    incremental.resolver.resolve(&mut nets_inc, &mut pass, &Nodal);
    merge_into(&mut bus_inc, &pass);
    let mut pass = Diagnostics::new();
    global_pass(&mut full, &mut nets_full, &mut pass);
    merge_into(&mut bus_full, &pass);
    for i in 0..n {
        assert!(
            same_state(&nets_inc[i].state, &nets_full[i].state),
            "seed {seed} first pass net {i}: {:?}, {:?}",
            nets_inc[i].state,
            nets_full[i].state
        );
    }
    let mut fresh = build(seed).resolver;

    let mut d = Dice(seed ^ 0x9e37_79b9_7f4a_7c15);
    for step in 0..1 + d.below(11) {
        match d.below(6) {
            0..=3 => {
                let endpoint = incremental.ids[d.below(incremental.ids.len())];
                let drive = d.drive();
                let changed = incremental.resolver.set_drive(endpoint, drive);
                assert_eq!(full.set_drive(endpoint, drive), changed);
                assert_eq!(fresh.set_drive(endpoint, drive), changed);
            }
            4 if !incremental.terminals.is_empty() => {
                let id = incremental.terminals[d.below(incremental.terminals.len())];
                let held = d.held();
                let changed = incremental.resolver.set_terminal(id, held);
                assert_eq!(full.set_terminal(id, held), changed);
                assert_eq!(fresh.set_terminal(id, held), changed);
            }
            5 if !incremental.rails.is_empty() => {
                let endpoint = incremental.rails[d.below(incremental.rails.len())];
                let drive = d.drive();
                let changed = incremental.resolver.set_drive(endpoint, drive);
                assert_eq!(full.set_drive(endpoint, drive), changed);
                assert_eq!(fresh.set_drive(endpoint, drive), changed);
            }
            _ => continue,
        }
        let mut scope = Vec::new();
        incremental.resolver.dirty_scope(n, &mut scope);
        let before: Vec<(NetState, NetVolts)> =
            nets_inc.iter().map(|net| (net.state, net.volts)).collect();
        let mut pass = Diagnostics::new();
        incremental.resolver.resolve_dirty(&mut nets_inc, &mut pass, &Nodal);
        merge_into(&mut bus_inc, &pass);
        let mut pass = Diagnostics::new();
        global_pass(&mut full, &mut nets_full, &mut pass);
        merge_into(&mut bus_full, &pass);
        let mut nets_fresh = nets(n);
        fresh.resolve(&mut nets_fresh, &mut Diagnostics::new(), &Nodal);
        for i in 0..n {
            assert!(
                same_state(&nets_inc[i].state, &nets_full[i].state),
                "seed {seed} step {step} net {i}: {:?}, {:?}",
                nets_inc[i].state,
                nets_full[i].state
            );
            assert_eq!(nets_inc[i].state, nets_fresh[i].state);
            assert_eq!(nets_inc[i].volts, nets_fresh[i].volts);
            if !scope.contains(&i) {
                assert_eq!((nets_inc[i].state, nets_inc[i].volts), before[i]);
            }
        }
        assert_eq!(bus_of(&bus_inc), bus_of(&bus_full), "seed {seed} step {step}");
    }
}

#[test]
fn resolving_only_the_touched_cluster_matches_a_full_pass() {
    for seed in 0..2_000u64 {
        touched_cluster_case(seed.wrapping_mul(0x2545_f491_4f6c_dd1d).wrapping_add(17));
    }
}

#[test]
fn a_declared_read_resolves_its_own_cluster_alone() {
    let mut r = resolver(3);
    r.add_endpoint(2, pin("U1", "1"), Some(high()));
    let (mut table, found) = resolved(&mut r, 3);
    assert!(found.is_empty());
    r.declare_reads(&vec![(1, ReadKind::Digital)]);
    let mut scope = Vec::new();
    r.dirty_scope(3, &mut scope);
    assert_eq!(scope, vec![1]);
    let mut found = Diagnostics::new();
    r.resolve_dirty(&mut table, &mut found, &Nodal);
    assert_eq!(
        *found.findings(),
        vec![Finding::FloatingSense { net: "N1".to_string(), kind: SenseKind::Digital }]
    );
    r.dirty_scope(3, &mut scope);
    assert!(scope.is_empty());
}

#[test]
fn a_drive_sets_only_what_it_reaches_waiting() {
    let mut r = resolver(4);
    let a = r.add_endpoint(0, pin("U1", "1"), None);
    r.add_edge(0, 1, ohms(47.0));
    r.add_endpoint(3, pin("U2", "1"), Some(low()));
    let _ = resolved(&mut r, 4);
    let mut scope = Vec::new();
    r.dirty_scope(4, &mut scope);
    assert!(scope.is_empty());
    assert!(r.set_drive(a, Some(Drive::Thevenin(high()))));
    r.dirty_scope(4, &mut scope);
    assert_eq!(scope, vec![0, 1]);
    assert!(!r.set_drive(a, Some(Drive::Thevenin(high()))));
    // An endpoint nobody declared is dropped.
    assert!(!r.set_drive(EndpointId(9), Some(Drive::Thevenin(high()))));
}

#[test]
fn a_terminals_change_sets_its_readers_waiting() {
    let mut r = resolver(3);
    let rail = r.add_power_source(0, volts(3.3));
    r.add_edge(0, 1, ohms(4_700.0));
    let (mut table, _) = resolved(&mut r, 3);
    assert_eq!(table[1].state, pulled(Level::High, 4_700.0));
    assert!(r.set_terminal(rail, TerminalDrive::Volts(volts(0.0))));
    let mut scope = Vec::new();
    r.dirty_scope(3, &mut scope);
    assert_eq!(scope, vec![0, 1]);
    let mut found = Diagnostics::new();
    r.resolve_dirty(&mut table, &mut found, &Nodal);
    assert_eq!(table[0].state, analog(0.0));
    assert_eq!(table[1].state, pulled(Level::Low, 4_700.0));
}

#[test]
fn nets_are_grouped_by_conduction_and_split_at_terminals() {
    let mut r = resolver(4);
    r.add_edge(0, 1, ohms(47.0));
    r.add_edge(1, 2, ohms(47.0));
    r.add_power_source(2, volts(3.3));
    assert_eq!(
        r.cluster_roots(4),
        vec![vec![NetId(0), NetId(1)], vec![NetId(2)], vec![NetId(3)]]
    );
    assert_eq!(r.identity_roots(4), vec![0, 1, 2, 3]);
}

#[test]
fn driving_pins_are_the_drivers_of_a_root() {
    let mut identity = Dsu::new(3);
    identity.union(0, 1);
    let mut r = Resolver::new(3, identity);
    r.add_endpoint(0, pin("U1", "1"), Some(high()));
    r.add_endpoint(1, pin("U2", "2"), None);
    r.add_endpoint(2, pin("U3", "3"), Some(low()));
    let roots = r.identity_roots(3);
    let root = roots[0];
    assert_eq!(roots[1], root);
    assert_eq!(r.driving_pins(&roots, root), vec![pin("U1", "1")]);
}

#[test]
fn a_declared_port_is_one_more_source() {
    let mut r = resolver(1);
    r.add_port(0, pin("U1", "1"), high());
    assert!(r.fits_nets(1));
    assert!(!r.fits_nets(0));
    let (table, found) = resolved(&mut r, 1);
    assert_eq!(table[0].state, NetState::Driven(Level::High));
    assert!(found.findings().is_empty());
}

#[test]
fn a_root_reaches_what_conducts_to_it() {
    let mut r = resolver(4);
    r.add_edge(0, 1, ohms(100.0));
    r.add_edge(1, 2, ohms(5_000.0));
    assert_eq!(r.reached_roots(4, 0), vec![0, 1, 2]);
    assert_eq!(r.reached_roots(4, 3), vec![3]);
}

#[test]
fn a_board_past_its_nets_does_not_fit() {
    let mut r = resolver(2);
    r.add_edge(0, 1, ohms(-1.0));
    assert!(!r.fits_nets(2));
    let mut r = resolver(2);
    r.add_power_source(2, volts(3.3));
    assert!(!r.fits_nets(2));
    assert!(r.fits_nets(3));
}

#[test]
fn a_strap_sources_a_rail_that_is_down() {
    for rail in [TerminalDrive::Released, TerminalDrive::Unmodelled] {
        let (held, solved) =
            decide_terminal(&Nodal, 0, &vec![rail, TerminalDrive::Volts(volts(3.3))]);
        assert_eq!(
            held,
            TerminalState { drive: TerminalDrive::Volts(volts(3.3)), fought: false }
        );
        assert!(!solved);
    }
}

#[test]
fn two_supplies_that_disagree_fight() {
    let drives = vec![TerminalDrive::Volts(volts(5.0)), TerminalDrive::Volts(volts(3.0))];
    let (held, solved) = decide_terminal(&Nodal, 0, &drives);
    assert_eq!(held, TerminalState { drive: TerminalDrive::Volts(volts(4.0)), fought: true });
    assert!(solved);
    let agreeing = vec![TerminalDrive::Volts(volts(5.0)); 2];
    assert_eq!(
        decide_terminal(&Nodal, 0, &agreeing),
        (TerminalState { drive: TerminalDrive::Volts(volts(5.0)), fought: false }, false)
    );
    assert_eq!(decide_terminal(&Nodal, 0, &vec![]).0.drive, TerminalDrive::Released);
}

#[test]
fn a_terminals_drive_comes_back_from_its_slot() {
    for drive in
        [TerminalDrive::Released, TerminalDrive::Unmodelled, TerminalDrive::Volts(volts(1.8))]
    {
        assert_eq!(TerminalDrive::from_slot(drive.idle_slot_drive()), drive);
    }
    assert_eq!(TerminalDrive::from_volts(Quantity::Nan), TerminalDrive::Unmodelled);
}

#[test]
fn merged_sets_have_one_root() {
    let mut sets = Dsu::new(4);
    sets.union(1, 3);
    sets.union(0, 3);
    assert_eq!(sets.find(0), sets.find(1));
    assert_eq!(sets.find(3), sets.find(1));
    assert_ne!(sets.find(2), sets.find(1));
    sets.grow(6);
    assert_eq!(sets.len(), 6);
    assert_eq!(sets.find(5), 5);
}

#[test]
fn a_terminal_inside_the_dead_band_pulls_through_its_path() {
    let held = ReachingSource {
        slot: None,
        volts: volts(1.8),
        impedance: ohms(0.0),
        path: ohms(10_000.0),
        segment: None,
    };
    let outcome = project_root(&vec![held], None);
    assert_eq!(outcome.state, pulled(Level::High, 10_000.0));
    assert_eq!(outcome.volts, Some(volts(1.8)));
    assert_eq!(outcome.fight, None);
    assert_eq!(outcome.ambiguous, None);
    assert!(!outcome.solved);
    let pad = ReachingSource { slot: Some(0), ..held };
    assert_eq!(project_root(&vec![pad], None).state, analog(1.8));
}

fn refused_by(farads: u64, far: Quantity) -> bool {
    let rate = PeriodicSchedule { freq_hz: 1_000_000_000, ..SEGMENT };
    let mut r = resolver(3);
    r.add_endpoint_with(0, pin("U1", "CLK"), clock(25.0, 25.0, rate));
    r.add_edge(1, 2, far);
    r.add_power_source(2, volts(0.0));
    r.add_coupling(0, 1, farads, "C1".to_string());
    let (_, found) = resolved(&mut r, 3);
    found.findings().iter().any(|f| matches!(f, Finding::PeriodicNotCoupled { .. }))
}

#[test]
fn a_crossing_is_judged_on_the_reactance_itself() {
    // At 1 GHz a millifarad is 0.159 micro-ohms and a tenth of it 1.59.
    let (milli, tenth) = (1_000_000_000_000u64, 100_000_000_000u64);
    assert!(refused_by(milli, Quantity::Finite(0)));
    assert!(refused_by(milli, Quantity::Finite(1)));
    assert!(!refused_by(milli, Quantity::Finite(2)));
    assert!(refused_by(tenth, Quantity::Finite(15)));
    assert!(!refused_by(tenth, Quantity::Finite(16)));
}

#[test]
fn an_element_lists_its_terminal_ends_in_order() {
    let element = Element {
        a: 2,
        b: 1,
        curve: PwlCurve::Channel { r_on: ohms(1.0) },
        control: Some((0, RegionTest::AtLeast(volts(1.0)))),
        reference: "Q1".to_string(),
    };
    let root_of = vec![0, 1, 2];
    let home = element_home(&element, &root_of, &vec![1, 2]).expect("the control is no terminal");
    assert_eq!(home.root, 0);
    assert_eq!(home.terminal_ends, vec![2, 1]);
    assert_eq!(home.terminal_control, None);
    let home = element_home(&element, &root_of, &vec![0, 1]).expect("one end is no terminal");
    assert_eq!(home.root, 2);
    assert_eq!(home.terminal_ends, vec![1]);
    assert_eq!(home.terminal_control, Some(0));
    assert!(element_home(&element, &root_of, &vec![0, 1, 2]).is_none());
}

#[test]
fn a_reach_is_the_least_resistance_over_edges_and_capacitors() {
    let edges = vec![
        Edge { a: 0, b: 1, ohms: ohms(100.0) },
        Edge { a: 2, b: 1, ohms: ohms(10.0) },
        Edge { a: 1, b: 3, ohms: ohms(5.0) },
        Edge { a: 3, b: 4, ohms: ohms(1.0) },
    ];
    let couplings = vec![RootCoupling { a: 0, b: 2, capacitor: 7 }];
    let reach = coupled_reach(&edges, &couplings, 0, &vec![3], 6);
    let reached: Vec<Option<Quantity>> =
        reach.iter().map(|r| r.as_ref().map(|r| r.ohms)).collect();
    assert_eq!(
        reached,
        vec![
            Some(ohms(0.0)),
            Some(ohms(10.0)),
            Some(ohms(0.0)),
            Some(ohms(15.0)),
            None,
            None,
        ]
    );
    let path = &reach[3].as_ref().expect("reached").path;
    assert_eq!(*path, vec![Step { capacitor: 7, far_root: 2 }]);
}

#[test]
fn a_board_built_again_gives_the_same() {
    for seed in 0..50u64 {
        let (mut once, mut again) = (build(seed), build(seed));
        let n = once.n;
        let (a, found_a) = resolved(&mut once.resolver, n);
        let (b, found_b) = resolved(&mut again.resolver, n);
        for i in 0..n {
            assert_eq!(a[i].state, b[i].state);
            assert_eq!(a[i].volts, b[i].volts);
        }
        assert_eq!(found_a.findings(), found_b.findings());
        assert_eq!(once.resolver.escalated_solves(), again.resolver.escalated_solves());
    }
}

#[test]
fn a_read_past_the_nets_waits_for_nothing() {
    let mut r = resolver(2);
    r.add_endpoint(0, pin("U1", "1"), None);
    let (mut table, mut found) = resolved(&mut r, 2);
    r.declare_reads(&vec![(2, ReadKind::Digital), (1, ReadKind::Digital)]);
    assert_eq!(r.assembled().digital_senses, vec![2, 1]);
    let mut scope = Vec::new();
    r.dirty_scope(2, &mut scope);
    assert_eq!(scope, vec![1]);
    r.resolve_dirty(&mut table, &mut found, &Nodal);
    assert_eq!(
        *found.findings(),
        vec![Finding::FloatingSense { net: "N1".to_string(), kind: SenseKind::Digital }]
    );
    // No structure is built over it.
    assert!(!r.fits_nets(2));
}
