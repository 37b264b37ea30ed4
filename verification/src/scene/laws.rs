//! What a cluster's pass reads of its slots and terminals, and what it finds.
use vstd::prelude::*;

use crate::cluster::ClusterSolver;
use crate::coupling::crossed_at;
use crate::diagnostics::{FindingView, SenseKind};
use crate::net::{port_in, Drive, Level, NetState, Phase};
use crate::quantity::Quantity;
use crate::ranking::laws::{
    high, no_level, out_of_contest, the_strongest_source_ranks_the_root, wins,
};
use crate::ranking::ReachingSource;
use crate::terminal::{TerminalDrive, TerminalState};
use crate::scene::{
    fight_findings, position_in, HeldTerminal, Names, Scene, SlotInjection, SlotSource,
};

verus! {

/// The first `n` whole numbers.
pub open spec fn counted_to(n: nat) -> Seq<int> {
    Seq::new(n, |k: int| k)
}

proof fn counted_on(n: nat)
    requires
        n > 0,
    ensures
        counted_to(n).drop_last() == counted_to((n - 1) as nat),
        counted_to(n).last() == n - 1,
{
    assert(counted_to(n).drop_last() =~= counted_to((n - 1) as nat));
}

/// The sources of a phase are the cluster's slots that present a port in it, in
/// endpoint order, each with its own root, port and segment.
pub proof fn every_slot_that_presents_a_port_is_a_source(
    scene: Scene,
    phase: Option<Phase>,
    k: nat,
)
    ensures
        scene.sources(phase, k) == counted_to(k).filter(
            |j: int| port_in(scene.drives[j], phase) is Some,
        ).map_values(
            |j: int|
                SlotSource {
                    slot: scene.topo.slots[j],
                    root: scene.slot_roots[j],
                    port: port_in(scene.drives[j], phase)->0,
                    segment: match scene.drives[j] {
                        Some(Drive::Periodic { segment, .. }) => Some(segment),
                        _ => None,
                    },
                },
        ),
    decreases k,
{
    reveal(Seq::filter);
    let keep = |j: int| port_in(scene.drives[j], phase) is Some;
    let source = |j: int|
        SlotSource {
            slot: scene.topo.slots[j],
            root: scene.slot_roots[j],
            port: port_in(scene.drives[j], phase)->0,
            segment: match scene.drives[j] {
                Some(Drive::Periodic { segment, .. }) => Some(segment),
                _ => None,
            },
        };
    if k > 0 {
        every_slot_that_presents_a_port_is_a_source(scene, phase, (k - 1) as nat);
        counted_on(k);
    }
    assert(scene.sources(phase, k) =~= counted_to(k).filter(keep).map_values(source));
}

/// The injections are the cluster's slots that drive a current, in endpoint
/// order, each into its own root.
pub proof fn every_slot_that_drives_a_current_injects_it(scene: Scene, k: nat)
    ensures
        scene.injections(k) == counted_to(k).filter(
            |j: int| scene.drives[j] is Some && scene.drives[j]->0 is Current,
        ).map_values(
            |j: int|
                SlotInjection {
                    slot: scene.topo.slots[j],
                    root: scene.slot_roots[j],
                    amps: scene.drives[j]->0->amps,
                },
        ),
    decreases k,
{
    reveal(Seq::filter);
    let keep = |j: int| scene.drives[j] is Some && scene.drives[j]->0 is Current;
    let injection = |j: int|
        SlotInjection {
            slot: scene.topo.slots[j],
            root: scene.slot_roots[j],
            amps: scene.drives[j]->0->amps,
        };
    if k > 0 {
        every_slot_that_drives_a_current_injects_it(scene, (k - 1) as nat);
        counted_on(k);
    }
    assert(scene.injections(k) =~= counted_to(k).filter(keep).map_values(injection));
}

/// The terminals at the boundary that source the cluster are those that hold a
/// voltage, each at its own root and column.
pub proof fn every_boundary_that_holds_a_voltage_sources(scene: Scene, k: nat)
    ensures
        scene.boundary_held(k) == counted_to(k).filter(
            |j: int| scene.boundary[j].drive is Volts,
        ).map_values(
            |j: int|
                HeldTerminal {
                    root: scene.terminal_roots[scene.topo.boundary[j] as int],
                    volts: scene.boundary[j].drive->Volts_0,
                    column: (scene.topo.roots.len() + j) as usize,
                },
        ),
    decreases k,
{
    reveal(Seq::filter);
    let keep = |j: int| scene.boundary[j].drive is Volts;
    let held = |j: int|
        HeldTerminal {
            root: scene.terminal_roots[scene.topo.boundary[j] as int],
            volts: scene.boundary[j].drive->Volts_0,
            column: (scene.topo.roots.len() + j) as usize,
        };
    if k > 0 {
        every_boundary_that_holds_a_voltage_sources(scene, (k - 1) as nat);
        counted_on(k);
    }
    assert(scene.boundary_held(k) =~= counted_to(k).filter(keep).map_values(held));
}

/// The slots that reach a root are the sources a finite path leads to, each
/// behind its own impedance and that path.
pub proof fn every_source_with_a_path_reaches(
    scene: Scene,
    phase: Option<Phase>,
    pr: int,
    k: nat,
)
    requires
        k <= scene.phase_sources(phase).len(),
    ensures
        scene.reaching_slots(phase, pr, k) == scene.phase_sources(phase).take(k as int).filter(
            |s: SlotSource|
                scene.topo.dist[pr][position_in(scene.topo.roots, s.root)] is Finite,
        ).map_values(
            |s: SlotSource|
                ReachingSource {
                    slot: Some(s.slot),
                    volts: s.port.volts,
                    impedance: s.port.impedance,
                    path: scene.topo.dist[pr][position_in(scene.topo.roots, s.root)],
                    segment: s.segment,
                },
        ),
    decreases k,
{
    reveal(Seq::filter);
    let keep = |s: SlotSource| scene.topo.dist[pr][position_in(scene.topo.roots, s.root)] is Finite;
    let reach = |s: SlotSource|
        ReachingSource {
            slot: Some(s.slot),
            volts: s.port.volts,
            impedance: s.port.impedance,
            path: scene.topo.dist[pr][position_in(scene.topo.roots, s.root)],
            segment: s.segment,
        };
    let list = scene.phase_sources(phase).take(k as int);
    if k > 0 {
        every_source_with_a_path_reaches(scene, phase, pr, (k - 1) as nat);
        assert(list.drop_last() =~= scene.phase_sources(phase).take(k - 1));
        assert(list.last() == scene.phase_sources(phase)[k - 1]);
    }
    assert(scene.reaching_slots(phase, pr, k) =~= list.filter(keep).map_values(reach));
}

/// The terminals that reach a root are those that hold a voltage and that a
/// finite path leads to, each behind that path alone.
pub proof fn every_terminal_with_a_path_reaches(scene: Scene, pr: int, k: nat)
    requires
        k <= scene.held().len(),
    ensures
        scene.reaching_terminals(pr, k) == scene.held().take(k as int).filter(
            |t: HeldTerminal| scene.topo.dist[pr][t.column as int] is Finite,
        ).map_values(
            |t: HeldTerminal|
                ReachingSource {
                    slot: None,
                    volts: t.volts,
                    impedance: Quantity::Finite(0),
                    path: scene.topo.dist[pr][t.column as int],
                    segment: None,
                },
        ),
    decreases k,
{
    reveal(Seq::filter);
    let keep = |t: HeldTerminal| scene.topo.dist[pr][t.column as int] is Finite;
    let reach = |t: HeldTerminal|
        ReachingSource {
            slot: None,
            volts: t.volts,
            impedance: Quantity::Finite(0),
            path: scene.topo.dist[pr][t.column as int],
            segment: None,
        };
    let list = scene.held().take(k as int);
    if k > 0 {
        every_terminal_with_a_path_reaches(scene, pr, (k - 1) as nat);
        assert(list.drop_last() =~= scene.held().take(k - 1));
        assert(list.last() == scene.held()[k - 1]);
    }
    assert(scene.reaching_terminals(pr, k) =~= list.filter(keep).map_values(reach));
}

/// Whether a cluster is ranked and no more: nothing in it asks for a solve of
/// its own, no clock is in it, and it is no terminal's.
pub open spec fn only_ranked(scene: Scene) -> bool {
    &&& scene.topo.elements.len() == 0
    &&& scene.topo.current_instruments.len() == 0
    &&& scene.topo.analog_senses.len() == 0
    &&& scene.own is None
    &&& forall|k: int|
        0 <= k < scene.drives.len() ==> !((#[trigger] scene.drives[k]) is Some && (
        scene.drives[k]->0 is Periodic || scene.drives[k]->0 is Current))
}

proof fn no_current_is_injected(scene: Scene, k: nat)
    requires
        only_ranked(scene),
        k <= scene.drives.len(),
    ensures
        scene.injections(k).len() == 0,
    decreases k,
{
    if k > 0 {
        no_current_is_injected(scene, (k - 1) as nat);
        assert(!(scene.drives[k - 1] is Some && scene.drives[k - 1]->0 is Current));
    }
}

/// A net of a cluster that is ranked and no more takes the source of least
/// total ohms that reaches its root: its voltage is that source's, and its
/// state that voltage's.
pub proof fn a_ranked_net_takes_its_strongest_source<S: ClusterSolver>(
    scene: Scene,
    solver: &S,
    net: usize,
    pr: int,
    at: int,
)
    requires
        only_ranked(scene),
        pr == position_in(scene.topo.roots, scene.root_of[net as int]),
        crossed_at(scene.arrivals, scene.topo.roots[pr]).len() == 0,
        wins(scene.reaching(None, pr), at),
        forall|j: int|
            0 <= j < scene.reaching(None, pr).len() && high(
                (#[trigger] scene.reaching(None, pr)[j]).volts,
            ) != high(scene.reaching(None, pr)[at].volts) ==> out_of_contest(
                scene.reaching(None, pr)[at],
                scene.reaching(None, pr)[j],
            ),
    ensures
        ({
            let r = scene.net_result(solver, net);
            let top = scene.reaching(None, pr)[at];
            let level = if high(top.volts) {
                Level::High
            } else {
                Level::Low
            };
            &&& r.volts.dc == Some(top.volts)
            &&& r.volts.phases is None
            &&& r.ambiguous is None
            &&& r.state matches NetState::Driven(l) ==> l == level
            &&& r.state matches NetState::Pulled(l, _) ==> l == level
            &&& r.state matches NetState::Analog(v) ==> v == top.volts
            &&& top.slot is Some && !no_level(top.volts) && top.path == Quantity::Finite(0)
                && top.impedance.below(Quantity::Finite(1_000_000_000)) ==> r.state
                == NetState::Driven(level)
            &&& top.slot is None && top.path == Quantity::Finite(0) ==> r.state == NetState::Analog(
                top.volts,
            )
            &&& top.slot is Some && no_level(top.volts) ==> r.state == NetState::Analog(top.volts)
            &&& top.path != Quantity::Finite(0) && (top.slot is None || !no_level(top.volts))
                && top.impedance.below(Quantity::Finite(1_000_000_000)) ==> r.state
                == NetState::Pulled(level, top.path)
        }),
{
    let reaching = scene.reaching(None, pr);
    assert(!scene.periodic()) by {
        assert forall|k: int| 0 <= k < scene.drives.len() implies !crate::net::is_periodic(
            #[trigger] scene.drives[k],
        ) by {}
    }
    no_current_is_injected(scene, scene.drives.len());
    assert(!scene.injected());
    assert(!scene.eager());
    assert(!scene.on_request());
    assert(scene.own_fight() is None);
    let node = crate::net::NetId(scene.topo.roots[pr]);
    let solved = scene.solution(solver, None).volts_of(node);
    the_strongest_source_ranks_the_root(
        crate::ranking::root_outcome(reaching, solved),
        reaching,
        solved,
        at,
    );
}

/// A net nothing reaches floats, at no voltage, where no rail of unknown
/// voltage is near.
pub proof fn a_net_nothing_reaches_floats<S: ClusterSolver>(
    scene: Scene,
    solver: &S,
    net: usize,
    pr: int,
)
    requires
        only_ranked(scene),
        pr == position_in(scene.topo.roots, scene.root_of[net as int]),
        crossed_at(scene.arrivals, scene.topo.roots[pr]).len() == 0,
        scene.reaching(None, pr).len() == 0,
        scene.unmodelled_columns().len() == 0,
    ensures
        scene.net_result(solver, net).state == NetState::Floating,
        scene.net_result(solver, net).volts.dc is None,
        scene.net_result(solver, net).fight is None,
{
    assert(!scene.periodic()) by {
        assert forall|k: int| 0 <= k < scene.drives.len() implies !crate::net::is_periodic(
            #[trigger] scene.drives[k],
        ) by {}
    }
    no_current_is_injected(scene, scene.drives.len());
    assert(!scene.injected());
    assert(!scene.eager());
    assert(!scene.on_request());
}

/// A rail of unknown voltage presents as up, through the least resistance to
/// any such rail, to a root nothing else reaches.
pub proof fn a_rail_of_unknown_voltage_is_up(scene: Scene, pr: int, k: nat)
    requires
        k <= scene.unmodelled_columns().len(),
    ensures
        scene.nearest_unmodelled(pr, k) is Finite || scene.nearest_unmodelled(pr, k) is Infinite,
        forall|j: int|
            0 <= j < k ==> ({
                let path = scene.topo.dist[pr][(#[trigger] scene.unmodelled_columns()[j]) as int];
                path is Finite ==> scene.nearest_unmodelled(pr, k).key() <= path.key()
            }),
        scene.nearest_unmodelled(pr, k) is Finite ==> exists|j: int|
            0 <= j < k && scene.nearest_unmodelled(pr, k) == scene.topo.dist[pr][(
            #[trigger] scene.unmodelled_columns()[j]) as int],
    decreases k,
{
    if k > 0 {
        let m = (k - 1) as nat;
        a_rail_of_unknown_voltage_is_up(scene, pr, m);
        let path = scene.topo.dist[pr][scene.unmodelled_columns()[k - 1] as int];
        let rest = scene.nearest_unmodelled(pr, m);
        if rest is Finite {
            let j = choose|j: int|
                0 <= j < m && rest == scene.topo.dist[pr][(
                #[trigger] scene.unmodelled_columns()[j]) as int];
            assert(0 <= j < k);
        }
    }
}

/// Every net that is one conductor with another publishes what it does.
pub proof fn one_conductor_is_one_result<S: ClusterSolver>(
    scene: Scene,
    solver: &S,
    a: usize,
    b: usize,
)
    requires
        scene.root_of[a as int] == scene.root_of[b as int],
    ensures
        scene.net_result(solver, a) == scene.net_result(solver, b),
{
}

/// A floating sense is found exactly where its net floats, once for a
/// conductor: by the first sense on it, under its net's name.
pub proof fn a_floating_sense_is_found<S: ClusterSolver>(
    scene: Scene,
    solver: &S,
    names: Names,
    positions: Seq<usize>,
    nets: Seq<usize>,
    kind: SenseKind,
    k: nat,
)
    ensures
        scene.floating(solver, names, positions, nets, kind, k) == counted_to(k).filter(
            |j: int|
                scene.net_result(solver, nets[j]).state == NetState::Floating && forall|i: int|
                    0 <= i < j ==> scene.root_of[(#[trigger] nets[i]) as int]
                        != scene.root_of[nets[j] as int],
        ).map_values(
            |j: int|
                (
                    positions[j],
                    FindingView::FloatingSense { net: names.nets[nets[j] as int], kind },
                ),
        ),
    decreases k,
{
    reveal(Seq::filter);
    let keep = |j: int|
        scene.net_result(solver, nets[j]).state == NetState::Floating && forall|i: int|
            0 <= i < j ==> scene.root_of[(#[trigger] nets[i]) as int]
                != scene.root_of[nets[j] as int];
    let finding = |j: int|
        (positions[j], FindingView::FloatingSense { net: names.nets[nets[j] as int], kind });
    if k > 0 {
        a_floating_sense_is_found(
            scene,
            solver,
            names,
            positions,
            nets,
            kind,
            (k - 1) as nat,
        );
        counted_on(k);
        assert(keep(k - 1) == (scene.net_result(solver, nets[k - 1]).state == NetState::Floating
            && scene.first_on_root(nets, k - 1)));
    }
    assert(scene.floating(solver, names, positions, nets, kind, k) =~= counted_to(k).filter(
        keep,
    ).map_values(finding));
}

/// A fight is found under its net's name, with the pins of the slots that
/// fought in their order, and the voltage no input reads beside it.
pub proof fn a_fight_names_its_pins(
    result: crate::phases::RootResultView,
    names: Names,
    net: usize,
)
    ensures
        result.fight is None ==> fight_findings(result, names, net).len() == 0,
        result.fight matches Some(slots) ==> {
            let found = fight_findings(result, names, net);
            &&& found.len() == (if result.ambiguous is Some {
                2int
            } else {
                1
            })
            &&& found[0].0 == net
            &&& found[0].1 is Contention
            &&& found[0].1->Contention_net == names.nets[net as int]
            &&& found[0].1->drivers.len() == slots.len()
            &&& forall|i: int|
                0 <= i < slots.len() ==> #[trigger] found[0].1->drivers[i]
                    == names.pins[slots[i] as int]
            &&& result.ambiguous matches Some(volts) ==> found[1] == (
                net,
                FindingView::AmbiguousLevel { net: names.nets[net as int], volts },
            )
        },
{
}

/// A current that is injected where nothing returns it is found, by its net and
/// its pin, and one of nought is not.
pub proof fn a_stranded_current_is_found(scene: Scene, names: Names, k: nat)
    requires
        k <= scene.all_injections().len(),
    ensures
        scene.stranded(names, k) == scene.all_injections().take(k as int).filter(
            |i: SlotInjection|
                i.amps != Quantity::Finite(0) && !scene.reached(
                    position_in(scene.topo.roots, i.root),
                ),
        ).map_values(
            |i: SlotInjection|
                (
                    i.slot,
                    FindingView::CurrentIntoFloatingNode {
                        net: names.nets[names.slot_nets[i.slot as int] as int],
                        pin: names.pins[i.slot as int],
                    },
                ),
        ),
    decreases k,
{
    reveal(Seq::filter);
    let keep = |i: SlotInjection|
        i.amps != Quantity::Finite(0) && !scene.reached(position_in(scene.topo.roots, i.root));
    let finding = |i: SlotInjection|
        (
            i.slot,
            FindingView::CurrentIntoFloatingNode {
                net: names.nets[names.slot_nets[i.slot as int] as int],
                pin: names.pins[i.slot as int],
            },
        );
    let list = scene.all_injections().take(k as int);
    if k > 0 {
        a_stranded_current_is_found(scene, names, (k - 1) as nat);
        assert(list.drop_last() =~= scene.all_injections().take(k - 1));
        assert(list.last() == scene.all_injections()[k - 1]);
    }
    assert(scene.stranded(names, k) =~= list.filter(keep).map_values(finding));
}

/// A power pin no source reaches is found, once for a conductor, under its
/// net's name.
pub proof fn a_power_pin_without_a_source_is_found<S: ClusterSolver>(
    scene: Scene,
    solver: &S,
    names: Names,
    k: nat,
)
    ensures
        scene.powerless(solver, names, k) == counted_to(k).filter(
            |j: int|
                scene.unsourced(solver, scene.power_nets[j]) && forall|i: int|
                    0 <= i < j ==> scene.root_of[(#[trigger] scene.power_nets[i]) as int]
                        != scene.root_of[scene.power_nets[j] as int],
        ).map_values(
            |j: int|
                (
                    scene.topo.power_senses[j],
                    FindingView::PowerNetUnsourced {
                        net: names.nets[scene.power_nets[j] as int],
                    },
                ),
        ),
        scene.sourced() && scene.topo.elements.len() == 0 ==> forall|net: usize|
            !#[trigger] scene.unsourced(solver, net),
        !scene.sourced() ==> forall|net: usize| #[trigger] scene.unsourced(solver, net),
    decreases k,
{
    reveal(Seq::filter);
    let keep = |j: int|
        scene.unsourced(solver, scene.power_nets[j]) && forall|i: int|
            0 <= i < j ==> scene.root_of[(#[trigger] scene.power_nets[i]) as int]
                != scene.root_of[scene.power_nets[j] as int];
    let finding = |j: int|
        (
            scene.topo.power_senses[j],
            FindingView::PowerNetUnsourced { net: names.nets[scene.power_nets[j] as int] },
        );
    if k > 0 {
        a_power_pin_without_a_source_is_found(scene, solver, names, (k - 1) as nat);
        counted_on(k);
        assert(keep(k - 1) == (scene.unsourced(solver, scene.power_nets[k - 1])
            && scene.first_on_root(scene.power_nets, k - 1)));
    }
    assert(scene.powerless(solver, names, k) =~= counted_to(k).filter(keep).map_values(finding));
}

/// The current into a pad is what the difference between its node and its own
/// voltage pushes through its impedance; what it injects flows out of it; a
/// released pad carries none.
pub proof fn a_pad_carries_its_own_current<S: ClusterSolver>(scene: Scene, solver: &S, k: int)
    requires
        !scene.periodic(),
        scene.solves(None),
    ensures
        ({
            let node = scene.solution(solver, None).volts_of(
                crate::net::NetId(scene.slot_roots[k]),
            );
            &&& scene.drives[k] matches Some(Drive::Current { amps }) ==> scene.slot_current(
                solver,
                k,
            ) == Some(amps.negated())
            &&& scene.drives[k] is None && node is Some ==> scene.slot_current(solver, k) == Some(
                Quantity::Finite(0),
            )
            &&& (scene.drives[k] matches Some(Drive::Thevenin(port)) && !port.impedance.below(
                solver.floor(),
            )) && node is Some ==> scene.slot_current(solver, k) == Some(
                node->0.plus(scene.drives[k]->0->Thevenin_0.volts.negated()).over(
                    scene.drives[k]->0->Thevenin_0.impedance,
                ),
            )
            &&& (scene.drives[k] matches Some(Drive::Thevenin(port)) && port.impedance.below(
                solver.floor(),
            )) && node is Some ==> scene.slot_current(solver, k) == Some(
                node->0.plus(scene.drives[k]->0->Thevenin_0.volts.negated()).over(solver.floor()),
            )
            &&& (scene.drives[k] is None || (scene.drives[k] matches Some(Drive::Thevenin(_))))
                && node is None ==> scene.slot_current(solver, k) is None
        }),
{
}

/// A solver is handed the whole cluster: every root, every edge between them,
/// every source behind its own impedance, every injection and every constant.
pub proof fn a_solver_is_handed_the_cluster(scene: Scene, phase: Option<Phase>)
    ensures
        scene.solver_cluster().nodes.len() == scene.topo.roots.len() + scene.boundary_held(
            scene.topo.boundary.len(),
        ).len(),
        forall|i: int|
            0 <= i < scene.topo.roots.len() ==> (#[trigger] scene.solver_cluster().nodes[i]).0
                == scene.topo.roots[i],
        scene.solver_cluster().resistors.len() == scene.topo.edges.len(),
        forall|i: int|
            0 <= i < scene.topo.edges.len() ==> (#[trigger] scene.solver_cluster().resistors[i]).a.0
                == scene.topo.edges[i].a && scene.solver_cluster().resistors[i].b.0
                == scene.topo.edges[i].b && scene.solver_cluster().resistors[i].ohms
                == scene.topo.edges[i].ohms,
        scene.solver_inputs(phase).sources.len() == scene.phase_sources(phase).len(),
        forall|i: int|
            0 <= i < scene.phase_sources(phase).len() ==> (#[trigger] scene.solver_inputs(
                phase,
            ).sources[i]).node.0 == scene.phase_sources(phase)[i].root && scene.solver_inputs(
                phase,
            ).sources[i].volts == scene.phase_sources(phase)[i].port.volts && scene.solver_inputs(
                phase,
            ).sources[i].impedance == scene.phase_sources(phase)[i].port.impedance,
        scene.solver_inputs(phase).injections.len() == scene.all_injections().len(),
        forall|i: int|
            0 <= i < scene.all_injections().len() ==> (#[trigger] scene.solver_inputs(
                phase,
            ).injections[i]).node.0 == scene.all_injections()[i].root && scene.solver_inputs(
                phase,
            ).injections[i].amps == scene.all_injections()[i].amps,
        scene.solver_inputs(phase).elements == scene.elements,
        forall|i: int|
            0 <= i < scene.held().len() ==> (#[trigger] scene.solver_inputs(phase).terminals[i])
                .node.0 == scene.held()[i].root && scene.solver_inputs(phase).terminals[i].volts
                == scene.held()[i].volts,
{
}

/// A solved cluster's nets show the operating point: each root's solved
/// voltage, where an element or an instrument asks for it.
pub proof fn a_solved_root_shows_its_operating_point<S: ClusterSolver>(
    scene: Scene,
    solver: &S,
    phase: Option<Phase>,
    pr: int,
)
    requires
        scene.topo.elements.len() > 0,
        scene.eager(),
        scene.own_fight() is None,
    ensures
        ({
            let node = crate::net::NetId(scene.topo.roots[pr]);
            let solution = scene.solution(solver, phase);
            &&& solution.volts_of(node) matches Some(v) ==> scene.outcome(solver, phase, pr).state
                == NetState::Analog(v) && scene.outcome(solver, phase, pr).volts == Some(v)
            &&& solution.volts_of(node) is None && !solution.converged ==> scene.outcome(
                solver,
                phase,
                pr,
            ).state == NetState::Floating && scene.outcome(solver, phase, pr).volts is None
        }),
{
}

/// A terminal whose own sources fight is at what they fight to, and is a fight;
/// between the levels it is contention.
pub proof fn a_fought_terminal_is_at_its_fight<S: ClusterSolver>(
    scene: Scene,
    solver: &S,
    phase: Option<Phase>,
    pr: int,
)
    requires
        scene.own matches Some(state) && state.fought && state.drive is Volts,
        !scene.on_request(),
    ensures
        ({
            let volts = scene.own->0.drive->Volts_0;
            let o = scene.outcome(solver, phase, pr);
            &&& o.volts == Some(volts)
            &&& o.fight is Some
            &&& o.state == (if no_level(volts) {
                NetState::Contention
            } else {
                NetState::Analog(volts)
            })
            &&& o.ambiguous == (if no_level(volts) {
                Some(volts)
            } else {
                None
            })
        }),
{
}

/// A cluster's fights are found conductor by conductor: the first net on each
/// that is fought over, in net order, each fight followed by its voltage.
pub proof fn every_fought_conductor_is_found_once<S: ClusterSolver>(
    scene: Scene,
    solver: &S,
    names: Names,
    k: nat,
)
    requires
        k < scene.topo.nets.len(),
    ensures
        scene.contentions(solver, names, 0).len() == 0,
        ({
            let net = scene.topo.nets[k as int];
            let first = forall|j: int|
                0 <= j < k ==> scene.root_of[(#[trigger] scene.topo.nets[j]) as int]
                    != scene.root_of[net as int];
            scene.contentions(solver, names, k + 1) == scene.contentions(solver, names, k) + (
            if first {
                fight_findings(scene.net_result(solver, net), names, net)
            } else {
                Seq::empty()
            })
        }),
{
    let net = scene.topo.nets[k as int];
    let rest = scene.contentions(solver, names, k);
    assert(rest + Seq::empty() =~= rest);
    assert(scene.first_on_root(scene.topo.nets, k as int) == (forall|j: int|
        0 <= j < k ==> scene.root_of[(#[trigger] scene.topo.nets[j]) as int]
            != scene.root_of[net as int]));
}

/// A solve that found no operating point is found by the cluster's first net,
/// its elements and the solves it took.
pub proof fn a_solve_without_a_point_is_found<S: ClusterSolver>(
    scene: Scene,
    solver: &S,
    names: Names,
)
    requires
        !scene.periodic(),
        scene.topo.elements.len() > 0,
        scene.eager(),
    ensures
        scene.solution(solver, None).converged ==> scene.nonconvergent(solver, names).len() == 0,
        !scene.solution(solver, None).converged ==> {
            let found = scene.nonconvergent(solver, names);
            &&& found.len() == 1
            &&& found[0].1 is NonConvergent
            &&& found[0].1->cluster == names.nets[scene.topo.nets[0] as int]
            &&& found[0].1->solves == scene.solution(solver, None).solves
            &&& found[0].1->elements.len() == scene.topo.elements.len()
            &&& forall|i: int|
                0 <= i < scene.topo.elements.len() ==> #[trigger] found[0].1->elements[i]
                    == names.elements[scene.topo.elements[i] as int]
        },
{
}

/// A cluster solves on its own where something sources it and an injection, an
/// instrument or an element asks; an analog reader asks for its point too.
pub proof fn when_a_cluster_is_solved(scene: Scene, phase: Option<Phase>)
    requires
        !scene.periodic(),
    ensures
        scene.eager() <==> (scene.phase_sources(None).len() > 0 || scene.held().len() > 0) && (
        scene.topo.elements.len() > 0 || scene.topo.current_instruments.len() > 0 || exists|i: int|
            0 <= i < scene.all_injections().len() && (#[trigger] scene.all_injections()[i]).amps
                != Quantity::Finite(0)),
        scene.on_request() <==> scene.eager() || ((scene.phase_sources(None).len() > 0
            || scene.held().len() > 0) && scene.topo.analog_senses.len() > 0),
        scene.eager() ==> scene.solve_count() == 1,
{
}

/// A terminal that holds a voltage and is not fought over is at it, where no
/// pad drives its own conductor.
pub proof fn a_held_terminal_is_at_its_voltage<S: ClusterSolver>(
    scene: Scene,
    solver: &S,
    pr: int,
    volts: Quantity,
    p: usize,
)
    requires
        scene.own == Some(
            TerminalState { drive: TerminalDrive::Volts(volts), fought: false },
        ),
        scene.topo.terminal == Some(p),
        scene.topo.boundary.len() == 0,
        scene.topo.elements.len() == 0,
        !scene.on_request(),
        scene.phase_sources(None).len() == 0,
        scene.topo.dist[pr][0] == Quantity::Finite(0),
    ensures
        scene.outcome(solver, None, pr).state == NetState::Analog(volts),
        scene.outcome(solver, None, pr).volts == Some(volts),
        scene.outcome(solver, None, pr).fight is None,
{
    let terminal = HeldTerminal {
        root: scene.terminal_roots[p as int],
        volts,
        column: 0,
    };
    assert(scene.held() =~= seq![terminal]);
    reveal_with_fuel(Scene::reaching_terminals, 2);
    let top = ReachingSource {
        slot: None,
        volts,
        impedance: Quantity::Finite(0),
        path: Quantity::Finite(0),
        segment: None,
    };
    let reaching = scene.reaching(None, pr);
    assert(reaching =~= seq![top]);
    assert(wins(reaching, 0));
    let node = crate::net::NetId(scene.topo.roots[pr]);
    let solved = scene.solution(solver, None).volts_of(node);
    the_strongest_source_ranks_the_root(
        crate::ranking::root_outcome(reaching, solved),
        reaching,
        solved,
        0,
    );
    crate::ranking::single_source_never_fights(top, solved);
    assert(seq![top] =~= reaching);
}

} // verus!
