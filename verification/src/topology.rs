//! The drive-independent structure of a board: clusters, roots, terminals and
//! path resistances, derived once and read by every pass.
use vstd::prelude::*;

use crate::board::{
    controlled_by, element_home, ends_on, home_root, terminal_ends_are, Board, ElementHome,
    ElementNets, Shape,
};
use crate::coupling::{CouplingCapacitor, RootCoupling};
use crate::dsu::{is_root_map, merged, merged_is_root_map, Dsu};
use crate::paths::{edges_valid, min_path_ohms, path_ohms, Edge};
use crate::quantity::{Ohms, Quantity};
use crate::seqs::{
    ascending, insert_ascending, listed, position_of, select, select_grows, select_properties,
    select_unique,
};
use crate::terminal::{TerminalId, TerminalSource};

pub mod clustering;
pub mod laws;
pub mod structure;

verus! {

/// Whether a terminal source is declared on the root `r`.
pub open spec fn on_terminal(shape: Shape, root_of: Seq<usize>, r: usize) -> bool {
    ||| exists|i: int|
        0 <= i < shape.power_nets.len() && root_of[(#[trigger] shape.power_nets[i]) as int] == r
    ||| exists|i: int|
        0 <= i < shape.stuck_nets.len() && root_of[(#[trigger] shape.stuck_nets[i]) as int] == r
}

/// Whether an index is a declared terminal root.
pub open spec fn terminal_root(shape: Shape, root_of: Seq<usize>) -> spec_fn(int) -> bool {
    |r: int| on_terminal(shape, root_of, r as usize)
}

/// The declared terminal roots, ascending: the roots no path continues past
/// and no edge or element joins.
pub open spec fn terminal_list(shape: Shape, root_of: Seq<usize>) -> Seq<usize> {
    select(root_of.len(), terminal_root(shape, root_of))
}

/// The cluster roots after the first `k` edges: an edge between two roots
/// that are no terminals joins them.
pub open spec fn edge_joined(
    edges: Seq<Edge>,
    root_of: Seq<usize>,
    terminals: Seq<usize>,
    k: nat,
) -> Seq<usize>
    decreases k,
{
    if k == 0 {
        root_of
    } else {
        let before = edge_joined(edges, root_of, terminals, (k - 1) as nat);
        let ra = root_of[edges[k - 1].a as int];
        let rb = root_of[edges[k - 1].b as int];
        if !terminals.contains(ra) && !terminals.contains(rb) {
            merged(before, ra as int, rb as int)
        } else {
            before
        }
    }
}

/// The cluster roots after the first `j` of an element's nets join its home,
/// terminals left out.
pub open spec fn nets_joined(
    before: Seq<usize>,
    nets: Seq<usize>,
    home: usize,
    root_of: Seq<usize>,
    terminals: Seq<usize>,
    j: nat,
) -> Seq<usize>
    decreases j,
{
    if j == 0 {
        before
    } else {
        let c = nets_joined(before, nets, home, root_of, terminals, (j - 1) as nat);
        let r = root_of[nets[j - 1] as int];
        if !terminals.contains(r) {
            merged(c, home as int, r as int)
        } else {
            c
        }
    }
}

/// The cluster roots after the first `k` elements: an element joins its nets
/// that are no terminals.
pub open spec fn element_joined(
    before: Seq<usize>,
    elements: Seq<ElementNets>,
    root_of: Seq<usize>,
    terminals: Seq<usize>,
    k: nat,
) -> Seq<usize>
    decreases k,
{
    if k == 0 {
        before
    } else {
        let c = element_joined(before, elements, root_of, terminals, (k - 1) as nat);
        let nets = elements[k - 1].list();
        match home_root(elements[k - 1], root_of, terminals) {
            Some(home) => nets_joined(c, nets, home, root_of, terminals, nets.len()),
            None => c,
        }
    }
}

/// The cluster root of every net.
pub open spec fn cluster_of(shape: Shape, root_of: Seq<usize>) -> Seq<usize> {
    let terminals = terminal_list(shape, root_of);
    element_joined(
        edge_joined(shape.edges, root_of, terminals, shape.edges.len()),
        shape.elements,
        root_of,
        terminals,
        shape.elements.len(),
    )
}

/// Whether an index is a cluster root.
pub open spec fn cluster_root(clusters: Seq<usize>) -> spec_fn(int) -> bool {
    |r: int| clusters[r] == r
}

/// The cluster roots below `x`.
pub open spec fn roots_below(clusters: Seq<usize>, x: nat) -> Seq<usize> {
    select(x, cluster_root(clusters))
}

/// The dense cluster id of every net: clusters in ascending root order.
pub open spec fn dense_index(clusters: Seq<usize>) -> Seq<usize> {
    Seq::new(
        clusters.len(),
        |i: int| roots_below(clusters, clusters[i] as nat).len() as usize,
    )
}

/// The edges between distinct roots, in declaration order.
pub open spec fn root_edges_of(edges: Seq<Edge>, root_of: Seq<usize>) -> Seq<Edge>
    decreases edges.len(),
{
    if edges.len() == 0 {
        Seq::empty()
    } else {
        let rest = root_edges_of(edges.drop_last(), root_of);
        let a = root_of[edges.last().a as int];
        let b = root_of[edges.last().b as int];
        if a != b {
            rest.push(Edge { a, b, ohms: edges.last().ohms })
        } else {
            rest
        }
    }
}

/// The capacitors between distinct roots, in declaration order.
pub open spec fn root_couplings_of(
    couplings: Seq<(usize, usize, u64)>,
    root_of: Seq<usize>,
) -> Seq<RootCoupling>
    decreases couplings.len(),
{
    if couplings.len() == 0 {
        Seq::empty()
    } else {
        let rest = root_couplings_of(couplings.drop_last(), root_of);
        let a = root_of[couplings.last().0 as int];
        let b = root_of[couplings.last().1 as int];
        if a != b {
            rest.push(RootCoupling { a, b, capacitor: (couplings.len() - 1) as usize })
        } else {
            rest
        }
    }
}

/// The smallest edge touching a root; infinite where none does.
pub open spec fn smallest_edge(edges: Seq<Edge>, root: usize) -> Ohms
    decreases edges.len(),
{
    if edges.len() == 0 {
        Quantity::Infinite
    } else {
        let rest = smallest_edge(edges.drop_last(), root);
        let last = edges.last();
        if (last.a == root || last.b == root) && last.ohms.below(rest) {
            last.ohms
        } else {
            rest
        }
    }
}

/// The roots and clusters every net is in.
#[verifier::ext_equal]
pub struct Layout {
    /// The identity root of every net.
    pub root_of: Seq<usize>,
    /// The declared terminal roots, ascending.
    pub terminals: Seq<usize>,
    /// The dense cluster id of every net.
    pub index: Seq<usize>,
    /// The edges between distinct roots.
    pub root_edges: Seq<Edge>,
}

/// A board's layout.
pub open spec fn layout_of(shape: Shape, root_of: Seq<usize>) -> Layout {
    Layout {
        root_of,
        terminals: terminal_list(shape, root_of),
        index: dense_index(cluster_of(shape, root_of)),
        root_edges: root_edges_of(shape.edges, root_of),
    }
}

impl Layout {
    /// Whether an edge belongs to a cluster: an end that is no terminal is
    /// in it.
    pub open spec fn holds_edge(self, edge: Edge, cid: int) -> bool {
        ||| self.index[edge.a as int] == cid && !self.terminals.contains(edge.a)
        ||| self.index[edge.b as int] == cid && !self.terminals.contains(edge.b)
    }

    /// Whether an element belongs to a cluster.
    pub open spec fn holds_element(self, element: ElementNets, cid: int) -> bool {
        home_root(element, self.root_of, self.terminals) matches Some(home)
            && self.index[home as int] == cid
    }
}

/// The edges of a cluster, in declaration order.
pub open spec fn cluster_edges(layout: Layout, edges: Seq<Edge>, cid: int) -> Seq<Edge>
    decreases edges.len(),
{
    if edges.len() == 0 {
        Seq::empty()
    } else {
        let rest = cluster_edges(layout, edges.drop_last(), cid);
        if layout.holds_edge(edges.last(), cid) {
            rest.push(edges.last())
        } else {
            rest
        }
    }
}

/// One cluster's members, as sequences.
#[verifier::ext_equal]
pub struct ClusterTopoView {
    /// Member nets, ascending.
    pub nets: Seq<usize>,
    /// Member roots, ascending.
    pub roots: Seq<usize>,
    /// The edges with an end in it that is no terminal.
    pub edges: Seq<Edge>,
    /// The slots that source it, ascending.
    pub slots: Seq<usize>,
    /// Its elements, ascending.
    pub elements: Seq<usize>,
    /// The terminal whose own cluster it is.
    pub terminal: Option<usize>,
    /// The terminals its edges and elements end on, ascending.
    pub boundary: Seq<usize>,
    /// The terminals only its elements' controls read, ascending.
    pub boundary_controls: Seq<usize>,
    /// Positions of its digital senses, ascending.
    pub digital_senses: Seq<usize>,
    /// Positions of its analog senses, ascending.
    pub analog_senses: Seq<usize>,
    /// Positions of its current instruments, ascending.
    pub current_instruments: Seq<usize>,
    /// Positions of its power senses, ascending.
    pub power_senses: Seq<usize>,
    /// Minimum series resistance from every root (rows) to every root and
    /// then to every boundary terminal (columns); infinite where no path
    /// leads.
    pub dist: Seq<Seq<Ohms>>,
}

/// Whether an edge or an element of a cluster ends on a root.
pub open spec fn cluster_ends_on(
    shape: Shape,
    layout: Layout,
    cid: int,
    root: usize,
) -> bool {
    ||| exists|e: int|
        0 <= e < cluster_edges(layout, layout.root_edges, cid).len() && ((
        #[trigger] cluster_edges(layout, layout.root_edges, cid)[e]).a == root || cluster_edges(
            layout,
            layout.root_edges,
            cid,
        )[e].b == root)
    ||| exists|e: int|
        0 <= e < shape.elements.len() && layout.holds_element(
            #[trigger] shape.elements[e],
            cid,
        ) && ends_on(shape.elements[e], layout.root_of, root)
}

/// Whether an element of a cluster is controlled by a root.
pub open spec fn cluster_controlled_by(
    shape: Shape,
    layout: Layout,
    cid: int,
    root: usize,
) -> bool {
    exists|e: int|
        0 <= e < shape.elements.len() && layout.holds_element(
            #[trigger] shape.elements[e],
            cid,
        ) && controlled_by(shape.elements[e], layout.root_of, root)
}

/// Whether a terminal is one a cluster's edges or elements end on.
pub open spec fn boundary_terminal(shape: Shape, layout: Layout, cid: int) -> spec_fn(
    int,
) -> bool {
    |p: int| cluster_ends_on(shape, layout, cid, layout.terminals[p])
}

/// The terminals a cluster's edges and elements end on.
pub open spec fn boundary_of(shape: Shape, layout: Layout, cid: int) -> Seq<usize> {
    select(layout.terminals.len(), boundary_terminal(shape, layout, cid))
}

/// Whether a terminal is one only a cluster's controls read.
pub open spec fn control_terminal(shape: Shape, layout: Layout, cid: int) -> spec_fn(int) -> bool {
    |p: int|
        !cluster_ends_on(shape, layout, cid, layout.terminals[p]) && cluster_controlled_by(
            shape,
            layout,
            cid,
            layout.terminals[p],
        )
}

/// The terminals only a cluster's controls read.
pub open spec fn controls_of(shape: Shape, layout: Layout, cid: int) -> Seq<usize> {
    select(layout.terminals.len(), control_terminal(shape, layout, cid))
}

/// Whether a listed net lies in a cluster; one past the others lies in none.
pub open spec fn sense_in(index: Seq<usize>, nets: Seq<usize>, cid: int) -> spec_fn(int) -> bool {
    |k: int| nets[k] < index.len() && index[nets[k] as int] == cid
}

/// The positions of the listed nets that lie in a cluster.
pub open spec fn senses_in(index: Seq<usize>, nets: Seq<usize>, cid: int) -> Seq<usize> {
    select(nets.len(), sense_in(index, nets, cid))
}

/// Whether a net lies in a cluster.
pub open spec fn member_net(layout: Layout, cid: int) -> spec_fn(int) -> bool {
    |i: int| layout.index[i] == cid
}

/// Whether a slot sources a cluster.
pub open spec fn sourcing_slot(shape: Shape, layout: Layout, cid: int) -> spec_fn(int) -> bool {
    |s: int| !shape.slot_is_terminal[s] && layout.index[shape.slot_nets[s] as int] == cid
}

/// Whether an element belongs to a cluster.
pub open spec fn member_element(shape: Shape, layout: Layout, cid: int) -> spec_fn(int) -> bool {
    |e: int| layout.holds_element(shape.elements[e], cid)
}

/// Whether a net is a member root of a cluster.
pub open spec fn member_root(layout: Layout, cid: int) -> spec_fn(int) -> bool {
    |i: int| layout.index[i] == cid && layout.root_of[i] == i
}

/// The member roots of a cluster.
pub open spec fn roots_in(layout: Layout, cid: int) -> Seq<usize> {
    select(layout.root_of.len(), member_root(layout, cid))
}

/// A resistance, infinite where there is no path.
pub open spec fn or_infinite(ohms: Option<Ohms>) -> Ohms {
    match ohms {
        Some(q) => q,
        None => Quantity::Infinite,
    }
}

/// One row of a cluster's path resistances: from one root to every root and
/// to every boundary terminal.
pub open spec fn dist_row(
    edges: Seq<Edge>,
    terminals: Seq<usize>,
    roots: Seq<usize>,
    boundary: Seq<usize>,
    from: usize,
) -> Seq<Ohms> {
    Seq::new(
        roots.len() + boundary.len(),
        |j: int|
            or_infinite(
                path_ohms(
                    edges,
                    terminals,
                    from,
                    if j < roots.len() {
                        roots[j]
                    } else {
                        terminals[boundary[j - roots.len()] as int]
                    },
                ),
            ),
    )
}

/// The terminal among a cluster's roots.
pub open spec fn own_terminal(roots: Seq<usize>, terminals: Seq<usize>) -> Option<usize> {
    if exists|p: int| 0 <= p < terminals.len() && roots.contains(#[trigger] terminals[p]) {
        Some(
            (choose|p: int|
                0 <= p < terminals.len() && roots.contains(#[trigger] terminals[p])) as usize,
        )
    } else {
        None
    }
}

/// One cluster's members.
pub open spec fn cluster_topo(shape: Shape, layout: Layout, cid: int) -> ClusterTopoView {
    let roots = roots_in(layout, cid);
    let edges = cluster_edges(layout, layout.root_edges, cid);
    let boundary = boundary_of(shape, layout, cid);
    ClusterTopoView {
        nets: select(layout.root_of.len(), member_net(layout, cid)),
        roots,
        edges,
        slots: select(shape.slot_nets.len(), sourcing_slot(shape, layout, cid)),
        elements: select(shape.elements.len(), member_element(shape, layout, cid)),
        terminal: own_terminal(roots, layout.terminals),
        boundary,
        boundary_controls: controls_of(shape, layout, cid),
        digital_senses: senses_in(layout.index, shape.digital_senses, cid),
        analog_senses: senses_in(layout.index, shape.analog_senses, cid),
        current_instruments: senses_in(layout.index, shape.current_instruments, cid),
        power_senses: senses_in(layout.index, shape.power_senses, cid),
        dist: Seq::new(
            roots.len(),
            |i: int| dist_row(edges, layout.terminals, roots, boundary, roots[i]),
        ),
    }
}

/// One declared terminal, as sequences.
#[verifier::ext_equal]
pub struct TerminalTopoView {
    /// Its root.
    pub root: usize,
    /// Its own cluster.
    pub cluster: usize,
    /// Its sources in canonical order.
    pub sources: Seq<TerminalId>,
    /// The clusters that read it, ascending.
    pub dependents: Seq<usize>,
}

/// Whether a listed source is on a root.
pub open spec fn source_on(root_of: Seq<usize>, nets: Seq<usize>, root: usize) -> spec_fn(
    int,
) -> bool {
    |i: int| root_of[nets[i] as int] == root
}

/// The positions of the listed sources on a root.
pub open spec fn sources_on(root_of: Seq<usize>, nets: Seq<usize>, root: usize) -> Seq<usize> {
    select(nets.len(), source_on(root_of, nets, root))
}

/// The sources declared on a root: power sources, then stuck faults.
pub open spec fn sources_of(shape: Shape, root_of: Seq<usize>, root: usize) -> Seq<TerminalId> {
    let power = sources_on(root_of, shape.power_nets, root);
    let stuck = sources_on(root_of, shape.stuck_nets, root);
    Seq::new(power.len(), |i: int| TerminalId::Power(power[i])) + Seq::new(
        stuck.len(),
        |i: int| TerminalId::Stuck(stuck[i]),
    )
}

/// Whether a cluster reads the terminal at position `p`: its edges or
/// elements end on it, or a control reads it.
pub open spec fn reads_terminal(shape: Shape, layout: Layout, p: int) -> spec_fn(int) -> bool {
    |cid: int|
        cluster_ends_on(shape, layout, cid, layout.terminals[p]) || cluster_controlled_by(
            shape,
            layout,
            cid,
            layout.terminals[p],
        )
}

/// The clusters that read the terminal at position `p`.
pub open spec fn dependents_of(
    shape: Shape,
    layout: Layout,
    clusters: nat,
    p: int,
) -> Seq<usize> {
    select(clusters, reads_terminal(shape, layout, p))
}

/// How many clusters there are.
pub open spec fn cluster_count(shape: Shape, root_of: Seq<usize>) -> nat {
    roots_below(cluster_of(shape, root_of), root_of.len()).len()
}

/// A board's whole structure, as sequences.
#[verifier::ext_equal]
pub struct TopologyView {
    /// The identity root of every net.
    pub root_of: Seq<usize>,
    /// The dense cluster id of every net.
    pub index: Seq<usize>,
    /// The clusters.
    pub clusters: Seq<ClusterTopoView>,
    /// The declared terminals, in ascending root order.
    pub terminals: Seq<TerminalTopoView>,
    /// The terminal roots, ascending.
    pub terminal_roots: Seq<usize>,
    /// The edges between distinct roots.
    pub root_edges: Seq<Edge>,
    /// The capacitors between distinct roots.
    pub root_couplings: Seq<RootCoupling>,
    /// The smallest edge touching every root.
    pub smallest_edges: Seq<Ohms>,
}

/// A board's structure over the identity roots `root_of`.
pub open spec fn topology_of(shape: Shape, root_of: Seq<usize>) -> TopologyView {
    let layout = layout_of(shape, root_of);
    let count = cluster_count(shape, root_of);
    TopologyView {
        root_of,
        index: layout.index,
        clusters: Seq::new(count, |cid: int| cluster_topo(shape, layout, cid)),
        terminals: Seq::new(
            layout.terminals.len(),
            |p: int|
                TerminalTopoView {
                    root: layout.terminals[p],
                    cluster: layout.index[layout.terminals[p] as int],
                    sources: sources_of(shape, root_of, layout.terminals[p]),
                    dependents: dependents_of(shape, layout, count, p),
                },
        ),
        terminal_roots: layout.terminals,
        root_edges: layout.root_edges,
        root_couplings: root_couplings_of(shape.couplings, root_of),
        smallest_edges: Seq::new(
            root_of.len(),
            |r: int| smallest_edge(layout.root_edges, r as usize),
        ),
    }
}

/// One cluster's members.
#[derive(Debug)]
pub struct ClusterTopo {
    /// Member nets, ascending.
    pub nets: Vec<usize>,
    /// Member roots, ascending.
    pub roots: Vec<usize>,
    /// The edges with an end in it that is no terminal.
    pub edges: Vec<Edge>,
    /// The slots that source it, ascending.
    pub slots: Vec<usize>,
    /// Its elements, ascending.
    pub elements: Vec<usize>,
    /// The terminal whose own cluster it is.
    pub terminal: Option<usize>,
    /// The terminals its edges and elements end on, ascending.
    pub boundary: Vec<usize>,
    /// The terminals only its elements' controls read, ascending.
    pub boundary_controls: Vec<usize>,
    /// Positions of its digital senses.
    pub digital_senses: Vec<usize>,
    /// Positions of its analog senses.
    pub analog_senses: Vec<usize>,
    /// Positions of its current instruments.
    pub current_instruments: Vec<usize>,
    /// Positions of its power senses.
    pub power_senses: Vec<usize>,
    /// Path resistances, a row for every root.
    pub dist: Vec<Vec<Ohms>>,
}

/// Rows as sequences.
pub open spec fn rows_view(rows: Seq<Vec<Ohms>>) -> Seq<Seq<Ohms>> {
    Seq::new(rows.len(), |i: int| rows[i]@)
}

impl View for ClusterTopo {
    type V = ClusterTopoView;

    open spec fn view(&self) -> ClusterTopoView {
        ClusterTopoView {
            nets: self.nets@,
            roots: self.roots@,
            edges: self.edges@,
            slots: self.slots@,
            elements: self.elements@,
            terminal: self.terminal,
            boundary: self.boundary@,
            boundary_controls: self.boundary_controls@,
            digital_senses: self.digital_senses@,
            analog_senses: self.analog_senses@,
            current_instruments: self.current_instruments@,
            power_senses: self.power_senses@,
            dist: rows_view(self.dist@),
        }
    }
}

/// One declared terminal.
#[derive(Debug)]
pub struct TerminalTopo {
    /// Its root.
    pub root: usize,
    /// Its own cluster.
    pub cluster: usize,
    /// Its sources in canonical order.
    pub sources: Vec<TerminalId>,
    /// The clusters that read it, ascending.
    pub dependents: Vec<usize>,
}

impl View for TerminalTopo {
    type V = TerminalTopoView;

    open spec fn view(&self) -> TerminalTopoView {
        TerminalTopoView {
            root: self.root,
            cluster: self.cluster,
            sources: self.sources@,
            dependents: self.dependents@,
        }
    }
}

/// A board's whole structure.
#[derive(Debug)]
pub struct Topology {
    /// The identity root of every net.
    pub root_of: Vec<usize>,
    /// The dense cluster id of every net.
    pub cluster_index: Vec<usize>,
    /// The clusters.
    pub clusters: Vec<ClusterTopo>,
    /// The declared terminals.
    pub terminals: Vec<TerminalTopo>,
    /// The terminal roots, ascending.
    pub terminal_roots: Vec<usize>,
    /// The edges between distinct roots.
    pub root_edges: Vec<Edge>,
    /// The capacitors between distinct roots.
    pub root_couplings: Vec<RootCoupling>,
    /// The smallest edge touching every root.
    pub smallest_edges: Vec<Ohms>,
}

/// Clusters as views.
pub open spec fn clusters_view(clusters: Seq<ClusterTopo>) -> Seq<ClusterTopoView> {
    Seq::new(clusters.len(), |i: int| clusters[i]@)
}

/// Terminals as views.
pub open spec fn terminals_view(terminals: Seq<TerminalTopo>) -> Seq<TerminalTopoView> {
    Seq::new(terminals.len(), |i: int| terminals[i]@)
}

impl View for Topology {
    type V = TopologyView;

    open spec fn view(&self) -> TopologyView {
        TopologyView {
            root_of: self.root_of@,
            index: self.cluster_index@,
            clusters: clusters_view(self.clusters@),
            terminals: terminals_view(self.terminals@),
            terminal_roots: self.terminal_roots@,
            root_edges: self.root_edges@,
            root_couplings: self.root_couplings@,
            smallest_edges: self.smallest_edges@,
        }
    }
}

/// What joining keeps: a root map under which a net goes with its root and a
/// terminal goes with nothing else.
pub open spec fn joins(c: Seq<usize>, root_of: Seq<usize>, terminals: Seq<usize>) -> bool {
    &&& c.len() == root_of.len()
    &&& is_root_map(c)
    &&& forall|i: int| 0 <= i < c.len() ==> c[(#[trigger] root_of[i]) as int] == c[i]
    &&& forall|i: int, p: int|
        #![trigger root_of[i], terminals[p]]
        0 <= i < c.len() && 0 <= p < terminals.len() && c[i] == c[terminals[p] as int]
            ==> root_of[i] == terminals[p]
}

/// Every listed root is below the count and its own root.
pub open spec fn are_roots(terminals: Seq<usize>, root_of: Seq<usize>) -> bool {
    forall|p: int|
        0 <= p < terminals.len() ==> (#[trigger] terminals[p]) < root_of.len()
            && root_of[terminals[p] as int] == terminals[p]
}

proof fn merge_joins(
    c: Seq<usize>,
    root_of: Seq<usize>,
    terminals: Seq<usize>,
    a: usize,
    b: usize,
)
    requires
        joins(c, root_of, terminals),
        are_roots(terminals, root_of),
        is_root_map(root_of),
        a < c.len(),
        b < c.len(),
        root_of[a as int] == a,
        root_of[b as int] == b,
        !terminals.contains(a),
        !terminals.contains(b),
    ensures
        joins(merged(c, a as int, b as int), root_of, terminals),
{
    merged_is_root_map(c, a as int, b as int);
    let m = merged(c, a as int, b as int);
    assert forall|i: int, p: int|
        #![trigger root_of[i], terminals[p]]
        0 <= i < m.len() && 0 <= p < terminals.len() && m[i] == m[terminals[p] as int] implies root_of[i]
        == terminals[p] by {
        let t = terminals[p];
        assert(terminals.contains(t));
        assert(c[a as int] != c[t as int]) by {
            if c[a as int] == c[t as int] {
                assert(root_of[a as int] == terminals[p]);
            }
        }
        assert(c[b as int] != c[t as int]) by {
            if c[b as int] == c[t as int] {
                assert(root_of[b as int] == terminals[p]);
            }
        }
        assert(c[i] == c[t as int]);
    }
}

proof fn edge_joined_joins(
    edges: Seq<Edge>,
    root_of: Seq<usize>,
    terminals: Seq<usize>,
    k: nat,
)
    requires
        edges_valid(edges, root_of.len()),
        is_root_map(root_of),
        are_roots(terminals, root_of),
        k <= edges.len(),
    ensures
        joins(edge_joined(edges, root_of, terminals, k), root_of, terminals),
    decreases k,
{
    if k > 0 {
        edge_joined_joins(edges, root_of, terminals, (k - 1) as nat);
        let before = edge_joined(edges, root_of, terminals, (k - 1) as nat);
        let ra = root_of[edges[k - 1].a as int];
        let rb = root_of[edges[k - 1].b as int];
        if !terminals.contains(ra) && !terminals.contains(rb) {
            merge_joins(before, root_of, terminals, ra, rb);
        }
    }
}

/// Every net an element touches is below `n`.
pub open spec fn element_valid(element: ElementNets, n: nat) -> bool {
    element.a < n && element.b < n && (element.control matches Some(c) ==> c < n)
}

proof fn nets_joined_joins(
    before: Seq<usize>,
    nets: Seq<usize>,
    home: usize,
    root_of: Seq<usize>,
    terminals: Seq<usize>,
    j: nat,
)
    requires
        joins(before, root_of, terminals),
        is_root_map(root_of),
        are_roots(terminals, root_of),
        forall|i: int| 0 <= i < nets.len() ==> (#[trigger] nets[i]) < root_of.len(),
        home < root_of.len(),
        root_of[home as int] == home,
        !terminals.contains(home),
        j <= nets.len(),
    ensures
        joins(nets_joined(before, nets, home, root_of, terminals, j), root_of, terminals),
    decreases j,
{
    if j > 0 {
        nets_joined_joins(before, nets, home, root_of, terminals, (j - 1) as nat);
        let c = nets_joined(before, nets, home, root_of, terminals, (j - 1) as nat);
        let net = nets[j - 1];
        let r = root_of[net as int];
        assert(root_of[r as int] == r);
        if !terminals.contains(r) {
            merge_joins(c, root_of, terminals, home, r);
        }
    }
}

proof fn element_joined_joins(
    before: Seq<usize>,
    elements: Seq<ElementNets>,
    root_of: Seq<usize>,
    terminals: Seq<usize>,
    k: nat,
)
    requires
        joins(before, root_of, terminals),
        is_root_map(root_of),
        are_roots(terminals, root_of),
        forall|i: int|
            0 <= i < elements.len() ==> element_valid(#[trigger] elements[i], root_of.len()),
        k <= elements.len(),
    ensures
        joins(element_joined(before, elements, root_of, terminals, k), root_of, terminals),
    decreases k,
{
    if k > 0 {
        element_joined_joins(before, elements, root_of, terminals, (k - 1) as nat);
        let c = element_joined(before, elements, root_of, terminals, (k - 1) as nat);
        let element = elements[k - 1];
        assert(element_valid(element, root_of.len()));
        let nets = element.list();
        if let Some(home) = home_root(element, root_of, terminals) {
            home_is_a_root(element, root_of, terminals);
            nets_joined_joins(c, nets, home, root_of, terminals, nets.len());
        }
    }
}

proof fn home_is_a_root(element: ElementNets, root_of: Seq<usize>, terminals: Seq<usize>)
    requires
        is_root_map(root_of),
        element_valid(element, root_of.len()),
    ensures
        home_root(element, root_of, terminals) matches Some(home) ==> home < root_of.len()
            && root_of[home as int] == home && !terminals.contains(home),
{
    assert(root_of[root_of[element.a as int] as int] == root_of[element.a as int]);
    assert(root_of[root_of[element.b as int] as int] == root_of[element.b as int]);
    if let Some(net) = element.control {
        assert(root_of[root_of[net as int] as int] == root_of[net as int]);
    }
}

/// A declared terminal's root is a root, listed once, in ascending order.
pub proof fn terminals_are_roots(shape: Shape, root_of: Seq<usize>)
    requires
        shape.valid(root_of.len()),
        is_root_map(root_of),
        root_of.len() <= usize::MAX,
    ensures
        are_roots(terminal_list(shape, root_of), root_of),
        ascending(terminal_list(shape, root_of)),
        forall|r: usize|
            #[trigger] terminal_list(shape, root_of).contains(r) <==> r < root_of.len()
                && on_terminal(shape, root_of, r),
{
    let keep = terminal_root(shape, root_of);
    select_properties(root_of.len(), keep);
    let terminals = terminal_list(shape, root_of);
    assert forall|p: int| 0 <= p < terminals.len() implies (#[trigger] terminals[p])
        < root_of.len() && root_of[terminals[p] as int] == terminals[p] by {
        let t = terminals[p];
        assert(keep(t as int));
        if exists|i: int|
            0 <= i < shape.power_nets.len() && root_of[(#[trigger] shape.power_nets[i]) as int]
                == t {
            let i = choose|i: int|
                0 <= i < shape.power_nets.len() && root_of[(
                #[trigger] shape.power_nets[i]) as int] == t;
            assert(root_of[root_of[shape.power_nets[i] as int] as int] == t);
        } else {
            let i = choose|i: int|
                0 <= i < shape.stuck_nets.len() && root_of[(
                #[trigger] shape.stuck_nets[i]) as int] == t;
            assert(root_of[root_of[shape.stuck_nets[i] as int] as int] == t);
        }
    }
}

/// Clusters are a root map: a net goes with its root, and a terminal is alone
/// with the nets merged into it.
pub proof fn clusters_join(shape: Shape, root_of: Seq<usize>)
    requires
        shape.valid(root_of.len()),
        is_root_map(root_of),
        root_of.len() <= usize::MAX,
    ensures
        joins(cluster_of(shape, root_of), root_of, terminal_list(shape, root_of)),
{
    let terminals = terminal_list(shape, root_of);
    terminals_are_roots(shape, root_of);
    edge_joined_joins(shape.edges, root_of, terminals, shape.edges.len());
    assert forall|i: int| 0 <= i < shape.elements.len() implies element_valid(
        #[trigger] shape.elements[i],
        root_of.len(),
    ) by {}
    element_joined_joins(
        edge_joined(shape.edges, root_of, terminals, shape.edges.len()),
        shape.elements,
        root_of,
        terminals,
        shape.elements.len(),
    );
}

/// Dense ids name clusters: two nets share one exactly if they share a
/// cluster root, and every id is below the count.
pub proof fn dense_index_names(c: Seq<usize>, i: int, j: int)
    requires
        is_root_map(c),
        c.len() <= usize::MAX,
        0 <= i < c.len(),
        0 <= j < c.len(),
    ensures
        dense_index(c)[i] < roots_below(c, c.len()).len(),
        dense_index(c)[i] == roots_below(c, c[i] as nat).len(),
        dense_index(c)[i] == dense_index(c)[j] <==> c[i] == c[j],
{
    let keep = cluster_root(c);
    let (ci, cj) = (c[i] as nat, c[j] as nat);
    assert(keep(ci as int));
    assert(keep(cj as int));
    select_grows(ci, c.len(), keep);
    select_grows(cj, c.len(), keep);
    if ci < cj {
        select_grows(ci, cj, keep);
    } else if cj < ci {
        select_grows(cj, ci, keep);
    }
}

/// A layout a board can have.
pub open spec fn layout_sound(layout: Layout, count: nat) -> bool {
    let n = layout.root_of.len();
    &&& n <= usize::MAX
    &&& layout.index.len() == n
    &&& count <= n
    &&& is_root_map(layout.root_of)
    &&& are_roots(layout.terminals, layout.root_of)
    &&& ascending(layout.terminals)
    &&& edges_valid(layout.root_edges, n)
    &&& forall|i: int| 0 <= i < n ==> (#[trigger] layout.index[i]) < count
    &&& forall|i: int|
        0 <= i < n ==> layout.index[(#[trigger] layout.root_of[i]) as int] == layout.index[i]
    &&& forall|i: int, p: int|
        #![trigger layout.root_of[i], layout.terminals[p]]
        0 <= i < n && 0 <= p < layout.terminals.len() && layout.index[i]
            == layout.index[layout.terminals[p] as int] ==> layout.root_of[i]
            == layout.terminals[p]
}

proof fn root_edges_valid(edges: Seq<Edge>, root_of: Seq<usize>)
    requires
        edges_valid(edges, root_of.len()),
        is_root_map(root_of),
    ensures
        edges_valid(root_edges_of(edges, root_of), root_of.len()),
    decreases edges.len(),
{
    if edges.len() > 0 {
        let rest = edges.drop_last();
        assert forall|i: int| 0 <= i < rest.len() implies (#[trigger] rest[i]).a < root_of.len()
            && rest[i].b < root_of.len() && rest[i].ohms.non_negative() by {
            assert(rest[i] == edges[i]);
        }
        root_edges_valid(rest, root_of);
        let last = edges[edges.len() - 1];
        assert(root_of[last.a as int] < root_of.len());
        assert(root_of[last.b as int] < root_of.len());
    }
}

/// A valid board's layout is sound.
pub proof fn layout_is_sound(shape: Shape, root_of: Seq<usize>)
    requires
        shape.valid(root_of.len()),
        is_root_map(root_of),
        root_of.len() <= usize::MAX,
    ensures
        layout_sound(layout_of(shape, root_of), cluster_count(shape, root_of)),
{
    terminals_are_roots(shape, root_of);
    clusters_join(shape, root_of);
    root_edges_valid(shape.edges, root_of);
    let c = cluster_of(shape, root_of);
    let layout = layout_of(shape, root_of);
    let n = root_of.len();
    select_grows(n, n, cluster_root(c));
    assert forall|i: int| 0 <= i < n implies (#[trigger] layout.index[i]) < cluster_count(
        shape,
        root_of,
    ) by {
        dense_index_names(c, i, i);
    }
    assert forall|i: int| 0 <= i < n implies layout.index[(#[trigger] layout.root_of[i]) as int]
        == layout.index[i] by {
        dense_index_names(c, layout.root_of[i] as int, i);
    }
    assert forall|i: int, p: int|
        #![trigger layout.root_of[i], layout.terminals[p]]
        0 <= i < n && 0 <= p < layout.terminals.len() && layout.index[i]
            == layout.index[layout.terminals[p] as int] implies layout.root_of[i]
        == layout.terminals[p] by {
        dense_index_names(c, i, layout.terminals[p] as int);
    }
}

/// A terminal's own cluster is its root alone.
pub proof fn terminal_cluster_is_its_root(layout: Layout, count: nat, p: int, cid: int)
    requires
        layout_sound(layout, count),
        0 <= p < layout.terminals.len(),
        cid == layout.index[layout.terminals[p] as int],
    ensures
        roots_in(layout, cid) == seq![layout.terminals[p]],
{
    let t = layout.terminals[p];
    let keep = member_root(layout, cid);
    let only = seq![t];
    assert forall|x: usize| #[trigger] only.contains(x) <==> x < layout.root_of.len() && keep(
        x as int,
    ) by {
        if only.contains(x) {
            assert(x == t);
        }
        if x < layout.root_of.len() && keep(x as int) {
            assert(layout.root_of[x as int] == layout.terminals[p]);
            assert(only[0] == x);
        }
    }
    select_unique(only, layout.root_of.len(), keep);
}

/// Note a terminal source's root.
fn note_sources(sources: &Vec<TerminalSource>, root_of: &Vec<usize>, roots: &mut Vec<usize>)
    requires
        forall|i: int| 0 <= i < sources@.len() ==> (#[trigger] sources@[i]).net < root_of@.len(),
        ascending(old(roots)@),
    ensures
        ascending(final(roots)@),
        forall|x: usize|
            #[trigger] final(roots)@.contains(x) <==> old(roots)@.contains(x) || exists|i: int|
                0 <= i < sources@.len() && root_of@[(#[trigger] sources@[i]).net as int] == x,
{
    let mut i: usize = 0;
    while i < sources.len()
        invariant
            i <= sources@.len(),
            forall|j: int|
                0 <= j < sources@.len() ==> (#[trigger] sources@[j]).net < root_of@.len(),
            ascending(roots@),
            forall|x: usize|
                #[trigger] roots@.contains(x) <==> old(roots)@.contains(x) || exists|j: int|
                    0 <= j < i && root_of@[(#[trigger] sources@[j]).net as int] == x,
        decreases sources@.len() - i,
    {
        let ghost before = roots@;
        let root: usize = root_of[sources[i].net];
        insert_ascending(roots, root);
        assert forall|x: usize| #[trigger] roots@.contains(x) <==> old(roots)@.contains(x)
            || exists|j: int|
            0 <= j < i + 1 && root_of@[(#[trigger] sources@[j]).net as int] == x by {
            assert(before.contains(x) <==> old(roots)@.contains(x) || exists|j: int|
                0 <= j < i && root_of@[(#[trigger] sources@[j]).net as int] == x);
            if x == root {
                assert(root_of@[sources@[i as int].net as int] == x);
            }
        }
        i += 1;
    }
}

/// The declared terminal roots, sorted and deduplicated.
pub fn terminal_roots(board: &Board, root_of: &Vec<usize>) -> (r: Vec<usize>)
    requires
        board.shape().valid(root_of@.len()),
        is_root_map(root_of@),
    ensures
        r@ == terminal_list(board.shape(), root_of@),
{
    let ghost shape = board.shape();
    let ghost n = root_of.len();
    let mut r: Vec<usize> = Vec::new();
    assert forall|i: int| 0 <= i < board.power_sources@.len() implies (
    #[trigger] board.power_sources@[i]).net < root_of@.len() by {
        assert(shape.power_nets[i] < root_of@.len());
    }
    assert forall|i: int| 0 <= i < board.stuck_sources@.len() implies (
    #[trigger] board.stuck_sources@[i]).net < root_of@.len() by {
        assert(shape.stuck_nets[i] < root_of@.len());
    }
    note_sources(&board.power_sources, root_of, &mut r);
    let ghost powered = r@;
    note_sources(&board.stuck_sources, root_of, &mut r);
    proof {
        let keep = terminal_root(shape, root_of@);
        assert forall|x: usize| #[trigger] r@.contains(x) <==> x < root_of@.len() && keep(
            x as int,
        ) by {
            let by_power = exists|i: int|
                0 <= i < board.power_sources@.len() && root_of@[(
                #[trigger] board.power_sources@[i]).net as int] == x;
            let by_stuck = exists|i: int|
                0 <= i < board.stuck_sources@.len() && root_of@[(
                #[trigger] board.stuck_sources@[i]).net as int] == x;
            assert(powered.contains(x) <==> by_power);
            assert(r@.contains(x) <==> by_power || by_stuck);
            if by_power {
                let i = choose|i: int|
                    0 <= i < board.power_sources@.len() && root_of@[(
                    #[trigger] board.power_sources@[i]).net as int] == x;
                assert(root_of@[shape.power_nets[i] as int] == x);
            }
            if by_stuck {
                let i = choose|i: int|
                    0 <= i < board.stuck_sources@.len() && root_of@[(
                    #[trigger] board.stuck_sources@[i]).net as int] == x;
                assert(root_of@[shape.stuck_nets[i] as int] == x);
            }
            if keep(x as int) {
                if exists|i: int|
                    0 <= i < shape.power_nets.len() && root_of@[(
                    #[trigger] shape.power_nets[i]) as int] == x {
                    let i = choose|i: int|
                        0 <= i < shape.power_nets.len() && root_of@[(
                        #[trigger] shape.power_nets[i]) as int] == x;
                    assert(root_of@[board.power_sources@[i].net as int] == x);
                } else {
                    let i = choose|i: int|
                        0 <= i < shape.stuck_nets.len() && root_of@[(
                        #[trigger] shape.stuck_nets[i]) as int] == x;
                    assert(root_of@[board.stuck_sources@[i].net as int] == x);
                }
            }
        }
        select_unique(r@, root_of@.len(), keep);
    }
    r
}

/// Whether every element's home is described.
pub open spec fn homes_described(
    homes: Seq<Option<ElementHome>>,
    elements: Seq<ElementNets>,
    root_of: Seq<usize>,
    terminals: Seq<usize>,
) -> bool {
    &&& homes.len() == elements.len()
    &&& forall|e: int|
        0 <= e < homes.len() ==> crate::board::home_described(
            #[trigger] homes[e],
            elements[e],
            root_of,
            terminals,
        )
}

/// Where every element lives.
fn element_homes(board: &Board, root_of: &Vec<usize>, terminals: &Vec<usize>) -> (homes: Vec<
    Option<ElementHome>,
>)
    requires
        board.shape().valid(root_of@.len()),
    ensures
        homes_described(homes@, board.shape().elements, root_of@, terminals@),
{
    let mut homes: Vec<Option<ElementHome>> = Vec::new();
    let ghost shape = board.shape();
    let mut e: usize = 0;
    while e < board.elements.len()
        invariant
            e <= board.elements@.len(),
            shape == board.shape(),
            shape.valid(root_of@.len()),
            homes@.len() == e,
            forall|j: int|
                0 <= j < e ==> crate::board::home_described(
                    #[trigger] homes@[j],
                    shape.elements[j],
                    root_of@,
                    terminals@,
                ),
        decreases board.elements@.len() - e,
    {
        assert(element_valid(shape.elements[e as int], root_of@.len()));
        homes.push(element_home(&board.elements[e], root_of, terminals));
        e += 1;
    }
    homes
}

/// The cluster root of every net: identity merges join at no resistance, an
/// edge joins two roots that are no terminals, an element its nets that are
/// none.
fn conduct(
    board: &Board,
    root_of: &Vec<usize>,
    terminals: &Vec<usize>,
    homes: &Vec<Option<ElementHome>>,
) -> (clusters: Vec<usize>)
    requires
        board.shape().valid(root_of@.len()),
        is_root_map(root_of@),
        terminals@ == terminal_list(board.shape(), root_of@),
        homes_described(homes@, board.shape().elements, root_of@, terminals@),
    ensures
        clusters@ == cluster_of(board.shape(), root_of@),
{
    let ghost shape = board.shape();
    let n: usize = root_of.len();
    let mut dsu = Dsu::new(n);
    let mut i: usize = 0;
    while i < n
        invariant
            i <= n,
            n == root_of@.len(),
            is_root_map(root_of@),
            dsu.well_formed(),
            dsu@.len() == n,
            forall|j: int|
                0 <= j < n ==> #[trigger] dsu@[j] == (if j < i {
                    root_of@[j]
                } else {
                    j as usize
                }),
        decreases n - i,
    {
        let ghost before = dsu@;
        let root: usize = root_of[i];
        assert(root_of@[root as int] == root);
        dsu.union(root, i);
        assert forall|j: int| 0 <= j < n implies #[trigger] dsu@[j] == (if j < i + 1 {
            root_of@[j]
        } else {
            j as usize
        }) by {
            assert(before[i as int] == i);
            assert(before[root as int] == root);
            if before[j] == before[i as int] && j < i {
                assert(root_of@[j] == i);
                assert(root_of@[root_of@[j] as int] == root_of@[j]);
            }
        }
        i += 1;
    }
    assert(dsu@ =~= root_of@);
    let mut k: usize = 0;
    while k < board.edges.len()
        invariant
            k <= board.edges@.len(),
            n == root_of@.len(),
            is_root_map(root_of@),
            shape == board.shape(),
            shape.valid(n as nat),
            dsu.well_formed(),
            dsu@.len() == n,
            dsu@ == edge_joined(shape.edges, root_of@, terminals@, k as nat),
        decreases board.edges@.len() - k,
    {
        let edge = board.edges[k];
        assert(shape.edges[k as int] == edge);
        let ra: usize = root_of[edge.a];
        let rb: usize = root_of[edge.b];
        assert(ra < n && rb < n);
        if !listed(terminals, ra) && !listed(terminals, rb) {
            dsu.union(ra, rb);
        }
        k += 1;
    }
    let ghost edged = dsu@;
    let mut e: usize = 0;
    while e < board.elements.len()
        invariant
            e <= board.elements@.len(),
            n == root_of@.len(),
            is_root_map(root_of@),
            shape == board.shape(),
            shape.valid(n as nat),
            homes_described(homes@, shape.elements, root_of@, terminals@),
            dsu.well_formed(),
            dsu@.len() == n,
            dsu@ == element_joined(edged, shape.elements, root_of@, terminals@, e as nat),
        decreases board.elements@.len() - e,
    {
        let ghost element = shape.elements[e as int];
        assert(element_valid(element, n as nat));
        assert(crate::board::home_described(homes@[e as int], element, root_of@, terminals@));
        if let Some(home) = &homes[e] {
            proof {
                home_is_a_root(element, root_of@, terminals@);
            }
            let nets = board.elements[e].nets();
            let ghost before = dsu@;
            let mut j: usize = 0;
            while j < nets.len()
                invariant
                    j <= nets@.len(),
                    n == root_of@.len(),
                    is_root_map(root_of@),
                    nets@ == element.list(),
                    element_valid(element, n as nat),
                    home.root < n,
                    dsu.well_formed(),
                    dsu@.len() == n,
                    dsu@ == nets_joined(
                        before,
                        nets@,
                        home.root,
                        root_of@,
                        terminals@,
                        j as nat,
                    ),
                decreases nets@.len() - j,
            {
                assert(nets@[j as int] < n);
                let root: usize = root_of[nets[j]];
                assert(root < n);
                if !listed(terminals, root) {
                    dsu.union(home.root, root);
                }
                j += 1;
            }
        }
        e += 1;
    }
    let mut clusters: Vec<usize> = Vec::new();
    let mut m: usize = 0;
    let ghost finally = dsu@;
    while m < n
        invariant
            m <= n,
            dsu.well_formed(),
            dsu@ == finally,
            finally.len() == n,
            clusters@ =~= finally.take(m as int),
        decreases n - m,
    {
        let root: usize = dsu.find(m);
        clusters.push(root);
        m += 1;
    }
    clusters
}

/// The dense cluster ids, and how many there are.
fn number_clusters(clusters: &Vec<usize>) -> (r: (Vec<usize>, usize))
    requires
        is_root_map(clusters@),
    ensures
        r.0@ == dense_index(clusters@),
        r.1 == roots_below(clusters@, clusters@.len()).len(),
{
    let n: usize = clusters.len();
    let mut rank: Vec<usize> = Vec::new();
    let mut count: usize = 0;
    let mut r: usize = 0;
    while r < n
        invariant
            r <= n,
            n == clusters@.len(),
            count <= r,
            count == roots_below(clusters@, r as nat).len(),
            rank@.len() == r,
            forall|j: int|
                0 <= j < r ==> #[trigger] rank@[j] == roots_below(clusters@, j as nat).len(),
        decreases n - r,
    {
        rank.push(count);
        if clusters[r] == r {
            count += 1;
        }
        r += 1;
    }
    let mut index: Vec<usize> = Vec::new();
    let mut i: usize = 0;
    while i < n
        invariant
            i <= n,
            n == clusters@.len(),
            is_root_map(clusters@),
            rank@.len() == n,
            forall|j: int|
                0 <= j < n ==> #[trigger] rank@[j] == roots_below(clusters@, j as nat).len(),
            index@ =~= dense_index(clusters@).take(i as int),
        decreases n - i,
    {
        let root: usize = clusters[i];
        assert(root < n);
        assert(rank@[root as int] == roots_below(clusters@, root as nat).len());
        index.push(rank[root]);
        i += 1;
    }
    (index, count)
}

/// The edges between distinct roots.
fn collapse_edges(edges: &Vec<Edge>, root_of: &Vec<usize>) -> (r: Vec<Edge>)
    requires
        edges_valid(edges@, root_of@.len()),
    ensures
        r@ == root_edges_of(edges@, root_of@),
{
    let mut r: Vec<Edge> = Vec::new();
    let mut i: usize = 0;
    assert(edges@.take(0) =~= Seq::<Edge>::empty());
    while i < edges.len()
        invariant
            i <= edges@.len(),
            edges_valid(edges@, root_of@.len()),
            r@ == root_edges_of(edges@.take(i as int), root_of@),
        decreases edges@.len() - i,
    {
        assert(edges@.take(i + 1).drop_last() =~= edges@.take(i as int));
        assert(edges@.take(i + 1).last() == edges@[i as int]);
        let edge = edges[i];
        let a: usize = root_of[edge.a];
        let b: usize = root_of[edge.b];
        if a != b {
            r.push(Edge { a, b, ohms: edge.ohms });
        }
        i += 1;
    }
    assert(edges@.take(i as int) =~= edges@);
    r
}

/// The capacitors between distinct roots.
fn collapse_couplings(couplings: &Vec<CouplingCapacitor>, root_of: &Vec<usize>) -> (r: Vec<
    RootCoupling,
>)
    requires
        forall|i: int|
            0 <= i < couplings@.len() ==> (#[trigger] couplings@[i]).a < root_of@.len()
                && couplings@[i].b < root_of@.len(),
    ensures
        r@ == root_couplings_of(
            Seq::new(
                couplings@.len(),
                |i: int| (couplings@[i].a, couplings@[i].b, couplings@[i].farads),
            ),
            root_of@,
        ),
{
    let mut r: Vec<RootCoupling> = Vec::new();
    let ghost all = Seq::new(
        couplings@.len(),
        |i: int| (couplings@[i].a, couplings@[i].b, couplings@[i].farads),
    );
    let mut i: usize = 0;
    assert(all.take(0) =~= Seq::<(usize, usize, u64)>::empty());
    while i < couplings.len()
        invariant
            i <= couplings@.len(),
            all == Seq::new(
                couplings@.len(),
                |i: int| (couplings@[i].a, couplings@[i].b, couplings@[i].farads),
            ),
            forall|j: int|
                0 <= j < couplings@.len() ==> (#[trigger] couplings@[j]).a < root_of@.len()
                    && couplings@[j].b < root_of@.len(),
            r@ == root_couplings_of(all.take(i as int), root_of@),
        decreases couplings@.len() - i,
    {
        assert(all.take(i + 1).drop_last() =~= all.take(i as int));
        assert(all.take(i + 1).last() == all[i as int]);
        let a: usize = root_of[couplings[i].a];
        let b: usize = root_of[couplings[i].b];
        if a != b {
            r.push(RootCoupling { a, b, capacitor: i });
        }
        i += 1;
    }
    assert(all.take(i as int) =~= all);
    r
}

/// The smallest edge touching every root.
fn smallest_edges(edges: &Vec<Edge>, n: usize) -> (r: Vec<Ohms>)
    ensures
        r@.len() == n,
        forall|root: int|
            0 <= root < n ==> #[trigger] r@[root] == smallest_edge(edges@, root as usize),
{
    let mut r: Vec<Ohms> = Vec::new();
    let mut root: usize = 0;
    while root < n
        invariant
            root <= n,
            r@.len() == root,
            forall|x: int|
                0 <= x < root ==> #[trigger] r@[x] == smallest_edge(edges@, x as usize),
        decreases n - root,
    {
        let mut least = Quantity::Infinite;
        let mut i: usize = 0;
        assert(edges@.take(0) =~= Seq::<Edge>::empty());
        while i < edges.len()
            invariant
                i <= edges@.len(),
                least == smallest_edge(edges@.take(i as int), root),
            decreases edges@.len() - i,
        {
            assert(edges@.take(i + 1).drop_last() =~= edges@.take(i as int));
            assert(edges@.take(i + 1).last() == edges@[i as int]);
            let edge = edges[i];
            if (edge.a == root || edge.b == root) && edge.ohms.lt(least) {
                least = edge.ohms;
            }
            i += 1;
        }
        assert(edges@.take(i as int) =~= edges@);
        r.push(least);
        root += 1;
    }
    r
}

/// The positions of the listed nets that lie in a cluster.
fn collect_senses(index: &Vec<usize>, nets: &Vec<usize>, cid: usize) -> (r: Vec<usize>)
    ensures
        r@ == senses_in(index@, nets@, cid as int),
{
    let mut r: Vec<usize> = Vec::new();
    let mut k: usize = 0;
    while k < nets.len()
        invariant
            k <= nets@.len(),
            r@ == select(k as nat, sense_in(index@, nets@, cid as int)),
        decreases nets@.len() - k,
    {
        if nets[k] < index.len() && index[nets[k]] == cid {
            r.push(k);
        }
        k += 1;
    }
    r
}

/// The layout a topology is being built over.
struct Plan {
    root_of: Vec<usize>,
    terminals: Vec<usize>,
    index: Vec<usize>,
    root_edges: Vec<Edge>,
    homes: Vec<Option<ElementHome>>,
}

impl Plan {
    spec fn layout(&self) -> Layout {
        Layout {
            root_of: self.root_of@,
            terminals: self.terminals@,
            index: self.index@,
            root_edges: self.root_edges@,
        }
    }

    spec fn follows(&self, board: &Board, count: nat) -> bool {
        &&& board.shape().valid(self.root_of@.len())
        &&& layout_sound(self.layout(), count)
        &&& homes_described(
            self.homes@,
            board.shape().elements,
            self.root_of@,
            self.terminals@,
        )
    }
}

/// The edges of a cluster.
fn collect_edges(plan: &Plan, board: &Board, cid: usize, Ghost(count): Ghost<nat>) -> (r: Vec<Edge>)
    requires
        plan.follows(board, count),
    ensures
        r@ == cluster_edges(plan.layout(), plan.root_edges@, cid as int),
        edges_valid(r@, plan.root_of@.len()),
{
    let mut r: Vec<Edge> = Vec::new();
    let ghost layout = plan.layout();
    let ghost all = plan.root_edges@;
    let mut i: usize = 0;
    assert(all.take(0) =~= Seq::<Edge>::empty());
    while i < plan.root_edges.len()
        invariant
            i <= plan.root_edges@.len(),
            plan.follows(board, count),
            layout == plan.layout(),
            all == plan.root_edges@,
            r@ == cluster_edges(layout, all.take(i as int), cid as int),
            edges_valid(r@, plan.root_of@.len()),
        decreases plan.root_edges@.len() - i,
    {
        assert(all.take(i + 1).drop_last() =~= all.take(i as int));
        assert(all.take(i + 1).last() == all[i as int]);
        let edge = plan.root_edges[i];
        assert(layout.root_edges[i as int] == edge);
        if (plan.index[edge.a] == cid && !listed(&plan.terminals, edge.a)) || (plan.index[edge.b]
            == cid && !listed(&plan.terminals, edge.b)) {
            r.push(edge);
        }
        i += 1;
    }
    assert(all.take(i as int) =~= all);
    r
}

/// Whether an edge or a homed element of a cluster ends on a root.
fn ends_there(
    plan: &Plan,
    board: &Board,
    edges: &Vec<Edge>,
    elements: &Vec<usize>,
    cid: usize,
    root: usize,
    Ghost(count): Ghost<nat>,
) -> (r: bool)
    requires
        plan.follows(board, count),
        edges@ == cluster_edges(plan.layout(), plan.root_edges@, cid as int),
        elements@ == select(
            board.shape().elements.len(),
            member_element(board.shape(), plan.layout(), cid as int),
        ),
        plan.terminals@.contains(root),
    ensures
        r == cluster_ends_on(board.shape(), plan.layout(), cid as int, root),
{
    let ghost shape = board.shape();
    let ghost layout = plan.layout();
    let ghost keep = member_element(shape, layout, cid as int);
    let ghost held = cluster_edges(layout, layout.root_edges, cid as int);
    let mut i: usize = 0;
    while i < edges.len()
        invariant
            i <= edges@.len(),
            layout == plan.layout(),
            edges@ == held,
            held == cluster_edges(layout, layout.root_edges, cid as int),
            forall|j: int| 0 <= j < i ==> (#[trigger] held[j]).a != root && held[j].b != root,
        decreases edges@.len() - i,
    {
        if edges[i].a == root || edges[i].b == root {
            assert(held[i as int].a == root || held[i as int].b == root);
            assert(cluster_ends_on(shape, layout, cid as int, root));
            return true;
        }
        i += 1;
    }
    proof {
        assert(shape.elements.len() == board.elements.len());
        select_properties(shape.elements.len(), keep);
    }
    let mut k: usize = 0;
    while k < elements.len()
        invariant
            k <= elements@.len(),
            plan.follows(board, count),
            shape == board.shape(),
            layout == plan.layout(),
            keep == member_element(shape, layout, cid as int),
            forall|j: int|
                0 <= j < elements@.len() ==> (#[trigger] elements@[j]) < shape.elements.len()
                    && keep(elements@[j] as int),
            plan.terminals@.contains(root),
            forall|j: int|
                0 <= j < k ==> !ends_on(
                    shape.elements[(#[trigger] elements@[j]) as int],
                    layout.root_of,
                    root,
                ),
        decreases elements@.len() - k,
    {
        let e: usize = elements[k];
        assert(keep(e as int));
        assert(crate::board::home_described(
            plan.homes@[e as int],
            shape.elements[e as int],
            layout.root_of,
            layout.terminals,
        ));
        proof {
            terminal_ends_are(shape.elements[e as int], layout.root_of, layout.terminals);
        }
        if let Some(home) = &plan.homes[e] {
            if listed(&home.terminal_ends, root) {
                assert(layout.holds_element(shape.elements[e as int], cid as int));
                assert(ends_on(shape.elements[e as int], layout.root_of, root));
                return true;
            }
        }
        k += 1;
    }
    assert(!cluster_ends_on(shape, layout, cid as int, root)) by {
        assert forall|e: int|
            0 <= e < shape.elements.len() && layout.holds_element(
                #[trigger] shape.elements[e],
                cid as int,
            ) implies !ends_on(shape.elements[e], layout.root_of, root) by {
            assert(keep(e));
            assert(elements@.contains(e as usize));
            let j = choose|j: int| 0 <= j < elements@.len() && elements@[j] == e as usize;
            assert(elements@[j] == e);
        }
    }
    false
}

/// Whether a control of a cluster's elements reads a terminal root.
fn controlled_there(
    plan: &Plan,
    board: &Board,
    elements: &Vec<usize>,
    cid: usize,
    root: usize,
    Ghost(count): Ghost<nat>,
) -> (r: bool)
    requires
        plan.follows(board, count),
        elements@ == select(
            board.shape().elements.len(),
            member_element(board.shape(), plan.layout(), cid as int),
        ),
        plan.terminals@.contains(root),
    ensures
        r == cluster_controlled_by(board.shape(), plan.layout(), cid as int, root),
{
    let ghost shape = board.shape();
    let ghost layout = plan.layout();
    let ghost keep = member_element(shape, layout, cid as int);
    proof {
        assert(shape.elements.len() == board.elements.len());
        select_properties(shape.elements.len(), keep);
    }
    let mut k: usize = 0;
    while k < elements.len()
        invariant
            k <= elements@.len(),
            plan.follows(board, count),
            shape == board.shape(),
            layout == plan.layout(),
            keep == member_element(shape, layout, cid as int),
            forall|j: int|
                0 <= j < elements@.len() ==> (#[trigger] elements@[j]) < shape.elements.len()
                    && keep(elements@[j] as int),
            plan.terminals@.contains(root),
            forall|j: int|
                0 <= j < k ==> !controlled_by(
                    shape.elements[(#[trigger] elements@[j]) as int],
                    layout.root_of,
                    root,
                ),
        decreases elements@.len() - k,
    {
        let e: usize = elements[k];
        assert(keep(e as int));
        assert(crate::board::home_described(
            plan.homes@[e as int],
            shape.elements[e as int],
            layout.root_of,
            layout.terminals,
        ));
        if let Some(home) = &plan.homes[e] {
            if let Some(rc) = home.terminal_control {
                if rc == root {
                    assert(layout.holds_element(shape.elements[e as int], cid as int));
                    assert(controlled_by(shape.elements[e as int], layout.root_of, root));
                    return true;
                }
            }
        }
        k += 1;
    }
    assert(!cluster_controlled_by(shape, layout, cid as int, root)) by {
        assert forall|e: int|
            0 <= e < shape.elements.len() && layout.holds_element(
                #[trigger] shape.elements[e],
                cid as int,
            ) implies !controlled_by(shape.elements[e], layout.root_of, root) by {
            assert(keep(e));
            assert(elements@.contains(e as usize));
            let j = choose|j: int| 0 <= j < elements@.len() && elements@[j] == e as usize;
            assert(elements@[j] == e);
        }
    }
    false
}

/// The terminal among a cluster's roots.
fn find_terminal(plan: &Plan, board: &Board, roots: &Vec<usize>, cid: usize, Ghost(count): Ghost<nat>) -> (r:
    Option<usize>)
    requires
        plan.follows(board, count),
        roots@ == roots_in(plan.layout(), cid as int),
    ensures
        r == own_terminal(roots@, plan.terminals@),
{
    let ghost layout = plan.layout();
    let mut i: usize = 0;
    while i < roots.len()
        invariant
            i <= roots@.len(),
            plan.follows(board, count),
            layout == plan.layout(),
            roots@ == roots_in(layout, cid as int),
            forall|j: int| 0 <= j < i ==> !plan.terminals@.contains(#[trigger] roots@[j]),
        decreases roots@.len() - i,
    {
        if let Some(p) = position_of(&plan.terminals, roots[i]) {
            proof {
                assert(roots@.contains(plan.terminals@[p as int]));
                let q = choose|q: int|
                    0 <= q < plan.terminals@.len() && roots@.contains(
                        #[trigger] plan.terminals@[q],
                    );
                assert(plan.root_of.len() <= usize::MAX);
                select_properties(layout.root_of.len(), member_root(layout, cid as int));
                assert(member_root(layout, cid as int)(layout.terminals[p as int] as int));
                assert(member_root(layout, cid as int)(layout.terminals[q] as int));
                terminal_cluster_is_its_root(layout, count, p as int, cid as int);
                assert(roots@[0] == layout.terminals[q]);
                assert(layout.terminals[p as int] == layout.terminals[q]);
                assert(p == q);
                assert(plan.terminals.len() <= usize::MAX);
            }
            return Some(p);
        }
        i += 1;
    }
    assert forall|q: int| 0 <= q < plan.terminals@.len() implies !roots@.contains(
        #[trigger] plan.terminals@[q],
    ) by {
        if roots@.contains(plan.terminals@[q]) {
            let j = choose|j: int| 0 <= j < roots@.len() && roots@[j] == plan.terminals@[q];
            assert(plan.terminals@.contains(roots@[j]));
        }
    }
    None
}

/// The path resistances of a cluster.
fn measure_paths(
    edges: &Vec<Edge>,
    terminals: &Vec<usize>,
    roots: &Vec<usize>,
    boundary: &Vec<usize>,
    n: usize,
) -> (rows: Vec<Vec<Ohms>>)
    requires
        edges_valid(edges@, n as nat),
        forall|i: int| 0 <= i < roots@.len() ==> (#[trigger] roots@[i]) < n,
        forall|i: int| 0 <= i < terminals@.len() ==> (#[trigger] terminals@[i]) < n,
        forall|i: int| 0 <= i < boundary@.len() ==> (#[trigger] boundary@[i]) < terminals@.len(),
    ensures
        rows_view(rows@) == Seq::new(
            roots@.len(),
            |i: int| dist_row(edges@, terminals@, roots@, boundary@, roots@[i]),
        ),
{
    let mut rows: Vec<Vec<Ohms>> = Vec::new();
    let mut i: usize = 0;
    while i < roots.len()
        invariant
            i <= roots@.len(),
            edges_valid(edges@, n as nat),
            forall|i: int| 0 <= i < roots@.len() ==> (#[trigger] roots@[i]) < n,
            forall|i: int| 0 <= i < terminals@.len() ==> (#[trigger] terminals@[i]) < n,
            forall|i: int|
                0 <= i < boundary@.len() ==> (#[trigger] boundary@[i]) < terminals@.len(),
            rows@.len() == i,
            forall|j: int|
                0 <= j < i ==> (#[trigger] rows@[j])@ == dist_row(
                    edges@,
                    terminals@,
                    roots@,
                    boundary@,
                    roots@[j],
                ),
        decreases roots@.len() - i,
    {
        let from: usize = roots[i];
        let ghost whole = dist_row(edges@, terminals@, roots@, boundary@, from);
        let dist = min_path_ohms(edges, from, terminals, n);
        let mut row: Vec<Ohms> = Vec::new();
        let mut j: usize = 0;
        while j < roots.len()
            invariant
                j <= roots@.len(),
                forall|i: int| 0 <= i < roots@.len() ==> (#[trigger] roots@[i]) < n,
                dist@.len() == n,
                forall|to: int|
                    0 <= to < n ==> #[trigger] dist@[to] == path_ohms(
                        edges@,
                        terminals@,
                        from,
                        to as usize,
                    ),
                whole == dist_row(edges@, terminals@, roots@, boundary@, from),
                row@ =~= whole.take(j as int),
            decreases roots@.len() - j,
        {
            let to: usize = roots[j];
            assert(dist@[to as int] == path_ohms(edges@, terminals@, from, to));
            row.push(match dist[to] {
                Some(ohms) => ohms,
                None => Quantity::Infinite,
            });
            j += 1;
        }
        let mut k: usize = 0;
        while k < boundary.len()
            invariant
                k <= boundary@.len(),
                forall|i: int| 0 <= i < terminals@.len() ==> (#[trigger] terminals@[i]) < n,
                forall|i: int|
                    0 <= i < boundary@.len() ==> (#[trigger] boundary@[i]) < terminals@.len(),
                dist@.len() == n,
                forall|to: int|
                    0 <= to < n ==> #[trigger] dist@[to] == path_ohms(
                        edges@,
                        terminals@,
                        from,
                        to as usize,
                    ),
                whole == dist_row(edges@, terminals@, roots@, boundary@, from),
                row@ =~= whole.take(roots@.len() + k),
            decreases boundary@.len() - k,
        {
            let to: usize = terminals[boundary[k]];
            assert(dist@[to as int] == path_ohms(edges@, terminals@, from, to));
            row.push(match dist[to] {
                Some(ohms) => ohms,
                None => Quantity::Infinite,
            });
            k += 1;
        }
        assert(row@ =~= whole);
        rows.push(row);
        i += 1;
    }
    assert(rows_view(rows@) =~= Seq::new(
        roots@.len(),
        |i: int| dist_row(edges@, terminals@, roots@, boundary@, roots@[i]),
    ));
    rows
}

/// One cluster's members.
fn build_cluster(plan: &Plan, board: &Board, cid: usize, Ghost(count): Ghost<nat>) -> (c: ClusterTopo)
    requires
        plan.follows(board, count),
    ensures
        c@ == cluster_topo(board.shape(), plan.layout(), cid as int),
{
    let ghost shape = board.shape();
    let ghost layout = plan.layout();
    let n: usize = plan.root_of.len();
    let mut nets: Vec<usize> = Vec::new();
    let mut roots: Vec<usize> = Vec::new();
    let mut i: usize = 0;
    while i < n
        invariant
            i <= n,
            n == plan.root_of@.len(),
            plan.follows(board, count),
            layout == plan.layout(),
            nets@ == select(i as nat, member_net(layout, cid as int)),
            roots@ == select(i as nat, member_root(layout, cid as int)),
        decreases n - i,
    {
        if plan.index[i] == cid {
            nets.push(i);
            if plan.root_of[i] == i {
                roots.push(i);
            }
        }
        i += 1;
    }
    let edges = collect_edges(plan, board, cid, Ghost(count));
    let mut slots: Vec<usize> = Vec::new();
    let mut s: usize = 0;
    while s < board.slots.len()
        invariant
            s <= board.slots@.len(),
            plan.follows(board, count),
            layout == plan.layout(),
            shape == board.shape(),
            slots@ == select(s as nat, sourcing_slot(shape, layout, cid as int)),
        decreases board.slots@.len() - s,
    {
        assert(shape.slot_nets[s as int] < plan.root_of@.len());
        if board.slots[s].terminal.is_none() && plan.index[board.slots[s].net] == cid {
            slots.push(s);
        }
        s += 1;
    }
    let mut elements: Vec<usize> = Vec::new();
    let mut e: usize = 0;
    while e < board.elements.len()
        invariant
            e <= board.elements@.len(),
            plan.follows(board, count),
            layout == plan.layout(),
            shape == board.shape(),
            elements@ == select(e as nat, member_element(shape, layout, cid as int)),
        decreases board.elements@.len() - e,
    {
        assert(crate::board::home_described(
            plan.homes@[e as int],
            shape.elements[e as int],
            layout.root_of,
            layout.terminals,
        ));
        assert(element_valid(shape.elements[e as int], plan.root_of@.len()));
        proof {
            home_is_a_root(shape.elements[e as int], layout.root_of, layout.terminals);
        }
        if let Some(home) = &plan.homes[e] {
            if plan.index[home.root] == cid {
                elements.push(e);
            }
        }
        e += 1;
    }
    let terminal = find_terminal(plan, board, &roots, cid, Ghost(count));
    let mut boundary: Vec<usize> = Vec::new();
    let mut boundary_controls: Vec<usize> = Vec::new();
    let mut p: usize = 0;
    while p < plan.terminals.len()
        invariant
            p <= plan.terminals@.len(),
            plan.follows(board, count),
            layout == plan.layout(),
            shape == board.shape(),
            edges@ == cluster_edges(layout, plan.root_edges@, cid as int),
            elements@ == select(
                shape.elements.len(),
                member_element(shape, layout, cid as int),
            ),
            boundary@ == select(p as nat, boundary_terminal(shape, layout, cid as int)),
            boundary_controls@ == select(p as nat, control_terminal(shape, layout, cid as int)),
        decreases plan.terminals@.len() - p,
    {
        let root: usize = plan.terminals[p];
        assert(plan.terminals@[p as int] == root);
        if ends_there(plan, board, &edges, &elements, cid, root, Ghost(count)) {
            boundary.push(p);
        } else if controlled_there(plan, board, &elements, cid, root, Ghost(count)) {
            boundary_controls.push(p);
        }
        p += 1;
    }
    proof {
        assert(plan.terminals.len() <= usize::MAX);
        select_properties(n as nat, member_root(layout, cid as int));
        select_properties(
            layout.terminals.len(),
            boundary_terminal(shape, layout, cid as int),
        );
    }
    let dist = measure_paths(&edges, &plan.terminals, &roots, &boundary, n);
    let digital_senses = collect_senses(&plan.index, &board.digital_senses, cid);
    let analog_senses = collect_senses(&plan.index, &board.analog_senses, cid);
    let current_instruments = collect_senses(&plan.index, &board.current_instruments, cid);
    let power_senses = collect_senses(&plan.index, &board.power_senses, cid);
    let c = ClusterTopo {
        nets,
        roots,
        edges,
        slots,
        elements,
        terminal,
        boundary,
        boundary_controls,
        digital_senses,
        analog_senses,
        current_instruments,
        power_senses,
        dist,
    };
    assert(c@ =~= cluster_topo(shape, layout, cid as int));
    c
}

/// The sources declared on a root, in canonical order.
fn collect_sources(board: &Board, root_of: &Vec<usize>, root: usize) -> (r: Vec<TerminalId>)
    requires
        board.shape().valid(root_of@.len()),
    ensures
        r@ == sources_of(board.shape(), root_of@, root),
{
    let ghost shape = board.shape();
    let mut r: Vec<TerminalId> = Vec::new();
    let mut i: usize = 0;
    while i < board.power_sources.len()
        invariant
            i <= board.power_sources@.len(),
            shape == board.shape(),
            shape.valid(root_of@.len()),
            ({
                let power = select(i as nat, source_on(root_of@, shape.power_nets, root));
                r@ =~= Seq::new(power.len(), |k: int| TerminalId::Power(power[k]))
            }),
        decreases board.power_sources@.len() - i,
    {
        assert(shape.power_nets[i as int] < root_of@.len());
        if root_of[board.power_sources[i].net] == root {
            r.push(TerminalId::Power(i));
        }
        i += 1;
    }
    let ghost powered = r@;
    let mut k: usize = 0;
    while k < board.stuck_sources.len()
        invariant
            k <= board.stuck_sources@.len(),
            shape == board.shape(),
            shape.valid(root_of@.len()),
            ({
                let stuck = select(k as nat, source_on(root_of@, shape.stuck_nets, root));
                r@ =~= powered + Seq::new(stuck.len(), |j: int| TerminalId::Stuck(stuck[j]))
            }),
        decreases board.stuck_sources@.len() - k,
    {
        assert(shape.stuck_nets[k as int] < root_of@.len());
        if root_of[board.stuck_sources[k].net] == root {
            r.push(TerminalId::Stuck(k));
        }
        k += 1;
    }
    r
}

/// One declared terminal: its sources, its own cluster and its fan-out.
fn build_terminal(
    plan: &Plan,
    board: &Board,
    clusters: &Vec<ClusterTopo>,
    p: usize,
    Ghost(count): Ghost<nat>,
) -> (t: TerminalTopo)
    requires
        plan.follows(board, count),
        p < plan.terminals@.len(),
        clusters@.len() == count,
        forall|cid: int|
            0 <= cid < clusters@.len() ==> (#[trigger] clusters@[cid])@ == cluster_topo(
                board.shape(),
                plan.layout(),
                cid,
            ),
    ensures
        t@ == (TerminalTopoView {
            root: plan.terminals@[p as int],
            cluster: plan.index@[plan.terminals@[p as int] as int],
            sources: sources_of(board.shape(), plan.root_of@, plan.terminals@[p as int]),
            dependents: dependents_of(board.shape(), plan.layout(), count, p as int),
        }),
{
    let ghost shape = board.shape();
    let ghost layout = plan.layout();
    let root: usize = plan.terminals[p];
    assert(layout.terminals[p as int] == root);
    let mut dependents: Vec<usize> = Vec::new();
    let mut cid: usize = 0;
    while cid < clusters.len()
        invariant
            cid <= clusters@.len(),
            p < plan.terminals@.len(),
            shape == board.shape(),
            layout == plan.layout(),
            forall|x: int|
                0 <= x < clusters@.len() ==> (#[trigger] clusters@[x])@ == cluster_topo(
                    shape,
                    layout,
                    x,
                ),
            dependents@ == select(cid as nat, reads_terminal(shape, layout, p as int)),
        decreases clusters@.len() - cid,
    {
        let c = &clusters[cid];
        assert(clusters@[cid as int]@ == cluster_topo(shape, layout, cid as int));
        proof {
            assert(plan.terminals.len() <= usize::MAX);
            select_properties(
                layout.terminals.len(),
                boundary_terminal(shape, layout, cid as int),
            );
            select_properties(
                layout.terminals.len(),
                control_terminal(shape, layout, cid as int),
            );
            assert(c.boundary@.contains(p) <==> boundary_terminal(shape, layout, cid as int)(
                p as int,
            ));
            assert(c.boundary_controls@.contains(p) <==> control_terminal(
                shape,
                layout,
                cid as int,
            )(p as int));
        }
        if listed(&c.boundary, p) || listed(&c.boundary_controls, p) {
            dependents.push(cid);
        }
        cid += 1;
    }
    let sources = collect_sources(board, &plan.root_of, root);
    TerminalTopo { root, cluster: plan.index[root], sources, dependents }
}

/// Derive every drive-independent structure of the board over the identity
/// roots `root_of`.
pub fn build_topology(board: &Board, root_of: Vec<usize>) -> (topology: Topology)
    requires
        board.shape().valid(root_of@.len()),
        is_root_map(root_of@),
    ensures
        topology@ == topology_of(board.shape(), root_of@),
{
    let ghost shape = board.shape();
    let ghost roots = root_of@;
    let n: usize = root_of.len();
    let terminals = terminal_roots(board, &root_of);
    let homes = element_homes(board, &root_of, &terminals);
    let clusters_roots = conduct(board, &root_of, &terminals, &homes);
    proof {
        clusters_join(shape, roots);
        layout_is_sound(shape, roots);
    }
    let (index, count) = number_clusters(&clusters_roots);
    assert(clusters_roots@.len() == n);
    let root_edges = collapse_edges(&board.edges, &root_of);
    assert forall|i: int| 0 <= i < board.couplings@.len() implies (
    #[trigger] board.couplings@[i]).a < n && board.couplings@[i].b < n by {
        assert(shape.couplings[i].0 < n);
    }
    let root_couplings = collapse_couplings(&board.couplings, &root_of);
    let smallest = smallest_edges(&root_edges, n);
    let plan = Plan { root_of, terminals, index, root_edges, homes };
    let ghost layout = layout_of(shape, roots);
    assert(plan.layout() =~= layout);
    let mut clusters: Vec<ClusterTopo> = Vec::new();
    let mut cid: usize = 0;
    while cid < count
        invariant
            cid <= count,
            shape == board.shape(),
            plan.follows(board, count as nat),
            plan.layout() == layout,
            clusters@.len() == cid,
            forall|x: int|
                0 <= x < cid ==> (#[trigger] clusters@[x])@ == cluster_topo(shape, layout, x),
        decreases count - cid,
    {
        let c = build_cluster(&plan, board, cid, Ghost(count as nat));
        clusters.push(c);
        cid += 1;
    }
    let mut terminal_topos: Vec<TerminalTopo> = Vec::new();
    let mut p: usize = 0;
    let ghost expected = topology_of(shape, roots);
    while p < plan.terminals.len()
        invariant
            p <= plan.terminals@.len(),
            shape == board.shape(),
            plan.follows(board, count as nat),
            plan.layout() == layout,
            layout == layout_of(shape, roots),
            expected == topology_of(shape, roots),
            count == cluster_count(shape, roots),
            clusters@.len() == count,
            forall|x: int|
                0 <= x < count ==> (#[trigger] clusters@[x])@ == cluster_topo(shape, layout, x),
            terminal_topos@.len() == p,
            forall|x: int|
                0 <= x < p ==> (#[trigger] terminal_topos@[x])@ == expected.terminals[x],
        decreases plan.terminals@.len() - p,
    {
        let t = build_terminal(&plan, board, &clusters, p, Ghost(count as nat));
        assert(t@ == expected.terminals[p as int]);
        terminal_topos.push(t);
        p += 1;
    }
    let topology = Topology {
        root_of: plan.root_of,
        cluster_index: plan.index,
        clusters,
        terminals: terminal_topos,
        terminal_roots: plan.terminals,
        root_edges: plan.root_edges,
        root_couplings,
        smallest_edges: smallest,
    };
    assert(topology@.clusters =~= expected.clusters);
    assert(topology@.terminals =~= expected.terminals);
    assert(topology@.smallest_edges =~= expected.smallest_edges);
    assert(topology@ =~= expected);
    topology
}

} // verus!
