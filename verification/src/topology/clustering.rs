//! Which nets share a cluster: those that a conductor, an edge or an element
//! joins away from the terminals, and no others.
use vstd::prelude::*;

use crate::board::{controlled_by, ends_on, home_root, ElementNets, Shape};
use crate::dsu::{is_root_map, merged};
use crate::paths::Edge;
use crate::seqs::select_properties;
use crate::topology::{
    boundary_terminal, cluster_edges, cluster_of, cluster_topo, clusters_join, control_terminal,
    dense_index_names, dependents_of, edge_joined, element_joined, layout_of, member_element,
    member_net, member_root, nets_joined, reads_terminal, terminal_list,
};

verus! {

/// An element lives at the first of its nets, end, end and control, that no
/// terminal holds; where a terminal holds each, nowhere.
pub proof fn an_element_lives_off_the_terminals(
    element: ElementNets,
    root_of: Seq<usize>,
    terminals: Seq<usize>,
    k: int,
)
    requires
        0 <= k < element.list().len(),
        !terminals.contains(root_of[element.list()[k] as int]),
        forall|j: int|
            0 <= j < k ==> terminals.contains(root_of[#[trigger] element.list()[j] as int]),
    ensures
        home_root(element, root_of, terminals) == Some(root_of[element.list()[k] as int]),
        element.list()[0] == element.a,
        element.list()[1] == element.b,
        element.control is Some ==> element.list().len() == 3 && element.list()[2]
            == element.control->0,
        element.control is None ==> element.list().len() == 2,
{
    if k > 0 {
        assert(terminals.contains(root_of[element.list()[0] as int]));
    }
    if k > 1 {
        assert(terminals.contains(root_of[element.list()[1] as int]));
    }
}

/// An element whose every net a terminal holds lives nowhere.
pub proof fn an_element_of_terminals_lives_nowhere(
    element: ElementNets,
    root_of: Seq<usize>,
    terminals: Seq<usize>,
)
    ensures
        home_root(element, root_of, terminals) is None <==> terminals.contains(
            root_of[element.a as int],
        ) && terminals.contains(root_of[element.b as int]) && (element.control is Some
            ==> terminals.contains(root_of[element.control->0 as int])),
{
}

/// Whether the nets that are labelled apart are apart in `c` too.
pub open spec fn finer(c: Seq<usize>, label: spec_fn(int) -> int) -> bool {
    forall|x: int, y: int|
        #![trigger c[x], c[y]]
        0 <= x < c.len() && 0 <= y < c.len() && c[x] == c[y] ==> label(x) == label(y)
}

proof fn merging_alike_stays_finer(c: Seq<usize>, a: int, b: int, label: spec_fn(int) -> int)
    requires
        finer(c, label),
        0 <= a < c.len(),
        0 <= b < c.len(),
        label(a) == label(b),
    ensures
        finer(merged(c, a, b), label),
{
    let d = merged(c, a, b);
    assert forall|x: int, y: int|
        #![trigger d[x], d[y]]
        0 <= x < d.len() && 0 <= y < d.len() && d[x] == d[y] implies label(x) == label(y) by {
        let (cx, cy, ca, cb) = (c[x], c[y], c[a], c[b]);
    }
}

proof fn edges_stay_finer(
    edges: Seq<Edge>,
    root_of: Seq<usize>,
    terminals: Seq<usize>,
    k: nat,
    label: spec_fn(int) -> int,
)
    requires
        k <= edges.len(),
        is_root_map(root_of),
        finer(root_of, label),
        forall|e: int|
            0 <= e < edges.len() ==> (#[trigger] edges[e]).a < root_of.len() && edges[e].b
                < root_of.len(),
        forall|e: int|
            0 <= e < edges.len() && !terminals.contains(
                root_of[(#[trigger] edges[e]).a as int],
            ) && !terminals.contains(root_of[edges[e].b as int]) ==> label(edges[e].a as int)
                == label(edges[e].b as int),
    ensures
        edge_joined(edges, root_of, terminals, k).len() == root_of.len(),
        finer(edge_joined(edges, root_of, terminals, k), label),
    decreases k,
{
    if k > 0 {
        edges_stay_finer(edges, root_of, terminals, (k - 1) as nat, label);
        let before = edge_joined(edges, root_of, terminals, (k - 1) as nat);
        let edge = edges[k - 1];
        let ra = root_of[edge.a as int];
        let rb = root_of[edge.b as int];
        if !terminals.contains(ra) && !terminals.contains(rb) {
            assert(root_of[ra as int] == ra && root_of[rb as int] == rb);
            assert(label(ra as int) == label(edge.a as int));
            assert(label(rb as int) == label(edge.b as int));
            merging_alike_stays_finer(before, ra as int, rb as int, label);
        }
    }
}

proof fn nets_stay_finer(
    before: Seq<usize>,
    nets: Seq<usize>,
    home: usize,
    root_of: Seq<usize>,
    terminals: Seq<usize>,
    j: nat,
    label: spec_fn(int) -> int,
)
    requires
        j <= nets.len(),
        before.len() == root_of.len(),
        home < root_of.len(),
        finer(before, label),
        forall|i: int|
            0 <= i < nets.len() ==> root_of[#[trigger] nets[i] as int] < root_of.len() && (
            !terminals.contains(root_of[nets[i] as int]) ==> label(root_of[nets[i] as int] as int)
                == label(home as int)),
    ensures
        nets_joined(before, nets, home, root_of, terminals, j).len() == root_of.len(),
        finer(nets_joined(before, nets, home, root_of, terminals, j), label),
    decreases j,
{
    if j > 0 {
        nets_stay_finer(before, nets, home, root_of, terminals, (j - 1) as nat, label);
        let c = nets_joined(before, nets, home, root_of, terminals, (j - 1) as nat);
        let r = root_of[nets[j - 1] as int];
        if !terminals.contains(r) {
            merging_alike_stays_finer(c, home as int, r as int, label);
        }
    }
}

/// Whether an element's nets off the terminals carry one label.
pub open spec fn labelled_alike(
    element: ElementNets,
    root_of: Seq<usize>,
    terminals: Seq<usize>,
    label: spec_fn(int) -> int,
) -> bool {
    forall|i: int, j: int|
        #![trigger element.list()[i], element.list()[j]]
        0 <= i < element.list().len() && 0 <= j < element.list().len() && !terminals.contains(
            root_of[element.list()[i] as int],
        ) && !terminals.contains(root_of[element.list()[j] as int]) ==> label(
            element.list()[i] as int,
        ) == label(element.list()[j] as int)
}

proof fn elements_stay_finer(
    before: Seq<usize>,
    elements: Seq<ElementNets>,
    root_of: Seq<usize>,
    terminals: Seq<usize>,
    k: nat,
    label: spec_fn(int) -> int,
)
    requires
        k <= elements.len(),
        before.len() == root_of.len(),
        is_root_map(root_of),
        finer(root_of, label),
        finer(before, label),
        forall|e: int|
            0 <= e < elements.len() ==> (#[trigger] elements[e]).a < root_of.len()
                && elements[e].b < root_of.len() && (elements[e].control matches Some(c) ==> c
                < root_of.len()),
        forall|e: int|
            0 <= e < elements.len() ==> labelled_alike(
                #[trigger] elements[e],
                root_of,
                terminals,
                label,
            ),
    ensures
        element_joined(before, elements, root_of, terminals, k).len() == root_of.len(),
        finer(element_joined(before, elements, root_of, terminals, k), label),
    decreases k,
{
    if k > 0 {
        elements_stay_finer(before, elements, root_of, terminals, (k - 1) as nat, label);
        let c = element_joined(before, elements, root_of, terminals, (k - 1) as nat);
        let element = elements[k - 1];
        let nets = element.list();
        if let Some(home) = home_root(element, root_of, terminals) {
            let h: int = if !terminals.contains(root_of[element.a as int]) {
                0
            } else if !terminals.contains(root_of[element.b as int]) {
                1
            } else {
                2
            };
            assert(nets[h] < root_of.len() && root_of[nets[h] as int] == home);
            assert(root_of[home as int] == home);
            assert(label(home as int) == label(nets[h] as int));
            assert forall|i: int| 0 <= i < nets.len() implies root_of[#[trigger] nets[i] as int]
                < root_of.len() && (!terminals.contains(root_of[nets[i] as int]) ==> label(
                root_of[nets[i] as int] as int,
            ) == label(home as int)) by {
                let net = nets[i];
                assert(net < root_of.len());
                let r = root_of[net as int];
                assert(root_of[r as int] == r);
                assert(label(r as int) == label(net as int));
                if !terminals.contains(r) {
                    assert(element.list()[i] == net && element.list()[h] == nets[h]);
                }
            }
            nets_stay_finer(c, nets, home, root_of, terminals, nets.len(), label);
        }
    }
}

/// A cluster is no larger than what joins it: however the nets are labelled, so
/// long as one conductor's nets are labelled alike, and an edge's ends and an
/// element's nets are wherever no terminal holds them, one cluster's nets are
/// labelled alike.
pub proof fn a_cluster_is_no_larger_than_what_joins_it(
    shape: Shape,
    root_of: Seq<usize>,
    label: spec_fn(int) -> int,
    x: int,
    y: int,
)
    requires
        shape.valid(root_of.len()),
        is_root_map(root_of),
        root_of.len() <= usize::MAX,
        finer(root_of, label),
        forall|e: int|
            0 <= e < shape.edges.len() && !terminal_list(shape, root_of).contains(
                root_of[(#[trigger] shape.edges[e]).a as int],
            ) && !terminal_list(shape, root_of).contains(root_of[shape.edges[e].b as int])
                ==> label(shape.edges[e].a as int) == label(shape.edges[e].b as int),
        forall|e: int|
            0 <= e < shape.elements.len() ==> labelled_alike(
                #[trigger] shape.elements[e],
                root_of,
                terminal_list(shape, root_of),
                label,
            ),
        0 <= x < root_of.len(),
        0 <= y < root_of.len(),
        layout_of(shape, root_of).index[x] == layout_of(shape, root_of).index[y],
    ensures
        label(x) == label(y),
{
    let terminals = terminal_list(shape, root_of);
    edges_stay_finer(shape.edges, root_of, terminals, shape.edges.len(), label);
    elements_stay_finer(
        edge_joined(shape.edges, root_of, terminals, shape.edges.len()),
        shape.elements,
        root_of,
        terminals,
        shape.elements.len(),
        label,
    );
    clusters_join(shape, root_of);
    let c = cluster_of(shape, root_of);
    dense_index_names(c, x, y);
    assert(c[x] == c[y]);
}

proof fn nets_connect(
    before: Seq<usize>,
    nets: Seq<usize>,
    home: usize,
    root_of: Seq<usize>,
    terminals: Seq<usize>,
    j: nat,
    i: int,
)
    requires
        j <= nets.len(),
        0 <= i < j,
        before.len() == root_of.len(),
        home < root_of.len(),
        root_of[nets[i] as int] < root_of.len(),
        !terminals.contains(root_of[nets[i] as int]),
    ensures
        nets_joined(before, nets, home, root_of, terminals, j).len() == root_of.len(),
        nets_joined(before, nets, home, root_of, terminals, j)[root_of[nets[i] as int] as int]
            == nets_joined(before, nets, home, root_of, terminals, j)[home as int],
    decreases j,
{
    nets_joined_len(before, nets, home, root_of, terminals, (j - 1) as nat);
    if i < j - 1 {
        nets_connect(before, nets, home, root_of, terminals, (j - 1) as nat, i);
    }
}

proof fn nets_joined_len(
    before: Seq<usize>,
    nets: Seq<usize>,
    home: usize,
    root_of: Seq<usize>,
    terminals: Seq<usize>,
    j: nat,
)
    ensures
        nets_joined(before, nets, home, root_of, terminals, j).len() == before.len(),
    decreases j,
{
    if j > 0 {
        nets_joined_len(before, nets, home, root_of, terminals, (j - 1) as nat);
    }
}

proof fn nets_keep_together(
    before: Seq<usize>,
    nets: Seq<usize>,
    home: usize,
    root_of: Seq<usize>,
    terminals: Seq<usize>,
    j: nat,
    x: int,
    y: int,
)
    requires
        0 <= x < before.len(),
        0 <= y < before.len(),
        before[x] == before[y],
    ensures
        ({
            let c = nets_joined(before, nets, home, root_of, terminals, j);
            c.len() == before.len() && c[x] == c[y]
        }),
    decreases j,
{
    if j > 0 {
        nets_keep_together(before, nets, home, root_of, terminals, (j - 1) as nat, x, y);
    }
}

proof fn elements_connect(
    before: Seq<usize>,
    elements: Seq<ElementNets>,
    root_of: Seq<usize>,
    terminals: Seq<usize>,
    k: nat,
    e: int,
    i: int,
    j: int,
)
    requires
        0 <= e < k <= elements.len(),
        before.len() == root_of.len(),
        is_root_map(root_of),
        0 <= i < elements[e].list().len(),
        0 <= j < elements[e].list().len(),
        elements[e].a < root_of.len(),
        elements[e].b < root_of.len(),
        elements[e].control matches Some(c) ==> c < root_of.len(),
        !terminals.contains(root_of[elements[e].list()[i] as int]),
        !terminals.contains(root_of[elements[e].list()[j] as int]),
    ensures
        ({
            let c = element_joined(before, elements, root_of, terminals, k);
            &&& c.len() == root_of.len()
            &&& c[root_of[elements[e].list()[i] as int] as int]
                == c[root_of[elements[e].list()[j] as int] as int]
        }),
    decreases k,
{
    let nets = elements[e].list();
    assert(nets[i] < root_of.len() && nets[j] < root_of.len());
    let ri = root_of[nets[i] as int];
    let rj = root_of[nets[j] as int];
    assert(ri < root_of.len() && rj < root_of.len());
    let c = element_joined(before, elements, root_of, terminals, (k - 1) as nat);
    elements_joined_len(before, elements, root_of, terminals, (k - 1) as nat);
    if e == k - 1 {
        let home = home_root(elements[e], root_of, terminals)->0;
        assert(home < root_of.len());
        nets_connect(c, nets, home, root_of, terminals, nets.len(), i);
        nets_connect(c, nets, home, root_of, terminals, nets.len(), j);
    } else {
        elements_connect(before, elements, root_of, terminals, (k - 1) as nat, e, i, j);
        let last = elements[k - 1].list();
        if let Some(home) = home_root(elements[k - 1], root_of, terminals) {
            nets_keep_together(
                c,
                last,
                home,
                root_of,
                terminals,
                last.len(),
                ri as int,
                rj as int,
            );
        }
    }
}

proof fn elements_joined_len(
    before: Seq<usize>,
    elements: Seq<ElementNets>,
    root_of: Seq<usize>,
    terminals: Seq<usize>,
    k: nat,
)
    ensures
        element_joined(before, elements, root_of, terminals, k).len() == before.len(),
    decreases k,
{
    if k > 0 {
        elements_joined_len(before, elements, root_of, terminals, (k - 1) as nat);
        let c = element_joined(before, elements, root_of, terminals, (k - 1) as nat);
        let nets = elements[k - 1].list();
        if let Some(home) = home_root(elements[k - 1], root_of, terminals) {
            nets_joined_len(c, nets, home, root_of, terminals, nets.len());
        }
    }
}

proof fn edges_joined_len(
    edges: Seq<Edge>,
    root_of: Seq<usize>,
    terminals: Seq<usize>,
    k: nat,
)
    ensures
        edge_joined(edges, root_of, terminals, k).len() == root_of.len(),
    decreases k,
{
    if k > 0 {
        edges_joined_len(edges, root_of, terminals, (k - 1) as nat);
    }
}

/// An element's nets off the terminals are in one cluster.
pub proof fn an_elements_nets_share_a_cluster(
    shape: Shape,
    root_of: Seq<usize>,
    e: int,
    i: int,
    j: int,
)
    requires
        shape.valid(root_of.len()),
        is_root_map(root_of),
        root_of.len() <= usize::MAX,
        0 <= e < shape.elements.len(),
        0 <= i < shape.elements[e].list().len(),
        0 <= j < shape.elements[e].list().len(),
        !terminal_list(shape, root_of).contains(root_of[shape.elements[e].list()[i] as int]),
        !terminal_list(shape, root_of).contains(root_of[shape.elements[e].list()[j] as int]),
    ensures
        layout_of(shape, root_of).index[shape.elements[e].list()[i] as int] == layout_of(
            shape,
            root_of,
        ).index[shape.elements[e].list()[j] as int],
{
    let terminals = terminal_list(shape, root_of);
    let joined = edge_joined(shape.edges, root_of, terminals, shape.edges.len());
    edges_joined_len(shape.edges, root_of, terminals, shape.edges.len());
    elements_connect(joined, shape.elements, root_of, terminals, shape.elements.len(), e, i, j);
    clusters_join(shape, root_of);
    let c = cluster_of(shape, root_of);
    let x = shape.elements[e].list()[i] as int;
    let y = shape.elements[e].list()[j] as int;
    assert(0 <= x < root_of.len() && 0 <= y < root_of.len());
    assert(c[root_of[x] as int] == c[x] && c[root_of[y] as int] == c[y]);
    dense_index_names(c, x, y);
}

/// A cluster's members are the nets in it, its roots those among them that are
/// their own, and its elements those that live at one.
pub proof fn a_clusters_members_are_in_it(
    shape: Shape,
    root_of: Seq<usize>,
    cid: int,
    i: usize,
)
    requires
        root_of.len() <= usize::MAX,
        shape.elements.len() <= usize::MAX,
    ensures
        ({
            let layout = layout_of(shape, root_of);
            let c = cluster_topo(shape, layout, cid);
            &&& i < root_of.len() ==> (c.nets.contains(i) <==> layout.index[i as int] == cid)
            &&& i < root_of.len() ==> (c.roots.contains(i) <==> layout.index[i as int] == cid
                && root_of[i as int] == i)
            &&& i < shape.elements.len() ==> (c.elements.contains(i) <==> {
                let home = home_root(shape.elements[i as int], root_of, layout.terminals);
                home is Some && layout.index[home->0 as int] == cid
            })
        }),
{
    let layout = layout_of(shape, root_of);
    let c = cluster_topo(shape, layout, cid);
    let net = member_net(layout, cid);
    let root = member_root(layout, cid);
    let element = member_element(shape, layout, cid);
    select_properties(root_of.len(), net);
    select_properties(root_of.len(), root);
    select_properties(shape.elements.len(), element);
    assert(c.nets.contains(i) <==> i < root_of.len() && net(i as int));
    assert(c.roots.contains(i) <==> i < root_of.len() && root(i as int));
    assert(c.elements.contains(i) <==> i < shape.elements.len() && element(i as int));
}

/// A terminal bounds a cluster exactly if an edge or an element there ends on
/// it; it is read by control alone exactly if an element there is controlled by
/// it and nothing ends on it; and a cluster waits for the terminals it reads
/// either way.
pub proof fn a_cluster_reads_what_bounds_and_controls_it(
    shape: Shape,
    root_of: Seq<usize>,
    cid: usize,
    p: usize,
    clusters: nat,
)
    requires
        p < terminal_list(shape, root_of).len() <= usize::MAX,
        cid < clusters <= usize::MAX,
    ensures
        ({
            let layout = layout_of(shape, root_of);
            let c = cluster_topo(shape, layout, cid as int);
            let root = layout.terminals[p as int];
            let ends = (exists|e: int|
                0 <= e < c.edges.len() && ((#[trigger] c.edges[e]).a == root || c.edges[e].b
                    == root)) || (exists|e: int|
                0 <= e < shape.elements.len() && layout.holds_element(
                    #[trigger] shape.elements[e],
                    cid as int,
                ) && (root_of[shape.elements[e].a as int] == root
                    || root_of[shape.elements[e].b as int] == root));
            let controls = exists|e: int|
                0 <= e < shape.elements.len() && layout.holds_element(
                    #[trigger] shape.elements[e],
                    cid as int,
                ) && shape.elements[e].control is Some
                    && root_of[shape.elements[e].control->0 as int] == root;
            &&& c.boundary.contains(p) <==> ends
            &&& c.boundary_controls.contains(p) <==> !ends && controls
            &&& dependents_of(shape, layout, clusters, p as int).contains(cid) <==> ends
                || controls
        }),
{
    let layout = layout_of(shape, root_of);
    let c = cluster_topo(shape, layout, cid as int);
    let root = layout.terminals[p as int];
    let bounds = boundary_terminal(shape, layout, cid as int);
    let controls = control_terminal(shape, layout, cid as int);
    let reads = reads_terminal(shape, layout, p as int);
    select_properties(layout.terminals.len(), bounds);
    select_properties(layout.terminals.len(), controls);
    select_properties(clusters, reads);
    assert(c.boundary.contains(p) <==> bounds(p as int));
    assert(c.boundary_controls.contains(p) <==> controls(p as int));
    assert(dependents_of(shape, layout, clusters, p as int).contains(cid) <==> reads(cid as int));
    assert(c.edges == cluster_edges(layout, layout.root_edges, cid as int));
    assert forall|e: int| 0 <= e < shape.elements.len() implies ends_on(
        #[trigger] shape.elements[e],
        layout.root_of,
        root,
    ) == (root_of[shape.elements[e].a as int] == root || root_of[shape.elements[e].b as int]
        == root) by {}
    assert forall|e: int| 0 <= e < shape.elements.len() implies controlled_by(
        #[trigger] shape.elements[e],
        layout.root_of,
        root,
    ) == (shape.elements[e].control is Some && root_of[shape.elements[e].control->0 as int]
        == root) by {}
}

} // verus!
