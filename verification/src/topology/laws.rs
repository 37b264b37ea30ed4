//! What a board's structure leaves out, and what it does not.
use vstd::prelude::*;

use crate::board::{home_root, ElementNets, Shape};
use crate::dsu::is_root_map;
use crate::paths::{
    edges_valid, leads_over, least_cost, least_cost_is_path_ohms, passable, path_cost, path_ohms,
    walks, Edge,
};
use crate::quantity::Ohms;
use crate::seqs::{select_grows, select_properties};
use crate::topology::{
    boundary_of, boundary_terminal, cluster_edges, cluster_ends_on, cluster_of, cluster_topo,
    clusters_join, dense_index_names, edge_joined, element_joined, layout_is_sound, layout_of,
    member_root, nets_joined, or_infinite, root_edges_of, sourcing_slot, terminal_list,
    terminal_root, Layout,
};

verus! {

/// Joining an element's nets parts nothing that was together.
proof fn nets_keep(
    before: Seq<usize>,
    nets: Seq<usize>,
    home: usize,
    root_of: Seq<usize>,
    terminals: Seq<usize>,
    j: nat,
    x: int,
    y: int,
)
    requires
        before[x] == before[y],
        0 <= x < before.len(),
        0 <= y < before.len(),
    ensures
        nets_joined(before, nets, home, root_of, terminals, j)[x] == nets_joined(
            before,
            nets,
            home,
            root_of,
            terminals,
            j,
        )[y],
        nets_joined(before, nets, home, root_of, terminals, j).len() == before.len(),
    decreases j,
{
    if j > 0 {
        nets_keep(before, nets, home, root_of, terminals, (j - 1) as nat, x, y);
    }
}

/// Joining elements parts nothing that was together.
proof fn elements_keep(
    before: Seq<usize>,
    elements: Seq<ElementNets>,
    root_of: Seq<usize>,
    terminals: Seq<usize>,
    k: nat,
    x: int,
    y: int,
)
    requires
        before[x] == before[y],
        0 <= x < before.len(),
        0 <= y < before.len(),
    ensures
        element_joined(before, elements, root_of, terminals, k)[x] == element_joined(
            before,
            elements,
            root_of,
            terminals,
            k,
        )[y],
        element_joined(before, elements, root_of, terminals, k).len() == before.len(),
    decreases k,
{
    if k > 0 {
        elements_keep(before, elements, root_of, terminals, (k - 1) as nat, x, y);
        let c = element_joined(before, elements, root_of, terminals, (k - 1) as nat);
        let nets = elements[k - 1].list();
        if let Some(home) = home_root(elements[k - 1], root_of, terminals) {
            nets_keep(c, nets, home, root_of, terminals, nets.len(), x, y);
        }
    }
}

/// Once an edge between roots that are no terminals was joined, its ends are
/// together.
proof fn edge_connects(
    edges: Seq<Edge>,
    root_of: Seq<usize>,
    terminals: Seq<usize>,
    k: nat,
    j: int,
)
    requires
        edges_valid(edges, root_of.len()),
        is_root_map(root_of),
        0 <= j < k <= edges.len(),
        !terminals.contains(root_of[edges[j].a as int]),
        !terminals.contains(root_of[edges[j].b as int]),
    ensures
        edge_joined(edges, root_of, terminals, k).len() == root_of.len(),
        edge_joined(edges, root_of, terminals, k)[root_of[edges[j].a as int] as int]
            == edge_joined(edges, root_of, terminals, k)[root_of[edges[j].b as int] as int],
    decreases k,
{
    joined_len(edges, root_of, terminals, (k - 1) as nat);
    let before = edge_joined(edges, root_of, terminals, (k - 1) as nat);
    assert(root_of[edges[j].a as int] < root_of.len());
    assert(root_of[edges[j].b as int] < root_of.len());
    if j < k - 1 {
        edge_connects(edges, root_of, terminals, (k - 1) as nat, j);
    }
}

proof fn joined_len(edges: Seq<Edge>, root_of: Seq<usize>, terminals: Seq<usize>, k: nat)
    ensures
        edge_joined(edges, root_of, terminals, k).len() == root_of.len(),
    decreases k,
{
    if k > 0 {
        joined_len(edges, root_of, terminals, (k - 1) as nat);
    }
}

/// An edge between roots was declared between nets of theirs.
proof fn root_edge_is_declared(edges: Seq<Edge>, root_of: Seq<usize>, e: int) -> (j: int)
    requires
        0 <= e < root_edges_of(edges, root_of).len(),
    ensures
        0 <= j < edges.len(),
        root_edges_of(edges, root_of)[e].a == root_of[edges[j].a as int],
        root_edges_of(edges, root_of)[e].b == root_of[edges[j].b as int],
    decreases edges.len(),
{
    let rest = edges.drop_last();
    if e < root_edges_of(rest, root_of).len() {
        let j = root_edge_is_declared(rest, root_of, e);
        assert(rest[j] == edges[j]);
        j
    } else {
        edges.len() - 1
    }
}

/// The ends of an edge that are no terminals are in one cluster.
proof fn edge_ends_share_a_cluster(shape: Shape, root_of: Seq<usize>, e: int)
    requires
        shape.valid(root_of.len()),
        is_root_map(root_of),
        root_of.len() <= usize::MAX,
        0 <= e < layout_of(shape, root_of).root_edges.len(),
        !terminal_list(shape, root_of).contains(layout_of(shape, root_of).root_edges[e].a),
        !terminal_list(shape, root_of).contains(layout_of(shape, root_of).root_edges[e].b),
    ensures
        layout_of(shape, root_of).index[layout_of(shape, root_of).root_edges[e].a as int]
            == layout_of(shape, root_of).index[layout_of(shape, root_of).root_edges[e].b as int],
{
    let layout = layout_of(shape, root_of);
    let terminals = layout.terminals;
    let edge = layout.root_edges[e];
    let j = root_edge_is_declared(shape.edges, root_of, e);
    edge_connects(shape.edges, root_of, terminals, shape.edges.len(), j);
    let joined = edge_joined(shape.edges, root_of, terminals, shape.edges.len());
    assert(edge.a < root_of.len() && edge.b < root_of.len());
    elements_keep(
        joined,
        shape.elements,
        root_of,
        terminals,
        shape.elements.len(),
        edge.a as int,
        edge.b as int,
    );
    clusters_join(shape, root_of);
    dense_index_names(cluster_of(shape, root_of), edge.a as int, edge.b as int);
}

/// A cluster lists every edge it holds.
proof fn cluster_lists_edge(layout: Layout, edges: Seq<Edge>, cid: int, e: int) -> (at: int)
    requires
        0 <= e < edges.len(),
        layout.holds_edge(edges[e], cid),
    ensures
        0 <= at < cluster_edges(layout, edges, cid).len(),
        cluster_edges(layout, edges, cid)[at] == edges[e],
    decreases edges.len(),
{
    let rest = edges.drop_last();
    if e < rest.len() {
        assert(rest[e] == edges[e]);
        cluster_lists_edge(layout, rest, cid, e)
    } else {
        cluster_edges(layout, rest, cid).len() as int
    }
}

/// A cluster lists declared edges only.
proof fn cluster_edge_is_listed(layout: Layout, edges: Seq<Edge>, cid: int, at: int) -> (e: int)
    requires
        0 <= at < cluster_edges(layout, edges, cid).len(),
    ensures
        0 <= e < edges.len(),
        edges[e] == cluster_edges(layout, edges, cid)[at],
    decreases edges.len(),
{
    let rest = edges.drop_last();
    if at < cluster_edges(layout, rest, cid).len() {
        let e = cluster_edge_is_listed(layout, rest, cid, at);
        assert(rest[e] == edges[e]);
        e
    } else {
        edges.len() - 1
    }
}

/// A walk over the board from a root that is no terminal runs over the edges
/// of that root's cluster, and ends in it or on a terminal at its boundary.
proof fn walk_stays(
    shape: Shape,
    root_of: Seq<usize>,
    from: usize,
    to: usize,
    cost: Ohms,
    steps: nat,
)
    requires
        shape.valid(root_of.len()),
        is_root_map(root_of),
        root_of.len() <= usize::MAX,
        from < root_of.len(),
        !terminal_list(shape, root_of).contains(from),
        walks(
            layout_of(shape, root_of).root_edges,
            terminal_list(shape, root_of),
            from,
            to,
            cost,
            steps,
        ),
    ensures
        to < root_of.len(),
        cost.non_negative(),
        walks(
            cluster_edges(
                layout_of(shape, root_of),
                layout_of(shape, root_of).root_edges,
                layout_of(shape, root_of).index[from as int] as int,
            ),
            terminal_list(shape, root_of),
            from,
            to,
            cost,
            steps,
        ),
        !terminal_list(shape, root_of).contains(to) ==> layout_of(shape, root_of).index[to as int]
            == layout_of(shape, root_of).index[from as int],
        terminal_list(shape, root_of).contains(to) ==> cluster_ends_on(
            shape,
            layout_of(shape, root_of),
            layout_of(shape, root_of).index[from as int] as int,
            to,
        ),
    decreases steps,
{
    let layout = layout_of(shape, root_of);
    let terminals = terminal_list(shape, root_of);
    let edges = layout.root_edges;
    let cid = layout.index[from as int] as int;
    let own = cluster_edges(layout, edges, cid);
    if steps > 0 {
        let (e, x, c) = choose|e: int, x: usize, c: Ohms|
            #![trigger leads_over(edges[e], x, to), c.plus(edges[e].ohms)]
            0 <= e < edges.len() && leads_over(edges[e], x, to) && passable(terminals, from, x)
                && walks(edges, terminals, from, x, c, (steps - 1) as nat) && cost == c.plus(
                edges[e].ohms,
            );
        walk_stays(shape, root_of, from, x, c, (steps - 1) as nat);
        layout_is_sound(shape, root_of);
        assert(edges[e].ohms.non_negative());
        assert(!terminals.contains(x));
        assert(layout.holds_edge(edges[e], cid));
        let at = cluster_lists_edge(layout, edges, cid, e);
        assert(leads_over(own[at], x, to));
        assert(cost == c.plus(own[at].ohms));
        if !terminals.contains(to) {
            edge_ends_share_a_cluster(shape, root_of, e);
        }
    }
}

/// A walk over some of the edges is one over all.
proof fn walk_widens(
    layout: Layout,
    cid: int,
    barriers: Seq<usize>,
    from: usize,
    to: usize,
    cost: Ohms,
    steps: nat,
)
    requires
        walks(
            cluster_edges(layout, layout.root_edges, cid),
            barriers,
            from,
            to,
            cost,
            steps,
        ),
    ensures
        walks(layout.root_edges, barriers, from, to, cost, steps),
    decreases steps,
{
    if steps > 0 {
        let own = cluster_edges(layout, layout.root_edges, cid);
        let (at, x, c) = choose|at: int, x: usize, c: Ohms|
            #![trigger leads_over(own[at], x, to), c.plus(own[at].ohms)]
            0 <= at < own.len() && leads_over(own[at], x, to) && passable(barriers, from, x)
                && walks(own, barriers, from, x, c, (steps - 1) as nat) && cost == c.plus(
                own[at].ohms,
            );
        walk_widens(layout, cid, barriers, from, x, c, (steps - 1) as nat);
        let e = cluster_edge_is_listed(layout, layout.root_edges, cid, at);
        assert(leads_over(layout.root_edges[e], x, to));
        assert(cost == c.plus(layout.root_edges[e].ohms));
    }
}

/// Where a walk leads, one leads at the least cost.
proof fn a_least_cost_exists(
    edges: Seq<Edge>,
    barriers: Seq<usize>,
    from: usize,
    to: usize,
    cost: Ohms,
) -> (least: Ohms)
    requires
        path_cost(edges, barriers, from, to, cost),
        forall|c: Ohms| #[trigger] path_cost(edges, barriers, from, to, c) ==> c.non_negative(),
    ensures
        least_cost(edges, barriers, from, to, least),
    decreases cost.key(),
{
    if exists|c: Ohms|
        #[trigger] path_cost(edges, barriers, from, to, c) && c.key() < cost.key() {
        let lower = choose|c: Ohms|
            #[trigger] path_cost(edges, barriers, from, to, c) && c.key() < cost.key();
        assert(lower.non_negative());
        a_least_cost_exists(edges, barriers, from, to, lower)
    } else {
        cost
    }
}

/// Resolving a board cluster by cluster misses no path: the least resistance
/// from a root that is no terminal to anywhere, over every edge of the board,
/// is the one over the edges of its own cluster, and what it reaches is in the
/// cluster or a terminal at its boundary.
pub proof fn a_cluster_holds_every_path(shape: Shape, root_of: Seq<usize>, from: usize, to: usize)
    requires
        shape.valid(root_of.len()),
        is_root_map(root_of),
        root_of.len() <= usize::MAX,
        from < root_of.len(),
        !terminal_list(shape, root_of).contains(from),
    ensures
        ({
            let layout = layout_of(shape, root_of);
            let cid = layout.index[from as int] as int;
            let reached = path_ohms(layout.root_edges, layout.terminals, from, to);
            &&& path_ohms(
                cluster_edges(layout, layout.root_edges, cid),
                layout.terminals,
                from,
                to,
            ) == reached
            &&& reached is Some ==> to < root_of.len() && if layout.terminals.contains(to) {
                cluster_ends_on(shape, layout, cid, to)
            } else {
                layout.index[to as int] == cid
            }
        }),
{
    let layout = layout_of(shape, root_of);
    let cid = layout.index[from as int] as int;
    let all = layout.root_edges;
    let own = cluster_edges(layout, all, cid);
    let terminals = layout.terminals;
    assert forall|c: Ohms|
        (#[trigger] path_cost(all, terminals, from, to, c) <==> path_cost(
            own,
            terminals,
            from,
            to,
            c,
        )) && (path_cost(all, terminals, from, to, c) ==> c.non_negative()) by {
        if path_cost(all, terminals, from, to, c) {
            let steps = choose|steps: nat| #[trigger] walks(all, terminals, from, to, c, steps);
            walk_stays(shape, root_of, from, to, c, steps);
            assert(walks(own, terminals, from, to, c, steps));
        }
        if path_cost(own, terminals, from, to, c) {
            let steps = choose|steps: nat| #[trigger] walks(own, terminals, from, to, c, steps);
            walk_widens(layout, cid, terminals, from, to, c, steps);
            assert(walks(all, terminals, from, to, c, steps));
        }
    }
    if exists|c: Ohms| path_cost(all, terminals, from, to, c) {
        let cost = choose|c: Ohms| path_cost(all, terminals, from, to, c);
        let least = a_least_cost_exists(all, terminals, from, to, cost);
        assert(least_cost(own, terminals, from, to, least)) by {
            assert(path_cost(own, terminals, from, to, least));
            assert forall|other: Ohms| #[trigger]
                path_cost(own, terminals, from, to, other) implies least.key() <= other.key() by {
                assert(path_cost(all, terminals, from, to, other));
            }
        }
        least_cost_is_path_ohms(all, terminals, from, to, least);
        least_cost_is_path_ohms(own, terminals, from, to, least);
        let steps = choose|steps: nat| #[trigger] walks(all, terminals, from, to, cost, steps);
        walk_stays(shape, root_of, from, to, cost, steps);
    } else {
        assert forall|c: Ohms| !path_cost(own, terminals, from, to, c) by {
            assert(!path_cost(all, terminals, from, to, c));
        }
    }
}

/// A drive slot a path over the board leads to is among its cluster's, at the
/// resistance of that path.
pub proof fn a_cluster_ranks_every_source(
    shape: Shape,
    root_of: Seq<usize>,
    from: usize,
    slot: int,
)
    requires
        shape.valid(root_of.len()),
        is_root_map(root_of),
        root_of.len() <= usize::MAX,
        from < root_of.len(),
        root_of[from as int] == from,
        0 <= slot < shape.slot_nets.len() <= usize::MAX,
        !shape.slot_is_terminal[slot],
        !terminal_list(shape, root_of).contains(from),
        !terminal_list(shape, root_of).contains(root_of[shape.slot_nets[slot] as int]),
        path_ohms(
            layout_of(shape, root_of).root_edges,
            terminal_list(shape, root_of),
            from,
            root_of[shape.slot_nets[slot] as int],
        ) is Some,
    ensures
        ({
            let layout = layout_of(shape, root_of);
            let cluster = cluster_topo(shape, layout, layout.index[from as int] as int);
            let root = root_of[shape.slot_nets[slot] as int];
            &&& cluster.slots.contains(slot as usize)
            &&& exists|row: int, column: int|
                0 <= row < cluster.roots.len() && 0 <= column < cluster.roots.len()
                    && cluster.roots[row] == from && cluster.roots[column] == root
                    && #[trigger] cluster.dist[row][column] == or_infinite(
                    path_ohms(layout.root_edges, layout.terminals, from, root),
                )
        }),
{
    let layout = layout_of(shape, root_of);
    let cid = layout.index[from as int] as int;
    let cluster = cluster_topo(shape, layout, cid);
    let net = shape.slot_nets[slot];
    let root = root_of[net as int];
    layout_is_sound(shape, root_of);
    a_cluster_holds_every_path(shape, root_of, from, root);
    assert(layout.index[root as int] == layout.index[net as int]);
    let keep = sourcing_slot(shape, layout, cid);
    select_properties(shape.slot_nets.len(), keep);
    assert(keep(slot));
    let member = member_root(layout, cid);
    select_properties(root_of.len(), member);
    assert(root_of[root as int] == root);
    assert(member(from as int));
    assert(member(root as int));
    assert(cluster.roots.contains(from));
    assert(cluster.roots.contains(root));
    let row = choose|i: int| 0 <= i < cluster.roots.len() && cluster.roots[i] == from;
    let column = choose|i: int| 0 <= i < cluster.roots.len() && cluster.roots[i] == root;
    assert(cluster.dist[row][column] == or_infinite(
        path_ohms(cluster.edges, layout.terminals, from, root),
    ));
}

/// A terminal a path over the board leads to is at the boundary of the
/// cluster the path starts in.
pub proof fn a_cluster_reads_every_terminal(
    shape: Shape,
    root_of: Seq<usize>,
    from: usize,
    p: int,
)
    requires
        shape.valid(root_of.len()),
        is_root_map(root_of),
        root_of.len() <= usize::MAX,
        from < root_of.len(),
        !terminal_list(shape, root_of).contains(from),
        0 <= p < terminal_list(shape, root_of).len(),
        path_ohms(
            layout_of(shape, root_of).root_edges,
            terminal_list(shape, root_of),
            from,
            terminal_list(shape, root_of)[p],
        ) is Some,
    ensures
        boundary_of(
            shape,
            layout_of(shape, root_of),
            layout_of(shape, root_of).index[from as int] as int,
        ).contains(p as usize),
{
    let layout = layout_of(shape, root_of);
    let cid = layout.index[from as int] as int;
    layout_is_sound(shape, root_of);
    assert(layout.terminals.contains(layout.terminals[p]));
    a_cluster_holds_every_path(shape, root_of, from, layout.terminals[p]);
    let keep = boundary_terminal(shape, layout, cid);
    select_grows(root_of.len(), root_of.len(), terminal_root(shape, root_of));
    select_properties(layout.terminals.len(), keep);
    assert(keep(p));
}

} // verus!
