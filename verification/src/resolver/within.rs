//! What a conductor reaches over resistances, who reads a board, and how many
//! fights its terminals have.
use vstd::prelude::*;

use crate::board::{Board, BoardView, ReadKind};
use crate::dsu::is_root_map;
use crate::paths::path_ohms;
use crate::quantity::Ohms;
use crate::resolver::reads::with_reads;
use crate::resolver::{
    fights_among, finite_members, finite_terminals, terminal_fights, Resolver,
};
use crate::scene::laws::counted_to;
use crate::scene::position_in;
use crate::seqs::{select_grows, select_properties};
use crate::topology::laws::a_cluster_holds_every_path;
use crate::topology::{
    boundary_terminal, cluster_edges, cluster_topo, dist_row, layout_is_sound, layout_of,
    member_root, or_infinite, terminal_root, TopologyView,
};

verus! {

proof fn a_finite_member_is_listed(roots: Seq<usize>, row: Seq<Ohms>, root: usize, k: nat, x: usize)
    requires
        k <= roots.len(),
    ensures
        finite_members(roots, row, root, k).contains(x) <==> x != root && exists|i: int|
            0 <= i < k && #[trigger] roots[i] == x && row[i] is Finite,
    decreases k,
{
    let all = finite_members(roots, row, root, k);
    if k > 0 {
        a_finite_member_is_listed(roots, row, root, (k - 1) as nat, x);
        let rest = finite_members(roots, row, root, (k - 1) as nat);
        let last = roots[k - 1];
        if all.contains(x) {
            let i = choose|i: int| 0 <= i < all.len() && all[i] == x;
            if i < rest.len() {
                assert(rest[i] == x);
            }
        }
        if rest.contains(x) {
            let i = choose|i: int| 0 <= i < rest.len() && rest[i] == x;
            assert(all[i] == x);
        }
        if last != root && row[k - 1].finite() {
            assert(all[all.len() - 1] == last);
        }
    }
}

proof fn a_finite_terminal_is_listed(
    terminals: Seq<usize>,
    boundary: Seq<usize>,
    row: Seq<Ohms>,
    members: nat,
    k: nat,
    x: usize,
)
    requires
        k <= boundary.len(),
    ensures
        finite_terminals(terminals, boundary, row, members, k).contains(x) <==> exists|i: int|
            0 <= i < k && terminals[#[trigger] boundary[i] as int] == x && row[members
                + i] is Finite,
    decreases k,
{
    let all = finite_terminals(terminals, boundary, row, members, k);
    if k > 0 {
        a_finite_terminal_is_listed(terminals, boundary, row, members, (k - 1) as nat, x);
        let rest = finite_terminals(terminals, boundary, row, members, (k - 1) as nat);
        let last = terminals[boundary[k - 1] as int];
        if all.contains(x) {
            let i = choose|i: int| 0 <= i < all.len() && all[i] == x;
            if i < rest.len() {
                assert(rest[i] == x);
            }
        }
        if rest.contains(x) {
            let i = choose|i: int| 0 <= i < rest.len() && rest[i] == x;
            assert(all[i] == x);
        }
        if row[members + k - 1].finite() {
            assert(all[all.len() - 1] == last);
        }
    }
}

/// A conductor that no terminal holds reaches itself first, and another exactly
/// if a way of finite resistance leads there that passes through no terminal.
pub proof fn a_conductor_reaches_what_resistance_joins(
    resolver: Resolver,
    n: nat,
    root: usize,
    x: usize,
)
    requires
        n <= usize::MAX,
        resolver.board().shape().valid(n),
        resolver.roots(n).len() == n,
        is_root_map(resolver.roots(n)),
        root < n,
        resolver.roots(n)[root as int] == root,
        !resolver.structure(n).terminal_roots.contains(root),
        x < n,
        resolver.roots(n)[x as int] == x,
        x != root,
    ensures
        resolver.reached_from(n, root)[0] == root,
        resolver.reached_from(n, root).contains(x) <==> ({
            let way = path_ohms(
                resolver.structure(n).root_edges,
                resolver.structure(n).terminal_roots,
                root,
                x,
            );
            way is Some && way->0 is Finite
        }),
{
    let shape = resolver.board().shape();
    let root_of = resolver.roots(n);
    let topology = resolver.structure(n);
    let layout = layout_of(shape, root_of);
    layout_is_sound(shape, root_of);
    let cid = layout.index[root as int] as int;
    let c = topology.clusters[cid];
    assert(c == cluster_topo(shape, layout, cid));
    let member = member_root(layout, cid);
    select_properties(root_of.len(), member);
    assert(c.roots.contains(root) <==> root < root_of.len() && member(root as int));
    let at = position_in(c.roots, root);
    assert(0 <= at < c.roots.len() && c.roots[at] == root);
    let row = c.dist[at];
    let own = cluster_edges(layout, layout.root_edges, cid);
    assert(row == dist_row(own, layout.terminals, c.roots, c.boundary, root));
    let way = path_ohms(layout.root_edges, layout.terminals, root, x);
    a_cluster_holds_every_path(shape, root_of, root, x);
    let members = finite_members(c.roots, row, root, c.roots.len());
    let ends = finite_terminals(
        layout.terminals,
        c.boundary,
        row,
        c.roots.len(),
        c.boundary.len(),
    );
    a_finite_member_is_listed(c.roots, row, root, c.roots.len(), x);
    a_finite_terminal_is_listed(
        layout.terminals,
        c.boundary,
        row,
        c.roots.len(),
        c.boundary.len(),
        x,
    );
    let reached = resolver.reached_from(n, root);
    assert(reached == seq![root] + members + ends);
    let bounds = boundary_terminal(shape, layout, cid);
    select_grows(root_of.len(), root_of.len(), terminal_root(shape, root_of));
    select_properties(layout.terminals.len(), bounds);
    assert forall|i: int| 0 <= i < c.roots.len() && #[trigger] c.roots[i] == x implies row[i]
        == or_infinite(way) by {}
    assert forall|i: int|
        0 <= i < c.boundary.len() && layout.terminals[#[trigger] c.boundary[i] as int] == x implies row[
    c.roots.len() + i] == or_infinite(way) by {}
    if way is Some && way->0 is Finite {
        if layout.terminals.contains(x) {
            let p = choose|p: int| 0 <= p < layout.terminals.len() && layout.terminals[p] == x;
            assert(bounds(p));
            assert(c.boundary.contains(p as usize));
            let i = choose|i: int| 0 <= i < c.boundary.len() && c.boundary[i] == p as usize;
            assert(layout.terminals[c.boundary[i] as int] == x);
            assert(row[c.roots.len() + i] is Finite);
            assert(ends.contains(x));
            let j = choose|j: int| 0 <= j < ends.len() && ends[j] == x;
            assert(reached[1 + members.len() + j] == x);
        } else {
            assert(member(x as int));
            assert(c.roots.contains(x));
            let i = choose|i: int| 0 <= i < c.roots.len() && c.roots[i] == x;
            assert(row[i] is Finite);
            assert(members.contains(x));
            let j = choose|j: int| 0 <= j < members.len() && members[j] == x;
            assert(reached[1 + j] == x);
        }
    }
    if reached.contains(x) {
        let k = choose|k: int| 0 <= k < reached.len() && reached[k] == x;
        if k > members.len() {
            assert(ends[k - 1 - members.len()] == x);
            assert(ends.contains(x));
        } else {
            assert(members[k - 1] == x);
            assert(members.contains(x));
        }
    }
}

/// Readers are declared one behind another, each of its kind, and nothing else
/// of a board moves.
pub proof fn readers_are_listed_in_order(board: BoardView, reads: Seq<(usize, ReadKind)>, k: nat)
    requires
        k <= reads.len(),
    ensures
        with_reads(board, reads, k).digital_senses == board.digital_senses + reads.take(
            k as int,
        ).filter(|r: (usize, ReadKind)| r.1 is Digital).map_values(|r: (usize, ReadKind)| r.0),
        with_reads(board, reads, k).current_instruments == board.current_instruments + reads.take(
            k as int,
        ).filter(|r: (usize, ReadKind)| r.1 is Instrument).map_values(|r: (usize, ReadKind)| r.0),
        with_reads(board, reads, k).slots == board.slots,
        with_reads(board, reads, k).elements == board.elements,
        with_reads(board, reads, k).edges == board.edges,
        with_reads(board, reads, k).couplings == board.couplings,
        with_reads(board, reads, k).power_sources == board.power_sources,
        with_reads(board, reads, k).stuck_sources == board.stuck_sources,
        with_reads(board, reads, k).analog_senses == board.analog_senses,
        with_reads(board, reads, k).power_senses == board.power_senses,
    decreases k,
{
    reveal(Seq::filter);
    let digital = |r: (usize, ReadKind)| r.1 is Digital;
    let instrument = |r: (usize, ReadKind)| r.1 is Instrument;
    let net = |r: (usize, ReadKind)| r.0;
    let list = reads.take(k as int);
    if k > 0 {
        readers_are_listed_in_order(board, reads, (k - 1) as nat);
        assert(list.drop_last() =~= reads.take(k - 1));
        assert(list.last() == reads[k - 1]);
    }
    assert(with_reads(board, reads, k).digital_senses =~= board.digital_senses + list.filter(
        digital,
    ).map_values(net));
    assert(with_reads(board, reads, k).current_instruments =~= board.current_instruments
        + list.filter(instrument).map_values(net));
}

/// The fights counted are the terminals that fight, each once.
pub proof fn every_fight_is_counted_once(board: Board, topology: TopologyView, k: nat)
    ensures
        fights_among(board, topology, k) == counted_to(k).filter(
            |p: int| terminal_fights(board, topology, p),
        ).len(),
    decreases k,
{
    reveal(Seq::filter);
    if k > 0 {
        every_fight_is_counted_once(board, topology, (k - 1) as nat);
        assert(counted_to(k).drop_last() =~= counted_to((k - 1) as nat));
        assert(counted_to(k).last() == k - 1);
    }
}

} // verus!
