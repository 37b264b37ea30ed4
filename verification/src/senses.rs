//! Who is told what a pass moved, and in which order.
pub mod laws;

use vstd::prelude::*;

use crate::net::NetMove;
use crate::seqs::{ascending, select, select_congruent, select_properties};

verus! {

/// One sense subscription.
#[derive(Debug, Clone, Copy, PartialEq, Eq, Structural)]
pub struct SenseSub {
    /// The net it reads.
    pub net: usize,
    /// The net of the reference it is measured against.
    pub reference: Option<usize>,
    /// The net of the supply its thresholds scale with.
    pub supply: Option<usize>,
}

impl SenseSub {
    /// Whether it depends on a net beside its own.
    pub open spec fn depends_on(self, net: usize) -> bool {
        self.reference == Some(net) || self.supply == Some(net)
    }
}

/// One step of a delivery.
#[derive(Debug, Clone, Copy, PartialEq, Eq, Structural)]
pub enum SenseStep {
    /// A net's state changed: report it.
    Resolved(usize),
    /// Deliver a subscription its net's resolution.
    Deliver(usize),
}

/// Whether a pass moved a net.
pub open spec fn moved(moves: Seq<(usize, NetMove)>, net: usize) -> bool {
    exists|i: int| 0 <= i < moves.len() && (#[trigger] moves[i]).0 == net
}

/// Moves by ascending net.
pub open spec fn moves_ascend(moves: Seq<(usize, NetMove)>) -> bool {
    forall|i: int, j: int| 0 <= i < j < moves.len() ==> moves[i].0 < moves[j].0
}

/// The lowest of a subscription's dependencies that moved.
pub open spec fn first_moved(sub: SenseSub, moves: Seq<(usize, NetMove)>) -> Option<usize> {
    let reference = match sub.reference {
        Some(r) => if moved(moves, r) {
            Some(r)
        } else {
            None
        },
        None => None,
    };
    let supply = match sub.supply {
        Some(s) => if moved(moves, s) {
            Some(s)
        } else {
            None
        },
        None => None,
    };
    match (reference, supply) {
        (Some(r), Some(s)) => Some(
            if s < r {
                s
            } else {
                r
            },
        ),
        (Some(r), None) => Some(r),
        (None, other) => other,
    }
}

/// Whether a subscription reads a net.
pub open spec fn on_net(subs: Seq<SenseSub>, net: usize) -> spec_fn(int) -> bool {
    |s: int| subs[s].net == net
}

/// Whether a subscription depends on a net.
pub open spec fn dependent(subs: Seq<SenseSub>, net: usize) -> spec_fn(int) -> bool {
    |s: int| subs[s].depends_on(net)
}

/// Whether a moved net is where a subscription that depends on it is
/// delivered: its own net did not move, and this is the first of its
/// dependencies that did.
pub open spec fn told_at(
    subs: Seq<SenseSub>,
    moves: Seq<(usize, NetMove)>,
    net: usize,
) -> spec_fn(int) -> bool {
    |s: int|
        subs[s].depends_on(net) && !moved(moves, subs[s].net) && first_moved(subs[s], moves)
            == Some(net)
}

/// The deliveries of a list of subscriptions.
pub open spec fn deliveries(subs: Seq<usize>) -> Seq<SenseStep> {
    Seq::new(subs.len(), |i: int| SenseStep::Deliver(subs[i]))
}

/// What the first `k` moved nets report and deliver to their own
/// subscriptions.
pub open spec fn own_steps(subs: Seq<SenseSub>, moves: Seq<(usize, NetMove)>, k: nat) -> Seq<
    SenseStep,
>
    decreases k,
{
    if k == 0 {
        Seq::empty()
    } else {
        let rest = own_steps(subs, moves, (k - 1) as nat);
        let (net, how) = moves[k - 1];
        let reported = if how == NetMove::State {
            rest.push(SenseStep::Resolved(net))
        } else {
            rest
        };
        reported + deliveries(select(subs.len(), on_net(subs, net)))
    }
}

/// What the first `k` moved nets deliver to the subscriptions that depend on
/// them.
pub open spec fn dependent_steps(
    subs: Seq<SenseSub>,
    moves: Seq<(usize, NetMove)>,
    k: nat,
) -> Seq<SenseStep>
    decreases k,
{
    if k == 0 {
        Seq::empty()
    } else {
        dependent_steps(subs, moves, (k - 1) as nat) + deliveries(
            select(subs.len(), told_at(subs, moves, moves[k - 1].0)),
        )
    }
}

/// What a pass delivers: every moved net's own subscriptions, nets ascending
/// and subscriptions in registration order, then the subscriptions that depend
/// on a moved net and whose own net did not move.
pub open spec fn sense_script(subs: Seq<SenseSub>, moves: Seq<(usize, NetMove)>) -> Seq<SenseStep> {
    own_steps(subs, moves, moves.len()) + dependent_steps(subs, moves, moves.len())
}

/// The sense subscriptions, in registration order.
#[derive(Debug)]
pub struct SenseTable {
    subs: Vec<SenseSub>,
    by_net: Vec<Vec<usize>>,
    dependents: Vec<Vec<usize>>,
}

/// What a registration came to.
#[derive(Debug, Clone, Copy, PartialEq, Eq, Structural)]
pub struct Registered {
    /// The reference it is measured against, where the board has its net.
    pub reference: Option<usize>,
    /// The subscription, where the board has its net.
    pub sub: Option<usize>,
}

/// A reference the board has.
pub open spec fn known_reference(reference: Option<usize>, n: nat) -> Option<usize> {
    match reference {
        Some(r) => if r < n {
            Some(r)
        } else {
            None
        },
        None => None,
    }
}

/// A supply the board has, on a third net.
pub open spec fn known_supply(
    supply: Option<usize>,
    net: usize,
    reference: Option<usize>,
    n: nat,
) -> Option<usize> {
    match supply {
        Some(s) => if s < n && s != net && Some(s) != known_reference(reference, n) {
            Some(s)
        } else {
            None
        },
        None => None,
    }
}

impl SenseTable {
    /// The subscriptions, in registration order.
    pub closed spec fn list(&self) -> Seq<SenseSub> {
        self.subs@
    }

    /// The per-net lists are in step with the subscriptions.
    pub closed spec fn well_formed(&self) -> bool {
        &&& self.by_net@.len() == self.dependents@.len()
        &&& forall|s: int|
            0 <= s < self.subs@.len() ==> (#[trigger] self.subs@[s]).net < self.by_net@.len()
        &&& forall|s: int, x: usize|
            #![trigger self.subs@[s].depends_on(x)]
            0 <= s < self.subs@.len() && self.subs@[s].depends_on(x) ==> x < self.by_net@.len()
        &&& forall|x: int|
            0 <= x < self.by_net@.len() ==> (#[trigger] self.by_net@[x])@ == select(
                self.subs@.len(),
                on_net(self.subs@, x as usize),
            )
        &&& forall|x: int|
            0 <= x < self.by_net@.len() ==> (#[trigger] self.dependents@[x])@ == select(
                self.subs@.len(),
                dependent(self.subs@, x as usize),
            )
    }

    /// No subscriptions.
    pub fn new() -> (r: SenseTable)
        ensures
            r.well_formed(),
            r.list() == Seq::<SenseSub>::empty(),
    {
        SenseTable { subs: Vec::new(), by_net: Vec::new(), dependents: Vec::new() }
    }

    /// How many subscriptions there are.
    pub fn len(&self) -> (n: usize)
        ensures
            n == self.list().len(),
    {
        self.subs.len()
    }

    /// One subscription.
    pub fn sub(&self, index: usize) -> (r: SenseSub)
        requires
            index < self.list().len(),
        ensures
            r == self.list()[index as int],
    {
        self.subs[index]
    }

    /// Make room for the nets of a board of `n`.
    fn grow(&mut self, n: usize)
        requires
            old(self).well_formed(),
            n <= usize::MAX,
        ensures
            final(self).well_formed(),
            final(self).subs == old(self).subs,
            final(self).by_net@.len() >= n,
            final(self).by_net@.len() >= old(self).by_net@.len(),
    {
        while self.by_net.len() < n
            invariant
                self.well_formed(),
                self.subs == old(self).subs,
                self.by_net@.len() >= old(self).by_net@.len(),
            decreases n - self.by_net.len(),
        {
            let ghost at = self.by_net@.len();
            let ghost before = *self;
            self.by_net.push(Vec::new());
            self.dependents.push(Vec::new());
            proof {
                let x = at as usize;
                assert(self.by_net.len() <= usize::MAX);
                select_none(self.subs@.len(), on_net(self.subs@, x));
                assert forall|s: int| 0 <= s < self.subs@.len() implies !#[trigger] dependent(
                    self.subs@,
                    x,
                )(s) by {
                    if before.subs@[s].depends_on(x) {
                        assert(x < before.by_net@.len());
                    }
                }
                select_none(self.subs@.len(), dependent(self.subs@, x));
                assert forall|y: int| 0 <= y < self.by_net@.len() implies (
                #[trigger] self.by_net@[y])@ == select(
                    self.subs@.len(),
                    on_net(self.subs@, y as usize),
                ) by {
                    if y < at {
                        assert(self.by_net@[y] == before.by_net@[y]);
                    }
                }
                assert forall|y: int| 0 <= y < self.by_net@.len() implies (
                #[trigger] self.dependents@[y])@ == select(
                    self.subs@.len(),
                    dependent(self.subs@, y as usize),
                ) by {
                    if y < at {
                        assert(self.dependents@[y] == before.dependents@[y]);
                    }
                }
            }
        }
    }

    /// Register a subscription on a board of `n` nets. A reference or a supply
    /// the board does not have is dropped, and so is a supply on the net or on
    /// the reference's; a net the board does not have is not subscribed.
    pub fn register(
        &mut self,
        net: usize,
        reference: Option<usize>,
        supply: Option<usize>,
        n: usize,
    ) -> (r: Registered)
        requires
            old(self).well_formed(),
        ensures
            final(self).well_formed(),
            r.reference == known_reference(reference, n as nat),
            r.sub == (if net < n {
                Some(old(self).list().len() as usize)
            } else {
                None
            }),
            final(self).list() == (if net < n {
                old(self).list().push(
                    SenseSub {
                        net,
                        reference: known_reference(reference, n as nat),
                        supply: known_supply(supply, net, reference, n as nat),
                    },
                )
            } else {
                old(self).list()
            }),
    {
        let reference: Option<usize> = match reference {
            Some(r) => if r < n {
                Some(r)
            } else {
                None
            },
            None => None,
        };
        if net >= n {
            return Registered { reference, sub: None };
        }
        let supply: Option<usize> = match supply {
            Some(s) => {
                let on_reference = match reference {
                    Some(r) => r == s,
                    None => false,
                };
                if s < n && s != net && !on_reference {
                    Some(s)
                } else {
                    None
                }
            },
            None => None,
        };
        self.grow(n);
        let sub = SenseSub { net, reference, supply };
        let index: usize = self.subs.len();
        self.add(sub);
        Registered { reference, sub: Some(index) }
    }

    /// Put a subscription behind the others.
    fn add(&mut self, sub: SenseSub)
        requires
            old(self).well_formed(),
            sub.net < old(self).by_net@.len(),
            sub.reference matches Some(r) ==> r < old(self).by_net@.len(),
            sub.supply matches Some(s) ==> s < old(self).by_net@.len() && sub.reference != Some(s),
        ensures
            final(self).well_formed(),
            final(self).subs@ == old(self).subs@.push(sub),
    {
        let index: usize = self.subs.len();
        let ghost before = *self;
        self.subs.push(sub);
        assert(self.subs.len() <= usize::MAX);
        assert(self.by_net.len() <= usize::MAX);
        push_at(&mut self.by_net, sub.net, index);
        if let Some(r) = sub.reference {
            push_at(&mut self.dependents, r, index);
        }
        if let Some(s) = sub.supply {
            push_at(&mut self.dependents, s, index);
        }
        proof {
            let subs = self.subs@;
            let old_subs = before.subs@;
            assert forall|s: int| 0 <= s < subs.len() implies (#[trigger] subs[s]).net
                < self.by_net@.len() by {
                if s < old_subs.len() {
                    assert(subs[s] == old_subs[s]);
                }
            }
            assert forall|s: int, x: usize|
                #![trigger self.subs@[s].depends_on(x)]
                0 <= s < subs.len() && self.subs@[s].depends_on(x) implies x
                < self.by_net@.len() by {
                if s < old_subs.len() {
                    assert(subs[s] == old_subs[s]);
                    assert(old_subs[s].depends_on(x));
                }
            }
            assert forall|x: int| 0 <= x < self.by_net@.len() implies (
            #[trigger] self.by_net@[x])@ == select(subs.len(), on_net(subs, x as usize)) by {
                let p = on_net(old_subs, x as usize);
                let q = on_net(subs, x as usize);
                assert forall|s: int| 0 <= s < old_subs.len() implies #[trigger] p(s) == q(s) by {
                    assert(subs[s] == old_subs[s]);
                }
                select_congruent(old_subs.len(), p, q);
                assert(q(index as int) == (sub.net == x));
                assert(before.by_net@[x]@ == select(old_subs.len(), p));
            }
            assert forall|x: int| 0 <= x < self.by_net@.len() implies (
            #[trigger] self.dependents@[x])@ == select(subs.len(), dependent(subs, x as usize)) by {
                let p = dependent(old_subs, x as usize);
                let q = dependent(subs, x as usize);
                assert forall|s: int| 0 <= s < old_subs.len() implies #[trigger] p(s) == q(s) by {
                    assert(subs[s] == old_subs[s]);
                }
                select_congruent(old_subs.len(), p, q);
                assert(q(index as int) == sub.depends_on(x as usize));
                assert(before.dependents@[x]@ == select(old_subs.len(), p));
            }
        }
    }

    /// What a pass delivers.
    pub fn script(&self, moves: &Vec<(usize, NetMove)>) -> (r: Vec<SenseStep>)
        requires
            self.well_formed(),
        ensures
            r@ == sense_script(self.list(), moves@),
            forall|i: int|
                0 <= i < r@.len() ==> ((#[trigger] r@[i]) matches SenseStep::Deliver(s) ==> s
                    < self.list().len()),
    {
        let mut out: Vec<SenseStep> = Vec::new();
        let mut k: usize = 0;
        while k < moves.len()
            invariant
                k <= moves@.len(),
                self.well_formed(),
                out@ == own_steps(self.subs@, moves@, k as nat),
                forall|i: int|
                    0 <= i < out@.len() ==> ((#[trigger] out@[i]) matches SenseStep::Deliver(s)
                        ==> s < self.subs@.len()),
            decreases moves@.len() - k,
        {
            let (net, how) = moves[k];
            if how == NetMove::State {
                out.push(SenseStep::Resolved(net));
            }
            let ghost reported = out@;
            let ghost list = select(self.subs@.len(), on_net(self.subs@, net));
            assert(self.subs.len() <= usize::MAX);
            proof {
                select_properties(self.subs@.len(), on_net(self.subs@, net));
            }
            if net < self.by_net.len() {
                assert(self.by_net@[net as int]@ == list);
                push_deliveries(&mut out, &self.by_net[net]);
            } else {
                proof {
                    select_none(self.subs@.len(), on_net(self.subs@, net));
                    assert(reported + deliveries(list) =~= reported);
                }
            }
            proof {
                assert(out@ == reported + deliveries(list));
                assert forall|i: int| 0 <= i < out@.len() implies ((
                #[trigger] out@[i]) matches SenseStep::Deliver(s) ==> s < self.subs@.len()) by {
                    if i >= reported.len() {
                        assert(out@[i] == SenseStep::Deliver(list[i - reported.len()]));
                    }
                }
            }
            k += 1;
        }
        let ghost own = out@;
        k = 0;
        assert(own + dependent_steps(self.subs@, moves@, 0) =~= own);
        while k < moves.len()
            invariant
                k <= moves@.len(),
                self.well_formed(),
                own == own_steps(self.subs@, moves@, moves@.len()),
                out@ == own + dependent_steps(self.subs@, moves@, k as nat),
                forall|i: int|
                    0 <= i < out@.len() ==> ((#[trigger] out@[i]) matches SenseStep::Deliver(s)
                        ==> s < self.subs@.len()),
            decreases moves@.len() - k,
        {
            let net: usize = moves[k].0;
            let told = self.told(moves, net);
            let ghost before = out@;
            push_deliveries(&mut out, &told);
            proof {
                assert(out@ =~= own + dependent_steps(self.subs@, moves@, (k + 1) as nat));
                assert(self.subs.len() <= usize::MAX);
                select_properties(self.subs@.len(), told_at(self.subs@, moves@, net));
                assert forall|i: int| 0 <= i < out@.len() implies ((
                #[trigger] out@[i]) matches SenseStep::Deliver(s) ==> s < self.subs@.len()) by {
                    if i >= before.len() {
                        assert(out@[i] == SenseStep::Deliver(told@[i - before.len()]));
                    }
                }
            }
            k += 1;
        }
        out
    }

    /// The subscriptions told at a moved net they depend on.
    fn told(&self, moves: &Vec<(usize, NetMove)>, net: usize) -> (r: Vec<usize>)
        requires
            self.well_formed(),
        ensures
            r@ == select(self.subs@.len(), told_at(self.subs@, moves@, net)),
    {
        let mut r: Vec<usize> = Vec::new();
        let ghost p = dependent(self.subs@, net);
        let ghost q = told_at(self.subs@, moves@, net);
        assert(self.subs.len() <= usize::MAX);
        if net >= self.dependents.len() {
            proof {
                assert forall|s: int| 0 <= s < self.subs@.len() implies !#[trigger] q(s) by {
                    if self.subs@[s].depends_on(net) {
                        assert(net < self.by_net@.len());
                    }
                }
                select_none(self.subs@.len(), q);
            }
            return r;
        }
        let list = &self.dependents[net];
        assert(list@ == select(self.subs@.len(), p));
        let mut i: usize = 0;
        while i < list.len()
            invariant
                i <= list@.len(),
                self.well_formed(),
                self.subs@.len() <= usize::MAX,
                list@ == select(self.subs@.len(), p),
                p == dependent(self.subs@, net),
                q == told_at(self.subs@, moves@, net),
                r@ == kept(list@.take(i as int), q),
            decreases list@.len() - i,
        {
            proof {
                select_properties(self.subs@.len(), p);
            }
            let s: usize = list[i];
            assert(p(s as int));
            assert(list@.take(i + 1).drop_last() =~= list@.take(i as int));
            let sub = self.subs[s];
            if !has_moved(moves, sub.net) {
                let first = first_moved_dependency(&sub, moves);
                let here = match first {
                    Some(x) => x == net,
                    None => false,
                };
                if here {
                    r.push(s);
                }
            }
            i += 1;
        }
        proof {
            assert(list@.take(i as int) =~= list@);
            kept_select(self.subs@.len(), p, q);
        }
        r
    }
}

/// The kept entries of a list, in order.
pub open spec fn kept(list: Seq<usize>, keep: spec_fn(int) -> bool) -> Seq<usize>
    decreases list.len(),
{
    if list.len() == 0 {
        Seq::empty()
    } else {
        let rest = kept(list.drop_last(), keep);
        if keep(list.last() as int) {
            rest.push(list.last())
        } else {
            rest
        }
    }
}

proof fn kept_select(n: nat, p: spec_fn(int) -> bool, q: spec_fn(int) -> bool)
    requires
        n <= usize::MAX,
        forall|s: int| #[trigger] q(s) ==> p(s),
    ensures
        kept(select(n, p), q) == select(n, q),
    decreases n,
{
    if n > 0 {
        let m = (n - 1) as nat;
        kept_select(m, p, q);
        if p(n - 1) {
            assert(select(n, p).drop_last() =~= select(m, p));
            assert(select(n, p).last() == (n - 1) as usize);
        } else {
            assert(!q(n - 1));
        }
    }
}

proof fn select_none(n: nat, keep: spec_fn(int) -> bool)
    requires
        forall|i: int| 0 <= i < n ==> !#[trigger] keep(i),
    ensures
        select(n, keep) == Seq::<usize>::empty(),
    decreases n,
{
    if n > 0 {
        assert(!keep(n - 1));
        select_none((n - 1) as nat, keep);
    }
}

/// Put an index behind one of a list of lists.
fn push_at(lists: &mut Vec<Vec<usize>>, at: usize, index: usize)
    requires
        at < old(lists)@.len(),
    ensures
        final(lists)@.len() == old(lists)@.len(),
        final(lists)@[at as int]@ == old(lists)@[at as int]@.push(index),
        forall|x: int|
            0 <= x < final(lists)@.len() && x != at ==> #[trigger] final(lists)@[x]
                == old(lists)@[x],
{
    let list = &mut lists[at];
    list.push(index);
}

fn push_deliveries(out: &mut Vec<SenseStep>, subs: &Vec<usize>)
    ensures
        final(out)@ == old(out)@ + deliveries(subs@),
{
    let mut i: usize = 0;
    while i < subs.len()
        invariant
            i <= subs@.len(),
            out@ =~= old(out)@ + deliveries(subs@).take(i as int),
        decreases subs@.len() - i,
    {
        out.push(SenseStep::Deliver(subs[i]));
        i += 1;
    }
    assert(deliveries(subs@).take(i as int) =~= deliveries(subs@));
}

/// Whether a pass moved a net.
fn has_moved(moves: &Vec<(usize, NetMove)>, net: usize) -> (r: bool)
    ensures
        r == moved(moves@, net),
{
    let mut i: usize = 0;
    while i < moves.len()
        invariant
            i <= moves@.len(),
            forall|j: int| 0 <= j < i ==> (#[trigger] moves@[j]).0 != net,
        decreases moves@.len() - i,
    {
        if moves[i].0 == net {
            assert(moves@[i as int].0 == net);
            return true;
        }
        i += 1;
    }
    false
}

/// The lowest of a subscription's dependencies that moved: the one net whose
/// walk delivers it.
pub fn first_moved_dependency(sub: &SenseSub, moves: &Vec<(usize, NetMove)>) -> (r: Option<usize>)
    ensures
        r == first_moved(*sub, moves@),
{
    let reference = match sub.reference {
        Some(r) => if has_moved(moves, r) {
            Some(r)
        } else {
            None
        },
        None => None,
    };
    let supply = match sub.supply {
        Some(s) => if has_moved(moves, s) {
            Some(s)
        } else {
            None
        },
        None => None,
    };
    match (reference, supply) {
        (Some(r), Some(s)) => Some(
            if s < r {
                s
            } else {
                r
            },
        ),
        (Some(r), None) => Some(r),
        (None, other) => other,
    }
}

/// Whether a subscription is delivered somewhere in a script.
pub open spec fn delivers(steps: Seq<SenseStep>, sub: usize) -> bool {
    steps.contains(SenseStep::Deliver(sub))
}

/// No subscription is delivered twice.
pub open spec fn delivered_once(steps: Seq<SenseStep>) -> bool {
    forall|i: int, j: int|
        0 <= i < j < steps.len() && steps[i] is Deliver ==> steps[i] != steps[j]
}

proof fn deliveries_hold(list: Seq<usize>, sub: usize)
    ensures
        delivers(deliveries(list), sub) <==> list.contains(sub),
{
    if delivers(deliveries(list), sub) {
        let i = choose|i: int|
            0 <= i < deliveries(list).len() && deliveries(list)[i] == SenseStep::Deliver(sub);
        assert(list[i] == sub);
    }
    if list.contains(sub) {
        let i = choose|i: int| 0 <= i < list.len() && list[i] == sub;
        assert(deliveries(list)[i] == SenseStep::Deliver(sub));
    }
}

proof fn joined_steps(a: Seq<SenseStep>, b: Seq<SenseStep>, sub: usize)
    ensures
        delivers(a + b, sub) <==> delivers(a, sub) || delivers(b, sub),
{
    let all = a + b;
    let step = SenseStep::Deliver(sub);
    if all.contains(step) {
        let i = choose|i: int| 0 <= i < all.len() && all[i] == step;
        if i < a.len() {
            assert(a[i] == step);
        } else {
            assert(b[i - a.len()] == step);
        }
    }
    if a.contains(step) {
        let i = choose|i: int| 0 <= i < a.len() && a[i] == step;
        assert(all[i] == step);
    }
    if b.contains(step) {
        let i = choose|i: int| 0 <= i < b.len() && b[i] == step;
        assert(all[i + a.len()] == step);
    }
}

proof fn joined_once(a: Seq<SenseStep>, b: Seq<SenseStep>)
    requires
        delivered_once(a),
        delivered_once(b),
        forall|sub: usize| !(#[trigger] delivers(a, sub) && delivers(b, sub)),
    ensures
        delivered_once(a + b),
{
    let all = a + b;
    assert forall|i: int, j: int|
        0 <= i < j < all.len() && all[i] is Deliver implies all[i] != all[j] by {
        if i < a.len() && j >= a.len() {
            if all[i] == all[j] {
                let sub = all[i]->Deliver_0;
                assert(a[i] == SenseStep::Deliver(sub));
                assert(b[j - a.len()] == SenseStep::Deliver(sub));
                assert(delivers(a, sub) && delivers(b, sub));
            }
        } else if i < a.len() {
            assert(a[i] == all[i] && a[j] == all[j]);
        } else {
            assert(b[i - a.len()] == all[i] && b[j - a.len()] == all[j]);
        }
    }
}

proof fn list_once(list: Seq<usize>)
    requires
        ascending(list),
    ensures
        delivered_once(deliveries(list)),
{
    let steps = deliveries(list);
    assert forall|i: int, j: int|
        0 <= i < j < steps.len() && steps[i] is Deliver implies steps[i] != steps[j] by {
        assert(list[i] < list[j]);
    }
}

proof fn own_step_delivers(subs: Seq<SenseSub>, moves: Seq<(usize, NetMove)>, k: nat, sub: usize)
    requires
        k <= moves.len(),
        subs.len() <= usize::MAX,
    ensures
        delivers(own_steps(subs, moves, k), sub) <==> sub < subs.len() && moved(
            moves.take(k as int),
            subs[sub as int].net,
        ),
    decreases k,
{
    let front = moves.take(k as int);
    if k == 0 {
        assert(!delivers(own_steps(subs, moves, 0), sub));
        assert(!moved(front, subs[sub as int].net));
    } else {
        let m = (k - 1) as nat;
        own_step_delivers(subs, moves, m, sub);
        let (net, how) = moves[k - 1];
        let rest = own_steps(subs, moves, m);
        let reported = if how == NetMove::State {
            rest.push(SenseStep::Resolved(net))
        } else {
            rest
        };
        assert(delivers(reported, sub) <==> delivers(rest, sub)) by {
            let step = SenseStep::Deliver(sub);
            if reported.contains(step) {
                let i = choose|i: int| 0 <= i < reported.len() && reported[i] == step;
                assert(rest[i] == step);
            }
            if rest.contains(step) {
                let i = choose|i: int| 0 <= i < rest.len() && rest[i] == step;
                assert(reported[i] == step);
            }
        }
        let list = select(subs.len(), on_net(subs, net));
        select_properties(subs.len(), on_net(subs, net));
        joined_steps(reported, deliveries(list), sub);
        deliveries_hold(list, sub);
        assert(list.contains(sub) <==> sub < subs.len() && on_net(subs, net)(sub as int));
        let shorter = moves.take(m as int);
        let own = subs[sub as int].net;
        if moved(front, own) {
            let i = choose|i: int| 0 <= i < front.len() && (#[trigger] front[i]).0 == own;
            if i < m {
                assert(shorter[i].0 == own);
            }
        }
        if moved(shorter, own) {
            let i = choose|i: int| 0 <= i < shorter.len() && (#[trigger] shorter[i]).0 == own;
            assert(front[i].0 == own);
        }
        assert(front[k - 1].0 == net);
    }
}

proof fn dependent_step_delivers(
    subs: Seq<SenseSub>,
    moves: Seq<(usize, NetMove)>,
    k: nat,
    sub: usize,
)
    requires
        k <= moves.len(),
        subs.len() <= usize::MAX,
    ensures
        delivers(dependent_steps(subs, moves, k), sub) <==> sub < subs.len() && !moved(
            moves,
            subs[sub as int].net,
        ) && (exists|i: int|
            0 <= i < k && first_moved(subs[sub as int], moves) == Some((#[trigger] moves[i]).0)),
    decreases k,
{
    if k == 0 {
        assert(!delivers(dependent_steps(subs, moves, 0), sub));
    } else {
        let m = (k - 1) as nat;
        dependent_step_delivers(subs, moves, m, sub);
        let net = moves[k - 1].0;
        let list = select(subs.len(), told_at(subs, moves, net));
        select_properties(subs.len(), told_at(subs, moves, net));
        joined_steps(dependent_steps(subs, moves, m), deliveries(list), sub);
        deliveries_hold(list, sub);
        assert(list.contains(sub) <==> sub < subs.len() && told_at(subs, moves, net)(sub as int));
    }
}

proof fn own_once(subs: Seq<SenseSub>, moves: Seq<(usize, NetMove)>, k: nat)
    requires
        k <= moves.len(),
        subs.len() <= usize::MAX,
        moves_ascend(moves),
    ensures
        delivered_once(own_steps(subs, moves, k)),
    decreases k,
{
    if k > 0 {
        let m = (k - 1) as nat;
        own_once(subs, moves, m);
        let (net, how) = moves[k - 1];
        let rest = own_steps(subs, moves, m);
        let reported = if how == NetMove::State {
            rest.push(SenseStep::Resolved(net))
        } else {
            rest
        };
        let list = select(subs.len(), on_net(subs, net));
        select_properties(subs.len(), on_net(subs, net));
        list_once(list);
        assert forall|sub: usize| !(#[trigger] delivers(reported, sub) && delivers(
            deliveries(list),
            sub,
        )) by {
            if delivers(reported, sub) {
                let step = SenseStep::Deliver(sub);
                let i = choose|i: int| 0 <= i < reported.len() && reported[i] == step;
                assert(rest[i] == step);
                own_step_delivers(subs, moves, m, sub);
                deliveries_hold(list, sub);
                let shorter = moves.take(m as int);
                let own = subs[sub as int].net;
                let j = choose|j: int| 0 <= j < shorter.len() && (#[trigger] shorter[j]).0 == own;
                assert(moves[j].0 < moves[k - 1].0);
                assert(list.contains(sub) ==> on_net(subs, net)(sub as int));
            }
        }
        joined_once(reported, deliveries(list));
    }
}

proof fn dependents_once(subs: Seq<SenseSub>, moves: Seq<(usize, NetMove)>, k: nat)
    requires
        k <= moves.len(),
        subs.len() <= usize::MAX,
        moves_ascend(moves),
    ensures
        delivered_once(dependent_steps(subs, moves, k)),
    decreases k,
{
    if k > 0 {
        let m = (k - 1) as nat;
        dependents_once(subs, moves, m);
        let net = moves[k - 1].0;
        let list = select(subs.len(), told_at(subs, moves, net));
        select_properties(subs.len(), told_at(subs, moves, net));
        list_once(list);
        let rest = dependent_steps(subs, moves, m);
        assert forall|sub: usize| !(#[trigger] delivers(rest, sub) && delivers(
            deliveries(list),
            sub,
        )) by {
            if delivers(rest, sub) {
                dependent_step_delivers(subs, moves, m, sub);
                deliveries_hold(list, sub);
                let i = choose|i: int|
                    0 <= i < m && first_moved(subs[sub as int], moves) == Some(
                        (#[trigger] moves[i]).0,
                    );
                assert(moves[i].0 < moves[k - 1].0);
                assert(list.contains(sub) ==> told_at(subs, moves, net)(sub as int));
            }
        }
        joined_once(rest, deliveries(list));
    }
}

/// A pass tells a subscription exactly if its own net moved or a net it
/// depends on did, and tells it once.
pub proof fn a_subscription_is_told_once(
    subs: Seq<SenseSub>,
    moves: Seq<(usize, NetMove)>,
    sub: usize,
)
    requires
        subs.len() <= usize::MAX,
        moves_ascend(moves),
        sub < subs.len(),
    ensures
        delivers(sense_script(subs, moves), sub) <==> moved(moves, subs[sub as int].net) || exists|
            net: usize,
        | #[trigger] subs[sub as int].depends_on(net) && moved(moves, net),
        delivered_once(sense_script(subs, moves)),
{
    let own = own_steps(subs, moves, moves.len());
    let others = dependent_steps(subs, moves, moves.len());
    assert(moves.take(moves.len() as int) =~= moves);
    own_step_delivers(subs, moves, moves.len(), sub);
    dependent_step_delivers(subs, moves, moves.len(), sub);
    joined_steps(own, others, sub);
    let it = subs[sub as int];
    if exists|net: usize| #[trigger] it.depends_on(net) && moved(moves, net) {
        let net = choose|net: usize| #[trigger] it.depends_on(net) && moved(moves, net);
        assert(first_moved(it, moves) is Some);
        let first = first_moved(it, moves)->0;
        assert(it.depends_on(first) && moved(moves, first));
        let i = choose|i: int| 0 <= i < moves.len() && (#[trigger] moves[i]).0 == first;
        assert(first_moved(it, moves) == Some(moves[i].0));
    }
    if delivers(others, sub) {
        let first = first_moved(it, moves)->0;
        assert(it.depends_on(first) && moved(moves, first));
    }
    own_once(subs, moves, moves.len());
    dependents_once(subs, moves, moves.len());
    assert forall|s: usize| !(#[trigger] delivers(own, s) && delivers(others, s)) by {
        own_step_delivers(subs, moves, moves.len(), s);
        dependent_step_delivers(subs, moves, moves.len(), s);
    }
    joined_once(own, others);
}

} // verus!
