//! The order a pass reports its findings in.
pub mod laws;

use vstd::prelude::*;

use crate::coupling::keyed_view;
use crate::diagnostics::{all_reported, Diagnostics, Finding, FindingView};
use crate::pass::PassFindings;
use crate::scene::ClusterFindings;
use crate::seqs::{place_of, stable_by_key, stable_by_key_properties};

verus! {

/// The findings of a keyed list.
pub open spec fn unkeyed(list: Seq<(usize, FindingView)>) -> Seq<FindingView> {
    Seq::new(list.len(), |i: int| list[i].1)
}

/// A keyed list in the order it is reported: by key, entries of one key in
/// their own order.
pub open spec fn in_key_order(list: Seq<(usize, FindingView)>) -> Seq<FindingView> {
    unkeyed(stable_by_key(list))
}

/// A pass's findings in the order they are reported: fights, floating digital
/// and analog senses, power senses, stranded injections, clusters without an
/// operating point, refused rates.
pub open spec fn emission(findings: ClusterFindings) -> Seq<FindingView> {
    in_key_order(findings.contention) + in_key_order(findings.floating_digital) + in_key_order(
        findings.floating_analog,
    ) + in_key_order(findings.power) + in_key_order(findings.injection) + in_key_order(
        findings.nonconvergent,
    ) + in_key_order(findings.coupling)
}

/// No findings.
pub open spec fn no_findings() -> ClusterFindings {
    ClusterFindings {
        contention: Seq::empty(),
        floating_digital: Seq::empty(),
        floating_analog: Seq::empty(),
        power: Seq::empty(),
        injection: Seq::empty(),
        nonconvergent: Seq::empty(),
        coupling: Seq::empty(),
    }
}

/// Two clusters' findings, one behind the other in every list.
pub open spec fn joined(a: ClusterFindings, b: ClusterFindings) -> ClusterFindings {
    ClusterFindings {
        contention: a.contention + b.contention,
        floating_digital: a.floating_digital + b.floating_digital,
        floating_analog: a.floating_analog + b.floating_analog,
        power: a.power + b.power,
        injection: a.injection + b.injection,
        nonconvergent: a.nonconvergent + b.nonconvergent,
        coupling: a.coupling + b.coupling,
    }
}

/// Whether a keyed list holds a finding.
pub open spec fn list_holds(list: Seq<(usize, FindingView)>, finding: FindingView) -> bool {
    exists|i: int| 0 <= i < list.len() && (#[trigger] list[i]).1 == finding
}

/// Whether a pass found a finding.
pub open spec fn holds_finding(findings: ClusterFindings, finding: FindingView) -> bool {
    ||| list_holds(findings.contention, finding)
    ||| list_holds(findings.floating_digital, finding)
    ||| list_holds(findings.floating_analog, finding)
    ||| list_holds(findings.power, finding)
    ||| list_holds(findings.injection, finding)
    ||| list_holds(findings.nonconvergent, finding)
    ||| list_holds(findings.coupling, finding)
}

proof fn key_order_holds(list: Seq<(usize, FindingView)>, finding: FindingView)
    ensures
        in_key_order(list).contains(finding) <==> list_holds(list, finding),
{
    broadcast use vstd::seq_lib::group_to_multiset_ensures;

    stable_by_key_properties(list);
    let sorted = stable_by_key(list);
    if in_key_order(list).contains(finding) {
        let i = choose|i: int|
            0 <= i < in_key_order(list).len() && in_key_order(list)[i] == finding;
        let entry = sorted[i];
        assert(sorted.contains(entry));
        assert(sorted.to_multiset().count(entry) > 0);
        assert(list.contains(entry));
        let j = choose|j: int| 0 <= j < list.len() && list[j] == entry;
        assert(list[j].1 == finding);
    }
    if list_holds(list, finding) {
        let j = choose|j: int| 0 <= j < list.len() && (#[trigger] list[j]).1 == finding;
        let entry = list[j];
        assert(list.contains(entry));
        assert(list.to_multiset().count(entry) > 0);
        assert(sorted.contains(entry));
        let i = choose|i: int| 0 <= i < sorted.len() && sorted[i] == entry;
        assert(in_key_order(list)[i] == finding);
    }
}

proof fn concat_contains(a: Seq<FindingView>, b: Seq<FindingView>, finding: FindingView)
    ensures
        (a + b).contains(finding) <==> a.contains(finding) || b.contains(finding),
{
    let all = a + b;
    if all.contains(finding) {
        let i = choose|i: int| 0 <= i < all.len() && all[i] == finding;
        if i < a.len() {
            assert(a[i] == finding);
        } else {
            assert(b[i - a.len()] == finding);
        }
    }
    if a.contains(finding) {
        let i = choose|i: int| 0 <= i < a.len() && a[i] == finding;
        assert(all[i] == finding);
    }
    if b.contains(finding) {
        let i = choose|i: int| 0 <= i < b.len() && b[i] == finding;
        assert(all[i + a.len()] == finding);
    }
}

/// What is reported is exactly what was found.
pub proof fn emission_holds(findings: ClusterFindings, finding: FindingView)
    ensures
        emission(findings).contains(finding) <==> holds_finding(findings, finding),
{
    let a = in_key_order(findings.contention);
    let b = in_key_order(findings.floating_digital);
    let c = in_key_order(findings.floating_analog);
    let d = in_key_order(findings.power);
    let e = in_key_order(findings.injection);
    let f = in_key_order(findings.nonconvergent);
    let g = in_key_order(findings.coupling);
    concat_contains(a, b, finding);
    concat_contains(a + b, c, finding);
    concat_contains(a + b + c, d, finding);
    concat_contains(a + b + c + d, e, finding);
    concat_contains(a + b + c + d + e, f, finding);
    concat_contains(a + b + c + d + e + f, g, finding);
    key_order_holds(findings.contention, finding);
    key_order_holds(findings.floating_digital, finding);
    key_order_holds(findings.floating_analog, finding);
    key_order_holds(findings.power, finding);
    key_order_holds(findings.injection, finding);
    key_order_holds(findings.nonconvergent, finding);
    key_order_holds(findings.coupling, finding);
}

proof fn concat_list_holds(
    a: Seq<(usize, FindingView)>,
    b: Seq<(usize, FindingView)>,
    finding: FindingView,
)
    ensures
        list_holds(a + b, finding) <==> list_holds(a, finding) || list_holds(b, finding),
{
    let all = a + b;
    if list_holds(all, finding) {
        let i = choose|i: int| 0 <= i < all.len() && (#[trigger] all[i]).1 == finding;
        if i < a.len() {
            assert(a[i].1 == finding);
        } else {
            assert(b[i - a.len()].1 == finding);
        }
    }
    if list_holds(a, finding) {
        let i = choose|i: int| 0 <= i < a.len() && (#[trigger] a[i]).1 == finding;
        assert(all[i].1 == finding);
    }
    if list_holds(b, finding) {
        let i = choose|i: int| 0 <= i < b.len() && (#[trigger] b[i]).1 == finding;
        assert(all[i + a.len()].1 == finding);
    }
}

/// Joined findings hold what either holds.
pub proof fn joined_holds(a: ClusterFindings, b: ClusterFindings, finding: FindingView)
    ensures
        holds_finding(joined(a, b), finding) <==> holds_finding(a, finding) || holds_finding(
            b,
            finding,
        ),
{
    concat_list_holds(a.contention, b.contention, finding);
    concat_list_holds(a.floating_digital, b.floating_digital, finding);
    concat_list_holds(a.floating_analog, b.floating_analog, finding);
    concat_list_holds(a.power, b.power, finding);
    concat_list_holds(a.injection, b.injection, finding);
    concat_list_holds(a.nonconvergent, b.nonconvergent, finding);
    concat_list_holds(a.coupling, b.coupling, finding);
}

proof fn place_from_the_end(s: Seq<(usize, FindingView)>, key: usize, at: int)
    requires
        0 <= at <= s.len(),
        forall|i: int| at <= i < s.len() ==> (#[trigger] s[i]).0 > key,
        at > 0 ==> s[at - 1].0 <= key,
    ensures
        place_of(s, key) == at,
    decreases s.len(),
{
    if s.len() > 0 && at < s.len() {
        assert(s[s.len() - 1].0 > key);
        let d = s.drop_last();
        assert forall|i: int| at <= i < d.len() implies (#[trigger] d[i]).0 > key by {
            assert(d[i] == s[i]);
        }
        place_from_the_end(d, key, at);
    }
}

/// A keyed list in key order, entries of one key in their own order.
fn sort_findings(list: Vec<(usize, Finding)>) -> (sorted: Vec<(usize, Finding)>)
    ensures
        keyed_view(sorted@) == stable_by_key(keyed_view(list@)),
{
    let ghost all = keyed_view(list@);
    let mut left = list;
    let mut reversed: Vec<(usize, Finding)> = Vec::new();
    while left.len() > 0
        invariant
            left@.len() + reversed@.len() == list@.len(),
            left@ =~= list@.take(left@.len() as int),
            forall|i: int|
                0 <= i < reversed@.len() ==> #[trigger] reversed@[i] == list@[list@.len() - 1 - i],
        decreases left@.len(),
    {
        if let Some(entry) = left.pop() {
            reversed.push(entry);
        }
    }
    let ghost backwards = reversed@;
    let mut sorted: Vec<(usize, Finding)> = Vec::new();
    assert(keyed_view(sorted@) =~= stable_by_key(all.take(0)));
    while reversed.len() > 0
        invariant
            reversed@.len() <= all.len(),
            all == keyed_view(list@),
            backwards.len() == list@.len(),
            reversed@ =~= backwards.take(reversed@.len() as int),
            forall|i: int|
                0 <= i < backwards.len() ==> #[trigger] backwards[i] == list@[list@.len() - 1 - i],
            keyed_view(sorted@) == stable_by_key(all.take(all.len() - reversed@.len())),
        decreases reversed@.len(),
    {
        let ghost done = all.len() - reversed@.len();
        if let Some(entry) = reversed.pop() {
            assert(entry == list@[done]);
            assert(all.take(done + 1).drop_last() =~= all.take(done));
            assert(all.take(done + 1).last() == all[done]);
            let ghost before = keyed_view(sorted@);
            let mut at: usize = sorted.len();
            while at > 0 && sorted[at - 1].0 > entry.0
                invariant
                    at <= sorted@.len(),
                    before == keyed_view(sorted@),
                    forall|i: int| at <= i < before.len() ==> (#[trigger] before[i]).0 > entry.0,
                decreases at,
            {
                assert(before[at - 1].0 == sorted@[at - 1].0);
                at -= 1;
            }
            proof {
                if at > 0 {
                    assert(before[at - 1].0 == sorted@[at - 1].0);
                }
                place_from_the_end(before, entry.0, at as int);
            }
            let ghost view = (entry.0, entry.1@);
            sorted.insert(at, entry);
            assert(keyed_view(sorted@) =~= before.insert(at as int, view));
        }
    }
    assert(all.take(all.len() as int) =~= all);
    sorted
}

/// Report a keyed list in key order.
fn report_list(list: Vec<(usize, Finding)>, diagnostics: &mut Diagnostics)
    ensures
        final(diagnostics)@ == all_reported(
            old(diagnostics)@,
            in_key_order(keyed_view(list@)),
        ),
{
    let sorted = sort_findings(list);
    let ghost order = in_key_order(keyed_view(list@));
    let ghost start = diagnostics@;
    assert(order =~= unkeyed(keyed_view(sorted@)));
    let mut i: usize = 0;
    assert(order.take(0) =~= Seq::<FindingView>::empty());
    while i < sorted.len()
        invariant
            i <= sorted@.len(),
            order == unkeyed(keyed_view(sorted@)),
            diagnostics@ == all_reported(start, order.take(i as int)),
        decreases sorted@.len() - i,
    {
        assert(order.take(i + 1).drop_last() =~= order.take(i as int));
        assert(order.take(i + 1).last() == order[i as int]);
        diagnostics.report(sorted[i].1.clone());
        i += 1;
    }
    assert(order.take(i as int) =~= order);
}

/// Reporting one list behind another is reporting them as one.
pub proof fn reported_in_turn(
    bus: Seq<FindingView>,
    a: Seq<FindingView>,
    b: Seq<FindingView>,
)
    ensures
        all_reported(all_reported(bus, a), b) == all_reported(bus, a + b),
    decreases b.len(),
{
    if b.len() == 0 {
        assert(a + b =~= a);
    } else {
        reported_in_turn(bus, a, b.drop_last());
        assert((a + b).drop_last() =~= a + b.drop_last());
        assert((a + b).last() == b.last());
    }
}

impl PassFindings {
    /// No findings.
    pub fn new() -> (r: PassFindings)
        ensures
            r@ == no_findings(),
    {
        let r = PassFindings {
            contention: Vec::new(),
            floating_digital: Vec::new(),
            floating_analog: Vec::new(),
            power: Vec::new(),
            injection: Vec::new(),
            nonconvergent: Vec::new(),
            coupling: Vec::new(),
        };
        assert(r@ =~= no_findings());
        r
    }

    /// Put another cluster's findings behind these.
    pub fn extend(&mut self, other: PassFindings)
        ensures
            final(self)@ == joined(old(self)@, other@),
    {
        let PassFindings {
            contention,
            floating_digital,
            floating_analog,
            power,
            injection,
            nonconvergent,
            coupling,
        } = other;
        append_list(&mut self.contention, contention);
        append_list(&mut self.floating_digital, floating_digital);
        append_list(&mut self.floating_analog, floating_analog);
        append_list(&mut self.power, power);
        append_list(&mut self.injection, injection);
        append_list(&mut self.nonconvergent, nonconvergent);
        append_list(&mut self.coupling, coupling);
    }

    /// Report everything found, in order.
    pub fn emit(self, diagnostics: &mut Diagnostics)
        ensures
            final(diagnostics)@ == all_reported(old(diagnostics)@, emission(self@)),
    {
        let ghost start = diagnostics@;
        let ghost all = self@;
        let PassFindings {
            contention,
            floating_digital,
            floating_analog,
            power,
            injection,
            nonconvergent,
            coupling,
        } = self;
        report_list(contention, diagnostics);
        report_list(floating_digital, diagnostics);
        report_list(floating_analog, diagnostics);
        report_list(power, diagnostics);
        report_list(injection, diagnostics);
        report_list(nonconvergent, diagnostics);
        report_list(coupling, diagnostics);
        proof {
            let a = in_key_order(all.contention);
            let b = in_key_order(all.floating_digital);
            let c = in_key_order(all.floating_analog);
            let d = in_key_order(all.power);
            let e = in_key_order(all.injection);
            let f = in_key_order(all.nonconvergent);
            let g = in_key_order(all.coupling);
            reported_in_turn(start, a, b);
            reported_in_turn(start, a + b, c);
            reported_in_turn(start, a + b + c, d);
            reported_in_turn(start, a + b + c + d, e);
            reported_in_turn(start, a + b + c + d + e, f);
            reported_in_turn(start, a + b + c + d + e + f, g);
        }
    }
}

fn append_list(list: &mut Vec<(usize, Finding)>, more: Vec<(usize, Finding)>)
    ensures
        keyed_view(final(list)@) == keyed_view(old(list)@) + keyed_view(more@),
{
    let mut more = more;
    let ghost tail = more@;
    let ghost head = list@;
    list.append(&mut more);
    assert(keyed_view(list@) =~= keyed_view(head) + keyed_view(tail));
}

} // verus!
