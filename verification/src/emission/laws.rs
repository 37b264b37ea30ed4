//! The order findings are reported in.
use vstd::prelude::*;

use crate::diagnostics::{all_reported, reported, FindingView};
use crate::emission::{emission, in_key_order, joined, no_findings};
use crate::scene::ClusterFindings;
use crate::seqs::{keys_sorted, stable_by_key, stable_by_key_properties};

verus! {

/// A list is reported whole, by key: as many findings as it has, each with its
/// key no more than the next.
pub proof fn a_list_is_reported_by_key(list: Seq<(usize, FindingView)>)
    ensures
        in_key_order(list).len() == list.len(),
        exists|sorted: Seq<(usize, FindingView)>|
            {
                &&& #[trigger] sorted.len() == list.len()
                &&& sorted.to_multiset() == list.to_multiset()
                &&& forall|i: int, j: int|
                    0 <= i < j < sorted.len() ==> (#[trigger] sorted[i]).0 <= (
                    #[trigger] sorted[j]).0
                &&& forall|i: int|
                    0 <= i < sorted.len() ==> #[trigger] in_key_order(list)[i] == sorted[i].1
            },
{
    stable_by_key_properties(list);
    let sorted = stable_by_key(list);
    assert(keys_sorted(sorted));
    assert(sorted.len() == list.len());
}

/// Fights are reported first, then floating levels, floating voltages, power
/// pins, stranded currents, clusters without a point and refused rates: with
/// findings of one sort alone, those are what is reported.
pub proof fn findings_are_reported_by_sort(
    findings: ClusterFindings,
    list: Seq<(usize, FindingView)>,
)
    ensures
        emission(no_findings()).len() == 0,
        emission(findings).len() == findings.contention.len() + findings.floating_digital.len()
            + findings.floating_analog.len() + findings.power.len() + findings.injection.len()
            + findings.nonconvergent.len() + findings.coupling.len(),
        in_key_order(findings.contention).is_prefix_of(emission(findings)),
        forall|i: int|
            0 <= i < findings.floating_digital.len() ==> emission(
                findings,
            )[findings.contention.len() + i] == #[trigger] in_key_order(
                findings.floating_digital,
            )[i],
        forall|i: int|
            0 <= i < findings.coupling.len() ==> emission(findings)[emission(findings).len()
                - findings.coupling.len() + i] == #[trigger] in_key_order(findings.coupling)[i],
{
    a_list_is_reported_by_key(findings.contention);
    a_list_is_reported_by_key(findings.floating_digital);
    a_list_is_reported_by_key(findings.floating_analog);
    a_list_is_reported_by_key(findings.power);
    a_list_is_reported_by_key(findings.injection);
    a_list_is_reported_by_key(findings.nonconvergent);
    a_list_is_reported_by_key(findings.coupling);
    a_list_is_reported_by_key(Seq::empty());
    let first = in_key_order(findings.contention);
    assert(first =~= emission(findings).take(first.len() as int));
}

/// A finding is on the bus once it is reported, behind those that were, and is
/// there once however often it is.
pub proof fn a_report_adds_what_is_new(bus: Seq<FindingView>, finding: FindingView)
    ensures
        reported(bus, finding).contains(finding),
        bus.is_prefix_of(reported(bus, finding)),
        bus.contains(finding) ==> reported(bus, finding) == bus,
        !bus.contains(finding) ==> reported(bus, finding) == bus.push(finding),
        reported(reported(bus, finding), finding) == reported(bus, finding),
        all_reported(bus, seq![finding]) == reported(bus, finding),
        all_reported(bus, Seq::empty()) == bus,
{
    reveal_with_fuel(all_reported, 2);
    let after = reported(bus, finding);
    if !bus.contains(finding) {
        assert(after[bus.len() as int] == finding);
        assert(bus =~= after.take(bus.len() as int));
    } else {
        assert(bus =~= after.take(bus.len() as int));
    }
    assert(seq![finding].drop_last() =~= Seq::<FindingView>::empty());
}

/// Two clusters' findings are joined sort by sort, the first's before the
/// second's.
pub proof fn findings_join_by_sort(a: ClusterFindings, b: ClusterFindings)
    ensures
        joined(a, b).contention == a.contention + b.contention,
        joined(a, b).floating_digital == a.floating_digital + b.floating_digital,
        joined(a, b).floating_analog == a.floating_analog + b.floating_analog,
        joined(a, b).power == a.power + b.power,
        joined(a, b).injection == a.injection + b.injection,
        joined(a, b).nonconvergent == a.nonconvergent + b.nonconvergent,
        joined(a, b).coupling == a.coupling + b.coupling,
{
}

} // verus!
