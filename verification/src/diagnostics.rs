//! Findings and the bus that keeps each of them once.
use vstd::prelude::*;

use crate::net::{PinRef, PinRefView};
use crate::quantity::{Ohms, Volts};

verus! {

/// What a floating sense pin reads.
#[derive(Debug, Clone, Copy, PartialEq, Eq, Structural)]
pub enum SenseKind {
    /// A level.
    Digital,
    /// A voltage.
    Analog,
}

/// What kind of callback panicked.
#[derive(Debug, Clone, Copy, PartialEq, Eq, Structural)]
pub enum CallbackKind {
    /// A sense delivery.
    Sense,
    /// A timer wake.
    Wake,
    /// A topology notification.
    Topology,
}

/// A defect of the board or of the run.
#[allow(inconsistent_fields)]
#[derive(Debug, PartialEq, Eq)]
pub enum Finding {
    /// Strong sources fought on a net.
    Contention {
        /// The net.
        net: String,
        /// The pins that fought; a terminal has none.
        drivers: Vec<PinRef>,
    },
    /// The voltage a fight settled at is no level.
    AmbiguousLevel {
        /// The net.
        net: String,
        /// The voltage.
        volts: Volts,
    },
    /// A sense pin reads a floating net.
    FloatingSense {
        /// The net.
        net: String,
        /// What the pin reads.
        kind: SenseKind,
    },
    /// A power pin's net has no source.
    PowerNetUnsourced {
        /// The net.
        net: String,
    },
    /// A current was injected where nothing returns it.
    CurrentIntoFloatingNode {
        /// The net.
        net: String,
        /// The injecting pin.
        pin: PinRef,
    },
    /// An element cluster has no consistent regions.
    NonConvergent {
        /// The cluster's first net.
        cluster: String,
        /// The elements' references.
        elements: Vec<String>,
        /// How many solves were tried.
        solves: usize,
    },
    /// A coupling capacitor refused a rate.
    PeriodicNotCoupled {
        /// The net on the far side.
        net: String,
        /// The capacitor's reference.
        capacitor: String,
        /// The rate.
        hz: u32,
        /// The capacitor's reactance at the rate.
        reactance_ohms: Ohms,
        /// The far node's resistance.
        far_ohms: Ohms,
    },
    /// A subscriber's callback panicked.
    CallbackPanic {
        /// What was being delivered.
        kind: CallbackKind,
        /// Who subscribed.
        subscriber: String,
    },
    /// A request needed the virtual clock before it ran.
    VirtualClockUninitialized {
        /// What asked.
        context: String,
    },
    /// Actors never parked.
    QuiescenceTimeout {
        /// Their names.
        actors: Vec<String>,
    },
    /// A drive sequence number never arrived.
    DriveSeqGap {
        /// The missing number.
        seq: u64,
    },
    /// A part's class could not be told.
    ClassificationError {
        /// The part's reference.
        reference: String,
        /// The part.
        part: String,
        /// What went wrong.
        message: String,
    },
    /// A stream's buffer overran.
    StreamOverrun {
        /// The producing pin.
        producer: PinRef,
    },
}

/// A finding with its text as characters.
#[allow(inconsistent_fields)]
#[verifier::ext_equal]
pub enum FindingView {
    /// See [`Finding::Contention`].
    Contention { net: Seq<char>, drivers: Seq<PinRefView> },
    /// See [`Finding::AmbiguousLevel`].
    AmbiguousLevel { net: Seq<char>, volts: Volts },
    /// See [`Finding::FloatingSense`].
    FloatingSense { net: Seq<char>, kind: SenseKind },
    /// See [`Finding::PowerNetUnsourced`].
    PowerNetUnsourced { net: Seq<char> },
    /// See [`Finding::CurrentIntoFloatingNode`].
    CurrentIntoFloatingNode { net: Seq<char>, pin: PinRefView },
    /// See [`Finding::NonConvergent`].
    NonConvergent { cluster: Seq<char>, elements: Seq<Seq<char>>, solves: usize },
    /// See [`Finding::PeriodicNotCoupled`].
    PeriodicNotCoupled {
        net: Seq<char>,
        capacitor: Seq<char>,
        hz: u32,
        reactance_ohms: Ohms,
        far_ohms: Ohms,
    },
    /// See [`Finding::CallbackPanic`].
    CallbackPanic { kind: CallbackKind, subscriber: Seq<char> },
    /// See [`Finding::VirtualClockUninitialized`].
    VirtualClockUninitialized { context: Seq<char> },
    /// See [`Finding::QuiescenceTimeout`].
    QuiescenceTimeout { actors: Seq<Seq<char>> },
    /// See [`Finding::DriveSeqGap`].
    DriveSeqGap { seq: u64 },
    /// See [`Finding::ClassificationError`].
    ClassificationError { reference: Seq<char>, part: Seq<char>, message: Seq<char> },
    /// See [`Finding::StreamOverrun`].
    StreamOverrun { producer: PinRefView },
}

/// Pins as their names.
pub open spec fn pins_view(pins: Seq<PinRef>) -> Seq<PinRefView> {
    Seq::new(pins.len(), |i: int| pins[i]@)
}

/// Strings as characters.
pub open spec fn names_view(names: Seq<String>) -> Seq<Seq<char>> {
    Seq::new(names.len(), |i: int| names[i]@)
}

/// Findings as their views.
pub open spec fn findings_view(findings: Seq<Finding>) -> Seq<FindingView> {
    Seq::new(findings.len(), |i: int| findings[i]@)
}

impl View for Finding {
    type V = FindingView;

    open spec fn view(&self) -> FindingView {
        match self {
            Finding::Contention { net, drivers } => FindingView::Contention {
                net: net@,
                drivers: pins_view(drivers@),
            },
            Finding::AmbiguousLevel { net, volts } => FindingView::AmbiguousLevel {
                net: net@,
                volts: *volts,
            },
            Finding::FloatingSense { net, kind } => FindingView::FloatingSense {
                net: net@,
                kind: *kind,
            },
            Finding::PowerNetUnsourced { net } => FindingView::PowerNetUnsourced { net: net@ },
            Finding::CurrentIntoFloatingNode { net, pin } => FindingView::CurrentIntoFloatingNode {
                net: net@,
                pin: pin@,
            },
            Finding::NonConvergent { cluster, elements, solves } => FindingView::NonConvergent {
                cluster: cluster@,
                elements: names_view(elements@),
                solves: *solves,
            },
            Finding::PeriodicNotCoupled { net, capacitor, hz, reactance_ohms, far_ohms } =>
                FindingView::PeriodicNotCoupled {
                    net: net@,
                    capacitor: capacitor@,
                    hz: *hz,
                    reactance_ohms: *reactance_ohms,
                    far_ohms: *far_ohms,
                },
            Finding::CallbackPanic { kind, subscriber } => FindingView::CallbackPanic {
                kind: *kind,
                subscriber: subscriber@,
            },
            Finding::VirtualClockUninitialized { context } =>
                FindingView::VirtualClockUninitialized { context: context@ },
            Finding::QuiescenceTimeout { actors } => FindingView::QuiescenceTimeout {
                actors: names_view(actors@),
            },
            Finding::DriveSeqGap { seq } => FindingView::DriveSeqGap { seq: *seq },
            Finding::ClassificationError { reference, part, message } =>
                FindingView::ClassificationError {
                    reference: reference@,
                    part: part@,
                    message: message@,
                },
            Finding::StreamOverrun { producer } => FindingView::StreamOverrun {
                producer: producer@,
            },
        }
    }
}

/// A copy of a pin list.
pub fn copy_pins(pins: &Vec<PinRef>) -> (r: Vec<PinRef>)
    ensures
        pins_view(r@) == pins_view(pins@),
{
    let mut r: Vec<PinRef> = Vec::new();
    let mut i: usize = 0;
    while i < pins.len()
        invariant
            i <= pins@.len(),
            r@.len() == i,
            forall|j: int| 0 <= j < i ==> (#[trigger] r@[j])@ == pins@[j]@,
        decreases pins@.len() - i,
    {
        r.push(pins[i].clone());
        i += 1;
    }
    assert(pins_view(r@) =~= pins_view(pins@));
    r
}

/// A copy of a list of names.
pub fn copy_names(names: &Vec<String>) -> (r: Vec<String>)
    ensures
        names_view(r@) == names_view(names@),
{
    let mut r: Vec<String> = Vec::new();
    let mut i: usize = 0;
    while i < names.len()
        invariant
            i <= names@.len(),
            r@.len() == i,
            forall|j: int| 0 <= j < i ==> (#[trigger] r@[j])@ == names@[j]@,
        decreases names@.len() - i,
    {
        r.push(names[i].clone());
        i += 1;
    }
    assert(names_view(r@) =~= names_view(names@));
    r
}

/// Whether two pin lists name the same pins.
pub fn same_pins(a: &Vec<PinRef>, b: &Vec<PinRef>) -> (r: bool)
    ensures
        r == (pins_view(a@) == pins_view(b@)),
{
    if a.len() != b.len() {
        assert(pins_view(a@).len() != pins_view(b@).len());
        return false;
    }
    let mut i: usize = 0;
    while i < a.len()
        invariant
            i <= a@.len(),
            a@.len() == b@.len(),
            forall|j: int| 0 <= j < i ==> (#[trigger] a@[j])@ == b@[j]@,
        decreases a@.len() - i,
    {
        if !a[i].same(&b[i]) {
            assert(pins_view(a@)[i as int] != pins_view(b@)[i as int]);
            return false;
        }
        i += 1;
    }
    assert(pins_view(a@) =~= pins_view(b@));
    true
}

/// Whether two lists hold the same names.
pub fn same_names(a: &Vec<String>, b: &Vec<String>) -> (r: bool)
    ensures
        r == (names_view(a@) == names_view(b@)),
{
    if a.len() != b.len() {
        assert(names_view(a@).len() != names_view(b@).len());
        return false;
    }
    let mut i: usize = 0;
    while i < a.len()
        invariant
            i <= a@.len(),
            a@.len() == b@.len(),
            forall|j: int| 0 <= j < i ==> (#[trigger] a@[j])@ == b@[j]@,
        decreases a@.len() - i,
    {
        if a[i] != b[i] {
            assert(names_view(a@)[i as int] != names_view(b@)[i as int]);
            return false;
        }
        i += 1;
    }
    assert(names_view(a@) =~= names_view(b@));
    true
}

impl Clone for Finding {
    fn clone(&self) -> (r: Finding)
        ensures
            r@ == self@,
    {
        match self {
            Finding::Contention { net, drivers } => Finding::Contention {
                net: net.clone(),
                drivers: copy_pins(drivers),
            },
            Finding::AmbiguousLevel { net, volts } => Finding::AmbiguousLevel {
                net: net.clone(),
                volts: *volts,
            },
            Finding::FloatingSense { net, kind } => Finding::FloatingSense {
                net: net.clone(),
                kind: *kind,
            },
            Finding::PowerNetUnsourced { net } => Finding::PowerNetUnsourced { net: net.clone() },
            Finding::CurrentIntoFloatingNode { net, pin } => Finding::CurrentIntoFloatingNode {
                net: net.clone(),
                pin: pin.clone(),
            },
            Finding::NonConvergent { cluster, elements, solves } => Finding::NonConvergent {
                cluster: cluster.clone(),
                elements: copy_names(elements),
                solves: *solves,
            },
            Finding::PeriodicNotCoupled { net, capacitor, hz, reactance_ohms, far_ohms } =>
                Finding::PeriodicNotCoupled {
                    net: net.clone(),
                    capacitor: capacitor.clone(),
                    hz: *hz,
                    reactance_ohms: *reactance_ohms,
                    far_ohms: *far_ohms,
                },
            Finding::CallbackPanic { kind, subscriber } => Finding::CallbackPanic {
                kind: *kind,
                subscriber: subscriber.clone(),
            },
            Finding::VirtualClockUninitialized { context } => Finding::VirtualClockUninitialized {
                context: context.clone(),
            },
            Finding::QuiescenceTimeout { actors } => Finding::QuiescenceTimeout {
                actors: copy_names(actors),
            },
            Finding::DriveSeqGap { seq } => Finding::DriveSeqGap { seq: *seq },
            Finding::ClassificationError { reference, part, message } =>
                Finding::ClassificationError {
                    reference: reference.clone(),
                    part: part.clone(),
                    message: message.clone(),
                },
            Finding::StreamOverrun { producer } => Finding::StreamOverrun {
                producer: producer.clone(),
            },
        }
    }
}

impl Finding {
    /// Whether two findings say the same.
    pub fn same(&self, other: &Finding) -> (r: bool)
        ensures
            r == (self@ == other@),
    {
        match (self, other) {
            (
                Finding::Contention { net: a, drivers: x },
                Finding::Contention { net: b, drivers: y },
            ) => *a == *b && same_pins(x, y),
            (
                Finding::AmbiguousLevel { net: a, volts: x },
                Finding::AmbiguousLevel { net: b, volts: y },
            ) => *a == *b && *x == *y,
            (
                Finding::FloatingSense { net: a, kind: x },
                Finding::FloatingSense { net: b, kind: y },
            ) => *a == *b && *x == *y,
            (Finding::PowerNetUnsourced { net: a }, Finding::PowerNetUnsourced { net: b }) => *a
                == *b,
            (
                Finding::CurrentIntoFloatingNode { net: a, pin: x },
                Finding::CurrentIntoFloatingNode { net: b, pin: y },
            ) => *a == *b && x.same(y),
            (
                Finding::NonConvergent { cluster: a, elements: x, solves: s },
                Finding::NonConvergent { cluster: b, elements: y, solves: t },
            ) => *a == *b && same_names(x, y) && *s == *t,
            (
                Finding::PeriodicNotCoupled {
                    net: a,
                    capacitor: c,
                    hz: h,
                    reactance_ohms: r,
                    far_ohms: f,
                },
                Finding::PeriodicNotCoupled {
                    net: b,
                    capacitor: d,
                    hz: i,
                    reactance_ohms: s,
                    far_ohms: g,
                },
            ) => *a == *b && *c == *d && *h == *i && *r == *s && *f == *g,
            (
                Finding::CallbackPanic { kind: k, subscriber: a },
                Finding::CallbackPanic { kind: l, subscriber: b },
            ) => *k == *l && *a == *b,
            (
                Finding::VirtualClockUninitialized { context: a },
                Finding::VirtualClockUninitialized { context: b },
            ) => *a == *b,
            (
                Finding::QuiescenceTimeout { actors: a },
                Finding::QuiescenceTimeout { actors: b },
            ) => same_names(a, b),
            (Finding::DriveSeqGap { seq: a }, Finding::DriveSeqGap { seq: b }) => *a == *b,
            (
                Finding::ClassificationError { reference: a, part: p, message: m },
                Finding::ClassificationError { reference: b, part: q, message: n },
            ) => *a == *b && *p == *q && *m == *n,
            (
                Finding::StreamOverrun { producer: a },
                Finding::StreamOverrun { producer: b },
            ) => a.same(b),
            _ => false,
        }
    }
}

/// A list of findings, each kept once, in the order first reported.
#[derive(Debug)]
pub struct Diagnostics {
    findings: Vec<Finding>,
}

impl View for Diagnostics {
    type V = Seq<FindingView>;

    closed spec fn view(&self) -> Seq<FindingView> {
        findings_view(self.findings@)
    }
}

/// The bus after a report: the finding behind the others, unless it is
/// already there.
pub open spec fn reported(bus: Seq<FindingView>, finding: FindingView) -> Seq<FindingView> {
    if bus.contains(finding) {
        bus
    } else {
        bus.push(finding)
    }
}

/// The bus after a list of reports, first to last.
pub open spec fn all_reported(bus: Seq<FindingView>, findings: Seq<FindingView>) -> Seq<
    FindingView,
>
    decreases findings.len(),
{
    if findings.len() == 0 {
        bus
    } else {
        reported(all_reported(bus, findings.drop_last()), findings.last())
    }
}

/// Reporting adds exactly what was reported, keeps what was there in place,
/// and holds nothing twice.
pub proof fn all_reported_properties(bus: Seq<FindingView>, findings: Seq<FindingView>)
    ensures
        forall|f: FindingView|
            #[trigger] all_reported(bus, findings).contains(f) <==> bus.contains(f)
                || findings.contains(f),
        bus.is_prefix_of(all_reported(bus, findings)),
        bus.no_duplicates() ==> all_reported(bus, findings).no_duplicates(),
    decreases findings.len(),
{
    if findings.len() > 0 {
        let rest = findings.drop_last();
        let last = findings.last();
        all_reported_properties(bus, rest);
        let mid = all_reported(bus, rest);
        let end = all_reported(bus, findings);
        assert forall|f: FindingView| #[trigger] end.contains(f) <==> bus.contains(f)
            || findings.contains(f) by {
            assert(findings =~= rest.push(last));
            if findings.contains(f) {
                let i = choose|i: int| 0 <= i < findings.len() && findings[i] == f;
                if i < rest.len() {
                    assert(rest[i] == f);
                    assert(rest.contains(f));
                }
            }
            if rest.contains(f) {
                let i = choose|i: int| 0 <= i < rest.len() && rest[i] == f;
                assert(findings[i] == f);
            }
            assert(findings[findings.len() - 1] == last);
            if mid.contains(f) {
                let i = choose|i: int| 0 <= i < mid.len() && mid[i] == f;
                assert(end[i] == f);
            }
            if f == last && !mid.contains(last) {
                assert(end[end.len() - 1] == last);
            }
            if end.contains(f) && !mid.contains(last) {
                let i = choose|i: int| 0 <= i < end.len() && end[i] == f;
                if i < mid.len() {
                    assert(mid[i] == f);
                }
            }
        }
        assert(bus.is_prefix_of(end)) by {
            assert forall|i: int| 0 <= i < bus.len() implies bus[i] == end[i] by {
                assert(bus[i] == mid[i]);
            }
            assert(bus =~= end.take(bus.len() as int));
        }
    } else {
        assert(bus =~= bus.take(bus.len() as int));
    }
}

/// Reporting what the bus already holds changes nothing.
pub proof fn known_findings_change_nothing(bus: Seq<FindingView>, findings: Seq<FindingView>)
    requires
        forall|f: FindingView| findings.contains(f) ==> bus.contains(f),
    ensures
        all_reported(bus, findings) == bus,
    decreases findings.len(),
{
    if findings.len() > 0 {
        assert forall|f: FindingView| findings.drop_last().contains(f) implies bus.contains(f) by {
            let i = choose|i: int|
                0 <= i < findings.drop_last().len() && findings.drop_last()[i] == f;
            assert(findings[i] == f);
            assert(findings.contains(f));
        }
        known_findings_change_nothing(bus, findings.drop_last());
        assert(findings[findings.len() - 1] == findings.last());
        assert(findings.contains(findings.last()));
    }
}

/// Findings gathered on a bus of their own and then reported are reported.
pub proof fn gathered_findings_report_alike(bus: Seq<FindingView>, findings: Seq<FindingView>)
    ensures
        all_reported(bus, all_reported(Seq::empty(), findings)) == all_reported(bus, findings),
    decreases findings.len(),
{
    if findings.len() > 0 {
        let rest = findings.drop_last();
        let last = findings.last();
        gathered_findings_report_alike(bus, rest);
        let gathered = all_reported(Seq::<FindingView>::empty(), rest);
        if gathered.contains(last) {
            all_reported_properties(bus, gathered);
            assert(all_reported(bus, gathered).contains(last));
        } else {
            assert(gathered.push(last).drop_last() =~= gathered);
            assert(gathered.push(last).last() == last);
        }
    }
}

impl Diagnostics {
    /// An empty bus.
    pub fn new() -> (d: Diagnostics)
        ensures
            d@ == Seq::<FindingView>::empty(),
    {
        let d = Diagnostics { findings: Vec::new() };
        assert(d@ =~= Seq::<FindingView>::empty());
        d
    }

    /// How many findings there are.
    pub fn len(&self) -> (n: usize)
        ensures
            n == self@.len(),
    {
        self.findings.len()
    }

    /// Whether nothing was found.
    pub fn is_empty(&self) -> (r: bool)
        ensures
            r == (self@.len() == 0),
    {
        self.findings.len() == 0
    }

    /// The findings, in the order first reported.
    pub fn findings(&self) -> (r: &Vec<Finding>)
        ensures
            findings_view(r@) == self@,
    {
        &self.findings
    }

    /// Whether a finding is on the bus.
    pub fn contains(&self, finding: &Finding) -> (r: bool)
        ensures
            r == self@.contains(finding@),
    {
        let mut i: usize = 0;
        while i < self.findings.len()
            invariant
                i <= self.findings@.len(),
                forall|j: int| 0 <= j < i ==> (#[trigger] self.findings@[j])@ != finding@,
            decreases self.findings@.len() - i,
        {
            if self.findings[i].same(finding) {
                assert(self@[i as int] == finding@);
                return true;
            }
            i += 1;
        }
        false
    }

    /// Report a finding; true only the first time it appears.
    pub fn report(&mut self, finding: Finding) -> (novel: bool)
        ensures
            novel == !old(self)@.contains(finding@),
            final(self)@ == reported(old(self)@, finding@),
    {
        if self.contains(&finding) {
            return false;
        }
        let ghost view = finding@;
        self.findings.push(finding);
        assert(self@ =~= old(self)@.push(view));
        true
    }
}

} // verus!
