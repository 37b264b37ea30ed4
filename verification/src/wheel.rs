//! The timer wheel: wakes in deadline order, one for every component and
//! instant.
pub mod laws;

use vstd::prelude::*;

use crate::net::ComponentId;

verus! {

/// One armed wake.
#[derive(Debug, Clone, Copy, PartialEq, Eq, Structural)]
pub struct TimerEntry {
    /// The virtual instant it is due at, in nanoseconds.
    pub deadline_ns: u64,
    /// Whom it wakes.
    pub component: ComponentId,
    /// A periodic wake's period.
    pub period_ns: Option<u64>,
}

/// A wake that is due.
#[derive(Debug, Clone, Copy, PartialEq, Eq, Structural)]
pub struct DueWake {
    /// The entry taken off the wheel.
    pub entry: TimerEntry,
    /// Whether to deliver it: the first entry of its component at its instant
    /// since the wake was asked for.
    pub deliver: bool,
}

/// A timer wheel.
#[derive(Debug)]
pub struct TimerWheel {
    /// The entries, the next to fire last.
    entries: Vec<TimerEntry>,
    /// The component and instant of every wake asked for and not delivered.
    armed: Vec<(usize, u64)>,
}

/// Entries in deadline order.
pub open spec fn in_deadline_order(pending: Seq<TimerEntry>) -> bool {
    forall|i: int, j: int|
        0 <= i < j < pending.len() ==> pending[i].deadline_ns <= pending[j].deadline_ns
}

/// Where an entry due at `deadline` goes: behind every entry due no later.
pub open spec fn place_for(pending: Seq<TimerEntry>, deadline: u64) -> int
    decreases pending.len(),
{
    if pending.len() == 0 {
        0
    } else if pending.last().deadline_ns <= deadline {
        pending.len() as int
    } else {
        place_for(pending.drop_last(), deadline)
    }
}

/// The wheel with one more entry.
pub open spec fn with_entry(pending: Seq<TimerEntry>, entry: TimerEntry) -> Seq<TimerEntry> {
    pending.insert(place_for(pending, entry.deadline_ns), entry)
}

/// The instant a periodic wake that was due comes again.
pub open spec fn next_instant(deadline: u64, period: u64, now: u64) -> u64 {
    let next = sum_capped(deadline, period);
    if next <= now {
        sum_capped(now, period)
    } else {
        next
    }
}

/// A sum, at the last instant where it would pass it.
pub open spec fn sum_capped(a: u64, b: u64) -> u64 {
    if a + b > u64::MAX {
        u64::MAX
    } else {
        (a + b) as u64
    }
}

/// A sum, at the last instant where it would pass it.
pub fn capped(a: u64, b: u64) -> (r: u64)
    ensures
        r == sum_capped(a, b),
{
    if a > u64::MAX - b {
        u64::MAX
    } else {
        a + b
    }
}

/// Whether an entry wakes a component at an instant.
pub open spec fn on_wheel(entries: Seq<TimerEntry>, key: (usize, u64)) -> bool {
    exists|j: int|
        0 <= j < entries.len() && (#[trigger] entries[j]).component.0 == key.0
            && entries[j].deadline_ns == key.1
}

impl TimerWheel {
    /// The entries in the order they fire.
    pub closed spec fn pending(&self) -> Seq<TimerEntry> {
        self.entries@.reverse()
    }

    /// Whether a wake of a component at an instant was asked for and not
    /// delivered.
    pub closed spec fn is_armed(&self, component: usize, instant: u64) -> bool {
        self.armed@.contains((component, instant))
    }

    /// The entries are in deadline order, and every wake asked for is on the
    /// wheel.
    pub closed spec fn well_formed(&self) -> bool {
        &&& in_deadline_order(self.pending())
        &&& self.armed@.no_duplicates()
        &&& forall|i: int|
            0 <= i < self.armed@.len() ==> on_wheel(self.entries@, #[trigger] self.armed@[i])
    }

    /// The wakes of a wheel fire in deadline order, and every wake asked for
    /// is among them.
    pub proof fn fires_in_deadline_order(&self)
        requires
            self.well_formed(),
        ensures
            in_deadline_order(self.pending()),
            forall|c: usize, t: u64| #[trigger]
                self.is_armed(c, t) ==> on_wheel(self.pending(), (c, t)),
    {
        assert forall|c: usize, t: u64| #[trigger] self.is_armed(c, t) implies on_wheel(
            self.pending(),
            (c, t),
        ) by {
            let i = choose|i: int| 0 <= i < self.armed@.len() && self.armed@[i] == (c, t);
            assert(on_wheel(self.entries@, self.armed@[i]));
            let j = choose|j: int|
                0 <= j < self.entries@.len() && (#[trigger] self.entries@[j]).component.0 == c
                    && self.entries@[j].deadline_ns == t;
            assert(self.pending()[self.entries@.len() - 1 - j] == self.entries@[j]);
        }
    }

    /// An empty wheel.
    pub fn new() -> (r: TimerWheel)
        ensures
            r.well_formed(),
            r.pending() == Seq::<TimerEntry>::empty(),
            forall|c: usize, t: u64| !#[trigger] r.is_armed(c, t),
    {
        let r = TimerWheel { entries: Vec::new(), armed: Vec::new() };
        assert(r.pending() =~= Seq::<TimerEntry>::empty());
        r
    }

    /// Put an entry in its place.
    fn push(&mut self, entry: TimerEntry)
        requires
            in_deadline_order(old(self).pending()),
        ensures
            final(self).pending() == with_entry(old(self).pending(), entry),
            in_deadline_order(final(self).pending()),
            final(self).armed == old(self).armed,
            forall|j: int|
                0 <= j < old(self).entries@.len() ==> final(self).entries@.contains(
                    #[trigger] old(self).entries@[j],
                ),
            final(self).entries@.contains(entry),
    {
        let ghost before = self.entries@;
        let ghost pending = self.pending();
        let mut at: usize = 0;
        assert(pending.take(pending.len() as int) =~= pending);
        while at < self.entries.len() && self.entries[at].deadline_ns > entry.deadline_ns
            invariant
                at <= self.entries@.len(),
                self.entries@ == before,
                pending == before.reverse(),
                in_deadline_order(pending),
                place_for(pending, entry.deadline_ns) == place_for(
                    pending.take(pending.len() - at),
                    entry.deadline_ns,
                ),
            decreases self.entries@.len() - at,
        {
            proof {
                let rest = pending.take(pending.len() - at);
                assert(rest.last() == before[at as int]);
                assert(rest.drop_last() =~= pending.take(pending.len() - (at + 1)));
            }
            at += 1;
        }
        proof {
            let rest = pending.take(pending.len() - at);
            if at < before.len() {
                assert(rest.last() == before[at as int]);
            }
            assert(place_for(pending, entry.deadline_ns) == pending.len() - at);
        }
        self.entries.insert(at, entry);
        proof {
            let place = pending.len() - at;
            assert(self.entries@ == before.insert(at as int, entry));
            assert(self.pending() =~= pending.insert(place, entry));
            assert forall|j: int| 0 <= j < before.len() implies self.entries@.contains(
                #[trigger] before[j],
            ) by {
                if j < at {
                    assert(self.entries@[j] == before[j]);
                } else {
                    assert(self.entries@[j + 1] == before[j]);
                }
            }
            assert(self.entries@[at as int] == entry);
            inserted_in_order(pending, entry);
        }
    }

    /// Arm a wake. One wake is armed for every component and instant: a
    /// second one-shot at the same instant is the same wake. A periodic one
    /// is always put on the wheel, for it carries the period.
    pub fn arm(&mut self, deadline_ns: u64, component: ComponentId, period_ns: Option<u64>)
        requires
            old(self).well_formed(),
        ensures
            final(self).well_formed(),
            final(self).pending() == (if old(self).is_armed(component.0, deadline_ns)
                && period_ns is None {
                old(self).pending()
            } else {
                with_entry(
                    old(self).pending(),
                    TimerEntry { deadline_ns, component, period_ns },
                )
            }),
            forall|c: usize, t: u64| #[trigger]
                final(self).is_armed(c, t) <==> old(self).is_armed(c, t) || (c == component.0 && t
                    == deadline_ns),
    {
        let key = (component.0, deadline_ns);
        let fresh = !self.lists(key);
        let ghost start = *self;
        if !fresh && period_ns.is_none() {
            return ;
        }
        let entry = TimerEntry { deadline_ns, component, period_ns };
        self.push(entry);
        let ghost pushed = *self;
        proof {
            assert forall|i: int| 0 <= i < self.armed@.len() implies on_wheel(
                self.entries@,
                #[trigger] self.armed@[i],
            ) by {
                assert(on_wheel(start.entries@, start.armed@[i]));
                let j = choose|j: int|
                    0 <= j < start.entries@.len() && (#[trigger] start.entries@[j]).component.0
                        == start.armed@[i].0 && start.entries@[j].deadline_ns
                        == start.armed@[i].1;
                assert(self.entries@.contains(start.entries@[j]));
                let k = choose|k: int|
                    0 <= k < self.entries@.len() && self.entries@[k] == start.entries@[j];
                assert(self.entries@[k].component.0 == self.armed@[i].0);
            }
        }
        if fresh {
            self.armed.push(key);
            proof {
                assert(self.armed@ =~= start.armed@.push(key));
                assert forall|c: usize, t: u64| #[trigger]
                    self.is_armed(c, t) <==> start.is_armed(c, t) || (c == component.0 && t
                        == deadline_ns) by {
                    if self.is_armed(c, t) {
                        let i = choose|i: int|
                            0 <= i < self.armed@.len() && self.armed@[i] == (c, t);
                        if i < start.armed@.len() {
                            assert(start.armed@[i] == (c, t));
                        }
                    }
                    if start.is_armed(c, t) {
                        let i = choose|i: int|
                            0 <= i < start.armed@.len() && start.armed@[i] == (c, t);
                        assert(self.armed@[i] == (c, t));
                    }
                    assert(self.armed@[start.armed@.len() as int] == key);
                }
                assert forall|i: int| 0 <= i < self.armed@.len() implies on_wheel(
                    self.entries@,
                    #[trigger] self.armed@[i],
                ) by {
                    if i == start.armed@.len() {
                        let k = choose|k: int|
                            0 <= k < self.entries@.len() && self.entries@[k] == entry;
                        assert(self.entries@[k].component.0 == self.armed@[i].0);
                    } else {
                        assert(on_wheel(pushed.entries@, pushed.armed@[i]));
                    }
                }
            }
        }
    }

    fn lists(&self, key: (usize, u64)) -> (r: bool)
        ensures
            r == self.armed@.contains(key),
    {
        let mut i: usize = 0;
        while i < self.armed.len()
            invariant
                i <= self.armed@.len(),
                forall|j: int| 0 <= j < i ==> self.armed@[j] != key,
            decreases self.armed@.len() - i,
        {
            if self.armed[i].0 == key.0 && self.armed[i].1 == key.1 {
                assert(self.armed@[i as int] == key);
                return true;
            }
            i += 1;
        }
        false
    }

    /// The next instant a wake is due at.
    pub fn next_deadline(&self) -> (r: Option<u64>)
        ensures
            r == (if self.pending().len() > 0 {
                Some(self.pending()[0].deadline_ns)
            } else {
                None
            }),
    {
        let n: usize = self.entries.len();
        if n == 0 {
            None
        } else {
            Some(self.entries[n - 1].deadline_ns)
        }
    }

    /// Take the next wake off the wheel where it is due. The wake is cleared
    /// before it is delivered: a callback that asks for the same instant again
    /// asks for a new wake.
    pub fn pop_due(&mut self, now_ns: u64) -> (r: Option<DueWake>)
        requires
            old(self).well_formed(),
        ensures
            final(self).well_formed(),
            match r {
                None => {
                    &&& *final(self) == *old(self)
                    &&& old(self).pending().len() == 0 || old(self).pending()[0].deadline_ns > now_ns
                },
                Some(due) => {
                    &&& old(self).pending().len() > 0
                    &&& due.entry == old(self).pending()[0]
                    &&& due.entry.deadline_ns <= now_ns
                    &&& due.deliver == old(self).is_armed(
                        due.entry.component.0,
                        due.entry.deadline_ns,
                    )
                    &&& final(self).pending() == old(self).pending().drop_first()
                    &&& forall|c: usize, t: u64| #[trigger]
                        final(self).is_armed(c, t) <==> old(self).is_armed(c, t) && !(c
                            == due.entry.component.0 && t == due.entry.deadline_ns)
                },
            },
    {
        let n: usize = self.entries.len();
        if n == 0 {
            return None;
        }
        let entry = self.entries[n - 1];
        assert(self.pending()[0] == entry);
        if entry.deadline_ns > now_ns {
            return None;
        }
        let ghost start = *self;
        let ghost pending = self.pending();
        self.entries.pop();
        assert(self.pending() =~= pending.drop_first());
        let key = (entry.component.0, entry.deadline_ns);
        let mut kept: Vec<(usize, u64)> = Vec::new();
        let mut deliver = false;
        let mut i: usize = 0;
        while i < self.armed.len()
            invariant
                i <= self.armed@.len(),
                self.armed@ == start.armed@,
                start.armed@.no_duplicates(),
                deliver == start.armed@.take(i as int).contains(key),
                kept@.no_duplicates(),
                forall|x: (usize, u64)|
                    #[trigger] kept@.contains(x) <==> start.armed@.take(i as int).contains(x) && x
                        != key,
            decreases self.armed@.len() - i,
        {
            let held = self.armed[i];
            let ghost so_far = kept@;
            let ghost shorter = start.armed@.take(i as int);
            let ghost longer = start.armed@.take(i + 1);
            proof {
                assert(longer =~= shorter.push(held));
                assert forall|x: (usize, u64)|
                    #[trigger] longer.contains(x) <==> shorter.contains(x) || x == held by {
                    if shorter.contains(x) {
                        let k = choose|k: int| 0 <= k < shorter.len() && shorter[k] == x;
                        assert(longer[k] == x);
                    }
                    assert(longer[i as int] == held);
                    if longer.contains(x) {
                        let k = choose|k: int| 0 <= k < longer.len() && longer[k] == x;
                        if k < i {
                            assert(shorter[k] == x);
                        }
                    }
                }
                assert(!shorter.contains(held)) by {
                    if shorter.contains(held) {
                        let k = choose|k: int| 0 <= k < shorter.len() && shorter[k] == held;
                        assert(start.armed@[k] == start.armed@[i as int]);
                    }
                }
                assert(!so_far.contains(held));
            }
            if held.0 == key.0 && held.1 == key.1 {
                deliver = true;
            } else {
                kept.push(held);
                proof {
                    assert(kept@ =~= so_far.push(held));
                    assert(kept@.no_duplicates()) by {
                        assert forall|a: int, b: int|
                            0 <= a < kept@.len() && 0 <= b < kept@.len() && a
                                != b implies kept@[a] != kept@[b] by {
                            if a == so_far.len() {
                                assert(so_far.contains(so_far[b]));
                            } else if b == so_far.len() {
                                assert(so_far.contains(so_far[a]));
                            }
                        }
                    }
                    assert forall|x: (usize, u64)|
                        #[trigger] kept@.contains(x) <==> so_far.contains(x) || x == held by {
                        if so_far.contains(x) {
                            let k = choose|k: int| 0 <= k < so_far.len() && so_far[k] == x;
                            assert(kept@[k] == x);
                        }
                        assert(kept@[so_far.len() as int] == held);
                        if kept@.contains(x) {
                            let k = choose|k: int| 0 <= k < kept@.len() && kept@[k] == x;
                            if k < so_far.len() {
                                assert(so_far[k] == x);
                            }
                        }
                    }
                }
            }
            i += 1;
        }
        self.armed = kept;
        proof {
            let after = pending.drop_first();
            assert forall|i: int, j: int| 0 <= i < j < after.len() implies after[i].deadline_ns
                <= after[j].deadline_ns by {
                assert(after[i] == pending[i + 1] && after[j] == pending[j + 1]);
            }
            assert(start.armed@.take(i as int) =~= start.armed@);
            assert forall|k: int| 0 <= k < self.armed@.len() implies on_wheel(
                self.entries@,
                #[trigger] self.armed@[k],
            ) by {
                let x = self.armed@[k];
                assert(self.armed@.contains(x));
                let m = choose|m: int| 0 <= m < start.armed@.len() && start.armed@[m] == x;
                assert(on_wheel(start.entries@, start.armed@[m]));
                let j = choose|j: int|
                    0 <= j < start.entries@.len() && (#[trigger] start.entries@[j]).component.0
                        == x.0 && start.entries@[j].deadline_ns == x.1;
                if j == start.entries@.len() - 1 {
                    assert(x == key);
                }
                assert(self.entries@[j] == start.entries@[j]);
            }
            assert(self.pending() =~= after);
            assert(in_deadline_order(self.pending()));
        }
        Some(DueWake { entry, deliver })
    }

    /// Put a periodic wake that was taken off back on the wheel, a period on.
    pub fn rearm(&mut self, due: DueWake, now_ns: u64)
        requires
            old(self).well_formed(),
        ensures
            final(self).well_formed(),
            due.entry.period_ns is None ==> *final(self) == *old(self),
            due.entry.period_ns matches Some(period) ==> {
                let next = next_instant(due.entry.deadline_ns, period, now_ns);
                &&& final(self).pending() == with_entry(
                    old(self).pending(),
                    TimerEntry {
                        deadline_ns: next,
                        component: due.entry.component,
                        period_ns: Some(period),
                    },
                )
                &&& forall|c: usize, t: u64| #[trigger]
                    final(self).is_armed(c, t) <==> old(self).is_armed(c, t) || (c
                        == due.entry.component.0 && t == next)
            },
    {
        if let Some(period) = due.entry.period_ns {
            let mut next: u64 = capped(due.entry.deadline_ns, period);
            if next <= now_ns {
                next = capped(now_ns, period);
            }
            self.arm(next, due.entry.component, Some(period));
        }
    }
}

/// Every entry ahead of a place is due no later, every one from it on is due
/// later.
pub proof fn place_splits(pending: Seq<TimerEntry>, deadline: u64)
    requires
        in_deadline_order(pending),
    ensures
        0 <= place_for(pending, deadline) <= pending.len(),
        forall|i: int|
            0 <= i < place_for(pending, deadline) ==> (#[trigger] pending[i]).deadline_ns
                <= deadline,
        forall|i: int|
            place_for(pending, deadline) <= i < pending.len() ==> (
            #[trigger] pending[i]).deadline_ns > deadline,
    decreases pending.len(),
{
    if pending.len() > 0 {
        if pending.last().deadline_ns <= deadline {
            assert forall|i: int| 0 <= i < pending.len() implies (
            #[trigger] pending[i]).deadline_ns <= deadline by {
                assert(pending[pending.len() - 1] == pending.last());
            }
        } else {
            let shorter = pending.drop_last();
            place_splits(shorter, deadline);
            assert forall|i: int|
                place_for(pending, deadline) <= i < pending.len() implies (
            #[trigger] pending[i]).deadline_ns > deadline by {
                if i < shorter.len() {
                    assert(shorter[i] == pending[i]);
                }
            }
            assert forall|i: int| 0 <= i < place_for(pending, deadline) implies (
            #[trigger] pending[i]).deadline_ns <= deadline by {
                assert(shorter[i] == pending[i]);
            }
        }
    }
}

/// Wakes fire in deadline order, and wakes due at one instant in the order
/// they were armed: a new entry goes behind every entry due no later and
/// ahead of the rest, whose order it leaves.
pub proof fn a_new_entry_keeps_the_order(pending: Seq<TimerEntry>, entry: TimerEntry)
    requires
        in_deadline_order(pending),
    ensures
        ({
            let at = place_for(pending, entry.deadline_ns);
            let after = with_entry(pending, entry);
            &&& in_deadline_order(after)
            &&& after[at] == entry
            &&& after.remove(at) == pending
            &&& forall|i: int| 0 <= i < at ==> (#[trigger] after[i]).deadline_ns
                <= entry.deadline_ns
            &&& forall|i: int| at < i < after.len() ==> (#[trigger] after[i]).deadline_ns
                > entry.deadline_ns
        }),
{
    place_splits(pending, entry.deadline_ns);
    inserted_in_order(pending, entry);
    let at = place_for(pending, entry.deadline_ns);
    let after = with_entry(pending, entry);
    assert(after.remove(at) =~= pending);
    assert forall|i: int| at < i < after.len() implies (#[trigger] after[i]).deadline_ns
        > entry.deadline_ns by {
        assert(after[i] == pending[i - 1]);
    }
    assert forall|i: int| 0 <= i < at implies (#[trigger] after[i]).deadline_ns
        <= entry.deadline_ns by {
        assert(after[i] == pending[i]);
    }
}

proof fn inserted_in_order(pending: Seq<TimerEntry>, entry: TimerEntry)
    requires
        in_deadline_order(pending),
    ensures
        in_deadline_order(with_entry(pending, entry)),
{
    place_splits(pending, entry.deadline_ns);
    let at = place_for(pending, entry.deadline_ns);
    let after = with_entry(pending, entry);
    assert forall|i: int, j: int| 0 <= i < j < after.len() implies after[i].deadline_ns
        <= after[j].deadline_ns by {
        if i < at {
            assert(after[i] == pending[i]);
        } else if i > at {
            assert(after[i] == pending[i - 1]);
        }
        if j < at {
            assert(after[j] == pending[j]);
        } else if j > at {
            assert(after[j] == pending[j - 1]);
        }
    }
}

} // verus!
