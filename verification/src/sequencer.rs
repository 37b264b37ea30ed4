//! Drives in the order they were enqueued, whatever order they arrive in.
pub mod laws;

use vstd::prelude::*;

use crate::net::{Drive, EndpointId};

verus! {

/// One enqueued drive.
#[derive(Debug, Clone, Copy, PartialEq, Eq, Structural)]
pub struct PendingDrive {
    /// Its place in the enqueue order.
    pub seq: u64,
    /// The endpoint driven.
    pub endpoint: EndpointId,
    /// The contribution; `None` releases.
    pub drive: Option<Drive>,
}

/// How many idle polls a missing drive is waited for.
pub const GAP_IDLE_POLLS: u32 = 100;

/// Drives received and not yet applicable: a lower place in the order is
/// still in flight.
#[derive(Debug)]
pub struct DriveQueue {
    /// The drives, by place.
    entries: Vec<PendingDrive>,
    next: u64,
    /// The missing place being watched, and how many polls saw it.
    gap: Option<(u64, u32)>,
}

/// What an idle poll found.
#[derive(Debug, Clone, Copy, PartialEq, Eq, Structural)]
pub enum GapPoll {
    /// Nothing waits behind a missing drive.
    Clear,
    /// A drive is missing, and still waited for.
    Waiting,
    /// The missing drive at this place is given up: the order goes on at the
    /// lowest that arrived.
    Skipped(u64),
}

/// Drives by ascending place, none twice.
pub open spec fn by_place(entries: Seq<PendingDrive>) -> bool {
    forall|i: int, j: int| 0 <= i < j < entries.len() ==> entries[i].seq < entries[j].seq
}

/// The place behind another.
pub open spec fn place_after(place: u64) -> u64 {
    if place == u64::MAX {
        0
    } else {
        (place + 1) as u64
    }
}

/// The drives with one more; one at its place is replaced.
pub open spec fn enqueued(entries: Seq<PendingDrive>, entry: PendingDrive) -> Seq<PendingDrive>
    decreases entries.len(),
{
    if entries.len() == 0 {
        seq![entry]
    } else if entries.last().seq < entry.seq {
        entries.push(entry)
    } else if entries.last().seq == entry.seq {
        entries.drop_last().push(entry)
    } else {
        enqueued(entries.drop_last(), entry).push(entries.last())
    }
}

/// The drive at a place, where one is.
pub open spec fn at_place(entries: Seq<PendingDrive>, place: u64) -> Option<PendingDrive>
    decreases entries.len(),
{
    if entries.len() == 0 {
        None
    } else if entries.last().seq == place {
        Some(entries.last())
    } else {
        at_place(entries.drop_last(), place)
    }
}

impl DriveQueue {
    /// The drives that wait, by ascending place.
    pub closed spec fn waiting(&self) -> Seq<PendingDrive> {
        self.entries@
    }

    /// The place of the next drive to apply.
    pub closed spec fn next_place(&self) -> u64 {
        self.next
    }

    /// The missing place watched, and how many polls saw it.
    pub closed spec fn watched(&self) -> Option<(u64, u32)> {
        self.gap
    }

    /// No place waits twice.
    pub closed spec fn well_formed(&self) -> bool {
        &&& by_place(self.entries@)
        &&& self.gap matches Some((_, polls)) ==> polls < GAP_IDLE_POLLS
    }

    /// An empty queue.
    pub fn new() -> (r: DriveQueue)
        ensures
            r.well_formed(),
            r.waiting() == Seq::<PendingDrive>::empty(),
            r.next_place() == 0,
            r.watched() is None,
    {
        DriveQueue { entries: Vec::new(), next: 0, gap: None }
    }

    /// How many drives wait.
    pub fn len(&self) -> (n: usize)
        ensures
            n == self.waiting().len(),
    {
        self.entries.len()
    }

    /// Take in a drive.
    pub fn enqueue(&mut self, entry: PendingDrive)
        requires
            old(self).well_formed(),
        ensures
            final(self).well_formed(),
            final(self).waiting() == enqueued(old(self).waiting(), entry),
            final(self).next_place() == old(self).next_place(),
            final(self).watched() == old(self).watched(),
    {
        let ghost before = self.entries@;
        let mut at: usize = self.entries.len();
        while at > 0 && self.entries[at - 1].seq > entry.seq
            invariant
                at <= self.entries@.len(),
                *self == *old(self),
                self.entries@ == before,
                forall|i: int| at <= i < before.len() ==> (#[trigger] before[i]).seq > entry.seq,
            decreases at,
        {
            at -= 1;
        }
        proof {
            enqueued_split(before, entry, at as int);
            enqueued_by_place(before, entry);
        }
        if at > 0 && self.entries[at - 1].seq == entry.seq {
            self.entries.set(at - 1, entry);
        } else {
            self.entries.insert(at, entry);
        }
    }

    /// The next drive to apply, where it has arrived.
    pub fn take_ready(&mut self) -> (r: Option<PendingDrive>)
        requires
            old(self).well_formed(),
        ensures
            final(self).well_formed(),
            final(self).watched() == old(self).watched(),
            r == at_place(old(self).waiting(), old(self).next_place()),
            r is None ==> *final(self) == *old(self),
            r is Some ==> {
                &&& final(self).next_place() == place_after(old(self).next_place())
                &&& final(self).waiting() == without(old(self).waiting(), old(self).next_place())
            },
    {
        let ghost before = self.entries@;
        let mut at: usize = self.entries.len();
        assert(before.take(before.len() as int) =~= before);
        while at > 0 && self.entries[at - 1].seq != self.next
            invariant
                at <= self.entries@.len(),
                self.entries@ == before,
                *self == *old(self),
                at_place(before, self.next) == at_place(before.take(at as int), self.next),
                forall|i: int| at <= i < before.len() ==> (#[trigger] before[i]).seq != self.next,
            decreases at,
        {
            proof {
                let front = before.take(at as int);
                assert(front.last() == before[at - 1]);
                assert(front.drop_last() =~= before.take(at - 1));
            }
            at -= 1;
        }
        if at == 0 {
            return None;
        }
        proof {
            assert(before.take(at as int).last() == before[at - 1]);
        }
        let entry = self.entries[at - 1];
        let ghost place = self.next;
        self.entries.remove(at - 1);
        self.next = if self.next == u64::MAX {
            0
        } else {
            self.next + 1
        };
        proof {
            without_is_remove(before, place, at - 1);
        }
        Some(entry)
    }

    /// An idle poll: a drive reserved and never sent is given up after it has
    /// survived many of them.
    pub fn poll_gap(&mut self) -> (r: GapPoll)
        requires
            old(self).well_formed(),
        ensures
            final(self).well_formed(),
            final(self).waiting() == old(self).waiting(),
            r == gap_poll(old(self).waiting(), old(self).next_place(), old(self).watched()),
            final(self).next_place() == (if r is Skipped {
                old(self).waiting()[0].seq
            } else {
                old(self).next_place()
            }),
            final(self).watched() == (match r {
                GapPoll::Clear => None,
                GapPoll::Skipped(_) => None,
                GapPoll::Waiting => Some(
                    (
                        old(self).next_place(),
                        (match old(self).watched() {
                            Some((place, polls)) => if place == old(self).next_place() {
                                polls + 1
                            } else {
                                1
                            },
                            None => 1,
                        }) as u32,
                    ),
                ),
            }),
    {
        if self.entries.len() == 0 {
            self.gap = None;
            return GapPoll::Clear;
        }
        let missing: u64 = self.next;
        let mut seen: u32 = 0;
        if let Some((place, polls)) = self.gap {
            if place == missing {
                seen = polls;
            }
        }
        if seen + 1 < GAP_IDLE_POLLS {
            self.gap = Some((missing, seen + 1));
            return GapPoll::Waiting;
        }
        self.next = self.entries[0].seq;
        self.gap = None;
        GapPoll::Skipped(missing)
    }
}

/// The drives without the one at a place.
pub open spec fn without(entries: Seq<PendingDrive>, place: u64) -> Seq<PendingDrive>
    decreases entries.len(),
{
    if entries.len() == 0 {
        Seq::empty()
    } else if entries.last().seq == place {
        without(entries.drop_last(), place)
    } else {
        without(entries.drop_last(), place).push(entries.last())
    }
}

/// What an idle poll finds.
pub open spec fn gap_poll(
    waiting: Seq<PendingDrive>,
    next: u64,
    watched: Option<(u64, u32)>,
) -> GapPoll {
    let seen = match watched {
        Some((place, polls)) => if place == next {
            polls
        } else {
            0
        },
        None => 0,
    };
    if waiting.len() == 0 {
        GapPoll::Clear
    } else if seen + 1 < GAP_IDLE_POLLS {
        GapPoll::Waiting
    } else {
        GapPoll::Skipped(next)
    }
}

proof fn without_absent(entries: Seq<PendingDrive>, place: u64)
    requires
        forall|i: int| 0 <= i < entries.len() ==> (#[trigger] entries[i]).seq != place,
    ensures
        without(entries, place) == entries,
    decreases entries.len(),
{
    if entries.len() > 0 {
        let shorter = entries.drop_last();
        assert forall|i: int| 0 <= i < shorter.len() implies (#[trigger] shorter[i]).seq
            != place by {
            assert(shorter[i] == entries[i]);
        }
        without_absent(shorter, place);
        assert(shorter.push(entries.last()) =~= entries);
    } else {
        assert(without(entries, place) =~= entries);
    }
}

proof fn without_is_remove(entries: Seq<PendingDrive>, place: u64, at: int)
    requires
        by_place(entries),
        0 <= at < entries.len(),
        entries[at].seq == place,
    ensures
        without(entries, place) == entries.remove(at),
        by_place(entries.remove(at)),
    decreases entries.len(),
{
    let shorter = entries.drop_last();
    assert(by_place(shorter));
    if at == entries.len() - 1 {
        assert forall|i: int| 0 <= i < shorter.len() implies (#[trigger] shorter[i]).seq
            != place by {
            assert(entries[i].seq < entries[at].seq);
        }
        without_absent(shorter, place);
        assert(entries.remove(at) =~= shorter);
    } else {
        assert(entries[at].seq < entries[entries.len() - 1].seq);
        without_is_remove(shorter, place, at);
        assert(entries.remove(at) =~= shorter.remove(at).push(entries.last()));
    }
    let after = entries.remove(at);
    assert forall|i: int, j: int| 0 <= i < j < after.len() implies after[i].seq
        < after[j].seq by {
        let a = if i < at {
            i
        } else {
            i + 1
        };
        let b = if j < at {
            j
        } else {
            j + 1
        };
        assert(after[i] == entries[a] && after[j] == entries[b]);
    }
}

proof fn enqueued_split(entries: Seq<PendingDrive>, entry: PendingDrive, at: int)
    requires
        0 <= at <= entries.len(),
        forall|i: int| at <= i < entries.len() ==> (#[trigger] entries[i]).seq > entry.seq,
        at > 0 ==> entries[at - 1].seq <= entry.seq,
    ensures
        enqueued(entries, entry) == (if at > 0 && entries[at - 1].seq == entry.seq {
            entries.update(at - 1, entry)
        } else {
            entries.insert(at, entry)
        }),
    decreases entries.len(),
{
    if entries.len() == 0 {
        assert(seq![entry] =~= entries.insert(0, entry));
    } else if at == entries.len() {
        if entries.last().seq == entry.seq {
            assert(entries.drop_last().push(entry) =~= entries.update(at - 1, entry));
        } else {
            assert(entries.push(entry) =~= entries.insert(at, entry));
        }
    } else {
        let shorter = entries.drop_last();
        assert(entries[entries.len() - 1].seq > entry.seq);
        assert forall|i: int| at <= i < shorter.len() implies (#[trigger] shorter[i]).seq
            > entry.seq by {
            assert(shorter[i] == entries[i]);
        }
        enqueued_split(shorter, entry, at);
        if at > 0 && entries[at - 1].seq == entry.seq {
            assert(shorter.update(at - 1, entry).push(entries.last()) =~= entries.update(
                at - 1,
                entry,
            ));
        } else {
            assert(shorter.insert(at, entry).push(entries.last()) =~= entries.insert(at, entry));
        }
    }
}

proof fn enqueued_at(entries: Seq<PendingDrive>, entry: PendingDrive, place: u64)
    requires
        by_place(entries),
    ensures
        at_place(enqueued(entries, entry), place) == (if place == entry.seq {
            Some(entry)
        } else {
            at_place(entries, place)
        }),
    decreases entries.len(),
{
    let after = enqueued(entries, entry);
    if entries.len() == 0 {
        assert(after.drop_last() =~= Seq::<PendingDrive>::empty());
        assert(at_place(after.drop_last(), place) is None);
    } else if entries.last().seq < entry.seq {
        assert(after.last() == entry);
        assert(after.drop_last() =~= entries);
    } else if entries.last().seq == entry.seq {
        assert(after.last() == entry);
        assert(after.drop_last() =~= entries.drop_last());
    } else {
        let shorter = entries.drop_last();
        assert(by_place(shorter));
        enqueued_at(shorter, entry, place);
        assert(after.last() == entries.last());
        assert(after.drop_last() =~= enqueued(shorter, entry));
    }
}

/// Enqueuing keeps the drives by place, puts the drive at its own, and leaves
/// every other place as it was.
pub proof fn enqueued_by_place(entries: Seq<PendingDrive>, entry: PendingDrive)
    requires
        by_place(entries),
    ensures
        by_place(enqueued(entries, entry)),
        forall|place: u64| #[trigger]
            at_place(enqueued(entries, entry), place) == (if place == entry.seq {
                Some(entry)
            } else {
                at_place(entries, place)
            }),
        forall|i: int|
            0 <= i < enqueued(entries, entry).len() ==> (#[trigger] enqueued(entries, entry)[i]).seq
                == entry.seq || entries.contains(enqueued(entries, entry)[i]),
    decreases entries.len(),
{
    let after = enqueued(entries, entry);
    assert forall|place: u64| #[trigger] at_place(after, place) == (if place == entry.seq {
        Some(entry)
    } else {
        at_place(entries, place)
    }) by {
        enqueued_at(entries, entry, place);
    }
    if entries.len() == 0 {
    } else if entries.last().seq < entry.seq {
        assert forall|i: int, j: int| 0 <= i < j < after.len() implies after[i].seq
            < after[j].seq by {
            if j == entries.len() {
                if i < entries.len() - 1 {
                    assert(entries[i].seq < entries[entries.len() - 1].seq);
                }
            }
        }
    } else if entries.last().seq == entry.seq {
        assert forall|i: int, j: int| 0 <= i < j < after.len() implies after[i].seq
            < after[j].seq by {
            if j == entries.len() - 1 {
                assert(entries[i].seq < entries[j].seq);
            }
        }
    } else {
        let shorter = entries.drop_last();
        assert(by_place(shorter));
        enqueued_by_place(shorter, entry);
        let inner = enqueued(shorter, entry);
        assert(after.drop_last() =~= inner);
        assert forall|i: int, j: int| 0 <= i < j < after.len() implies after[i].seq
            < after[j].seq by {
            if j == inner.len() {
                if inner[i].seq != entry.seq {
                    let k = choose|k: int| 0 <= k < shorter.len() && shorter[k] == inner[i];
                    assert(entries[k].seq < entries[entries.len() - 1].seq);
                }
            }
        }
        assert forall|i: int| 0 <= i < after.len() implies (#[trigger] after[i]).seq == entry.seq
            || entries.contains(after[i]) by {
            if i < inner.len() {
                if inner[i].seq != entry.seq {
                    let k = choose|k: int| 0 <= k < shorter.len() && shorter[k] == inner[i];
                    assert(entries[k] == after[i]);
                }
            } else {
                assert(entries[entries.len() - 1] == after[i]);
            }
        }
    }
}

proof fn not_past_the_last(entries: Seq<PendingDrive>, place: u64)
    requires
        by_place(entries),
        entries.len() > 0,
        entries.last().seq < place,
    ensures
        at_place(entries, place) is None,
    decreases entries.len(),
{
    let shorter = entries.drop_last();
    assert(by_place(shorter));
    if shorter.len() > 0 {
        assert(entries[entries.len() - 2].seq < entries[entries.len() - 1].seq);
        not_past_the_last(shorter, place);
    }
}

proof fn same_places_same_drives(a: Seq<PendingDrive>, b: Seq<PendingDrive>)
    requires
        by_place(a),
        by_place(b),
        forall|place: u64| #[trigger] at_place(a, place) == at_place(b, place),
    ensures
        a == b,
    decreases a.len() + b.len(),
{
    if a.len() == 0 && b.len() == 0 {
        assert(a =~= b);
    } else if a.len() == 0 {
        assert(at_place(a, b.last().seq) == at_place(b, b.last().seq));
    } else if b.len() == 0 {
        assert(at_place(a, a.last().seq) == at_place(b, a.last().seq));
    } else {
        let x = a.last();
        let y = b.last();
        assert(at_place(a, x.seq) == at_place(b, x.seq));
        assert(at_place(a, y.seq) == at_place(b, y.seq));
        if x.seq < y.seq {
            not_past_the_last(a, y.seq);
        } else if y.seq < x.seq {
            not_past_the_last(b, x.seq);
        }
        assert(x == y);
        let p = a.drop_last();
        let q = b.drop_last();
        assert(by_place(p));
        assert(by_place(q));
        assert forall|place: u64| #[trigger] at_place(p, place) == at_place(q, place) by {
            assert(at_place(a, place) == at_place(b, place));
            if place == x.seq {
                last_place_is_gone(a);
                last_place_is_gone(b);
            }
        }
        same_places_same_drives(p, q);
        assert(p.push(x) =~= a);
        assert(q.push(y) =~= b);
    }
}

proof fn last_place_is_gone(entries: Seq<PendingDrive>)
    requires
        by_place(entries),
        entries.len() > 0,
    ensures
        at_place(entries.drop_last(), entries.last().seq) is None,
{
    let shorter = entries.drop_last();
    assert(by_place(shorter));
    if shorter.len() > 0 {
        assert(entries[entries.len() - 2].seq < entries[entries.len() - 1].seq);
        not_past_the_last(shorter, entries.last().seq);
    }
}

/// The order two drives arrive in makes no difference to what waits, so none
/// to what is applied next.
pub proof fn arrival_order_is_immaterial(
    entries: Seq<PendingDrive>,
    a: PendingDrive,
    b: PendingDrive,
)
    requires
        by_place(entries),
        a.seq != b.seq,
    ensures
        enqueued(enqueued(entries, a), b) == enqueued(enqueued(entries, b), a),
{
    enqueued_by_place(entries, a);
    enqueued_by_place(entries, b);
    enqueued_by_place(enqueued(entries, a), b);
    enqueued_by_place(enqueued(entries, b), a);
    let left = enqueued(enqueued(entries, a), b);
    let right = enqueued(enqueued(entries, b), a);
    assert forall|place: u64| #[trigger] at_place(left, place) == at_place(right, place) by {
        assert(at_place(enqueued(entries, a), place) == (if place == a.seq {
            Some(a)
        } else {
            at_place(entries, place)
        }));
        assert(at_place(enqueued(entries, b), place) == (if place == b.seq {
            Some(b)
        } else {
            at_place(entries, place)
        }));
    }
    same_places_same_drives(left, right);
}

} // verus!
