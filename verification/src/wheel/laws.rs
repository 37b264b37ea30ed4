//! When a wake comes, and when it comes again.
use vstd::prelude::*;

use crate::wheel::{
    a_new_entry_keeps_the_order, in_deadline_order, next_instant, place_for, place_splits,
    sum_capped, with_entry, TimerEntry,
};

verus! {

/// A periodic wake comes again one period behind its deadline, or one period
/// from now where that has passed: always later than now.
pub proof fn a_periodic_wake_comes_a_period_later(deadline: u64, period: u64, now: u64)
    requires
        period > 0,
        deadline + period <= u64::MAX,
        now + period <= u64::MAX,
    ensures
        next_instant(deadline, period, now) > now,
        deadline + period > now ==> next_instant(deadline, period, now) == deadline + period,
        deadline + period <= now ==> next_instant(deadline, period, now) == now + period,
{
}

/// A sum of instants is their sum, and the last instant where that is passed.
pub proof fn instants_add_up(a: u64, b: u64)
    ensures
        a + b <= u64::MAX ==> sum_capped(a, b) == a + b,
        a + b > u64::MAX ==> sum_capped(a, b) == u64::MAX,
{
}

/// Arming a wake adds it and nothing else: every wake that was armed still is,
/// with its component and its period, and the wheel has one more.
pub proof fn an_armed_wake_is_added(pending: Seq<TimerEntry>, entry: TimerEntry, other: TimerEntry)
    requires
        in_deadline_order(pending),
    ensures
        with_entry(pending, entry).len() == pending.len() + 1,
        with_entry(pending, entry).contains(entry),
        pending.contains(other) ==> with_entry(pending, entry).contains(other),
{
    place_splits(pending, entry.deadline_ns);
    let at = place_for(pending, entry.deadline_ns);
    let after = with_entry(pending, entry);
    assert(after[at] == entry);
    if pending.contains(other) {
        let i = choose|i: int| 0 <= i < pending.len() && pending[i] == other;
        if i < at {
            assert(after[i] == other);
        } else {
            assert(after[i + 1] == other);
        }
    }
}

/// A wake armed before every other is the first to fire, and one armed no
/// earlier than the first is not.
pub proof fn the_earliest_wake_fires_first(pending: Seq<TimerEntry>, entry: TimerEntry)
    requires
        in_deadline_order(pending),
    ensures
        pending.len() == 0 || entry.deadline_ns < pending[0].deadline_ns ==> with_entry(
            pending,
            entry,
        )[0] == entry,
        pending.len() > 0 && entry.deadline_ns >= pending[0].deadline_ns ==> with_entry(
            pending,
            entry,
        )[0] == pending[0],
{
    a_new_entry_keeps_the_order(pending, entry);
    place_splits(pending, entry.deadline_ns);
}

} // verus!
