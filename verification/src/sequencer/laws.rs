//! Drives are applied in the order they were enqueued.
use vstd::prelude::*;

use crate::sequencer::{at_place, gap_poll, place_after, without, GapPoll, PendingDrive};

verus! {

/// The drive at a place is the one that was enqueued there, whole; there is one
/// exactly if one waits there.
pub proof fn the_drive_at_a_place(entries: Seq<PendingDrive>, place: u64)
    ensures
        at_place(entries, place) matches Some(entry) ==> entry.seq == place && entries.contains(
            entry,
        ),
        at_place(entries, place) is None <==> forall|i: int|
            0 <= i < entries.len() ==> (#[trigger] entries[i]).seq != place,
    decreases entries.len(),
{
    if entries.len() > 0 {
        let front = entries.drop_last();
        let last = entries[entries.len() - 1];
        the_drive_at_a_place(front, place);
        if last.seq == place {
            assert(entries.contains(last));
        } else {
            if let Some(entry) = at_place(front, place) {
                let i = choose|i: int| 0 <= i < front.len() && front[i] == entry;
                assert(entries[i] == entry);
            } else {
                assert forall|i: int| 0 <= i < entries.len() implies (#[trigger] entries[i]).seq
                    != place by {
                    if i < front.len() {
                        assert(front[i] == entries[i]);
                    }
                }
            }
        }
    }
}

/// Taking a drive takes it and no other, and leaves their order.
pub proof fn taking_a_drive_leaves_the_others(entries: Seq<PendingDrive>, place: u64)
    ensures
        without(entries, place) == entries.filter(|entry: PendingDrive| entry.seq != place),
    decreases entries.len(),
{
    reveal(Seq::filter);
    let other = |entry: PendingDrive| entry.seq != place;
    if entries.len() > 0 {
        taking_a_drive_leaves_the_others(entries.drop_last(), place);
    }
    assert(without(entries, place) =~= entries.filter(other));
}

/// Places follow one another.
pub proof fn places_follow_one_another(place: u64)
    ensures
        place < u64::MAX ==> place_after(place) == place + 1,
        place == u64::MAX ==> place_after(place) == 0,
{
}

/// A missing drive is given up at the hundredth poll that sees it missing with
/// others behind it, and not before; with none behind it nothing is missing.
pub proof fn a_missing_drive_is_waited_for(
    waiting: Seq<PendingDrive>,
    next: u64,
    watched: Option<(u64, u32)>,
)
    ensures
        waiting.len() == 0 ==> gap_poll(waiting, next, watched) == GapPoll::Clear,
        waiting.len() > 0 && (watched matches Some((place, polls)) ==> place != next || polls < 99)
            ==> gap_poll(waiting, next, watched) == GapPoll::Waiting,
        waiting.len() > 0 && (watched matches Some((place, polls)) && place == next && polls >= 99)
            ==> gap_poll(waiting, next, watched) == GapPoll::Skipped(next),
{
}

} // verus!
