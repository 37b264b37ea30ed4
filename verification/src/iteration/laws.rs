//! Where an iteration goes, turn by turn and pass by pass.
use vstd::prelude::*;

use crate::iteration::{
    after, answers, Event, Iteration, Turn, COMMAND_DRAIN_BATCH_MAX,
    COMMAND_DRAIN_CAPPED_PASSES_MAX,
};

verus! {

/// An iteration once a list of events has come of its turns.
pub open spec fn run(it: Iteration, events: Seq<Event>) -> Iteration
    decreases events.len(),
{
    if events.len() == 0 {
        it
    } else {
        after(run(it, events.drop_last()), events.last())
    }
}

/// Time that is released moves: with the next deadline ahead, however far,
/// what follows is an advance to exactly it; with one that is not ahead time
/// stands and the iteration is over; with none, or unreleased, it idles.
pub proof fn released_time_moves(
    it: Iteration,
    released: bool,
    now: u64,
    next: Option<u64>,
)
    requires
        it.turn == Turn::Choose,
    ensures
        ({
            let then = after(it, Event::Clock { released, now, next });
            &&& released && (next matches Some(deadline) && deadline > now) ==> then.turn
                == Turn::AdvanceTo(next->0)
            &&& released && (next matches Some(deadline) && deadline <= now) ==> then.turn
                == Turn::Over
            &&& !released || next is None ==> then.turn == Turn::PollGap
        }),
{
}

/// An idle engine reaches its next deadline: a pass that finds nothing to do,
/// with no request on its way, advances to it, whatever the engine did before.
pub proof fn an_idle_engine_reaches_its_deadline(it: Iteration, now: u64, deadline: u64)
    requires
        it.turn == Turn::Quiesce,
        deadline > now,
    ensures
        run(
            it,
            seq![
                Event::Done,
                Event::Empty,
                Event::Empty,
                Event::Declared(false),
                Event::Fired(0),
                Event::Pending(0),
                Event::Clock { released: true, now, next: Some(deadline) },
            ],
        ).turn == Turn::AdvanceTo(deadline),
        run(
            it,
            seq![
                Event::Done,
                Event::Empty,
                Event::Empty,
                Event::Declared(false),
                Event::Fired(0),
                Event::Pending(0),
                Event::Clock { released: true, now, next: Some(deadline) },
                Event::Done,
            ],
        ).turn == Turn::Over,
{
    let a = seq![Event::Done];
    let b = a.push(Event::Empty);
    let c = b.push(Event::Empty);
    let d = c.push(Event::Declared(false));
    let e = d.push(Event::Fired(0));
    let f = e.push(Event::Pending(0));
    let clock = Event::Clock { released: true, now, next: Some(deadline) };
    let g = f.push(clock);
    let h = g.push(Event::Done);
    assert(a.drop_last() =~= Seq::<Event>::empty());
    assert(b.drop_last() =~= a);
    assert(c.drop_last() =~= b);
    assert(d.drop_last() =~= c);
    assert(e.drop_last() =~= d);
    assert(f.drop_last() =~= e);
    assert(g.drop_last() =~= f);
    assert(h.drop_last() =~= g);
    assert(run(it, Seq::<Event>::empty()) == it);
    assert(run(it, a).turn == Turn::TakeControl);
    assert(run(it, b).turn == Turn::TakeData);
    assert(run(it, c).turn == Turn::DeclareReads);
    assert(run(it, d).turn == Turn::FireDue);
    assert(run(it, e).turn == Turn::CheckSchedules);
    assert(run(it, f).turn == Turn::Choose);
    assert(run(it, g).turn == Turn::AdvanceTo(deadline));
    assert(seq![
        Event::Done,
        Event::Empty,
        Event::Empty,
        Event::Declared(false),
        Event::Fired(0),
        Event::Pending(0),
        clock,
    ] =~= g);
    assert(seq![
        Event::Done,
        Event::Empty,
        Event::Empty,
        Event::Declared(false),
        Event::Fired(0),
        Event::Pending(0),
        clock,
        Event::Done,
    ] =~= h);
}

/// An idle engine that may not advance looks for a drive that was never sent,
/// takes what control commands there are, and only then parks.
pub proof fn an_engine_that_may_not_advance_parks(it: Iteration)
    requires
        it.turn == Turn::PollGap,
    ensures
        after(it, Event::Done).turn == Turn::IdleControl,
        after(after(it, Event::Done), Event::Empty).turn == Turn::AwaitData,
        after(after(after(it, Event::Done), Event::Empty), Event::TimedOut).turn == Turn::Over,
        after(after(it, Event::Done), Event::Handled(false)).turn == Turn::IdleControl,
        after(after(after(it, Event::Done), Event::Handled(false)), Event::Empty).turn
            == Turn::Over,
{
}

/// The engine ends exactly on a command that ends it, or once nobody can send
/// any more.
pub proof fn the_engine_ends_when_told(it: Iteration, event: Event)
    requires
        it.turn != Turn::Stop,
        answers(it.turn, event),
    ensures
        after(it, event).turn == Turn::Stop <==> event == Event::Handled(true) || event
            == Event::Closed,
{
}

/// A pass takes its turns in order: control commands until none waits, data
/// commands until none waits, the reads, the wakes.
pub proof fn a_pass_takes_its_turns_in_order(it: Iteration, any: bool)
    ensures
        it.turn == Turn::Quiesce ==> after(it, Event::Done).turn == Turn::TakeControl,
        it.turn == Turn::TakeControl ==> after(it, Event::Handled(false)).turn
            == Turn::TakeControl,
        it.turn == Turn::TakeControl ==> after(it, Event::Empty).turn == Turn::TakeData,
        it.turn == Turn::TakeData && it.drained + 1 < 64 ==> after(it, Event::Handled(false)).turn
            == Turn::TakeData,
        it.turn == Turn::TakeData && it.drained + 1 == 64 ==> after(
            it,
            Event::Handled(false),
        ).turn == Turn::DeclareReads,
        it.turn == Turn::TakeData ==> after(it, Event::Empty).turn == Turn::DeclareReads,
        it.turn == Turn::DeclareReads ==> after(it, Event::Declared(any)).turn == Turn::FireDue,
{
}

/// Work is remembered and counted: a pass starts with none, a command taken
/// and a net declared read are work, one more data command is one more, and
/// nothing but the start of another pass or of an idle look forgets it.
pub proof fn work_is_remembered(it: Iteration, event: Event)
    requires
        it.well_formed(),
        answers(it.turn, event),
    ensures
        it.turn == Turn::Quiesce ==> !after(it, event).worked && after(it, event).drained == 0,
        it.turn == Turn::TakeControl || it.turn == Turn::TakeData || it.turn
            == Turn::IdleControl ==> (after(it, event).worked <==> it.worked || event is Handled),
        it.turn == Turn::DeclareReads ==> (after(it, event).worked <==> it.worked || event
            == Event::Declared(true)),
        it.worked && it.turn != Turn::Quiesce && it.turn != Turn::PollGap ==> after(
            it,
            event,
        ).worked,
        it.turn != Turn::Quiesce ==> after(it, event).drained == it.drained + (if it.turn
            == Turn::TakeData && event is Handled {
            1int
        } else {
            0
        }),
{
}

/// A pass that did anything is followed by another, unless a flood of
/// commands has had its number of full batches and the next wake lies ahead;
/// one that did nothing looks for requests on their way.
pub proof fn a_pass_that_worked_is_followed_by_another(
    it: Iteration,
    fired: usize,
    now: u64,
    next: Option<u64>,
)
    requires
        it.well_formed(),
        it.turn == Turn::FireDue,
    ensures
        ({
            let then = after(it, Event::Fired(fired));
            let asked = after(then, Event::Deadline { now, next });
            &&& !it.worked && fired == 0 ==> then.turn == Turn::CheckSchedules
            &&& it.worked || fired > 0 ==> then.turn == Turn::Quiesce || then.turn
                == Turn::AskDeadline
            &&& then.turn == Turn::AskDeadline <==> (it.worked || fired > 0) && it.drained == 64
                && it.capped == 63
            &&& (it.worked || fired > 0) && it.drained < 64 ==> then.capped == 0
            &&& (it.worked || fired > 0) && it.drained == 64 && it.capped < 63 ==> then.capped
                == it.capped + 1
            &&& then.turn == Turn::AskDeadline ==> asked.turn == (if next matches Some(deadline)
                && deadline > now {
                Turn::CheckSchedules
            } else {
                Turn::Quiesce
            })
        }),
{
}

/// A request on its way is waited for before time is looked at.
pub proof fn a_request_on_its_way_is_waited_for(it: Iteration, count: usize)
    requires
        it.turn == Turn::CheckSchedules,
    ensures
        count > 0 ==> after(it, Event::Pending(count)).turn == Turn::AwaitControl,
        count == 0 ==> after(it, Event::Pending(count)).turn == Turn::Choose,
        count > 0 ==> after(after(it, Event::Pending(count)), Event::Handled(false)).turn
            == Turn::Over,
        count > 0 ==> after(after(it, Event::Pending(count)), Event::TimedOut).turn == Turn::Over,
{
}

/// A new iteration starts as one that has done nothing.
pub proof fn the_bounds_are_the_documented_ones()
    ensures
        COMMAND_DRAIN_BATCH_MAX == 64,
        COMMAND_DRAIN_CAPPED_PASSES_MAX == 64,
{
}

} // verus!
