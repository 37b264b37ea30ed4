//! One iteration of the engine: drain what waits, fire what is due, and only
//! then let virtual time move.
pub mod laws;

use vstd::prelude::*;

verus! {

/// How many data commands one pass takes before due wakes get a turn.
pub const COMMAND_DRAIN_BATCH_MAX: usize = 64;

/// How many full batches in a row an iteration takes before a wake that lies
/// ahead ends it.
pub const COMMAND_DRAIN_CAPPED_PASSES_MAX: usize = 64;

/// What an iteration does next.
#[derive(Debug, Clone, Copy, PartialEq, Eq, Structural)]
pub enum Turn {
    /// Wait for every actor to park.
    Quiesce,
    /// Take a control command, where one waits.
    TakeControl,
    /// Take a data command, where one waits.
    TakeData,
    /// Declare the nets read since the last pass.
    DeclareReads,
    /// Fire every wake that is due.
    FireDue,
    /// Look how far off the next deadline is.
    AskDeadline,
    /// Look for scheduling requests that are on their way.
    CheckSchedules,
    /// Wait a moment for a control command.
    AwaitControl,
    /// Look where virtual time is and may go.
    Choose,
    /// Advance virtual time.
    AdvanceTo(u64),
    /// Look for a drive that was never sent.
    PollGap,
    /// Take a control command before parking.
    IdleControl,
    /// Park on the data commands for a moment.
    AwaitData,
    /// The iteration is over; another follows.
    Over,
    /// The engine ends.
    Stop,
}

/// What came of a turn.
#[derive(Debug, Clone, Copy, PartialEq, Eq, Structural)]
pub enum Event {
    /// It was done.
    Done,
    /// A command was taken and handled; whether it ends the engine.
    Handled(bool),
    /// No command waits.
    Empty,
    /// Nobody can send any more.
    Closed,
    /// No command came in time.
    TimedOut,
    /// Whether nets were declared read.
    Declared(bool),
    /// How many wakes fired.
    Fired(usize),
    /// How many scheduling requests are on their way.
    Pending(usize),
    /// Where virtual time is, and the next instant anything waits for.
    Deadline {
        /// The instant.
        now: u64,
        /// The next.
        next: Option<u64>,
    },
    /// Where virtual time is and may go.
    Clock {
        /// Whether it may advance at all.
        released: bool,
        /// The instant.
        now: u64,
        /// The next instant anything waits for.
        next: Option<u64>,
    },
}

/// An iteration under way.
#[derive(Debug, Clone, Copy, PartialEq, Eq, Structural)]
pub struct Iteration {
    /// What it does next.
    pub turn: Turn,
    /// Whether this pass found anything to do.
    pub worked: bool,
    /// How many data commands this pass has taken.
    pub drained: usize,
    /// How many passes in a row took a full batch, up to the bound on them.
    pub capped: usize,
}

/// Whether an event can come of a turn.
pub open spec fn answers(turn: Turn, event: Event) -> bool {
    match turn {
        Turn::Quiesce => event is Done,
        Turn::TakeControl => event is Handled || event is Empty || event is Closed,
        Turn::TakeData => event is Handled || event is Empty || event is Closed,
        Turn::DeclareReads => event is Declared,
        Turn::FireDue => event is Fired,
        Turn::AskDeadline => event is Deadline,
        Turn::CheckSchedules => event is Pending,
        Turn::AwaitControl => event is Handled || event is TimedOut || event is Closed,
        Turn::Choose => event is Clock,
        Turn::AdvanceTo(_) => event is Done,
        Turn::PollGap => event is Done,
        Turn::IdleControl => event is Handled || event is Empty || event is Closed,
        Turn::AwaitData => event is Handled || event is TimedOut || event is Closed,
        Turn::Over => false,
        Turn::Stop => false,
    }
}

/// A command that was taken while parked ends the iteration, or the engine.
pub open spec fn parked_turn(event: Event) -> Turn {
    match event {
        Event::Handled(true) => Turn::Stop,
        Event::Closed => Turn::Stop,
        _ => Turn::Over,
    }
}

/// Whether the next deadline lies ahead.
pub open spec fn lies_ahead(now: u64, next: Option<u64>) -> bool {
    next matches Some(deadline) && deadline > now
}

/// How an iteration goes on from what came of its turn.
pub open spec fn after(it: Iteration, event: Event) -> Iteration {
    match (it.turn, event) {
        (Turn::Quiesce, _) => Iteration {
            turn: Turn::TakeControl,
            worked: false,
            drained: 0,
            ..it
        },
        (Turn::TakeControl, Event::Handled(stop)) => Iteration {
            turn: if stop {
                Turn::Stop
            } else {
                Turn::TakeControl
            },
            worked: true,
            ..it
        },
        (Turn::TakeControl, Event::Empty) => Iteration { turn: Turn::TakeData, ..it },
        (Turn::TakeControl, _) => Iteration { turn: Turn::Stop, ..it },
        (Turn::TakeData, Event::Handled(stop)) => Iteration {
            turn: if stop {
                Turn::Stop
            } else if it.drained + 1 >= COMMAND_DRAIN_BATCH_MAX {
                Turn::DeclareReads
            } else {
                Turn::TakeData
            },
            worked: true,
            drained: (it.drained + 1) as usize,
            ..it
        },
        (Turn::TakeData, Event::Empty) => Iteration { turn: Turn::DeclareReads, ..it },
        (Turn::TakeData, _) => Iteration { turn: Turn::Stop, ..it },
        (Turn::DeclareReads, Event::Declared(any)) => Iteration {
            turn: Turn::FireDue,
            worked: it.worked || any,
            ..it
        },
        (Turn::FireDue, Event::Fired(count)) => if !it.worked && count == 0 {
            Iteration { turn: Turn::CheckSchedules, ..it }
        } else if it.drained < COMMAND_DRAIN_BATCH_MAX {
            Iteration { turn: Turn::Quiesce, capped: 0, ..it }
        } else if it.capped + 1 < COMMAND_DRAIN_CAPPED_PASSES_MAX {
            Iteration { turn: Turn::Quiesce, capped: (it.capped + 1) as usize, ..it }
        } else {
            Iteration { turn: Turn::AskDeadline, ..it }
        },
        (Turn::AskDeadline, Event::Deadline { now, next }) => Iteration {
            turn: if lies_ahead(now, next) {
                Turn::CheckSchedules
            } else {
                Turn::Quiesce
            },
            ..it
        },
        (Turn::CheckSchedules, Event::Pending(count)) => Iteration {
            turn: if count > 0 {
                Turn::AwaitControl
            } else {
                Turn::Choose
            },
            ..it
        },
        (Turn::AwaitControl, _) => Iteration { turn: parked_turn(event), ..it },
        (Turn::Choose, Event::Clock { released, now, next }) => Iteration {
            turn: if !released || next is None {
                Turn::PollGap
            } else if lies_ahead(now, next) {
                Turn::AdvanceTo(next->0)
            } else {
                Turn::Over
            },
            ..it
        },
        (Turn::AdvanceTo(_), _) => Iteration { turn: Turn::Over, ..it },
        (Turn::PollGap, _) => Iteration { turn: Turn::IdleControl, worked: false, ..it },
        (Turn::IdleControl, Event::Handled(stop)) => Iteration {
            turn: if stop {
                Turn::Stop
            } else {
                Turn::IdleControl
            },
            worked: true,
            ..it
        },
        (Turn::IdleControl, Event::Empty) => Iteration {
            turn: if it.worked {
                Turn::Over
            } else {
                Turn::AwaitData
            },
            ..it
        },
        (Turn::IdleControl, _) => Iteration { turn: Turn::Stop, ..it },
        (Turn::AwaitData, _) => Iteration { turn: parked_turn(event), ..it },
        _ => it,
    }
}

impl Iteration {
    /// A batch is never overrun.
    pub open spec fn well_formed(&self) -> bool {
        &&& self.drained <= COMMAND_DRAIN_BATCH_MAX
        &&& self.turn is TakeControl || self.turn is TakeData ==> self.drained
            < COMMAND_DRAIN_BATCH_MAX
        &&& self.capped < COMMAND_DRAIN_CAPPED_PASSES_MAX
    }

    /// A new iteration.
    pub fn new() -> (it: Iteration)
        ensures
            it.well_formed(),
            it == (Iteration { turn: Turn::Quiesce, worked: false, drained: 0, capped: 0 }),
    {
        Iteration { turn: Turn::Quiesce, worked: false, drained: 0, capped: 0 }
    }

    /// Go on from what came of the turn.
    pub fn next(&mut self, event: Event)
        requires
            old(self).well_formed(),
            answers(old(self).turn, event),
        ensures
            final(self).well_formed(),
            *final(self) == after(*old(self), event),
    {
        match (self.turn, event) {
            (Turn::Quiesce, _) => {
                self.turn = Turn::TakeControl;
                self.worked = false;
                self.drained = 0;
            },
            (Turn::TakeControl, Event::Handled(stop)) => {
                self.worked = true;
                if stop {
                    self.turn = Turn::Stop;
                }
            },
            (Turn::TakeControl, Event::Empty) => {
                self.turn = Turn::TakeData;
            },
            (Turn::TakeControl, _) => {
                self.turn = Turn::Stop;
            },
            (Turn::TakeData, Event::Handled(stop)) => {
                self.worked = true;
                self.drained += 1;
                if stop {
                    self.turn = Turn::Stop;
                } else if self.drained >= COMMAND_DRAIN_BATCH_MAX {
                    self.turn = Turn::DeclareReads;
                }
            },
            (Turn::TakeData, Event::Empty) => {
                self.turn = Turn::DeclareReads;
            },
            (Turn::TakeData, _) => {
                self.turn = Turn::Stop;
            },
            (Turn::DeclareReads, Event::Declared(any)) => {
                self.worked = self.worked || any;
                self.turn = Turn::FireDue;
            },
            (Turn::FireDue, Event::Fired(count)) => {
                if !self.worked && count == 0 {
                    self.turn = Turn::CheckSchedules;
                } else if self.drained < COMMAND_DRAIN_BATCH_MAX {
                    self.capped = 0;
                    self.turn = Turn::Quiesce;
                } else if self.capped + 1 < COMMAND_DRAIN_CAPPED_PASSES_MAX {
                    self.capped += 1;
                    self.turn = Turn::Quiesce;
                } else {
                    self.turn = Turn::AskDeadline;
                }
            },
            (Turn::AskDeadline, Event::Deadline { now, next }) => {
                self.turn = match next {
                    Some(deadline) if deadline > now => Turn::CheckSchedules,
                    _ => Turn::Quiesce,
                };
            },
            (Turn::CheckSchedules, Event::Pending(count)) => {
                self.turn = if count > 0 {
                    Turn::AwaitControl
                } else {
                    Turn::Choose
                };
            },
            (Turn::Choose, Event::Clock { released, now, next }) => {
                self.turn = match next {
                    Some(deadline) if released => if deadline > now {
                        Turn::AdvanceTo(deadline)
                    } else {
                        Turn::Over
                    },
                    _ => Turn::PollGap,
                };
            },
            (Turn::AdvanceTo(_), _) => {
                self.turn = Turn::Over;
            },
            (Turn::PollGap, _) => {
                self.worked = false;
                self.turn = Turn::IdleControl;
            },
            (Turn::IdleControl, Event::Handled(stop)) => {
                self.worked = true;
                if stop {
                    self.turn = Turn::Stop;
                }
            },
            (Turn::IdleControl, Event::Empty) => {
                self.turn = if self.worked {
                    Turn::Over
                } else {
                    Turn::AwaitData
                };
            },
            (Turn::IdleControl, _) => {
                self.turn = Turn::Stop;
            },
            (Turn::AwaitControl, Event::Handled(true)) => {
                self.turn = Turn::Stop;
            },
            (Turn::AwaitControl, Event::Closed) => {
                self.turn = Turn::Stop;
            },
            (Turn::AwaitControl, _) => {
                self.turn = Turn::Over;
            },
            (Turn::AwaitData, Event::Handled(true)) => {
                self.turn = Turn::Stop;
            },
            (Turn::AwaitData, Event::Closed) => {
                self.turn = Turn::Stop;
            },
            (Turn::AwaitData, _) => {
                self.turn = Turn::Over;
            },
            _ => {},
        }
    }
}

/// Virtual time advances only once the system is assembled, only to the next
/// instant anything waits for, and only ahead.
pub proof fn time_advances_to_the_next_deadline(it: Iteration, event: Event, deadline: u64)
    requires
        answers(it.turn, event),
        after(it, event).turn == Turn::AdvanceTo(deadline),
    ensures
        it.turn == Turn::Choose,
        event matches Event::Clock { released, now, next } && released && next == Some(deadline)
            && deadline > now,
{
}

/// Virtual time is looked at only while no scheduling request is on its way:
/// no deadline that was asked for is stepped over.
pub proof fn no_asked_deadline_is_stepped_over(it: Iteration, event: Event)
    requires
        answers(it.turn, event),
        after(it, event).turn == Turn::Choose,
    ensures
        it.turn == Turn::CheckSchedules,
        event == Event::Pending(0),
{
}

/// Scheduling requests are looked for only where a pass found nothing to do,
/// or after as many full batches as an iteration takes with the next wake
/// ahead.
pub proof fn a_pass_ends_idle_or_capped(it: Iteration, event: Event)
    requires
        it.well_formed(),
        answers(it.turn, event),
        after(it, event).turn == Turn::CheckSchedules,
    ensures
        (it.turn == Turn::FireDue && !it.worked && event == Event::Fired(0)) || (it.turn
            == Turn::AskDeadline && (event matches Event::Deadline { now, next } && lies_ahead(
            now,
            next,
        ))),
{
}

/// A flood of commands cannot starve the wheel: the full batch that completes
/// the bound on them asks for the next deadline, and one ahead ends the
/// draining.
pub proof fn a_flood_is_bounded(it: Iteration, fired: usize, now: u64, next: Option<u64>)
    requires
        it.well_formed(),
        it.turn == Turn::FireDue,
        it.worked,
        it.drained == COMMAND_DRAIN_BATCH_MAX,
        it.capped + 1 == COMMAND_DRAIN_CAPPED_PASSES_MAX,
        lies_ahead(now, next),
    ensures
        after(it, Event::Fired(fired)).turn == Turn::AskDeadline,
        after(after(it, Event::Fired(fired)), Event::Deadline { now, next }).turn
            == Turn::CheckSchedules,
{
}

} // verus!
