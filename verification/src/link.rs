//! The client half of an engine: what becomes of the commands that are sent.
pub mod laws;

use vstd::prelude::*;

use crate::engine::commands::Command;
use crate::net::{Drive, EndpointId};
use crate::sequencer::place_after;

verus! {

/// What became of a command on its way to the engine.
#[derive(Debug, Clone, Copy, PartialEq, Eq, Structural)]
pub enum Sent {
    /// It is in the engine's queue.
    Queued,
    /// The engine has shut down.
    Gone,
    /// There is no engine: the link is inert.
    Inert,
}

/// Whether an engine will take what became so.
pub open spec fn taken(sent: Sent) -> bool {
    sent == Sent::Queued
}

/// What a link has recorded once a command was sent.
pub open spec fn recorded_with(
    recorded: Option<Seq<(EndpointId, Option<Drive>)>>,
    command: Command,
    sent: Sent,
) -> Option<Seq<(EndpointId, Option<Drive>)>> {
    match (sent, command, recorded) {
        (Sent::Inert, Command::Drive { endpoint, drive, .. }, Some(list)) => Some(
            list.push((endpoint, drive)),
        ),
        _ => recorded,
    }
}

/// How many requests are on the way once one came to something.
pub open spec fn on_the_way_after(pending: usize, sent: Sent) -> int {
    if taken(sent) {
        pending as int
    } else {
        pending - 1
    }
}

/// The state the clients of an engine share.
///
/// An inert link, over a board that is only analysed, records the drives that
/// are sent; everything else is dropped.
#[derive(Debug)]
pub struct EngineLink {
    drive_seq: u64,
    pending_schedules: usize,
    recorded_drives: Option<Vec<(EndpointId, Option<Drive>)>>,
}

impl EngineLink {
    /// The place of the next drive.
    pub closed spec fn next_place(&self) -> u64 {
        self.drive_seq
    }

    /// How many scheduling requests were sent and not yet handled.
    pub closed spec fn on_the_way(&self) -> usize {
        self.pending_schedules
    }

    /// The drives an inert link recorded, in the order they were sent.
    pub closed spec fn recorded(&self) -> Option<Seq<(EndpointId, Option<Drive>)>> {
        match self.recorded_drives {
            Some(list) => Some(list@),
            None => None,
        }
    }

    /// A link to a running engine.
    pub fn live() -> (link: EngineLink)
        ensures
            link.next_place() == 0,
            link.on_the_way() == 0,
            link.recorded() is None,
    {
        EngineLink { drive_seq: 0, pending_schedules: 0, recorded_drives: None }
    }

    /// A link to no engine.
    pub fn inert() -> (link: EngineLink)
        ensures
            link.next_place() == 0,
            link.on_the_way() == 0,
            link.recorded() == Some(Seq::<(EndpointId, Option<Drive>)>::empty()),
    {
        EngineLink { drive_seq: 0, pending_schedules: 0, recorded_drives: Some(Vec::new()) }
    }

    /// Reserve the next drive's place in the order.
    pub fn next_drive_seq(&mut self) -> (seq: u64)
        ensures
            seq == old(self).next_place(),
            final(self).next_place() == place_after(seq),
            final(self).on_the_way() == old(self).on_the_way(),
            final(self).recorded() == old(self).recorded(),
    {
        let seq: u64 = self.drive_seq;
        self.drive_seq = if seq == u64::MAX {
            0
        } else {
            seq + 1
        };
        seq
    }

    /// A command was sent. Returns whether an engine will take it: none takes
    /// what an inert link is sent, which records a drive and drops everything
    /// else.
    pub fn send(&mut self, command: &Command, sent: Sent) -> (r: bool)
        ensures
            final(self).next_place() == old(self).next_place(),
            final(self).on_the_way() == old(self).on_the_way(),
            r == taken(sent),
            final(self).recorded() == recorded_with(old(self).recorded(), *command, sent),
    {
        match sent {
            Sent::Queued => true,
            Sent::Gone => false,
            Sent::Inert => {
                if let (Command::Drive { endpoint, drive, .. }, Some(list)) = (
                    command,
                    &mut self.recorded_drives,
                ) {
                    list.push((*endpoint, *drive));
                }
                false
            },
        }
    }

    /// A scheduling request is about to be sent: it counts as on the way from
    /// here on, so that virtual time cannot step over it.
    pub fn begin_control(&mut self)
        requires
            old(self).on_the_way() < usize::MAX,
        ensures
            final(self).on_the_way() == old(self).on_the_way() + 1,
            final(self).next_place() == old(self).next_place(),
            final(self).recorded() == old(self).recorded(),
    {
        self.pending_schedules += 1;
    }

    /// What became of the request; one that is not in the queue is not on the
    /// way.
    pub fn end_control(&mut self, sent: Sent) -> (r: bool)
        requires
            old(self).on_the_way() > 0,
        ensures
            r == taken(sent),
            final(self).on_the_way() == on_the_way_after(old(self).on_the_way(), sent),
            final(self).next_place() == old(self).next_place(),
            final(self).recorded() == old(self).recorded(),
    {
        if sent == Sent::Queued {
            true
        } else {
            self.pending_schedules -= 1;
            false
        }
    }

    /// The engine took a scheduling request off its queue.
    pub fn took_control(&mut self)
        requires
            old(self).on_the_way() > 0,
        ensures
            final(self).on_the_way() == old(self).on_the_way() - 1,
            final(self).next_place() == old(self).next_place(),
            final(self).recorded() == old(self).recorded(),
    {
        self.pending_schedules -= 1;
    }

    /// How many scheduling requests are on the way.
    pub fn pending(&self) -> (n: usize)
        ensures
            n == self.on_the_way(),
    {
        self.pending_schedules
    }

    /// The drives an inert link recorded.
    pub fn recorded_drives(&self) -> (drives: Option<&Vec<(EndpointId, Option<Drive>)>>)
        ensures
            drives is Some == (self.recorded() is Some),
            drives matches Some(list) ==> self.recorded() == Some(list@),
    {
        self.recorded_drives.as_ref()
    }
}

} // verus!
