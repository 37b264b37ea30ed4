//! What becomes of what is sent.
use vstd::prelude::*;

use crate::engine::commands::Command;
use crate::link::{on_the_way_after, recorded_with, taken, Sent};
use crate::net::{Drive, EndpointId};

verus! {

/// An engine takes what is in its queue, and nothing that went nowhere.
pub proof fn what_is_queued_is_taken()
    ensures
        taken(Sent::Queued),
        !taken(Sent::Gone),
        !taken(Sent::Inert),
{
}

/// A link to no engine records every drive it is sent, behind the others, and
/// nothing else; a link to an engine records nothing.
pub proof fn an_inert_link_records_drives(
    list: Seq<(EndpointId, Option<Drive>)>,
    recorded: Option<Seq<(EndpointId, Option<Drive>)>>,
    command: Command,
    sent: Sent,
    seq: u64,
    endpoint: EndpointId,
    drive: Option<Drive>,
)
    ensures
        recorded_with(Some(list), Command::Drive { seq, endpoint, drive }, Sent::Inert) == Some(
            list.push((endpoint, drive)),
        ),
        !(command is Drive) ==> recorded_with(recorded, command, sent) == recorded,
        sent != Sent::Inert ==> recorded_with(recorded, command, sent) == recorded,
        recorded is None ==> recorded_with(recorded, command, sent) is None,
{
}

/// A request that is queued stays on the way, and one that is not no longer
/// is: nothing is waited for that will not come.
pub proof fn only_what_is_queued_is_on_the_way(pending: usize, sent: Sent)
    ensures
        sent == Sent::Queued ==> on_the_way_after(pending, sent) == pending,
        sent != Sent::Queued ==> on_the_way_after(pending, sent) == pending - 1,
{
}

} // verus!
