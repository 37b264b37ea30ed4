//! The bytes between the wire and the host, none lost and none made up.
use vstd::prelude::*;

use crate::host_pty::{
    after_poll, after_read, chunk_of, excess, kept_of, left_by, lost_with, queued, writes_again,
    HostStep, Polled, Wrote,
};
use crate::mcu::laws::every_decoded_byte_is_delivered;
use crate::mcu::PumpRead;

verus! {

/// What a write offers is the first bytes that wait, as many as one write
/// takes, and never none while any wait.
pub proof fn a_write_offers_the_first_that_wait(queue: Seq<u8>)
    ensures
        chunk_of(queue).is_prefix_of(queue),
        chunk_of(queue).len() == (if queue.len() <= 4096 {
            queue.len()
        } else {
            4096
        }),
        queue.len() > 0 ==> chunk_of(queue).len() > 0,
{
    if queue.len() <= 4096 {
        assert(chunk_of(queue) =~= queue);
    }
}

/// What a write took and what it left are what waited: a byte the host did not
/// take still waits, in its place.
pub proof fn a_write_takes_no_more_than_it_wrote(queue: Seq<u8>, written: Wrote)
    requires
        written matches Wrote::Taken(n) ==> n <= chunk_of(queue).len(),
    ensures
        written matches Wrote::Taken(n) ==> chunk_of(queue).take(n as int) + left_by(
            queue,
            written,
        ) == queue,
        !(written is Taken) ==> left_by(queue, written) == queue,
        writes_again(queue, written) <==> (written matches Wrote::Taken(n) && 0 < n && n
            < queue.len()),
{
    if let Wrote::Taken(n) = written {
        assert(chunk_of(queue).take(n as int) =~= queue.take(n as int));
        assert(queue.take(n as int) + queue.skip(n as int) =~= queue);
    }
}

/// The newest bytes stay, as many as may wait; nothing is given up while no
/// more do.
pub proof fn the_newest_bytes_stay(queue: Seq<u8>)
    ensures
        kept_of(queue).len() == (if queue.len() <= 1_048_576 {
            queue.len()
        } else {
            1_048_576
        }),
        excess(queue) + kept_of(queue).len() == queue.len(),
        forall|i: int|
            0 <= i < kept_of(queue).len() ==> #[trigger] kept_of(queue)[i] == queue[queue.len()
                - kept_of(queue).len() + i],
        queue.len() <= 1_048_576 ==> kept_of(queue) == queue,
{
    if queue.len() <= 1_048_576 {
        assert(queue.skip(0) =~= queue);
    }
}

/// The pump reads where it can, transmits exactly what it read, polls again
/// where there is nothing, and stops on an error alone.
pub proof fn the_pump_carries_what_it_reads(n: usize)
    ensures
        after_poll(Polled::Ready) == HostStep::Read,
        after_poll(Polled::TimedOut) == HostStep::Poll,
        after_poll(Polled::Interrupted) == HostStep::Poll,
        after_poll(Polled::Failed) == HostStep::Stop,
        n > 0 ==> after_read(PumpRead::Bytes(n)) == HostStep::Transmit(n),
        after_read(PumpRead::Bytes(0)) == HostStep::Poll,
        after_read(PumpRead::Closed) == HostStep::Poll,
        after_read(PumpRead::WouldBlock) == HostStep::Poll,
        after_read(PumpRead::Interrupted) == HostStep::Read,
        after_read(PumpRead::Failed) == HostStep::Stop,
{
}

/// What the wire spelled waits behind what waited: every byte of a frame that
/// decoded, in order, whatever the bytes are.
pub proof fn delivered_bytes_wait_in_order<E>(queue: Seq<u8>, frames: Seq<Result<u8, E>>)
    ensures
        queued(queue, frames) == queue + frames.filter(
            |frame: Result<u8, E>| frame is Ok,
        ).map_values(|frame: Result<u8, E>| frame->Ok_0),
        queue.is_prefix_of(queued(queue, frames)),
{
    every_decoded_byte_is_delivered(frames);
    assert(queue =~= queued(queue, frames).take(queue.len() as int));
}

/// Every byte that is given up is counted, and none that is not.
pub proof fn every_byte_given_up_is_counted(lost: u64, queue: Seq<u8>)
    requires
        lost + queue.len() <= u64::MAX,
    ensures
        lost_with(lost, queue) == lost + (queue.len() - kept_of(queue).len()),
{
    the_newest_bytes_stay(queue);
}

/// Nothing is lost on the way to a host that reads: what waited, delivered to
/// and written out in chunks, is what was delivered, in order.
pub proof fn what_is_delivered_is_written<E>(
    queue: Seq<u8>,
    frames: Seq<Result<u8, E>>,
    n: usize,
)
    requires
        n <= chunk_of(queued(queue, frames)).len(),
    ensures
        chunk_of(queued(queue, frames)).take(n as int) + left_by(
            queued(queue, frames),
            Wrote::Taken(n),
        ) == queued(queue, frames),
{
    a_write_takes_no_more_than_it_wrote(queued(queue, frames), Wrote::Taken(n));
}

} // verus!
