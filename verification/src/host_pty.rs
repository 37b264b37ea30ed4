//! The host's end of a serial link: the bytes that wait for it, and what the
//! pump between it and the wire does next.
pub mod laws;

use vstd::prelude::*;

use std::collections::VecDeque;

use crate::mcu::{decoded_bytes, deliver_rx, PinKind, PumpRead};

verus! {

/// How long the pump polls, in milliseconds.
pub const PUMP_POLL_TIMEOUT_MS: i32 = 10;

/// How many host bytes one read takes.
pub const PUMP_READ_CHUNK: usize = 256;

/// How many bytes one write offers the host.
pub const PUMP_WRITE_CHUNK: usize = 4096;

/// How many bytes wait for a host that does not read.
pub const OUTBOUND_MAX: usize = 1_048_576;

/// What a write to the host came to.
#[derive(Debug, Clone, Copy, PartialEq, Eq, Structural)]
pub enum Wrote {
    /// So many bytes were taken.
    Taken(usize),
    /// The host's end is full for now.
    WouldBlock,
    /// An error.
    Failed,
}

/// What a poll of the host's end came to.
#[derive(Debug, Clone, Copy, PartialEq, Eq, Structural)]
pub enum Polled {
    /// It can be read or written.
    Ready,
    /// The time is up.
    TimedOut,
    /// Interrupted.
    Interrupted,
    /// An error.
    Failed,
}

/// What the pump does next.
#[derive(Debug, Clone, Copy, PartialEq, Eq, Structural)]
pub enum HostStep {
    /// Hand over what waits, then poll again, unless shut down.
    Poll,
    /// Read.
    Read,
    /// Frame so many bytes onto the wire, then read again.
    Transmit(usize),
    /// Stop.
    Stop,
}

/// The bytes a write offers: the first that wait, up to a chunk of them.
pub open spec fn chunk_of(queue: Seq<u8>) -> Seq<u8> {
    if queue.len() <= PUMP_WRITE_CHUNK {
        queue
    } else {
        queue.take(PUMP_WRITE_CHUNK as int)
    }
}

/// How many bytes are too many to wait.
pub open spec fn excess(queue: Seq<u8>) -> nat {
    if queue.len() > OUTBOUND_MAX {
        (queue.len() - OUTBOUND_MAX) as nat
    } else {
        0
    }
}

/// What still waits once a write came to something.
pub open spec fn left_by(queue: Seq<u8>, written: Wrote) -> Seq<u8> {
    match written {
        Wrote::Taken(n) => queue.skip(n as int),
        _ => queue,
    }
}

/// What still waits once the excess is given up.
pub open spec fn kept_of(queue: Seq<u8>) -> Seq<u8> {
    queue.skip(excess(queue) as int)
}

/// What waits once the wire's frames were delivered.
pub open spec fn queued<E>(queue: Seq<u8>, frames: Seq<Result<u8, E>>) -> Seq<u8> {
    queue + decoded_bytes(frames)
}

/// How many bytes were given up once the excess is, as a 64-bit counter holds
/// it.
pub open spec fn lost_with(lost: u64, queue: Seq<u8>) -> int {
    (lost + excess(queue)) % 0x1_0000_0000_0000_0000
}

/// Whether a write is followed by another.
pub open spec fn writes_again(queue: Seq<u8>, written: Wrote) -> bool {
    match written {
        Wrote::Taken(n) => n > 0 && left_by(queue, written).len() > 0,
        _ => false,
    }
}

/// What the pump does with a poll.
pub open spec fn after_poll(polled: Polled) -> HostStep {
    match polled {
        Polled::Ready => HostStep::Read,
        Polled::TimedOut => HostStep::Poll,
        Polled::Interrupted => HostStep::Poll,
        Polled::Failed => HostStep::Stop,
    }
}

/// What the pump does with a read.
pub open spec fn after_read(read: PumpRead) -> HostStep {
    match read {
        PumpRead::Closed => HostStep::Poll,
        PumpRead::Bytes(n) => if n == 0 {
            HostStep::Poll
        } else {
            HostStep::Transmit(n)
        },
        PumpRead::WouldBlock => HostStep::Poll,
        PumpRead::Interrupted => HostStep::Read,
        PumpRead::Failed => HostStep::Stop,
    }
}

/// A serial link whose far end is a terminal the host can open.
#[derive(Debug)]
pub struct HostPty {
    symlink_path: String,
    baud_hz: u32,
    outbound: VecDeque<u8>,
    dropped: u64,
}

impl HostPty {
    /// The path a host opens.
    pub closed spec fn path(&self) -> Seq<char> {
        self.symlink_path@
    }

    /// The link's rate.
    pub closed spec fn rate(&self) -> u32 {
        self.baud_hz
    }

    /// The bytes that wait for the host, the next first.
    pub closed spec fn waiting(&self) -> Seq<u8> {
        self.outbound@
    }

    /// How many bytes were given up, as a 64-bit counter holds it.
    pub closed spec fn lost(&self) -> u64 {
        self.dropped
    }

    /// A link at a path and a rate; nothing waits.
    pub fn open(symlink_path: &str, baud_hz: u32) -> (link: HostPty)
        ensures
            link.path() == symlink_path@,
            link.rate() == baud_hz,
            link.waiting() == Seq::<u8>::empty(),
            link.lost() == 0,
    {
        HostPty {
            symlink_path: symlink_path.to_owned(),
            baud_hz,
            outbound: VecDeque::new(),
            dropped: 0,
        }
    }

    /// The path a host opens to reach the link.
    pub fn symlink_path(&self) -> (path: &str)
        ensures
            path@ == self.path(),
    {
        self.symlink_path.as_str()
    }

    /// The link's rate.
    pub fn baud_hz(&self) -> (r: u32)
        ensures
            r == self.rate(),
    {
        self.baud_hz
    }

    /// The link's pins, as the host names them: what it sends is driven onto
    /// the net.
    pub fn pins(&self) -> (pins: Vec<(String, PinKind)>)
        ensures
            pins@.len() == 2,
            pins@[0].0@ == "TX"@,
            pins@[0].1 == PinKind::DigitalOut,
            pins@[1].0@ == "RX"@,
            pins@[1].1 == PinKind::DigitalIn,
    {
        let mut pins: Vec<(String, PinKind)> = Vec::new();
        pins.push(("TX".to_owned(), PinKind::DigitalOut));
        pins.push(("RX".to_owned(), PinKind::DigitalIn));
        pins
    }

    /// How many bytes were given up because the host stopped reading.
    pub fn dropped(&self) -> (n: u64)
        ensures
            n == self.lost(),
    {
        self.dropped
    }

    /// Queue the bytes the wire spelled; a badly framed one is dropped.
    pub fn deliver<E>(&mut self, frames: &Vec<Result<u8, E>>)
        ensures
            final(self).waiting() == queued(old(self).waiting(), frames@),
            final(self).lost() == old(self).lost(),
            final(self).path() == old(self).path(),
            final(self).rate() == old(self).rate(),
    {
        let bytes = deliver_rx(frames);
        let mut i: usize = 0;
        while i < bytes.len()
            invariant
                i <= bytes@.len(),
                self.outbound@ =~= old(self).outbound@ + bytes@.take(i as int),
                *self == (HostPty { outbound: self.outbound, ..*old(self) }),
            decreases bytes@.len() - i,
        {
            self.outbound.push_back(bytes[i]);
            i += 1;
        }
        assert(bytes@.take(i as int) =~= bytes@);
    }

    /// The bytes the next write offers the host; none where none wait.
    pub fn next_chunk(&self) -> (chunk: Vec<u8>)
        ensures
            chunk@ == chunk_of(self.waiting()),
    {
        let take: usize = if self.outbound.len() <= PUMP_WRITE_CHUNK {
            self.outbound.len()
        } else {
            PUMP_WRITE_CHUNK
        };
        let mut chunk: Vec<u8> = Vec::new();
        let mut i: usize = 0;
        while i < take
            invariant
                i <= take <= self.outbound@.len(),
                chunk@ =~= self.outbound@.take(i as int),
            decreases take - i,
        {
            chunk.push(self.outbound[i]);
            i += 1;
        }
        assert(self.outbound@.take(self.outbound@.len() as int) =~= self.outbound@);
        chunk
    }

    /// Take bytes off the front.
    fn take_off(&mut self, n: usize)
        requires
            n <= old(self).outbound@.len(),
        ensures
            final(self).outbound@ == old(self).outbound@.skip(n as int),
            *final(self) == (HostPty { outbound: final(self).outbound, ..*old(self) }),
    {
        let mut i: usize = 0;
        while i < n
            invariant
                i <= n <= old(self).outbound@.len(),
                self.outbound@ =~= old(self).outbound@.skip(i as int),
                *self == (HostPty { outbound: self.outbound, ..*old(self) }),
            decreases n - i,
        {
            let byte = self.outbound.pop_front();
            i += 1;
        }
    }

    /// Take what a write of the chunk came to: the bytes the host took are
    /// gone, and the rest stay. Returns whether to write again.
    pub fn wrote(&mut self, written: Wrote) -> (again: bool)
        requires
            written matches Wrote::Taken(n) ==> n <= chunk_of(old(self).waiting()).len(),
        ensures
            final(self).waiting() == left_by(old(self).waiting(), written),
            again == writes_again(old(self).waiting(), written),
            final(self).lost() == old(self).lost(),
            final(self).path() == old(self).path(),
            final(self).rate() == old(self).rate(),
    {
        match written {
            Wrote::Taken(n) => {
                self.take_off(n);
                n > 0 && self.outbound.len() > 0
            },
            _ => false,
        }
    }

    /// Give up the oldest bytes beyond what may wait, and count them. Returns
    /// whether any still wait.
    pub fn give_up(&mut self) -> (pending: bool)
        ensures
            final(self).waiting() == kept_of(old(self).waiting()),
            final(self).lost() == lost_with(old(self).lost(), old(self).waiting()),
            pending == (final(self).waiting().len() > 0),
            final(self).path() == old(self).path(),
            final(self).rate() == old(self).rate(),
    {
        if self.outbound.len() > OUTBOUND_MAX {
            let over: usize = self.outbound.len() - OUTBOUND_MAX;
            self.take_off(over);
            let total: u128 = self.dropped as u128 + over as u128;
            self.dropped = (total % 0x1_0000_0000_0000_0000) as u64;
        } else {
            assert(self.outbound@.skip(0) =~= self.outbound@);
        }
        self.outbound.len() > 0
    }
}

/// What the pump does with a poll.
pub fn polled_step(polled: Polled) -> (step: HostStep)
    ensures
        step == after_poll(polled),
{
    match polled {
        Polled::Ready => HostStep::Read,
        Polled::TimedOut => HostStep::Poll,
        Polled::Interrupted => HostStep::Poll,
        Polled::Failed => HostStep::Stop,
    }
}

/// What the pump does with a read: no byte means that no host is attached
/// yet.
pub fn read_step(read: PumpRead) -> (step: HostStep)
    ensures
        step == after_read(read),
{
    match read {
        PumpRead::Closed => HostStep::Poll,
        PumpRead::Bytes(n) => if n == 0 {
            HostStep::Poll
        } else {
            HostStep::Transmit(n)
        },
        PumpRead::WouldBlock => HostStep::Poll,
        PumpRead::Interrupted => HostStep::Read,
        PumpRead::Failed => HostStep::Stop,
    }
}

/// Bytes leave in order and whole: what a write took, and then what still
/// waits, is what waited.
pub proof fn bytes_leave_in_order(queue: Seq<u8>, n: int)
    requires
        0 <= n <= chunk_of(queue).len(),
    ensures
        chunk_of(queue).take(n) + queue.skip(n) == queue,
{
    assert(chunk_of(queue).take(n) =~= queue.take(n));
    assert(queue.take(n) + queue.skip(n) =~= queue);
}

/// No byte is given up while no more than may wait do, and never more than
/// the excess: the newest stay.
pub proof fn only_the_excess_is_lost(queue: Seq<u8>)
    ensures
        queue.len() <= OUTBOUND_MAX ==> queue.skip(excess(queue) as int) == queue,
        queue.len() > OUTBOUND_MAX ==> queue.skip(excess(queue) as int).len() == OUTBOUND_MAX,
        queue.skip(excess(queue) as int).len() <= OUTBOUND_MAX,
{
    if queue.len() <= OUTBOUND_MAX {
        assert(queue.skip(0) =~= queue);
    }
}

} // verus!
