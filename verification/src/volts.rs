//! The voltage behind every net, as the last pass published it.
use vstd::prelude::*;

use crate::net::NetVolts;
use crate::quantity::Volts;

verus! {

/// What a table names at a net; a net it does not hold names none.
pub open spec fn named_at(table: Seq<NetVolts>, net: int) -> NetVolts {
    if 0 <= net < table.len() {
        table[net]
    } else {
        NetVolts::unnamed()
    }
}

/// A table with a net's voltage replaced; a net it does not hold is dropped.
pub open spec fn stored(table: Seq<NetVolts>, net: int, volts: NetVolts) -> Seq<NetVolts> {
    if 0 <= net < table.len() {
        table.update(net, volts)
    } else {
        table
    }
}

/// The published voltages.
#[derive(Debug)]
pub struct VoltsTable {
    cells: Vec<NetVolts>,
}

impl View for VoltsTable {
    type V = Seq<NetVolts>;

    closed spec fn view(&self) -> Seq<NetVolts> {
        self.cells@
    }
}

impl VoltsTable {
    /// A table that holds `volts` for each net in order.
    pub fn of(volts: Vec<NetVolts>) -> (table: VoltsTable)
        ensures
            table@ == volts@,
    {
        VoltsTable { cells: volts }
    }

    /// Publish a net's voltage.
    pub fn store(&mut self, net: usize, volts: NetVolts)
        ensures
            final(self)@ == stored(old(self)@, net as int, volts),
    {
        if net < self.cells.len() {
            self.cells.set(net, volts);
        }
    }

    /// A net's voltage as last published.
    pub fn load(&self, net: usize) -> (volts: NetVolts)
        ensures
            volts == named_at(self@, net as int),
    {
        if net < self.cells.len() {
            self.cells[net]
        } else {
            NetVolts::none()
        }
    }

    /// A net's node voltage alone, as last published.
    pub fn dc(&self, net: usize) -> (volts: Option<Volts>)
        ensures
            volts == named_at(self@, net as int).dc,
    {
        if net < self.cells.len() {
            self.cells[net].dc
        } else {
            None
        }
    }
}

/// A read gives back what the last write of its net put there.
pub proof fn a_read_gives_the_last_write(
    table: Seq<NetVolts>,
    net: int,
    other: int,
    volts: NetVolts,
)
    requires
        0 <= net < table.len(),
    ensures
        named_at(stored(table, net, volts), net) == volts,
        other != net ==> named_at(stored(table, net, volts), other) == named_at(table, other),
        stored(table, net, volts).len() == table.len(),
{
}

} // verus!
