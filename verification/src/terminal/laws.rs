//! What the sources on a terminal make of it.
use vstd::prelude::*;

use crate::net::{Drive, TheveninDrive};
use crate::quantity::{Quantity, Volts};
use crate::terminal::{
    decided, fight_inputs, fights, held_by_slot, held_volts, idle_drive, numeric_volts, one_voltage,
    TerminalDrive,
};

verus! {

proof fn voltages_are_the_declared(drives: Seq<TerminalDrive>)
    ensures
        numeric_volts(drives) == drives.filter(|d: TerminalDrive| d is Volts).map_values(
            |d: TerminalDrive| d->Volts_0,
        ),
    decreases drives.len(),
{
    reveal(Seq::filter);
    let volts = |d: TerminalDrive| d is Volts;
    let value = |d: TerminalDrive| d->Volts_0;
    if drives.len() > 0 {
        voltages_are_the_declared(drives.drop_last());
    }
    assert(numeric_volts(drives) =~= drives.filter(volts).map_values(value));
}

proof fn declared_voltages(drives: Seq<TerminalDrive>)
    ensures
        forall|i: int|
            0 <= i < drives.len() && (#[trigger] drives[i]) is Volts ==> numeric_volts(
                drives,
            ).contains(drives[i]->Volts_0),
        forall|j: int|
            0 <= j < numeric_volts(drives).len() ==> drives.contains(
                TerminalDrive::Volts(#[trigger] numeric_volts(drives)[j]),
            ),
    decreases drives.len(),
{
    if drives.len() > 0 {
        let front = drives.drop_last();
        declared_voltages(front);
        let all = numeric_volts(drives);
        let some = numeric_volts(front);
        assert forall|i: int| 0 <= i < drives.len() && (#[trigger] drives[i]) is Volts implies all.contains(
            drives[i]->Volts_0,
        ) by {
            if i < front.len() {
                assert(front[i] == drives[i]);
                let k = choose|k: int| 0 <= k < some.len() && some[k] == drives[i]->Volts_0;
                assert(all[k] == some[k]);
            } else {
                assert(all.last() == drives[i]->Volts_0);
            }
        }
        assert forall|j: int| 0 <= j < all.len() implies drives.contains(
            TerminalDrive::Volts(#[trigger] all[j]),
        ) by {
            if j < some.len() {
                assert(all[j] == some[j]);
                let k = choose|k: int|
                    0 <= k < front.len() && front[k] == TerminalDrive::Volts(some[j]);
                assert(drives[k] == front[k]);
            } else {
                assert(drives.last() == TerminalDrive::Volts(all[j]));
                assert(drives[drives.len() - 1] == drives.last());
            }
        }
    }
}

/// A terminal whose sources all hold one voltage, or hold none beside it,
/// holds that voltage; with no voltage it is unmodelled if a source is, and
/// down otherwise. Neither is a fight.
pub proof fn agreeing_sources_hold_their_voltage(
    drives: Seq<TerminalDrive>,
    fight: Volts,
    volts: Volts,
)
    requires
        !(volts is Nan),
        forall|i: int|
            0 <= i < drives.len() && (#[trigger] drives[i]) is Volts ==> drives[i]->Volts_0
                == volts,
    ensures
        !decided(drives, fight).fought,
        !fights(drives),
        drives.contains(TerminalDrive::Volts(volts)) ==> decided(drives, fight).drive
            == TerminalDrive::Volts(volts),
        !drives.contains(TerminalDrive::Volts(volts)) && drives.contains(TerminalDrive::Unmodelled)
            ==> decided(drives, fight).drive == TerminalDrive::Unmodelled,
        !drives.contains(TerminalDrive::Volts(volts)) && !drives.contains(TerminalDrive::Unmodelled)
            ==> decided(drives, fight).drive == TerminalDrive::Released,
{
    declared_voltages(drives);
    let all = numeric_volts(drives);
    assert forall|j: int| 0 <= j < all.len() implies #[trigger] all[j] == volts by {
        let k = choose|k: int| 0 <= k < drives.len() && drives[k] == TerminalDrive::Volts(all[j]);
        assert(drives[k] is Volts);
    }
    if drives.contains(TerminalDrive::Volts(volts)) {
        let k = choose|k: int| 0 <= k < drives.len() && drives[k] == TerminalDrive::Volts(volts);
        assert(drives[k] is Volts);
        assert(all.contains(volts));
    } else if all.len() > 0 {
        assert(drives.contains(TerminalDrive::Volts(all[0])));
    }
}

/// Two sources that hold different voltages fight: the terminal holds what
/// they fight to, and is unmodelled where that is no number.
pub proof fn disagreeing_sources_fight(
    drives: Seq<TerminalDrive>,
    fight: Volts,
    a: int,
    b: int,
)
    requires
        0 <= a < drives.len(),
        0 <= b < drives.len(),
        drives[a] is Volts,
        drives[b] is Volts,
        drives[a] != drives[b],
    ensures
        fights(drives),
        decided(drives, fight).fought,
        decided(drives, fight).drive == (if fight is Nan {
            TerminalDrive::Unmodelled
        } else {
            TerminalDrive::Volts(fight)
        }),
{
    declared_voltages(drives);
    let all = numeric_volts(drives);
    let i = choose|i: int| 0 <= i < all.len() && all[i] == drives[a]->Volts_0;
    let j = choose|j: int| 0 <= j < all.len() && all[j] == drives[b]->Volts_0;
    if one_voltage(all) {
        assert(all[i].equals(all[0]));
        assert(all[j].equals(all[0]));
    }
}

/// A fight is every voltage that is declared, in order, as an ideal source on
/// the terminal.
pub proof fn a_fight_is_between_the_declared(drives: Seq<TerminalDrive>, root: usize)
    ensures
        ({
            let volts = drives.filter(|d: TerminalDrive| d is Volts).map_values(
                |d: TerminalDrive| d->Volts_0,
            );
            let sources = fight_inputs(root, numeric_volts(drives)).sources;
            &&& sources.len() == volts.len()
            &&& forall|i: int|
                0 <= i < sources.len() ==> (#[trigger] sources[i]).volts == volts[i]
                    && sources[i].node.0 == root && sources[i].impedance == Quantity::Finite(0)
        }),
{
    voltages_are_the_declared(drives);
}

/// A power-output pin's terminal holds the pin's open-circuit voltage, is
/// unmodelled where that is no number, and is down where the pin holds none.
pub proof fn a_terminal_holds_what_its_pin_drives(port: TheveninDrive, drive: Option<Drive>)
    ensures
        !(port.volts is Nan) ==> held_by_slot(Some(Drive::Thevenin(port))) == TerminalDrive::Volts(
            port.volts,
        ),
        port.volts is Nan ==> held_by_slot(Some(Drive::Thevenin(port))) == TerminalDrive::Unmodelled,
        !(drive matches Some(Drive::Thevenin(_))) ==> held_by_slot(drive)
            == TerminalDrive::Released,
        held_volts(port.volts) == held_by_slot(Some(Drive::Thevenin(port))),
        idle_drive(TerminalDrive::Released) is None,
        idle_drive(TerminalDrive::Volts(port.volts)) == Some(
            Drive::Thevenin(
                TheveninDrive { volts: port.volts, impedance: Quantity::Finite(0) },
            ),
        ),
{
}

/// A terminal holds the same as before exactly if it is as it was; a voltage
/// that is not a number is never the same.
pub proof fn what_holds_the_same(a: TerminalDrive, b: TerminalDrive)
    ensures
        a.holds_same(b) ==> a == b,
        a == b && !(a is Volts && a->Volts_0 is Nan) ==> a.holds_same(b),
        a is Volts && a->Volts_0 is Nan ==> !a.holds_same(b),
{
}

} // verus!
