//! What a voltage reads as, and what a drive presents.
use vstd::prelude::*;

use crate::net::{
    in_dead_band, is_periodic, normalised, port_in, push_pull, state_level, volts_level, Drive,
    Level, NetMove, NetState, NetVolts, Ohms, PeriodicSchedule, Phase, TheveninDrive, Volts,
};
use crate::quantity::Quantity;

verus! {

/// A voltage is high from a volt and a half up, and no level strictly between
/// eight tenths of a volt and two; what is no number is low.
pub proof fn a_voltage_reads_as_its_level(n: i64)
    ensures
        volts_level(Quantity::Finite(n)) == Level::High <==> n >= 1_500_000_000_000,
        in_dead_band(Quantity::Finite(n)) <==> 800_000_000_000 < n < 2_000_000_000_000,
        volts_level(Quantity::Infinite) == Level::High,
        volts_level(Quantity::NegInfinite) == Level::Low,
        volts_level(Quantity::Nan) == Level::Low,
        !in_dead_band(Quantity::Nan),
        !in_dead_band(Quantity::Infinite),
        !in_dead_band(Quantity::NegInfinite),
{
}

/// A higher voltage never reads lower.
pub proof fn levels_follow_the_voltage(a: Volts, b: Volts)
    requires
        a.below(b),
        volts_level(a) == Level::High,
    ensures
        volts_level(b) == Level::High,
{
}

/// A net that is driven or pulled presents the level it is driven or pulled
/// to, a voltage the level it reads as, and any other net none.
pub proof fn a_state_presents_its_level(level: Level, ohms: Ohms, volts: Volts, state: NetState)
    ensures
        state_level(NetState::Driven(level)) == Some(level),
        state_level(NetState::Pulled(level, ohms)) == Some(level),
        state_level(NetState::Analog(volts)) == Some(volts_level(volts)),
        state is Floating || state is Contention || state is Periodic ==> state_level(state) is None,
{
}

/// A digital output drives its rail behind twenty-five ohms: 3.3 V high and
/// nought low.
pub proof fn a_digital_output_drives_its_rail()
    ensures
        push_pull(Level::High).volts == Quantity::Finite(3_300_000_000_000),
        push_pull(Level::Low).volts == Quantity::Finite(0),
        push_pull(Level::High).impedance == Quantity::Finite(25_000_000),
        push_pull(Level::Low).impedance == Quantity::Finite(25_000_000),
{
}

/// A drive is held as it is given, but for an open one, which is a release.
pub proof fn a_drive_is_held_as_given(drive: Option<Drive>)
    ensures
        normalised(drive) is Some ==> normalised(drive) == drive,
        normalised(drive) is None <==> drive is None || (drive matches Some(Drive::Thevenin(port))
            && !(port.impedance is Finite)) || (drive matches Some(Drive::Current { amps })
            && !(amps is Finite)),
{
}

/// A drive presents its own port in every phase, a square wave the high or the
/// low one, and an open port, an injection and a release none.
pub proof fn a_drive_presents_its_port(
    port: TheveninDrive,
    hi: TheveninDrive,
    lo: TheveninDrive,
    segment: PeriodicSchedule,
    amps: Quantity,
    phase: Option<Phase>,
)
    ensures
        port.impedance is Finite ==> port_in(Some(Drive::Thevenin(port)), phase) == Some(port),
        !(port.impedance is Finite) ==> port_in(Some(Drive::Thevenin(port)), phase) is None,
        hi.impedance is Finite ==> port_in(
            Some(Drive::Periodic { hi, lo, segment }),
            Some(Phase::High),
        ) == Some(hi),
        lo.impedance is Finite ==> port_in(
            Some(Drive::Periodic { hi, lo, segment }),
            Some(Phase::Low),
        ) == Some(lo),
        !(hi.impedance is Finite) ==> port_in(
            Some(Drive::Periodic { hi, lo, segment }),
            Some(Phase::High),
        ) is None,
        !(lo.impedance is Finite) ==> port_in(
            Some(Drive::Periodic { hi, lo, segment }),
            Some(Phase::Low),
        ) is None,
        port_in(Some(Drive::Periodic { hi, lo, segment }), None) is None,
        port_in(Some(Drive::Current { amps }), phase) is None,
        port_in(None, phase) is None,
        is_periodic(Some(Drive::Periodic { hi, lo, segment })),
        !is_periodic(Some(Drive::Thevenin(port))),
        !is_periodic(Some(Drive::Current { amps })),
        !is_periodic(None),
{
}

/// A net has moved exactly if its state or its voltage is another: its state
/// first, and only its voltage where the state is the same.
pub proof fn a_net_moves_by_what_changed(
    before: (NetState, NetVolts),
    after: (NetState, NetVolts),
)
    ensures
        NetMove::between(before, after) is None <==> before == after,
        NetMove::between(before, after) == Some(NetMove::State) <==> before.0 != after.0,
        NetMove::between(before, after) == Some(NetMove::Volts) <==> before.0 == after.0
            && before.1 != after.1,
{
}

} // verus!
