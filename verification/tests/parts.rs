//! The engine's parts, each by itself.
use embsim_board::host_pty::{
    polled_step, read_step, HostPty, HostStep, Polled, Wrote, OUTBOUND_MAX, PUMP_WRITE_CHUNK,
};
use embsim_board::iteration::{
    Event, Iteration, Turn, COMMAND_DRAIN_BATCH_MAX, COMMAND_DRAIN_CAPPED_PASSES_MAX,
};
use embsim_board::mcu::{PinKind, PumpRead};
use embsim_board::net::{ComponentId, EndpointId, NetMove};
use embsim_board::senses::{first_moved_dependency, SenseStep, SenseTable};
use embsim_board::sequencer::{DriveQueue, GapPoll, PendingDrive};
use embsim_board::wheel::{capped, TimerWheel};

fn drive(seq: u64) -> PendingDrive {
    PendingDrive { seq, endpoint: EndpointId(seq as usize), drive: None }
}

#[test]
fn drives_leave_by_place_whatever_order_they_arrived_in() {
    for order in [[0, 1, 2], [2, 1, 0], [1, 2, 0]] {
        let mut queue = DriveQueue::new();
        for seq in order {
            queue.enqueue(drive(seq));
        }
        assert_eq!(queue.len(), 3);
        let mut out = Vec::new();
        while let Some(entry) = queue.take_ready() {
            out.push(entry.seq);
        }
        assert_eq!(out, vec![0, 1, 2]);
    }
}

#[test]
fn a_missing_place_is_given_up_after_its_polls() {
    let mut queue = DriveQueue::new();
    assert_eq!(queue.poll_gap(), GapPoll::Clear);
    queue.enqueue(drive(3));
    assert_eq!(queue.take_ready(), None);
    for _ in 0..99 {
        assert_eq!(queue.poll_gap(), GapPoll::Waiting);
    }
    assert_eq!(queue.poll_gap(), GapPoll::Skipped(0));
    assert_eq!(queue.take_ready(), Some(drive(3)));
    assert_eq!(queue.poll_gap(), GapPoll::Clear);
}

#[test]
fn a_wheel_fires_in_deadline_order_and_ties_in_the_order_asked() {
    let mut wheel = TimerWheel::new();
    wheel.arm(20, ComponentId(2), None);
    wheel.arm(10, ComponentId(0), None);
    wheel.arm(10, ComponentId(1), None);
    assert_eq!(wheel.next_deadline(), Some(10));
    assert_eq!(wheel.pop_due(9), None);
    let mut out = Vec::new();
    while let Some(due) = wheel.pop_due(20) {
        assert!(due.deliver);
        out.push(due.entry.component.0);
    }
    assert_eq!(out, vec![0, 1, 2]);
    assert_eq!(wheel.next_deadline(), None);
}

#[test]
fn a_late_periodic_wake_comes_again_a_period_from_now() {
    let mut wheel = TimerWheel::new();
    wheel.arm(10, ComponentId(0), Some(10));
    let due = wheel.pop_due(35).expect("due");
    wheel.rearm(due, 35);
    assert_eq!(wheel.next_deadline(), Some(45));
    let due = wheel.pop_due(45).expect("due");
    wheel.rearm(due, 45);
    assert_eq!(wheel.next_deadline(), Some(55));
}

#[test]
fn the_last_instant_is_not_passed() {
    assert_eq!(capped(5, 6), 11);
    assert_eq!(capped(u64::MAX, 1), u64::MAX);
    assert_eq!(capped(u64::MAX - 3, 3), u64::MAX);
}

#[test]
fn a_subscription_is_told_once_of_all_that_moved() {
    let mut table = SenseTable::new();
    assert_eq!(table.register(0, Some(1), Some(2), 3).sub, Some(0));
    assert_eq!(table.register(1, None, None, 3).sub, Some(1));
    let dropped = table.register(2, Some(9), Some(2), 3);
    assert_eq!((dropped.reference, dropped.sub), (None, Some(2)));
    assert_eq!(table.register(3, None, None, 3).sub, None);
    assert_eq!(table.len(), 3);
    assert_eq!(table.sub(2).supply, None);
    let moves = vec![(0, NetMove::State), (1, NetMove::Volts), (2, NetMove::State)];
    assert_eq!(
        table.script(&moves),
        vec![
            SenseStep::Resolved(0),
            SenseStep::Deliver(0),
            SenseStep::Deliver(1),
            SenseStep::Resolved(2),
            SenseStep::Deliver(2),
        ]
    );
    let behind = vec![(1, NetMove::Volts), (2, NetMove::Volts)];
    assert_eq!(first_moved_dependency(&table.sub(0), &behind), Some(1));
    assert_eq!(
        table.script(&behind),
        vec![SenseStep::Deliver(1), SenseStep::Deliver(2), SenseStep::Deliver(0)]
    );
}

/// An iteration up to its first look at the data commands.
fn at_data() -> Iteration {
    let mut it = Iteration::new();
    it.next(Event::Done);
    it.next(Event::Empty);
    assert_eq!(it.turn, Turn::TakeData);
    it
}

#[test]
fn a_pass_takes_a_bounded_batch() {
    let mut it = at_data();
    let mut taken = 0;
    while it.turn == Turn::TakeData {
        it.next(Event::Handled(false));
        taken += 1;
    }
    assert_eq!(taken, COMMAND_DRAIN_BATCH_MAX);
    assert_eq!(it.turn, Turn::DeclareReads);
}

#[test]
fn a_flood_lets_time_move_after_its_capped_passes() {
    let mut it = Iteration::new();
    let mut passes = 0;
    loop {
        it.next(Event::Done);
        it.next(Event::Empty);
        while it.turn == Turn::TakeData {
            it.next(Event::Handled(false));
        }
        it.next(Event::Declared(false));
        it.next(Event::Fired(0));
        passes += 1;
        if it.turn == Turn::AskDeadline {
            break;
        }
        assert_eq!(it.turn, Turn::Quiesce);
    }
    assert_eq!(passes, COMMAND_DRAIN_CAPPED_PASSES_MAX);
    let mut none = it;
    none.next(Event::Deadline { now: 5, next: None });
    assert_eq!(none.turn, Turn::Quiesce);
    it.next(Event::Deadline { now: 5, next: Some(9) });
    assert_eq!(it.turn, Turn::CheckSchedules);
    it.next(Event::Pending(0));
    it.next(Event::Clock { released: true, now: 5, next: Some(9) });
    assert_eq!(it.turn, Turn::AdvanceTo(9));
    it.next(Event::Done);
    assert_eq!(it.turn, Turn::Over);
}

fn idle() -> Iteration {
    let mut it = at_data();
    it.next(Event::Empty);
    it.next(Event::Declared(false));
    it.next(Event::Fired(0));
    assert_eq!(it.turn, Turn::CheckSchedules);
    it
}

#[test]
fn a_request_on_its_way_is_waited_for() {
    let mut it = idle();
    it.next(Event::Pending(1));
    assert_eq!(it.turn, Turn::AwaitControl);
    it.next(Event::TimedOut);
    assert_eq!(it.turn, Turn::Over);
}

#[test]
fn held_time_polls_and_parks() {
    for (released, next) in [(false, Some(9)), (true, None)] {
        let mut it = idle();
        it.next(Event::Pending(0));
        it.next(Event::Clock { released, now: 0, next });
        assert_eq!(it.turn, Turn::PollGap);
        it.next(Event::Done);
        it.next(Event::Empty);
        assert_eq!(it.turn, Turn::AwaitData);
        let mut closed = it;
        closed.next(Event::Closed);
        assert_eq!(closed.turn, Turn::Stop);
        it.next(Event::Handled(false));
        assert_eq!(it.turn, Turn::Over);
    }
}

#[test]
fn host_port_names_its_pins_as_the_host_does() {
    let link = HostPty::open("/run/port", 115_200);
    assert_eq!(link.symlink_path(), "/run/port");
    assert_eq!(link.baud_hz(), 115_200);
    assert_eq!(
        link.pins(),
        vec![
            ("TX".to_string(), PinKind::DigitalOut),
            ("RX".to_string(), PinKind::DigitalIn),
        ]
    );
}

#[test]
fn bytes_leave_in_the_order_they_were_spelled() {
    let mut link = HostPty::open("p", 9_600);
    assert!(link.next_chunk().is_empty());
    let frames: Vec<Result<u8, ()>> = vec![Ok(1), Err(()), Ok(2), Ok(3)];
    link.deliver(&frames);
    assert_eq!(link.next_chunk(), vec![1, 2, 3]);
    assert!(link.wrote(Wrote::Taken(2)));
    assert_eq!(link.next_chunk(), vec![3]);
    assert!(!link.wrote(Wrote::WouldBlock));
    assert!(!link.wrote(Wrote::Failed));
    assert!(link.give_up());
    assert!(!link.wrote(Wrote::Taken(1)));
    assert!(!link.give_up());
    assert_eq!(link.dropped(), 0);
}

#[test]
fn only_what_cannot_wait_is_given_up_oldest_first() {
    let mut link = HostPty::open("p", 9_600);
    let frames: Vec<Result<u8, ()>> = (0..OUTBOUND_MAX + 3).map(|i| Ok(i as u8)).collect();
    link.deliver(&frames);
    assert_eq!(link.next_chunk().len(), PUMP_WRITE_CHUNK);
    assert!(link.give_up());
    assert_eq!(link.dropped(), 3);
    assert_eq!(link.next_chunk()[..2], [3, 4]);
    assert!(link.give_up());
    assert_eq!(link.dropped(), 3);
}

#[test]
fn a_host_pump_outlives_a_host_that_is_not_there() {
    assert_eq!(polled_step(Polled::Ready), HostStep::Read);
    assert_eq!(polled_step(Polled::TimedOut), HostStep::Poll);
    assert_eq!(polled_step(Polled::Interrupted), HostStep::Poll);
    assert_eq!(polled_step(Polled::Failed), HostStep::Stop);
    assert_eq!(read_step(PumpRead::Closed), HostStep::Poll);
    assert_eq!(read_step(PumpRead::Bytes(0)), HostStep::Poll);
    assert_eq!(read_step(PumpRead::Bytes(7)), HostStep::Transmit(7));
    assert_eq!(read_step(PumpRead::WouldBlock), HostStep::Poll);
    assert_eq!(read_step(PumpRead::Interrupted), HostStep::Read);
    assert_eq!(read_step(PumpRead::Failed), HostStep::Stop);
}
