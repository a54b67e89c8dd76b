use inko_rt::allocator::BlockPool;
use inko_rt::class::{ClassId, ClassKind, ClassRegistry};
use inko_rt::errors::RuntimeError;
use inko_rt::mailbox::Mailbox;
use inko_rt::message::{Message, ObjectGraph};
use inko_rt::process::{next_state, step, Action, Event, Process, ProcessState};
use inko_rt::process_table::ProcessTable;
use inko_rt::tagged_pointer::TaggedPointer;

fn class(index: usize) -> ClassId {
    ClassId { index }
}

fn message(sender: u64, value: i64) -> Message {
    let word = TaggedPointer::integer(value).unwrap();
    Message::new(sender, ObjectGraph::immediate(word).unwrap())
}

fn all_states() -> Vec<ProcessState> {
    vec![
        ProcessState::Runnable,
        ProcessState::Running,
        ProcessState::WaitingReceive,
        ProcessState::WaitingTimer,
        ProcessState::SuspendedForGC,
        ProcessState::Finished,
    ]
}

fn all_events() -> Vec<Event> {
    vec![
        Event::Scheduled,
        Event::Yielded,
        Event::Completed,
        Event::BlockedOnReceive,
        Event::BlockedOnTimer,
        Event::Safepoint,
        Event::MessageArrived,
        Event::TimerFired,
        Event::Collected,
    ]
}

#[test]
fn the_transitions_are_exactly_the_nine() {
    let expected = vec![
        (ProcessState::Runnable, Event::Scheduled, ProcessState::Running, Action::Run),
        (ProcessState::Running, Event::Yielded, ProcessState::Runnable, Action::Enqueue),
        (ProcessState::Running, Event::Completed, ProcessState::Finished, Action::Reclaim),
        (ProcessState::Running, Event::BlockedOnReceive, ProcessState::WaitingReceive, Action::Park),
        (ProcessState::Running, Event::BlockedOnTimer, ProcessState::WaitingTimer, Action::Park),
        (ProcessState::Running, Event::Safepoint, ProcessState::SuspendedForGC, Action::Collect),
        (ProcessState::WaitingReceive, Event::MessageArrived, ProcessState::Runnable, Action::Enqueue),
        (ProcessState::WaitingTimer, Event::TimerFired, ProcessState::Runnable, Action::Enqueue),
        (ProcessState::SuspendedForGC, Event::Collected, ProcessState::Runnable, Action::Enqueue),
    ];
    let mut allowed = 0;
    for state in all_states() {
        for event in all_events() {
            let listed = expected.iter().find(|row| row.0 == state && row.1 == event);
            match listed {
                Some(row) => {
                    allowed += 1;
                    assert_eq!(next_state(state, event), Some(row.2));
                    assert_eq!(step(state, event), (row.2, row.3));
                }
                None => {
                    assert_eq!(next_state(state, event), None);
                    assert_eq!(step(state, event), (state, Action::Ignore));
                }
            }
        }
    }
    assert_eq!(allowed, 9);
}

#[test]
fn a_finished_process_stays_finished() {
    for event in all_events() {
        assert_eq!(next_state(ProcessState::Finished, event), None);
    }
}

#[test]
fn a_new_process_is_runnable_and_empty() {
    let process = Process::new(7, class(3), 4, 16);
    assert_eq!(process.pid(), 7);
    assert_eq!(process.class(), class(3));
    assert_eq!(process.state(), ProcessState::Runnable);
    assert_eq!(process.mailbox_len(), 0);
    assert_eq!(process.register(3), Some(TaggedPointer::null()));
    assert_eq!(process.register(4), None);
    assert_eq!(process.slot(0), None);
    assert_eq!(process.roots(), vec![TaggedPointer::null(); 4]);
    assert_eq!(process.heap().budget(), 16);
    assert_eq!(process.heap().block_count(), 0);
}

#[test]
fn registers_and_frames_are_the_roots_in_order() {
    let mut process = Process::new(0, class(0), 2, 4);
    let one = TaggedPointer::integer(1).unwrap();
    let two = TaggedPointer::integer(2).unwrap();
    let three = TaggedPointer::integer(3).unwrap();
    assert!(process.set_register(1, one));
    assert!(!process.set_register(2, one));
    assert!(!process.set_slot(0, two));
    assert!(!process.pop_frame());
    process.push_frame(2);
    assert!(process.set_slot(1, two));
    process.push_frame(1);
    assert!(process.set_slot(0, three));
    assert!(!process.set_slot(1, three));
    assert_eq!(process.slot(0), Some(three));
    assert_eq!(process.slot(1), None);
    assert_eq!(
        process.roots(),
        vec![TaggedPointer::null(), one, TaggedPointer::null(), two, three]
    );
    assert!(process.pop_frame());
    assert_eq!(process.slot(1), Some(two));
    assert_eq!(process.roots(), vec![TaggedPointer::null(), one, TaggedPointer::null(), two]);
    assert!(process.pop_frame());
    assert!(!process.pop_frame());
}

#[test]
fn apply_moves_through_the_states() {
    let mut process = Process::new(0, class(0), 0, 4);
    assert_eq!(process.apply(Event::Yielded), Action::Ignore);
    assert_eq!(process.state(), ProcessState::Runnable);
    assert_eq!(process.apply(Event::Scheduled), Action::Run);
    assert_eq!(process.state(), ProcessState::Running);
    assert_eq!(process.apply(Event::BlockedOnTimer), Action::Park);
    assert_eq!(process.state(), ProcessState::WaitingTimer);
    assert_eq!(process.apply(Event::MessageArrived), Action::Ignore);
    assert_eq!(process.apply(Event::TimerFired), Action::Enqueue);
    assert_eq!(process.apply(Event::Scheduled), Action::Run);
    assert_eq!(process.apply(Event::Completed), Action::Reclaim);
    assert_eq!(process.state(), ProcessState::Finished);
    assert_eq!(process.apply(Event::Scheduled), Action::Ignore);
}

#[test]
fn mailbox_is_first_in_first_out() {
    let mut mailbox = Mailbox::new();
    assert!(mailbox.is_empty());
    assert!(mailbox.receive().is_none());
    mailbox.send(message(1, 10));
    mailbox.send(message(2, 20));
    mailbox.send(message(1, 30));
    assert_eq!(mailbox.len(), 3);
    let first = mailbox.receive().unwrap();
    assert_eq!((first.sender(), first.graph().root().as_integer()), (1, Ok(10)));
    let second = mailbox.receive().unwrap();
    assert_eq!((second.sender(), second.graph().root().as_integer()), (2, Ok(20)));
    mailbox.put_back(second);
    assert_eq!(mailbox.len(), 2);
    let again = mailbox.receive().unwrap();
    assert_eq!((again.sender(), again.into_graph().root().as_integer()), (2, Ok(20)));
    let third = mailbox.receive().unwrap();
    assert_eq!((third.sender(), third.graph().root().as_integer()), (1, Ok(30)));
    assert!(mailbox.receive().is_none());
    assert!(mailbox.is_empty());
}

#[test]
fn delivery_wakes_a_waiting_process_only() {
    let mut process = Process::new(0, class(0), 0, 4);
    assert!(!process.deliver(message(5, 1)));
    assert_eq!(process.state(), ProcessState::Runnable);
    assert_eq!(process.apply(Event::Scheduled), Action::Run);
    assert!(process.receive().is_some());
    assert_eq!(process.state(), ProcessState::Running);
    assert!(process.receive().is_none());
    assert_eq!(process.state(), ProcessState::WaitingReceive);
    assert!(process.deliver(message(5, 2)));
    assert_eq!(process.state(), ProcessState::Runnable);
    assert_eq!(process.mailbox_len(), 1);
    assert!(!process.deliver(message(5, 3)));
    assert_eq!(process.mailbox_len(), 2);
}

#[test]
fn receive_on_an_empty_mailbox_blocks_a_running_process_only() {
    let mut process = Process::new(0, class(0), 0, 4);
    assert!(process.receive().is_none());
    assert_eq!(process.state(), ProcessState::Runnable);
}

#[test]
fn processes_allocate_instances_of_registered_classes() {
    let mut registry = ClassRegistry::new();
    let pair = registry.register_class(String::from("Pair"), 2, 0, ClassKind::Object).unwrap();
    let mut pool = BlockPool::new(2);
    let mut process = Process::new(0, class(0), 1, 1);
    let instance = process.allocate(&registry, &mut pool, pair).unwrap();
    assert_eq!(process.heap().object(instance).ok().unwrap().field_count(), 2);
    assert_eq!(process.heap().object(instance).ok().unwrap().class(), pair);
    assert_eq!(
        process.allocate(&registry, &mut pool, class(5)),
        Err(RuntimeError::InvalidClass)
    );
    assert_eq!(process.heap().block_count(), 1);
}

#[test]
fn a_suspended_process_is_collected_from_its_roots() {
    let mut registry = ClassRegistry::new();
    let cell = registry.register_class(String::from("Cell"), 1, 0, ClassKind::Object).unwrap();
    let mut pool = BlockPool::new(2);
    let mut process = Process::new(0, class(0), 2, 2);
    let in_register = process.allocate(&registry, &mut pool, cell).unwrap();
    let in_frame = process.allocate(&registry, &mut pool, cell).unwrap();
    let garbage = process.allocate(&registry, &mut pool, cell).unwrap();
    assert!(process.set_register(0, in_register));
    process.push_frame(1);
    assert!(process.set_slot(0, in_frame));
    assert_eq!(process.apply(Event::Scheduled), Action::Run);
    assert_eq!(process.apply(Event::Safepoint), Action::Collect);
    assert_eq!(process.collect_garbage(&mut pool), Ok(0));
    assert_eq!(process.state(), ProcessState::Runnable);
    assert!(process.heap().object(in_register).is_ok());
    assert!(process.heap().object(in_frame).is_ok());
    assert!(process.heap().object(garbage).is_err());
}

#[test]
fn a_violation_aborts_the_process_and_frees_its_heap() {
    let mut registry = ClassRegistry::new();
    let cell = registry.register_class(String::from("Cell"), 1, 0, ClassKind::Object).unwrap();
    let mut pool = BlockPool::new(2);
    let mut process = Process::new(0, class(0), 1, 2);
    let object = process.allocate(&registry, &mut pool, cell).unwrap();
    assert!(process.set_register(0, TaggedPointer::from_raw(object.raw() + 8)));
    assert_eq!(process.apply(Event::Scheduled), Action::Run);
    assert_eq!(process.apply(Event::Safepoint), Action::Collect);
    assert_eq!(process.collect_garbage(&mut pool), Err(RuntimeError::GCInvariantViolation));
    assert_eq!(process.state(), ProcessState::Finished);
    assert_eq!(process.heap().block_count(), 0);
    assert_eq!((pool.free_count(), pool.outstanding()), (1, 0));
}

#[test]
fn the_table_hands_out_rising_pids_and_never_reuses_one() {
    let mut table = ProcessTable::new();
    assert_eq!(table.insert(class(0), 1, 1), Some(0));
    assert_eq!(table.insert(class(1), 1, 1), Some(1));
    assert_eq!(table.lookup(1).unwrap().class(), class(1));
    assert_eq!(table.lookup(1).unwrap().pid(), 1);
    assert!(table.lookup(2).is_none());
    let removed = table.remove(0).unwrap();
    assert_eq!(removed.pid(), 0);
    assert!(table.lookup(0).is_none());
    assert!(table.remove(0).is_none());
    assert!(table.remove(9).is_none());
    assert_eq!(table.insert(class(2), 1, 1), Some(2));
    assert!(table.lookup(0).is_none());
    assert_eq!(table.issued_count(), 3);
}
