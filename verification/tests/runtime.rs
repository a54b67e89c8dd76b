use inko_rt::block::BLOCK_WORDS;
use inko_rt::class::{ClassId, ClassKind};
use inko_rt::errors::RuntimeError;
use inko_rt::process::{Action, Event, ProcessState};
use inko_rt::tagged_pointer::TaggedPointer;
use inko_rt::vm::{Pick, Runtime};

fn runtime() -> (Runtime, ClassId, ClassId) {
    let mut runtime = Runtime::bootstrap(2, 16, 8, 4);
    let main = runtime
        .register_class(String::from("Main"), 0, 1, ClassKind::Process)
        .unwrap();
    let cell = runtime
        .register_class(String::from("Cell"), 1, 0, ClassKind::Object)
        .unwrap();
    (runtime, main, cell)
}

fn state(runtime: &Runtime, pid: u64) -> ProcessState {
    runtime.processes().lookup(pid).unwrap().state()
}

#[test]
fn bootstrap_starts_empty() {
    let runtime = Runtime::bootstrap(0, 3, 1, 1);
    assert_eq!(runtime.scheduler().workers(), 1);
    assert!(runtime.scheduler().is_idle());
    assert_eq!(runtime.blocks().ceiling(), 3);
    assert_eq!(runtime.blocks().free_count(), 0);
    assert_eq!(runtime.processes().issued_count(), 0);
    assert_eq!(runtime.classes().issued(), 0);
}

#[test]
fn spawn_needs_a_process_class() {
    let (mut runtime, main, cell) = runtime();
    assert_eq!(runtime.spawn(cell), Err(RuntimeError::InvalidClass));
    assert_eq!(runtime.spawn(ClassId { index: 50 }), Err(RuntimeError::InvalidClass));
    assert!(runtime.scheduler().is_idle());
    assert_eq!(runtime.spawn(main), Ok(0));
    assert_eq!(runtime.spawn(main), Ok(1));
    assert_eq!(state(&runtime, 0), ProcessState::Runnable);
    assert_eq!(runtime.processes().lookup(1).unwrap().class(), main);
    assert_eq!(runtime.pick(0), Pick::Run(0));
    assert_eq!(runtime.pick(1), Pick::Run(1));
    assert_eq!(runtime.pick(0), Pick::Idle);
    assert_eq!(state(&runtime, 0), ProcessState::Running);
}

#[test]
fn an_integer_sent_is_received_exactly_once() {
    let (mut runtime, main, _) = runtime();
    let first = runtime.spawn(main).unwrap();
    let second = runtime.spawn(main).unwrap();
    let forty_two = TaggedPointer::integer(42).unwrap();
    assert_eq!(runtime.send(first, second, forty_two), Ok(()));
    assert_eq!(runtime.processes().lookup(second).unwrap().mailbox_len(), 1);
    assert_eq!(runtime.processes().lookup(first).unwrap().mailbox_len(), 0);
    assert_eq!(runtime.receive(second), Ok(Some(forty_two)));
    assert_eq!(runtime.receive(second).unwrap().map(|word| word.as_integer()), None);
    assert_eq!(runtime.receive(second), Ok(None));
    assert_eq!(runtime.receive(first), Ok(None));
}

#[test]
fn messages_arrive_in_the_order_of_sending() {
    let (mut runtime, main, _) = runtime();
    let a = runtime.spawn(main).unwrap();
    let b = runtime.spawn(main).unwrap();
    let c = runtime.spawn(main).unwrap();
    let word = |value: i64| TaggedPointer::integer(value).unwrap();
    assert_eq!(runtime.send(a, b, word(1)), Ok(()));
    assert_eq!(runtime.send(c, b, word(100)), Ok(()));
    assert_eq!(runtime.send(a, b, word(2)), Ok(()));
    assert_eq!(runtime.send(c, b, word(200)), Ok(()));
    assert_eq!(runtime.send(a, b, word(3)), Ok(()));
    let mut from_a = Vec::new();
    let mut from_c = Vec::new();
    while let Ok(Some(received)) = runtime.receive(b) {
        let value = received.as_integer().unwrap();
        if value < 100 {
            from_a.push(value);
        } else {
            from_c.push(value);
        }
    }
    assert_eq!(from_a, vec![1, 2, 3]);
    assert_eq!(from_c, vec![100, 200]);
}

#[test]
fn sending_to_a_terminated_process_is_a_dead_letter() {
    let (mut runtime, main, _) = runtime();
    let first = runtime.spawn(main).unwrap();
    let second = runtime.spawn(main).unwrap();
    assert_eq!(runtime.terminate(second), Ok(0));
    let word = TaggedPointer::integer(1).unwrap();
    assert_eq!(runtime.send(first, second, word), Err(RuntimeError::SendToDeadProcess));
    let third = runtime.spawn(main).unwrap();
    assert_eq!(third, 2);
    assert_eq!(runtime.send(first, second, word), Err(RuntimeError::SendToDeadProcess));
    assert_eq!(runtime.send(first, third, word), Ok(()));
    assert_eq!(state(&runtime, first), ProcessState::Runnable);
    assert_eq!(runtime.send(first, 77, word), Err(RuntimeError::SendToDeadProcess));
    assert_eq!(runtime.send(second, second, word), Err(RuntimeError::SendToDeadProcess));
}

#[test]
fn a_process_that_finished_gets_no_more_mail() {
    let (mut runtime, main, _) = runtime();
    let first = runtime.spawn(main).unwrap();
    let second = runtime.spawn(main).unwrap();
    assert_eq!(runtime.pick(0), Pick::Run(first));
    assert_eq!(runtime.pick(0), Pick::Run(second));
    assert_eq!(runtime.settle(0, second, Event::Completed), Ok(Action::Reclaim));
    assert!(runtime.processes().lookup(second).is_none());
    let word = TaggedPointer::boolean(true);
    assert_eq!(runtime.send(first, second, word), Err(RuntimeError::SendToDeadProcess));
    assert_eq!(state(&runtime, first), ProcessState::Running);
}

#[test]
fn errors_for_processes_that_are_not_there() {
    let (mut runtime, main, cell) = runtime();
    let first = runtime.spawn(main).unwrap();
    let word = TaggedPointer::integer(1).unwrap();
    assert_eq!(runtime.send(9, first, word), Err(RuntimeError::ProcessNotFound));
    assert_eq!(runtime.receive(9), Err(RuntimeError::ProcessNotFound));
    assert_eq!(runtime.terminate(9), Err(RuntimeError::ProcessNotFound));
    assert_eq!(runtime.settle(0, 9, Event::Yielded), Err(RuntimeError::ProcessNotFound));
    assert_eq!(runtime.allocate(9, cell), Err(RuntimeError::ProcessNotFound));
    assert_eq!(runtime.field(9, word, 0), Err(RuntimeError::ProcessNotFound));
    assert_eq!(runtime.set_field(9, word, 0, word), Err(RuntimeError::ProcessNotFound));
    assert_eq!(runtime.register(9, 0), None);
    assert!(!runtime.set_register(9, 0, word));
    assert_eq!(runtime.processes().lookup(first).unwrap().mailbox_len(), 0);
}

#[test]
fn objects_sent_are_copied_and_not_shared() {
    let (mut runtime, main, cell) = runtime();
    let first = runtime.spawn(main).unwrap();
    let second = runtime.spawn(main).unwrap();
    let outer = runtime.allocate(first, cell).unwrap();
    let inner = runtime.allocate(first, cell).unwrap();
    assert_eq!(runtime.set_field(first, outer, 0, inner), Ok(()));
    assert_eq!(runtime.set_field(first, inner, 0, TaggedPointer::integer(5).unwrap()), Ok(()));
    assert_eq!(runtime.send(first, second, outer), Ok(()));
    assert_eq!(runtime.set_field(first, inner, 0, TaggedPointer::integer(6).unwrap()), Ok(()));
    let copy = runtime.receive(second).unwrap().unwrap();
    let copy_inner = runtime.field(second, copy, 0).unwrap();
    assert_eq!(runtime.field(second, copy_inner, 0), Ok(TaggedPointer::integer(5).unwrap()));
    assert_eq!(runtime.field(first, inner, 0), Ok(TaggedPointer::integer(6).unwrap()));
    assert_eq!(runtime.blocks().outstanding(), 2);
}

#[test]
fn a_message_wakes_a_waiting_receiver() {
    let (mut runtime, main, _) = runtime();
    let first = runtime.spawn(main).unwrap();
    let second = runtime.spawn(main).unwrap();
    assert_eq!(runtime.pick(0), Pick::Run(first));
    assert_eq!(runtime.pick(1), Pick::Run(second));
    assert_eq!(runtime.receive(second), Ok(None));
    assert_eq!(state(&runtime, second), ProcessState::WaitingReceive);
    assert_eq!(runtime.pick(1), Pick::Idle);
    assert_eq!(runtime.send(first, second, TaggedPointer::nil()), Ok(()));
    assert_eq!(state(&runtime, second), ProcessState::Runnable);
    assert_eq!(runtime.pick(1), Pick::Run(second));
    assert_eq!(runtime.receive(second), Ok(Some(TaggedPointer::nil())));
    assert_eq!(state(&runtime, second), ProcessState::Running);
}

#[test]
fn settle_requeues_parks_and_wakes() {
    let (mut runtime, main, _) = runtime();
    let first = runtime.spawn(main).unwrap();
    let second = runtime.spawn(main).unwrap();
    assert_eq!(runtime.pick(1), Pick::Run(first));
    assert_eq!(runtime.settle(1, first, Event::Yielded), Ok(Action::Enqueue));
    assert_eq!(runtime.pick(1), Pick::Run(first));
    assert_eq!(runtime.settle(1, first, Event::BlockedOnTimer), Ok(Action::Park));
    assert_eq!(runtime.pick(1), Pick::Run(second));
    assert_eq!(runtime.pick(1), Pick::Idle);
    assert_eq!(runtime.settle(1, first, Event::MessageArrived), Ok(Action::Ignore));
    assert_eq!(state(&runtime, first), ProcessState::WaitingTimer);
    assert_eq!(runtime.settle(1, first, Event::TimerFired), Ok(Action::Enqueue));
    assert_eq!(runtime.pick(0), Pick::Run(first));
    assert_eq!(runtime.settle(0, second, Event::Completed), Ok(Action::Reclaim));
    assert_eq!(runtime.settle(0, second, Event::Completed), Err(RuntimeError::ProcessNotFound));
}

#[test]
fn stale_queue_entries_are_dropped() {
    let (mut runtime, main, _) = runtime();
    let first = runtime.spawn(main).unwrap();
    let second = runtime.spawn(main).unwrap();
    assert_eq!(runtime.terminate(first), Ok(0));
    assert_eq!(runtime.pick(0), Pick::Stale(first));
    assert_eq!(runtime.pick(0), Pick::Run(second));
    assert_eq!(runtime.pick(0), Pick::Idle);
}

#[test]
fn a_safepoint_collects_the_heap_and_requeues_the_process() {
    let (mut runtime, main, cell) = runtime();
    let pid = runtime.spawn(main).unwrap();
    let mut kept = TaggedPointer::null();
    for _ in 0..(BLOCK_WORDS / 3 + 1) {
        kept = runtime.allocate(pid, cell).unwrap();
    }
    assert!(runtime.set_register(pid, 0, kept));
    assert_eq!(runtime.register(pid, 0), Some(kept));
    assert_eq!(runtime.blocks().outstanding(), 2);
    assert_eq!(runtime.pick(0), Pick::Run(pid));
    assert_eq!(runtime.settle(0, pid, Event::Safepoint), Ok(Action::Collect));
    assert_eq!(state(&runtime, pid), ProcessState::Runnable);
    assert_eq!((runtime.blocks().free_count(), runtime.blocks().outstanding()), (1, 1));
    assert_eq!(runtime.field(pid, kept, 0), Ok(TaggedPointer::null()));
    assert_eq!(runtime.pick(1), Pick::Run(pid));
}

#[test]
fn a_violation_aborts_only_the_offending_process() {
    let (mut runtime, main, cell) = runtime();
    let bad = runtime.spawn(main).unwrap();
    let good = runtime.spawn(main).unwrap();
    let object = runtime.allocate(bad, cell).unwrap();
    let other = runtime.allocate(good, cell).unwrap();
    assert!(runtime.set_register(bad, 1, TaggedPointer::from_raw(object.raw() + 8)));
    assert_eq!(runtime.pick(0), Pick::Run(bad));
    assert_eq!(
        runtime.settle(0, bad, Event::Safepoint),
        Err(RuntimeError::GCInvariantViolation)
    );
    assert!(runtime.processes().lookup(bad).is_none());
    assert_eq!((runtime.blocks().free_count(), runtime.blocks().outstanding()), (1, 1));
    assert_eq!(runtime.field(good, other, 0), Ok(TaggedPointer::null()));
    assert_eq!(runtime.pick(0), Pick::Run(good));
}

#[test]
fn termination_gives_the_blocks_back() {
    let (mut runtime, main, cell) = runtime();
    let pid = runtime.spawn(main).unwrap();
    for _ in 0..(BLOCK_WORDS / 3 + 1) {
        assert!(runtime.allocate(pid, cell).is_ok());
    }
    assert_eq!(runtime.terminate(pid), Ok(2));
    assert_eq!((runtime.blocks().free_count(), runtime.blocks().outstanding()), (2, 0));
    assert_eq!(runtime.terminate(pid), Err(RuntimeError::ProcessNotFound));
}

#[test]
fn receive_keeps_the_message_when_the_heap_is_full() {
    let mut runtime = Runtime::bootstrap(1, 1, 8, 1);
    let main = runtime
        .register_class(String::from("Main"), 0, 0, ClassKind::Process)
        .unwrap();
    let cell = runtime
        .register_class(String::from("Cell"), 1, 0, ClassKind::Object)
        .unwrap();
    let first = runtime.spawn(main).unwrap();
    let second = runtime.spawn(main).unwrap();
    let object = runtime.allocate(first, cell).unwrap();
    assert_eq!(runtime.send(first, second, object), Ok(()));
    assert_eq!(runtime.receive(second), Err(RuntimeError::AllocationFailure));
    assert_eq!(runtime.processes().lookup(second).unwrap().mailbox_len(), 1);
    assert_eq!(runtime.terminate(first), Ok(1));
    let copy = runtime.receive(second).unwrap().unwrap();
    assert_eq!(runtime.field(second, copy, 0), Ok(TaggedPointer::null()));
    assert_eq!(runtime.processes().lookup(second).unwrap().mailbox_len(), 0);
}

#[test]
fn shutdown_leaves_nothing_behind() {
    let (mut runtime, main, cell) = runtime();
    let first = runtime.spawn(main).unwrap();
    let second = runtime.spawn(main).unwrap();
    assert!(runtime.allocate(first, cell).is_ok());
    assert!(runtime.allocate(second, cell).is_ok());
    runtime.shutdown();
    assert!(runtime.processes().lookup(first).is_none());
    assert!(runtime.processes().lookup(second).is_none());
    assert!(runtime.scheduler().is_idle());
    assert_eq!((runtime.blocks().free_count(), runtime.blocks().outstanding()), (0, 0));
    assert!(runtime.classes().get(main).is_none());
    assert!(runtime.classes().get(cell).is_none());
    assert_eq!(runtime.spawn(main), Err(RuntimeError::InvalidClass));
}

#[test]
fn classes_can_be_dropped_through_the_runtime() {
    let (mut runtime, main, cell) = runtime();
    assert_eq!(runtime.drop_class(cell).ok().unwrap().name().as_str(), "Cell");
    assert_eq!(runtime.drop_class(cell).err(), Some(RuntimeError::InvalidClass));
    let pid = runtime.spawn(main).unwrap();
    assert_eq!(runtime.allocate(pid, cell), Err(RuntimeError::InvalidClass));
    assert_eq!(
        runtime.register_class(String::from("Wide"), 256, 0, ClassKind::Object),
        Err(RuntimeError::InvalidClass)
    );
}
