use inko_rt::allocator::BlockPool;
use inko_rt::class::ClassId;
use inko_rt::errors::RuntimeError;
use inko_rt::heap::{Heap, BLOCK_BYTES, WORD_BYTES};
use inko_rt::message::ObjectGraph;
use inko_rt::object::ObjectValue;
use inko_rt::tagged_pointer::TaggedPointer;

fn class(index: usize) -> ClassId {
    ClassId { index }
}

#[test]
fn immediates_travel_by_themselves() {
    let mut heap = Heap::new(4);
    let word = TaggedPointer::integer(42).unwrap();
    let graph = heap.export(word).ok().unwrap();
    assert_eq!(graph.root(), word);
    assert_eq!(graph.node_count(), 0);
    let null = heap.export(TaggedPointer::null()).ok().unwrap();
    assert_eq!(null.root(), TaggedPointer::null());
    assert!(ObjectGraph::immediate(TaggedPointer::from_raw(BLOCK_BYTES)).is_none());
    assert!(ObjectGraph::immediate(TaggedPointer::nil()).is_some());
    let mut pool = BlockPool::new(0);
    assert_eq!(heap.import(&mut pool, &graph), Ok(word));
}

#[test]
fn a_graph_with_a_cycle_is_copied_with_its_shape() {
    let mut pool = BlockPool::new(8);
    let mut sender = Heap::new(4);
    let _padding = sender.allocate(&mut pool, class(0), 5).unwrap();
    let a = sender.allocate(&mut pool, class(1), 3).unwrap();
    let b = sender.allocate(&mut pool, class(2), 1).unwrap();
    let unrelated = sender.allocate(&mut pool, class(3), 0).unwrap();
    assert_eq!(sender.set_field(a, 0, b), Ok(()));
    assert_eq!(sender.set_field(a, 1, TaggedPointer::boolean(true)), Ok(()));
    assert_eq!(sender.set_field(a, 2, a), Ok(()));
    assert_eq!(sender.set_field(b, 0, a), Ok(()));
    assert_eq!(sender.set_value(b, ObjectValue::Bytes(vec![1, 2])), Ok(()));
    assert_eq!(sender.set_pinned(a, true), Ok(()));

    let graph = sender.export(a).ok().unwrap();
    assert_eq!(graph.node_count(), 2);
    assert_eq!(graph.root().raw(), 8);
    assert_eq!(sender.field(a, 0), Ok(b));
    assert!(!sender.object(a).ok().unwrap().header().marked);
    assert!(sender.object(unrelated).is_ok());

    let mut receiver = Heap::new(4);
    let own = receiver.allocate(&mut pool, class(9), 0).unwrap();
    let copy = receiver.import(&mut pool, &graph).unwrap();
    assert_eq!(copy.raw(), BLOCK_BYTES + 2 * WORD_BYTES);
    let copy_of_b = receiver.field(copy, 0).unwrap();
    assert_eq!(copy_of_b.raw(), BLOCK_BYTES + 7 * WORD_BYTES);
    assert_eq!(receiver.field(copy, 1), Ok(TaggedPointer::boolean(true)));
    assert_eq!(receiver.field(copy, 2), Ok(copy));
    assert_eq!(receiver.field(copy_of_b, 0), Ok(copy));
    assert_eq!(receiver.object(copy).ok().unwrap().class(), class(1));
    assert!(!receiver.object(copy).ok().unwrap().header().pinned);
    let found = receiver.object(copy_of_b).ok().unwrap();
    assert_eq!(found.class(), class(2));
    assert!(matches!(found.value(), Some(ObjectValue::Bytes(bytes)) if bytes == &vec![1, 2]));
    assert!(receiver.object(own).is_ok());

    assert_eq!(receiver.set_field(copy, 1, TaggedPointer::nil()), Ok(()));
    assert_eq!(sender.field(a, 1), Ok(TaggedPointer::boolean(true)));
}

#[test]
fn export_of_a_dangling_reference_is_a_violation() {
    let mut pool = BlockPool::new(8);
    let mut heap = Heap::new(4);
    let a = heap.allocate(&mut pool, class(0), 1).unwrap();
    let nowhere = TaggedPointer::from_raw(9 * BLOCK_BYTES);
    assert_eq!(heap.export(nowhere).err(), Some(RuntimeError::GCInvariantViolation));
    assert_eq!(heap.set_field(a, 0, nowhere), Ok(()));
    assert_eq!(heap.export(a).err(), Some(RuntimeError::GCInvariantViolation));
    assert_eq!(heap.field(a, 0), Ok(nowhere));
    assert!(!heap.object(a).ok().unwrap().header().marked);
}

#[test]
fn import_fails_when_the_heap_cannot_grow() {
    let mut pool = BlockPool::new(8);
    let mut sender = Heap::new(4);
    let a = sender.allocate(&mut pool, class(0), 1).unwrap();
    let graph = sender.export(a).ok().unwrap();
    let mut receiver = Heap::new(0);
    assert_eq!(receiver.import(&mut pool, &graph), Err(RuntimeError::AllocationFailure));
    assert_eq!(receiver.block_count(), 0);
}

#[test]
fn shared_objects_are_copied_once() {
    let mut pool = BlockPool::new(8);
    let mut sender = Heap::new(4);
    let top = sender.allocate(&mut pool, class(0), 2).unwrap();
    let shared = sender.allocate(&mut pool, class(1), 0).unwrap();
    assert_eq!(sender.set_field(top, 0, shared), Ok(()));
    assert_eq!(sender.set_field(top, 1, shared), Ok(()));
    let graph = sender.export(top).ok().unwrap();
    assert_eq!(graph.node_count(), 2);
    let mut receiver = Heap::new(4);
    let copy = receiver.import(&mut pool, &graph).unwrap();
    let left = receiver.field(copy, 0).unwrap();
    let right = receiver.field(copy, 1).unwrap();
    assert_eq!(left, right);
    assert_eq!(receiver.object(left).ok().unwrap().class(), class(1));
}
