use inko_rt::allocator::BlockPool;
use inko_rt::block::{Block, BlockState, BLOCK_WORDS, LINES_PER_BLOCK, LINE_WORDS};
use inko_rt::class::{ClassId, ClassKind, ClassRegistry};
use inko_rt::errors::RuntimeError;
use inko_rt::heap::{Heap, BLOCK_BYTES, MAX_HEAP_BLOCKS, WORD_BYTES};
use inko_rt::object::{Object, ObjectHeader, ObjectValue};
use inko_rt::tagged_pointer::TaggedPointer;

fn class(index: usize) -> ClassId {
    ClassId { index }
}

#[test]
fn layout_constants_agree() {
    assert_eq!(LINE_WORDS * LINES_PER_BLOCK, BLOCK_WORDS);
    assert_eq!(BLOCK_WORDS as u64 * WORD_BYTES, BLOCK_BYTES);
    assert_eq!(MAX_HEAP_BLOCKS, 1 << 20);
}

#[test]
fn counter_instance_reports_its_class_and_has_a_zeroed_field() {
    let mut registry = ClassRegistry::new();
    let counter = registry
        .register_class(String::from("Counter"), 1, 2, ClassKind::Object)
        .unwrap();
    let fields = registry.get(counter).unwrap().field_count();
    let mut pool = BlockPool::new(4);
    let mut heap = Heap::new(4);
    let instance = heap.allocate(&mut pool, counter, fields).unwrap();
    let object = heap.object(instance).ok().unwrap();
    assert_eq!(
        object.header(),
        ObjectHeader { class: counter, marked: false, pinned: false }
    );
    assert_eq!(registry.get(object.class()).unwrap().name().as_str(), "Counter");
    assert_eq!(object.field_count(), 1);
    assert!(object.value().is_none());
    assert_eq!(heap.field(instance, 0), Ok(TaggedPointer::null()));
    assert_eq!(heap.field(instance, 0).unwrap().raw(), 0);
}

#[test]
fn addresses_follow_the_bump_cursor() {
    let mut pool = BlockPool::new(4);
    let mut heap = Heap::new(4);
    let first = heap.allocate(&mut pool, class(0), 1).unwrap();
    let second = heap.allocate(&mut pool, class(0), 0).unwrap();
    let third = heap.allocate(&mut pool, class(0), 255).unwrap();
    assert_eq!(first.raw(), BLOCK_BYTES);
    assert_eq!(second.raw(), BLOCK_BYTES + 3 * WORD_BYTES);
    assert_eq!(third.raw(), BLOCK_BYTES + 5 * WORD_BYTES);
    assert_eq!(heap.block_count(), 1);
    assert_eq!(pool.outstanding(), 1);
}

#[test]
fn a_full_block_makes_the_heap_grow() {
    let mut pool = BlockPool::new(4);
    let mut heap = Heap::new(4);
    let per_block = BLOCK_WORDS / 3;
    let mut last = TaggedPointer::null();
    for _ in 0..per_block {
        last = heap.allocate(&mut pool, class(0), 1).unwrap();
    }
    assert_eq!(heap.block_count(), 1);
    assert_eq!(last.raw(), BLOCK_BYTES + ((per_block as u64 - 1) * 3) * WORD_BYTES);
    let next = heap.allocate(&mut pool, class(0), 1).unwrap();
    assert_eq!(next.raw(), 2 * BLOCK_BYTES);
    assert_eq!(heap.block_count(), 2);
    let small = heap.allocate(&mut pool, class(0), 0).unwrap();
    assert_eq!(small.raw(), 2 * BLOCK_BYTES + 3 * WORD_BYTES);
}

#[test]
fn allocation_fails_at_the_heap_budget() {
    let mut pool = BlockPool::new(8);
    let mut heap = Heap::new(1);
    assert_eq!(heap.budget(), 1);
    let per_block = BLOCK_WORDS / 257;
    for _ in 0..per_block {
        assert!(heap.allocate(&mut pool, class(0), 255).is_ok());
    }
    assert_eq!(
        heap.allocate(&mut pool, class(0), 255),
        Err(RuntimeError::AllocationFailure)
    );
    assert_eq!(heap.block_count(), 1);
    assert_eq!(pool.outstanding(), 1);
    assert!(heap.allocate(&mut pool, class(0), 0).is_ok());
}

#[test]
fn allocation_fails_at_the_memory_ceiling() {
    let mut pool = BlockPool::new(0);
    let mut heap = Heap::new(4);
    assert_eq!(
        heap.allocate(&mut pool, class(0), 1),
        Err(RuntimeError::AllocationFailure)
    );
    assert_eq!(heap.block_count(), 0);
    let mut pool = BlockPool::new(1);
    let mut other = Heap::new(4);
    assert!(other.allocate(&mut pool, class(0), 1).is_ok());
    assert_eq!(
        heap.allocate(&mut pool, class(0), 1),
        Err(RuntimeError::AllocationFailure)
    );
}

#[test]
fn a_budget_above_the_limit_is_cut() {
    assert_eq!(Heap::new(usize::MAX).budget(), MAX_HEAP_BLOCKS);
    assert_eq!(Heap::new(0).budget(), 0);
    assert_eq!(Heap::new(17).budget(), 17);
}

#[test]
fn fields_are_bounds_checked() {
    let mut pool = BlockPool::new(4);
    let mut heap = Heap::new(4);
    let object = heap.allocate(&mut pool, class(3), 2).unwrap();
    let seven = TaggedPointer::integer(7).unwrap();
    assert_eq!(heap.set_field(object, 1, seven), Ok(()));
    assert_eq!(heap.field(object, 1), Ok(seven));
    assert_eq!(heap.field(object, 0), Ok(TaggedPointer::null()));
    assert_eq!(heap.field(object, 2), Err(RuntimeError::FieldIndex));
    assert_eq!(heap.set_field(object, 2, seven), Err(RuntimeError::FieldIndex));
    assert_eq!(heap.field(object, usize::MAX), Err(RuntimeError::FieldIndex));
}

#[test]
fn heap_access_checks_the_tag_first() {
    let mut pool = BlockPool::new(4);
    let mut heap = Heap::new(4);
    let _ = heap.allocate(&mut pool, class(0), 1).unwrap();
    let immediate = TaggedPointer::integer(32768).unwrap();
    assert_eq!(heap.field(immediate, 0), Err(RuntimeError::TypeMismatch));
    assert_eq!(
        heap.set_field(TaggedPointer::boolean(true), 0, immediate),
        Err(RuntimeError::TypeMismatch)
    );
    assert_eq!(heap.object(TaggedPointer::nil()).err(), Some(RuntimeError::TypeMismatch));
    assert_eq!(
        heap.set_value(TaggedPointer::float(1), ObjectValue::Integer(1)),
        Err(RuntimeError::TypeMismatch)
    );
    assert_eq!(heap.set_pinned(immediate, true), Err(RuntimeError::TypeMismatch));
}

#[test]
fn references_to_no_object_are_violations() {
    let mut pool = BlockPool::new(4);
    let mut heap = Heap::new(4);
    let object = heap.allocate(&mut pool, class(0), 1).unwrap();
    let inside = TaggedPointer::from_raw(object.raw() + WORD_BYTES);
    let beyond = TaggedPointer::from_raw(5 * BLOCK_BYTES);
    assert_eq!(heap.field(TaggedPointer::null(), 0), Err(RuntimeError::GCInvariantViolation));
    assert_eq!(heap.field(inside, 0), Err(RuntimeError::GCInvariantViolation));
    assert_eq!(heap.field(beyond, 0), Err(RuntimeError::GCInvariantViolation));
    assert_eq!(
        heap.object(TaggedPointer::from_raw(8)).err(),
        Some(RuntimeError::GCInvariantViolation)
    );
}

#[test]
fn payloads_and_pins_are_kept() {
    let mut pool = BlockPool::new(4);
    let mut heap = Heap::new(4);
    let object = heap.allocate(&mut pool, class(5), 0).unwrap();
    assert_eq!(heap.set_value(object, ObjectValue::Bytes(vec![1, 2, 3])), Ok(()));
    assert_eq!(heap.set_pinned(object, true), Ok(()));
    let found = heap.object(object).ok().unwrap();
    assert!(matches!(found.value(), Some(ObjectValue::Bytes(bytes)) if bytes == &vec![1, 2, 3]));
    assert_eq!(found.header(), ObjectHeader { class: class(5), marked: false, pinned: true });
    assert_eq!(heap.set_value(object, ObjectValue::Integer(i64::MIN)), Ok(()));
    assert_eq!(heap.set_pinned(object, false), Ok(()));
    let found = heap.object(object).ok().unwrap();
    assert!(matches!(found.value(), Some(ObjectValue::Integer(i64::MIN))));
    assert!(!found.header().pinned);
}

#[test]
fn blocks_fill_from_the_lowest_hole() {
    let mut block = Block::new();
    assert_eq!(block.state(), BlockState::Free);
    assert_eq!(block.used_lines(), 0);
    assert_eq!(block.allocate(Object::new(class(0), 14)).ok(), Some(0));
    assert_eq!(block.used_lines(), 1);
    assert_eq!(block.allocate(Object::new(class(0), 0)).ok(), Some(16));
    assert_eq!(block.used_lines(), 2);
    assert_eq!(block.allocate(Object::new(class(0), 255)).ok(), Some(18));
    assert_eq!(block.used_lines(), 18);
    assert_eq!(block.state(), BlockState::Recyclable);
    assert!(block.get(16).is_some());
    assert!(block.get(17).is_none());
    assert_eq!(block.get(18).unwrap().field_count(), 255);
    assert!(block.get(BLOCK_WORDS).is_none());
}

#[test]
fn a_block_without_room_gives_the_object_back() {
    let mut block = Block::new();
    for i in 0..15 {
        assert_eq!(block.allocate(Object::new(class(0), 255)).ok(), Some(i * 257));
    }
    let back = block.allocate(Object::new(class(9), 255)).err().unwrap();
    assert_eq!(back.class(), class(9));
    assert_eq!(back.field_count(), 255);
    assert_eq!(block.allocate(Object::new(class(0), 239)).ok(), Some(15 * 257));
    assert_eq!(block.state(), BlockState::Full);
    assert_eq!(block.used_lines(), LINES_PER_BLOCK);
    assert!(block.allocate(Object::new(class(0), 0)).is_err());
    block.reset();
    assert_eq!(block.state(), BlockState::Free);
    assert!(block.get(0).is_none());
    assert_eq!(block.allocate(Object::new(class(0), 0)).ok(), Some(0));
}

#[test]
fn objects_know_their_size_and_fields() {
    let mut object = Object::new(class(2), 3);
    assert_eq!(object.size(), 5);
    assert_eq!(object.field_count(), 3);
    assert_eq!(object.field(2), Ok(TaggedPointer::null()));
    assert_eq!(object.field(3), Err(RuntimeError::FieldIndex));
    assert_eq!(object.set_field(3, TaggedPointer::nil()), Err(RuntimeError::FieldIndex));
    assert_eq!(object.set_field(0, TaggedPointer::nil()), Ok(()));
    object.set_value(ObjectValue::Float(1.5f64.to_bits()));
    let copy = object.duplicate();
    assert_eq!(copy.field(0), Ok(TaggedPointer::nil()));
    assert_eq!(copy.header(), object.header());
    assert!(matches!(copy.value(), Some(ObjectValue::Float(bits)) if f64::from_bits(*bits) == 1.5));
}

#[test]
fn the_pool_counts_blocks() {
    let mut pool = BlockPool::new(2);
    assert_eq!((pool.free_count(), pool.outstanding(), pool.ceiling()), (0, 0, 2));
    let a = pool.acquire_block().ok().unwrap();
    let b = pool.acquire_block().ok().unwrap();
    assert_eq!(pool.acquire_block().err(), Some(RuntimeError::AllocationFailure));
    assert_eq!((pool.free_count(), pool.outstanding()), (0, 2));
    pool.release_block(a);
    assert_eq!((pool.free_count(), pool.outstanding()), (1, 1));
    let c = pool.acquire_block().ok().unwrap();
    assert_eq!((pool.free_count(), pool.outstanding()), (0, 2));
    pool.release_block(b);
    pool.release_block(c);
    assert_eq!((pool.free_count(), pool.outstanding()), (2, 0));
    pool.release_block(Block::new());
    assert_eq!((pool.free_count(), pool.outstanding()), (2, 0));
    assert_eq!(pool.drain(), 2);
    assert_eq!((pool.free_count(), pool.outstanding()), (0, 0));
}

#[test]
fn released_blocks_come_back_empty() {
    let mut pool = BlockPool::new(1);
    let mut block = pool.acquire_block().ok().unwrap();
    assert_eq!(block.allocate(Object::new(class(0), 4)).ok(), Some(0));
    pool.release_block(block);
    let again = pool.acquire_block().ok().unwrap();
    assert_eq!(again.state(), BlockState::Free);
    assert!(again.get(0).is_none());
}

#[test]
fn releasing_a_heap_returns_every_block() {
    let mut pool = BlockPool::new(4);
    let mut heap = Heap::new(4);
    for _ in 0..(BLOCK_WORDS / 3 + 1) {
        assert!(heap.allocate(&mut pool, class(0), 1).is_ok());
    }
    assert_eq!(heap.block_count(), 2);
    assert_eq!(heap.release_all(&mut pool), 2);
    assert_eq!(heap.block_count(), 0);
    assert_eq!((pool.free_count(), pool.outstanding()), (2, 0));
    assert!(heap.object(TaggedPointer::from_raw(BLOCK_BYTES)).is_err());
}
