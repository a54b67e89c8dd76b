use inko_rt::allocator::BlockPool;
use inko_rt::block::{BlockState, BLOCK_WORDS};
use inko_rt::class::ClassId;
use inko_rt::errors::RuntimeError;
use inko_rt::heap::{Heap, BLOCK_BYTES, WORD_BYTES};
use inko_rt::object::ObjectValue;
use inko_rt::tagged_pointer::TaggedPointer;

fn class(index: usize) -> ClassId {
    ClassId { index }
}

#[test]
fn collection_keeps_the_reachable_and_frees_the_rest() {
    let mut pool = BlockPool::new(8);
    let mut heap = Heap::new(8);
    let per_block = BLOCK_WORDS / 3;
    let mut first_block = Vec::new();
    for _ in 0..per_block {
        first_block.push(heap.allocate(&mut pool, class(1), 1).unwrap());
    }
    let kept = heap.allocate(&mut pool, class(2), 1).unwrap();
    let child = heap.allocate(&mut pool, class(3), 1).unwrap();
    let lost = heap.allocate(&mut pool, class(4), 1).unwrap();
    assert_eq!(heap.set_field(kept, 0, child), Ok(()));
    assert_eq!(heap.set_field(child, 0, TaggedPointer::integer(42).unwrap()), Ok(()));
    assert_eq!(heap.block_count(), 2);
    assert_eq!(pool.free_count(), 0);

    let roots = vec![TaggedPointer::integer(1).unwrap(), kept, TaggedPointer::null()];
    assert_eq!(heap.collect(&roots, &mut pool), Ok(1));

    assert_eq!(pool.free_count(), 1);
    assert_eq!(pool.outstanding(), 1);
    assert_eq!(heap.block_count(), 1);
    assert_eq!(heap.slot_count(), 2);
    assert_eq!(heap.block_state(0), None);
    assert_eq!(heap.block_state(1), Some(BlockState::Recyclable));
    assert_eq!(heap.field(kept, 0), Ok(child));
    assert_eq!(heap.field(child, 0), Ok(TaggedPointer::integer(42).unwrap()));
    assert_eq!(heap.object(kept).ok().unwrap().class(), class(2));
    assert!(!heap.object(kept).ok().unwrap().header().marked);
    assert_eq!(heap.object(lost).err(), Some(RuntimeError::GCInvariantViolation));
    for gone in first_block {
        assert!(heap.object(gone).is_err());
    }
}

#[test]
fn addresses_are_stable_and_freed_lines_are_reused() {
    let mut pool = BlockPool::new(8);
    let mut heap = Heap::new(8);
    let a = heap.allocate(&mut pool, class(0), 14).unwrap();
    let b = heap.allocate(&mut pool, class(0), 14).unwrap();
    let c = heap.allocate(&mut pool, class(0), 14).unwrap();
    assert_eq!(b.raw(), BLOCK_BYTES + 16 * WORD_BYTES);
    assert_eq!(heap.collect(&vec![a, c], &mut pool), Ok(0));
    assert_eq!(heap.object(a).ok().unwrap().field_count(), 14);
    assert_eq!(heap.object(c).ok().unwrap().field_count(), 14);
    assert!(heap.object(b).is_err());
    assert_eq!(heap.block_state(0), Some(BlockState::Recyclable));
    let d = heap.allocate(&mut pool, class(7), 14).unwrap();
    assert_eq!(d.raw(), b.raw());
    let e = heap.allocate(&mut pool, class(7), 0).unwrap();
    assert_eq!(e.raw(), BLOCK_BYTES + 48 * WORD_BYTES);
}

#[test]
fn a_dead_object_between_live_neighbours_frees_no_line() {
    let mut pool = BlockPool::new(8);
    let mut heap = Heap::new(8);
    let a = heap.allocate(&mut pool, class(0), 4).unwrap();
    let dead = heap.allocate(&mut pool, class(0), 2).unwrap();
    let c = heap.allocate(&mut pool, class(0), 4).unwrap();
    assert_eq!(heap.collect(&vec![a, c], &mut pool), Ok(0));
    assert!(heap.object(dead).is_err());
    let next = heap.allocate(&mut pool, class(0), 2).unwrap();
    assert_eq!(next.raw(), BLOCK_BYTES + 16 * WORD_BYTES);
}

#[test]
fn cycles_are_collected_and_kept_as_a_whole() {
    let mut pool = BlockPool::new(8);
    let mut heap = Heap::new(8);
    let a = heap.allocate(&mut pool, class(0), 2).unwrap();
    let b = heap.allocate(&mut pool, class(0), 2).unwrap();
    let x = heap.allocate(&mut pool, class(0), 1).unwrap();
    let y = heap.allocate(&mut pool, class(0), 1).unwrap();
    assert_eq!(heap.set_field(a, 0, b), Ok(()));
    assert_eq!(heap.set_field(b, 1, a), Ok(()));
    assert_eq!(heap.set_field(a, 1, a), Ok(()));
    assert_eq!(heap.set_field(x, 0, y), Ok(()));
    assert_eq!(heap.set_field(y, 0, x), Ok(()));
    assert_eq!(heap.collect(&vec![b], &mut pool), Ok(0));
    assert_eq!(heap.field(a, 0), Ok(b));
    assert_eq!(heap.field(a, 1), Ok(a));
    assert_eq!(heap.field(b, 1), Ok(a));
    assert!(heap.object(x).is_err());
    assert!(heap.object(y).is_err());
}

#[test]
fn without_roots_everything_goes() {
    let mut pool = BlockPool::new(8);
    let mut heap = Heap::new(8);
    let a = heap.allocate(&mut pool, class(0), 1).unwrap();
    assert_eq!(heap.collect(&Vec::new(), &mut pool), Ok(1));
    assert!(heap.object(a).is_err());
    assert_eq!(heap.block_count(), 0);
    assert_eq!((pool.free_count(), pool.outstanding()), (1, 0));
    let again = heap.allocate(&mut pool, class(0), 1).unwrap();
    assert_eq!(again.raw(), a.raw());
    assert_eq!((pool.free_count(), pool.outstanding()), (0, 1));
}

#[test]
fn a_dangling_root_is_a_violation_and_changes_nothing() {
    let mut pool = BlockPool::new(8);
    let mut heap = Heap::new(8);
    let a = heap.allocate(&mut pool, class(0), 1).unwrap();
    let b = heap.allocate(&mut pool, class(0), 1).unwrap();
    let nowhere = TaggedPointer::from_raw(3 * BLOCK_BYTES);
    assert_eq!(
        heap.collect(&vec![a, nowhere], &mut pool),
        Err(RuntimeError::GCInvariantViolation)
    );
    assert!(heap.object(a).is_ok());
    assert!(heap.object(b).is_ok());
    assert!(!heap.object(a).ok().unwrap().header().marked);
    assert_eq!(pool.free_count(), 0);
    assert_eq!(heap.collect(&vec![a], &mut pool), Ok(0));
    assert!(heap.object(b).is_err());
}

#[test]
fn a_dangling_field_is_a_violation() {
    let mut pool = BlockPool::new(8);
    let mut heap = Heap::new(8);
    let a = heap.allocate(&mut pool, class(0), 1).unwrap();
    let b = heap.allocate(&mut pool, class(0), 1).unwrap();
    let inside = TaggedPointer::from_raw(b.raw() + WORD_BYTES);
    assert_eq!(heap.set_field(a, 0, b), Ok(()));
    assert_eq!(heap.set_field(b, 0, inside), Ok(()));
    assert_eq!(heap.collect(&vec![a], &mut pool), Err(RuntimeError::GCInvariantViolation));
    assert_eq!(heap.field(a, 0), Ok(b));
    assert_eq!(heap.field(b, 0), Ok(inside));
    assert_eq!(heap.collect(&vec![b], &mut pool), Err(RuntimeError::GCInvariantViolation));
    assert_eq!(heap.collect(&Vec::new(), &mut pool), Ok(1));
}

#[test]
fn a_reference_to_a_collected_object_is_found_by_the_next_collection() {
    let mut pool = BlockPool::new(8);
    let mut heap = Heap::new(8);
    let a = heap.allocate(&mut pool, class(0), 1).unwrap();
    let b = heap.allocate(&mut pool, class(0), 1).unwrap();
    assert_eq!(heap.collect(&vec![a], &mut pool), Ok(0));
    assert_eq!(heap.collect(&vec![a, b], &mut pool), Err(RuntimeError::GCInvariantViolation));
}

#[test]
fn pinned_objects_are_collected_like_any_other() {
    let mut pool = BlockPool::new(8);
    let mut heap = Heap::new(8);
    let a = heap.allocate(&mut pool, class(0), 1).unwrap();
    let b = heap.allocate(&mut pool, class(0), 1).unwrap();
    assert_eq!(heap.set_pinned(a, true), Ok(()));
    assert_eq!(heap.set_pinned(b, true), Ok(()));
    assert_eq!(heap.collect(&vec![a], &mut pool), Ok(0));
    assert!(heap.object(a).ok().unwrap().header().pinned);
    assert!(heap.object(b).is_err());
}

#[test]
fn payloads_survive_collection() {
    let mut pool = BlockPool::new(8);
    let mut heap = Heap::new(8);
    let a = heap.allocate(&mut pool, class(0), 0).unwrap();
    assert_eq!(heap.set_value(a, ObjectValue::Bytes(vec![9, 8, 7])), Ok(()));
    assert_eq!(heap.collect(&vec![a, a], &mut pool), Ok(0));
    let found = heap.object(a).ok().unwrap();
    assert!(matches!(found.value(), Some(ObjectValue::Bytes(bytes)) if bytes == &vec![9, 8, 7]));
}

#[test]
fn a_block_covered_by_live_objects_stays_full() {
    let mut pool = BlockPool::new(8);
    let mut heap = Heap::new(8);
    let mut roots = Vec::new();
    for _ in 0..15 {
        roots.push(heap.allocate(&mut pool, class(0), 255).unwrap());
    }
    roots.push(heap.allocate(&mut pool, class(0), 239).unwrap());
    assert_eq!(heap.block_state(0), Some(BlockState::Full));
    assert_eq!(heap.collect(&roots, &mut pool), Ok(0));
    assert_eq!(heap.block_state(0), Some(BlockState::Full));
    assert_eq!(heap.allocate(&mut pool, class(0), 0).unwrap().raw(), 2 * BLOCK_BYTES);
}
