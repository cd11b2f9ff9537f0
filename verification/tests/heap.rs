//! The kernel heap: blocks come back whole.
use kcore::heap::{AllocError, Heap, Layout};

fn layout(size: usize, align: usize) -> Layout {
    Layout { size, align }
}

#[test]
fn allocating_and_freeing_restores_the_heap() {
    let mut heap = Heap::empty();
    heap.init(0x1000, 0x1000);
    assert_eq!(heap.total(), 0x1000);
    let a = heap.try_alloc(layout(100, 8)).unwrap();
    let b = heap.try_alloc(layout(40, 64)).unwrap();
    assert_eq!(a % 8, 0);
    assert_eq!(b % 64, 0);
    assert!(a + 100 <= b || b + 40 <= a);
    assert!(heap.used() >= 140);
    heap.dealloc(a, layout(100, 8));
    heap.dealloc(b, layout(40, 64));
    assert_eq!(heap.used(), 0);
    // The holes have merged: the whole heap can be had in one piece.
    assert!(heap.try_alloc(layout(0x1000, 16)).is_ok());
    assert_eq!(heap.try_alloc(layout(1, 1)), Err(AllocError));
}

#[test]
fn what_does_not_fit_is_refused() {
    let mut heap = Heap::empty();
    assert!(heap.try_alloc(layout(8, 8)).is_err());
    heap.init(0x2000, 64);
    assert!(heap.try_alloc(layout(65, 1)).is_err());
    let a = heap.try_alloc(layout(16, 16)).unwrap();
    let b = heap.try_alloc(layout(16, 16)).unwrap();
    assert_ne!(a, b);
    assert!(heap.try_alloc(layout(48, 1)).is_err());
    heap.dealloc(a, layout(16, 16));
    assert_eq!(heap.used(), 16);
}
