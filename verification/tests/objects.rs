use rayzor_runtime::anon_object::{
    rayzor_anon_clone, rayzor_anon_copy, rayzor_anon_drop, rayzor_anon_get_field_by_index,
    rayzor_anon_new, rayzor_anon_set_field_by_index, AnonStore, DYNAMIC_SHAPE,
};
use rayzor_runtime::arena::{
    arena_alloc_bytes, arena_alloc_haxe_string, arena_stats, arena_string, Arena,
};
use rayzor_runtime::box_runtime::BoxStore;
use rayzor_runtime::haxe_string::HaxeString;
use rayzor_runtime::heap::{GlobalStore, Heap, TrackedHeap};
use rayzor_runtime::object_pool::{
    class_of, pool_enabled, scribble_enabled, ObjectPool, Placement, Release, MAX_POOLED,
};

// --- anonymous objects ---------------------------------------------------

#[test]
fn test_anon_new_and_drop() {
    let mut store = AnonStore::new();
    let handle = rayzor_anon_new(&mut store, DYNAMIC_SHAPE, 0);
    assert!(handle != 0);
    rayzor_anon_drop(&mut store, handle);
}

#[test]
fn test_inline_get_set() {
    let mut store = AnonStore::new();
    let handle = rayzor_anon_new(&mut store, 0, 3);
    rayzor_anon_set_field_by_index(&mut store, handle, 0, 42);
    rayzor_anon_set_field_by_index(&mut store, handle, 1, 100);
    rayzor_anon_set_field_by_index(&mut store, handle, 2, f64::to_bits(2.78));

    assert_eq!(rayzor_anon_get_field_by_index(&store, handle, 0), 42);
    assert_eq!(rayzor_anon_get_field_by_index(&store, handle, 1), 100);
    assert_eq!(f64::from_bits(rayzor_anon_get_field_by_index(&store, handle, 2)), 2.78);

    rayzor_anon_drop(&mut store, handle);
}

#[test]
fn test_cow_clone() {
    let mut store = AnonStore::new();
    let a = rayzor_anon_new(&mut store, DYNAMIC_SHAPE, 0);
    rayzor_anon_drop(&mut store, a);

    let a = rayzor_anon_new(&mut store, 0, 2);
    rayzor_anon_set_field_by_index(&mut store, a, 0, 10);
    rayzor_anon_set_field_by_index(&mut store, a, 1, 20);

    let b = rayzor_anon_clone(&mut store, a);
    rayzor_anon_set_field_by_index(&mut store, b, 0, 99);

    assert_eq!(rayzor_anon_get_field_by_index(&store, a, 0), 10);
    assert_eq!(rayzor_anon_get_field_by_index(&store, b, 0), 99);

    rayzor_anon_drop(&mut store, a);
    rayzor_anon_drop(&mut store, b);
}

#[test]
fn test_deep_copy() {
    let mut store = AnonStore::new();
    let a = rayzor_anon_new(&mut store, 0, 2);
    rayzor_anon_set_field_by_index(&mut store, a, 0, 42);
    rayzor_anon_set_field_by_index(&mut store, a, 1, 99);

    let b = rayzor_anon_copy(&mut store, a);
    rayzor_anon_set_field_by_index(&mut store, b, 0, 1000);

    assert_eq!(rayzor_anon_get_field_by_index(&store, a, 0), 42);
    assert_eq!(rayzor_anon_get_field_by_index(&store, b, 0), 1000);

    rayzor_anon_drop(&mut store, a);
    rayzor_anon_drop(&mut store, b);
}

// --- arena ---------------------------------------------------------------

#[test]
fn test_arena_alloc_bytes() {
    let mut arena = Arena::new();
    let p1 = arena_alloc_bytes(&mut arena, 16);
    assert_eq!(p1.size, 16);
    let p2 = arena_alloc_bytes(&mut arena, 32);
    assert_eq!(p2.size, 32);
    assert_ne!((p1.chunk, p1.offset), (p2.chunk, p2.offset));
}

#[test]
fn test_arena_alloc_haxe_string() {
    let mut arena = Arena::new();
    let p = arena_alloc_haxe_string(&mut arena, HaxeString { data: None, len: 0, cap: 0 });
    let hs = arena_string(&arena, p);
    assert_eq!(hs.len(), 0);
    assert_eq!(hs.cap, 0);
}

#[test]
fn test_arena_grows() {
    let mut arena = Arena::new();
    for _ in 0..10000 {
        let p = arena_alloc_bytes(&mut arena, 64);
        assert_eq!(p.size, 64);
    }
    assert!(arena.chunks.len() > 1);
    let (total, used) = arena_stats(&arena);
    assert!(total >= 640_000);
    assert!(used >= 640_000 && used <= total);
    assert_eq!((total, used), (655_360, 640_000));
}

#[test]
fn test_arena_alignment() {
    let mut arena = Arena::new();
    for _ in 0..100 {
        let p = arena_alloc_haxe_string(
            &mut arena,
            HaxeString { data: Some(vec![b'x'; 42]), len: 42, cap: 0 },
        );
        assert_eq!(p.slot.offset % 8, 0, "HaxeString not 8-byte aligned");
        assert_eq!(arena_string(&arena, p).len(), 42);
    }
}

// --- boxes ---------------------------------------------------------------

#[test]
fn test_box_init_unbox_free() {
    let mut boxes = BoxStore::new();
    let boxed = boxes.rayzor_box_init(42);
    assert!(boxed != 0);
    assert_eq!(boxes.rayzor_box_unbox(boxed), 42);
    assert_eq!(rayzor_runtime::box_runtime::rayzor_box_raw(boxed), boxed);
    boxes.rayzor_box_free(boxed);
}

#[test]
fn test_box_null_safety() {
    let mut boxes = BoxStore::new();
    assert_eq!(boxes.rayzor_box_unbox(0), 0);
    boxes.rayzor_box_free(0);
}

// --- heap ----------------------------------------------------------------

#[test]
fn test_malloc_free() {
    let mut heap = Heap::new();
    let ptr = heap.rayzor_malloc(100);
    assert!(ptr != 0);
    heap.set_byte(ptr, 0, 42);
    assert_eq!(heap.byte(ptr, 0), 42);
    heap.rayzor_free(ptr, 100);
}

#[test]
fn test_realloc() {
    let mut heap = Heap::new();
    let ptr = heap.rayzor_malloc(10);
    assert!(ptr != 0);
    for i in 0..10 {
        heap.set_byte(ptr, i, i as u8);
    }
    let new_ptr = heap.rayzor_realloc(ptr, 10, 20);
    assert!(new_ptr != 0);
    for i in 0..10 {
        assert_eq!(heap.byte(new_ptr, i), i as u8);
    }
    heap.rayzor_free(new_ptr, 20);
}

#[test]
fn test_zero_size() {
    let mut heap = Heap::new();
    assert_eq!(heap.rayzor_malloc(0), 0);
}

#[test]
fn test_realloc_null() {
    let mut heap = Heap::new();
    let ptr = heap.rayzor_realloc(0, 0, 100);
    assert!(ptr != 0);
    heap.rayzor_free(ptr, 100);
}

#[test]
fn tracked_blocks_are_rounded_and_freed_once() {
    let mut heap = TrackedHeap::new();
    assert_eq!(heap.rayzor_tracked_alloc(0), 0);
    let p = heap.rayzor_tracked_alloc(24);
    assert!(p != 0);
    assert_eq!(heap.blocks[p - 1].header, 32);
    assert_eq!(heap.rayzor_tracked_realloc(p, 30), p);
    let q = heap.rayzor_tracked_realloc(p, 48);
    assert!(q != 0 && q != p);
    assert_eq!(heap.blocks[q - 1].header, 48);
    heap.rayzor_tracked_free(q);
    assert_eq!(heap.blocks[q - 1].header, 0);
    heap.rayzor_tracked_free(q);
    heap.rayzor_tracked_free(0);
}

#[test]
fn globals_are_zero_until_stored() {
    let mut globals = GlobalStore::new();
    assert_eq!(globals.rayzor_global_load(5), 0);
    globals.rayzor_global_store(5, -7);
    globals.rayzor_global_store(200, 9);
    assert_eq!(globals.rayzor_global_load(5), -7);
    assert_eq!(globals.rayzor_global_load(200), 9);
    assert_eq!(globals.rayzor_global_load(6), 0);
}

// --- object pool ---------------------------------------------------------

const BASE: u64 = 0x7000_0000_0000;

fn pooled(scribble: bool) -> ObjectPool {
    let mut pool = ObjectPool::new(true, scribble);
    assert!(pool.ensure_region(Some(BASE)));
    pool
}

fn block(p: Placement) -> (u64, u64, Option<u8>) {
    match p {
        Placement::Block { addr, size, fill } => (addr, size, fill),
        other => panic!("expected a pooled block, got {:?}", other),
    }
}

#[test]
fn reuses_a_freed_block() {
    let mut pool = pooled(false);
    let (a, _, _) = block(pool.rayzor_object_alloc(32));
    pool.rayzor_object_free(a);
    let (b, _, _) = block(pool.rayzor_object_alloc(32));
    assert_eq!(a, b, "a freed block should come straight back");
    pool.rayzor_object_free(b);
}

#[test]
fn separates_size_classes() {
    let mut pool = pooled(false);
    let (small, _, _) = block(pool.rayzor_object_alloc(16));
    let (large, _, _) = block(pool.rayzor_object_alloc(256));
    assert_ne!(small, large);
    pool.rayzor_object_free(small);
    pool.rayzor_object_free(large);
    let (again, _, _) = block(pool.rayzor_object_alloc(16));
    assert_eq!(again, small);
}

#[test]
fn oversized_goes_to_libc_and_back() {
    let mut pool = pooled(false);
    assert_eq!(pool.rayzor_object_alloc(4096), Placement::System(4096));
    assert_eq!(pool.rayzor_object_free(0x5000_0000), Release::System);
}

#[test]
fn poisons_a_released_block_when_asked() {
    let mut pool = pooled(true);
    let (a, size, _) = block(pool.rayzor_object_alloc(64));
    assert_eq!(size, 64);
    match pool.rayzor_object_free(a) {
        Release::Pooled { size, fill } => {
            assert_eq!(size, 64);
            assert_eq!(fill, Some(0x55));
        }
        other => panic!("released block kept its contents: {:?}", other),
    }
}

#[test]
fn fills_a_fresh_block_when_asked() {
    let mut pool = pooled(true);
    let (a, size, fill) = block(pool.rayzor_object_alloc(48));
    assert_eq!(size, 48);
    assert_eq!(fill, Some(0xAA));
    pool.rayzor_object_free(a);
}

#[test]
fn counts_only_what_it_actually_serves() {
    let mut pool = pooled(true);
    let before = pool.rayzor_pool_served();
    let (a, _, _) = block(pool.rayzor_object_alloc(32));
    assert_eq!(pool.rayzor_pool_served(), before + 1);
    let big = pool.rayzor_object_alloc(MAX_POOLED + 1);
    assert_eq!(big, Placement::System(MAX_POOLED + 1));
    assert_eq!(pool.rayzor_pool_served(), before + 1);
    pool.rayzor_object_free(a);
}

#[test]
fn free_still_reclaims_pool_blocks_when_the_switch_is_off() {
    let mut pool = pooled(false);
    let (a, _, _) = block(pool.rayzor_object_alloc(32));
    assert!(pool.in_region(a), "expected a pooled block");
    pool.enabled = false;
    assert!(matches!(pool.rayzor_object_free(a), Release::Pooled { .. }));
    pool.enabled = true;
    let (b, _, _) = block(pool.rayzor_object_alloc(32));
    assert_eq!(a, b, "the released block did not come back");
    pool.rayzor_object_free(b);
}

#[test]
fn frees_a_foreign_pointer_without_touching_the_pool() {
    let mut pool = pooled(false);
    let foreign: u64 = 0x1234_5670;
    assert_eq!(pool.rayzor_object_free(foreign), Release::System);
    let (fresh, _, _) = block(pool.rayzor_object_alloc(64));
    assert_ne!(fresh, foreign);
    pool.rayzor_object_free(fresh);
}

#[test]
fn windows_falls_back_to_libc_when_pool_is_requested() {
    let mut pool = ObjectPool::new(true, false);
    assert!(!pool.ensure_region(None));
    let before = pool.rayzor_pool_served();
    assert_eq!(pool.rayzor_object_alloc(32), Placement::System(32));
    assert!(!pool.in_region(0x1000));
    assert_eq!(pool.rayzor_pool_served(), before);
}

#[test]
fn size_classes_and_switches() {
    assert_eq!(class_of(1), class_of(16));
    assert_ne!(class_of(16), class_of(17));
    assert_eq!(class_of(512), Some(31));
    assert_eq!(class_of(513), None);
    assert!(!pool_enabled(None));
    assert!(!pool_enabled(Some(b"0")));
    assert!(pool_enabled(Some(b"1")));
    assert!(!scribble_enabled(false, false));
    assert!(scribble_enabled(false, true));
}
