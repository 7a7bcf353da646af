use swarm_native::arena::{next_write_index, reference_index, TripleBufferState, SLOT_COUNT};

#[test]
fn new_arena_is_zeroed_with_slot_two_ready() {
    let arena = TripleBufferState::new(12);
    assert_eq!(arena.slots.len(), SLOT_COUNT);
    assert_eq!(arena.ready_idx, 2);
    assert_eq!(arena.write_idx, 0);
    assert_eq!(arena.read_latest(), vec![0u8; 12]);
    assert_eq!(arena.acquire_write_index(), 1);
}

#[test]
fn write_slot_is_never_ready_over_many_cycles() {
    let mut arena = TripleBufferState::new(6);
    let mut order = Vec::new();
    for n in 0..30u8 {
        let w = arena.acquire_write_index();
        assert_ne!(w, arena.ready_idx);
        assert_ne!(w, arena.write_idx);
        arena.publish_frame(&[n; 6]);
        assert_eq!(arena.ready_idx, w);
        order.push(w);
    }
    assert_eq!(&order[..6], &[1, 2, 0, 1, 2, 0]);
}

#[test]
fn latest_frame_is_the_last_published() {
    let mut arena = TripleBufferState::new(4);
    for n in 1..=7u8 {
        let f = vec![n, n + 1, n + 2, n + 3];
        arena.publish_frame(&f);
        assert_eq!(arena.read_latest(), f);
    }
    assert_eq!(arena.read_latest(), vec![7, 8, 9, 10]);
}

#[test]
fn publishing_leaves_other_slots_alone() {
    let mut arena = TripleBufferState::new(3);
    arena.publish_frame(&[1, 1, 1]);
    arena.publish_frame(&[2, 2, 2]);
    assert_eq!(arena.slots[1].data, vec![1, 1, 1]);
    assert_eq!(arena.slots[2].data, vec![2, 2, 2]);
    assert_eq!(arena.slots[0].data, vec![0, 0, 0]);
}

#[test]
fn next_write_index_skips_the_ready_slot() {
    assert_eq!(next_write_index(2, 0), 1);
    assert_eq!(next_write_index(1, 0), 2);
    assert_eq!(next_write_index(0, 2), 1);
    assert_eq!(next_write_index(1, 1), 2);
    for r in 0..3 {
        for c in 0..3 {
            let w = next_write_index(r, c);
            assert!(w < 3 && w != r && w != c);
        }
    }
}

#[test]
fn reference_index_is_first_free_slot() {
    assert_eq!(reference_index(1, 1), 0);
    assert_eq!(reference_index(0, 0), 1);
    assert_eq!(reference_index(0, 1), 2);
    assert_eq!(reference_index(2, 0), 1);
    assert_eq!(reference_index(2, 2), 0);
}

#[test]
fn cold_slot_follows_the_ready_slot() {
    let mut arena = TripleBufferState::new(2);
    assert_eq!(arena.cold_index(), 1);
    arena.publish_frame(&[5, 5]);
    assert_eq!(arena.cold_index(), 0);
    arena.publish_frame(&[6, 6]);
    assert_eq!(arena.cold_index(), 0);
    arena.publish_frame(&[7, 7]);
    assert_eq!(arena.cold_index(), 1);
}
