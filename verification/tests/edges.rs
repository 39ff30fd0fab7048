use priq::{PriorityQueue, RawPQ};

#[test]
fn empty_queue_yields_nothing() {
    let mut pq: PriorityQueue<i8, i8> = PriorityQueue::default();
    assert!(pq.is_empty());
    assert_eq!(0, pq.len());
    assert!(pq.peek().is_none());
    assert!(pq.pop().is_none());
    assert!(pq.pop().is_none());
    pq.clear();
    pq.truncate(0);
    assert!(pq.drain(0..0).next().is_none());
    assert!(pq.into_sorted_vec().is_empty());
}

#[test]
fn peek_does_not_remove() {
    let mut pq: PriorityQueue<u8, String> = PriorityQueue::new();
    pq.put(1, String::from("Ruiner"));
    pq.put(3, String::from("Bazel"));
    pq.put(2, String::from("Jho"));
    assert_eq!(3, pq.len());
    assert_eq!("Ruiner", pq.peek().unwrap().1);
    assert_eq!(3, pq.len());
}

#[test]
fn capacity_grows_to_ten_and_then_triples() {
    let mut pq: PriorityQueue<u32, u32> = PriorityQueue::new();
    assert_eq!(0, pq.cap());
    pq.put(0, 0);
    assert_eq!(10, pq.cap());
    for i in 1..10 {
        pq.put(i, i);
        assert_eq!(10, pq.cap());
    }
    pq.put(10, 10);
    assert_eq!(30, pq.cap());
    for i in 11..31 {
        pq.put(i, i);
    }
    assert_eq!(90, pq.cap());
    assert_eq!(31, pq.len());
}

#[test]
fn reserved_capacity_is_used_before_growing() {
    let mut pq: PriorityQueue<usize, usize> = PriorityQueue::with_capacity(100);
    assert_eq!(100, pq.cap());
    for i in 0..100 {
        assert!(pq.can_put());
        pq.put(i, i);
        assert_eq!(100, pq.cap());
    }
    pq.put(100, 100);
    assert_eq!(300, pq.cap());
}

#[test]
fn capacity_of_a_built_queue_covers_its_entries() {
    let pq = PriorityQueue::from(vec![(1, 1), (2, 2)]);
    assert_eq!(2, pq.cap());
    let pq = PriorityQueue::from((0..25).map(|i| (i, i)).collect::<Vec<(i32, i32)>>());
    assert_eq!(25, pq.cap());
    let pq = PriorityQueue::from([(1, 1), (2, 2), (3, 3)]);
    assert_eq!(3, pq.cap());
}

#[test]
fn extraction_gives_room_back_above_the_threshold() {
    let mut pq: PriorityQueue<u32, u32> = PriorityQueue::new();
    for i in 0..2000 {
        pq.put(i, i);
    }
    assert_eq!(2430, pq.cap());
    for expected in 0..1392 {
        assert_eq!(expected, pq.pop().unwrap().0);
        assert_eq!(2430, pq.cap());
    }
    assert_eq!(608, pq.len());
    assert_eq!(1392, pq.pop().unwrap().0);
    assert_eq!(607, pq.len());
    assert_eq!(1215, pq.cap());
    for expected in 1393..1697 {
        assert_eq!(expected, pq.pop().unwrap().0);
    }
    assert_eq!(303, pq.len());
    assert_eq!(607, pq.cap());
    for expected in 1697..2000 {
        assert_eq!(expected, pq.pop().unwrap().0);
        assert_eq!(607, pq.cap());
    }
    assert!(pq.is_empty());
}

#[test]
fn capacity_stays_through_removals() {
    let mut pq = PriorityQueue::from([(5, 55), (1, 11), (4, 44), (2, 22), (7, 77), (8, 88)]);
    assert_eq!(6, pq.cap());
    assert!(pq.can_put());
    pq.truncate(4);
    assert_eq!(6, pq.cap());
    assert_eq!(Some((1, 11)), pq.pop());
    assert_eq!(6, pq.cap());
    pq.put(9, 99);
    pq.put(3, 33);
    pq.put(6, 66);
    assert_eq!(6, pq.len());
    assert_eq!(6, pq.cap());
    pq.put(0, 0);
    assert_eq!(18, pq.cap());
    assert_eq!(2, pq.drain(1..3).count());
    assert_eq!(18, pq.cap());
    assert_eq!(0, pq.len());
}

#[test]
fn reservation_is_bounded_in_bytes() {
    assert!(PriorityQueue::<u64, u64>::can_hold(0));
    assert!(PriorityQueue::<u64, u64>::can_hold(100));
    assert!(PriorityQueue::<u8, u8>::can_hold(isize::MAX as usize / 2));
    assert!(!PriorityQueue::<u8, u8>::can_hold(isize::MAX as usize / 2 + 1));
    assert!(!PriorityQueue::<u64, u64>::can_hold(usize::MAX / 3));
    assert!(PriorityQueue::<(), ()>::can_hold(usize::MAX));
    assert!(RawPQ::<u32, u32>::can_hold(isize::MAX as usize / 8));
    assert!(!RawPQ::<u32, u32>::can_hold(isize::MAX as usize / 8 + 1));
}

#[test]
fn growth_stops_where_the_bytes_run_out() {
    let store: RawPQ<[u8; 1 << 20], [u8; 1 << 20]> = RawPQ::new();
    assert!(store.can_grow());
    let store: RawPQ<u8, [u8; usize::MAX / 16]> = RawPQ::new();
    assert!(!store.can_grow());
    let pq: PriorityQueue<u8, [u8; usize::MAX / 16]> = PriorityQueue::new();
    assert!(!pq.can_put());
}

#[test]
fn small_buffers_keep_their_capacity() {
    let mut pq: PriorityQueue<u32, u32> = PriorityQueue::with_capacity(1000);
    pq.put(1, 1);
    assert_eq!(Some((1, 1)), pq.pop());
    assert_eq!(1000, pq.cap());
    pq.clear();
    assert_eq!(1000, pq.cap());
}

#[test]
fn entries_without_size_never_need_room() {
    let saturated = usize::MAX / 2 + 1;
    assert_eq!(1usize << (usize::BITS - 1), saturated);
    let mut pq: PriorityQueue<(), ()> = PriorityQueue::new();
    assert_eq!(saturated, pq.cap());
    for _ in 0..5000 {
        assert!(pq.can_put());
        pq.put((), ());
    }
    assert_eq!(5000, pq.len());
    assert_eq!(saturated, pq.cap());
    assert_eq!(Some(((), ())), pq.pop());
    assert_eq!(saturated, pq.cap());
    assert_eq!(4999, pq.len());
    pq.truncate(10);
    assert_eq!(saturated, pq.cap());
    let copy = pq.clone();
    assert_eq!(10, copy.len());
    assert_eq!(saturated, copy.cap());
    pq.clear();
    assert_eq!(saturated, pq.cap());
    let pq: PriorityQueue<(), ()> = PriorityQueue::with_capacity(3);
    assert_eq!(saturated, pq.cap());
    let pq = PriorityQueue::from([((), ()), ((), ())]);
    assert_eq!(2, pq.len());
    assert_eq!(saturated, pq.cap());
    let pq = PriorityQueue::from(vec![((), ()), ((), ()), ((), ())]);
    assert_eq!(3, pq.len());
    assert_eq!(saturated, pq.cap());
}

#[test]
fn backing_store_follows_its_growth_policy() {
    let mut store: RawPQ<u64, u64> = RawPQ::new();
    assert_eq!(0, store.cap());
    assert!(store.can_grow());
    store.grow();
    assert_eq!(10, store.cap());
    store.grow();
    assert_eq!(30, store.cap());
    store.shrink();
    assert_eq!(15, store.cap());
    store.shrink();
    assert_eq!(7, store.cap());
    let store: RawPQ<u64, u64> = RawPQ::with_capacity(64);
    assert_eq!(64, store.cap());
    assert!(store.can_grow());
    let mut store: RawPQ<(), ()> = RawPQ::with_capacity(8);
    assert_eq!(usize::MAX / 2 + 1, store.cap());
    assert!(!store.can_grow());
    store.shrink();
    assert_eq!(usize::MAX / 2 + 1, store.cap());
    let store: RawPQ<(), ()> = RawPQ::new();
    assert_eq!(usize::MAX / 2 + 1, store.cap());
    assert!(!store.can_grow());
}

#[test]
fn truncate_keeps_the_first_entries_of_the_buffer() {
    let mut pq = PriorityQueue::from([(5, 55), (1, 11), (4, 44), (2, 22), (7, 77), (8, 88)]);
    assert_eq!(&[(1, 11), (2, 22), (4, 44), (5, 55), (7, 77), (8, 88)][..], &pq[..]);
    pq.truncate(3);
    assert_eq!(3, pq.len());
    assert_eq!(11, pq.peek().unwrap().1);
    assert_eq!(&[(1, 11), (2, 22), (4, 44)][..], &pq[..]);
    pq.truncate(0);
    assert!(pq.is_empty());
}

#[test]
fn drain_hands_out_the_range_and_drops_the_rest() {
    let mut pq = PriorityQueue::from([(5, 55), (1, 11), (4, 44), (7, 77)]);
    assert_eq!(&[(1, 11), (5, 55), (4, 44), (7, 77)][..], &pq[..]);
    let drained: Vec<(i32, i32)> = pq.drain(2..4).collect();
    assert!(pq.is_empty());
    assert_eq!(vec![(4, 44), (7, 77)], drained);

    let mut pq = PriorityQueue::from([(5, 55), (1, 11), (4, 44), (7, 77)]);
    let mut drained = pq.drain(1..3);
    assert_eq!((2, Some(2)), drained.size_hint());
    assert_eq!(Some((5, 55)), drained.next());
    assert_eq!((1, Some(1)), drained.size_hint());
    assert_eq!(Some((4, 44)), drained.next());
    assert_eq!(None, drained.next());
    assert_eq!(None, drained.next());
    assert_eq!((0, Some(0)), drained.size_hint());
    drop(drained);
    assert!(pq.is_empty());
    pq.put(3, 33);
    assert_eq!(Some(&(3, 33)), pq.peek());
}

#[test]
fn consuming_iteration_follows_the_buffer() {
    let pq = PriorityQueue::from([(3, 'c'), (1, 'a'), (2, 'b'), (0, 'z')]);
    let buffer = pq.to_vec();
    assert_eq!(vec![(0, 'z'), (1, 'a'), (2, 'b'), (3, 'c')], buffer);
    let mut iter = pq.into_iter();
    assert_eq!((4, Some(4)), iter.size_hint());
    assert_eq!(Some((0, 'z')), iter.next());
    let rest: Vec<(i32, char)> = iter.collect();
    assert_eq!(vec![(1, 'a'), (2, 'b'), (3, 'c')], rest);

    let pq = PriorityQueue::from([(1, 'a'), (3, 'c'), (2, 'b')]);
    let walked: Vec<(i32, char)> = pq.into_iter().collect();
    assert_eq!(vec![(1, 'a'), (3, 'c'), (2, 'b')], walked);
}

#[test]
fn slice_view_reads_and_writes_the_buffer() {
    let mut pq = PriorityQueue::from([(1, 10), (2, 20), (3, 30)]);
    assert_eq!(3, pq.iter().count());
    assert_eq!((2, 20), pq[1]);
    for entry in pq.iter_mut() {
        entry.1 += 1;
    }
    assert_eq!(&[(1, 11), (2, 21), (3, 31)][..], &pq[..]);
    assert_eq!(Some((1, 11)), pq.pop());
}

#[test]
fn clone_holds_the_same_entries_apart() {
    let mut pq: PriorityQueue<u8, String> = PriorityQueue::new();
    pq.put(2, String::from("Ori"));
    pq.put(1, String::from("Erti"));
    let mut copy = pq.clone();
    assert_eq!(pq.to_vec(), copy.to_vec());
    assert_eq!(3, copy.cap());
    assert_eq!("Erti", copy.pop().unwrap().1);
    assert_eq!(1, copy.len());
    assert_eq!(2, pq.len());
    assert_eq!("Erti", pq.peek().unwrap().1);
}

#[test]
fn incomparable_root_is_passed_over() {
    let mut pq: PriorityQueue<f32, char> = PriorityQueue::new();
    pq.put(f32::NAN, 'n');
    pq.put(3.0, 'c');
    pq.put(5.0, 'e');
    assert!(pq[0].0.is_nan());
    assert_eq!((3.0, 'c'), pq[1]);
    assert_eq!((5.0, 'e'), pq[2]);
    assert_eq!(Some((5.0, 'e')), pq.pop());
    assert!(pq.peek().unwrap().0.is_nan());
    assert_eq!(Some((3.0, 'c')), pq.pop());
    assert_eq!('n', pq.pop().unwrap().1);
    assert!(pq.pop().is_none());
}

#[test]
fn incomparable_score_stops_a_rising_entry() {
    let mut pq: PriorityQueue<f64, u8> = PriorityQueue::new();
    pq.put(1.1, 1);
    pq.put(f64::NAN, 0);
    pq.put(2.2, 2);
    pq.put(0.5, 5);
    let items: Vec<u8> = pq.iter().map(|entry| entry.1).collect();
    assert_eq!(vec![1, 0, 2, 5], items);
    assert_eq!(Some((1.1, 1)), pq.pop());
}

#[test]
fn equal_scores_stay_behind_earlier_ones() {
    let mut pq: PriorityQueue<u8, char> = PriorityQueue::new();
    pq.put(1, 'a');
    pq.put(1, 'b');
    pq.put(1, 'c');
    assert_eq!(&[(1, 'a'), (1, 'b'), (1, 'c')][..], &pq[..]);
    assert_eq!(Some((1, 'a')), pq.pop());
    assert_eq!(&[(1, 'c'), (1, 'b')][..], &pq[..]);
}
