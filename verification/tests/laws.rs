use priq::PriorityQueue;

use rand::{seq::SliceRandom, thread_rng, Rng};

fn in_heap_order(entries: &[(u32, usize)]) -> bool {
    (1..entries.len()).all(|child| entries[(child - 1) / 2].0 <= entries[child].0)
}

#[test]
fn heap_order_holds_after_every_insert() {
    let mut rng = thread_rng();
    let mut pq: PriorityQueue<u32, usize> = PriorityQueue::new();
    for i in 0..2000 {
        pq.put(rng.gen_range(0..500), i);
        assert!(in_heap_order(&pq));
    }
}

#[test]
fn heap_order_holds_after_every_extract() {
    let mut rng = thread_rng();
    let mut pq: PriorityQueue<u32, usize> = PriorityQueue::new();
    for i in 0..500 {
        pq.put(rng.gen_range(0..100), i);
    }
    while pq.pop().is_some() {
        assert!(in_heap_order(&pq));
    }
}

#[test]
fn five_scores_come_out_ascending() {
    let mut pq: PriorityQueue<i32, char> = PriorityQueue::new();
    pq.put(5, 'e');
    pq.put(1, 'a');
    pq.put(4, 'd');
    pq.put(2, 'b');
    pq.put(3, 'c');
    assert_eq!(Some((1, 'a')), pq.pop());
    assert_eq!(Some((2, 'b')), pq.pop());
    assert_eq!(Some((3, 'c')), pq.pop());
    assert_eq!(Some((4, 'd')), pq.pop());
    assert_eq!(Some((5, 'e')), pq.pop());
    assert_eq!(None, pq.pop());
}

#[test]
fn five_scores_lie_where_the_walks_leave_them() {
    let mut pq: PriorityQueue<i32, char> = PriorityQueue::new();
    pq.put(5, 'e');
    assert_eq!(&[(5, 'e')][..], &pq[..]);
    pq.put(1, 'a');
    assert_eq!(&[(1, 'a'), (5, 'e')][..], &pq[..]);
    pq.put(4, 'd');
    assert_eq!(&[(1, 'a'), (5, 'e'), (4, 'd')][..], &pq[..]);
    pq.put(2, 'b');
    assert_eq!(&[(1, 'a'), (2, 'b'), (4, 'd'), (5, 'e')][..], &pq[..]);
    pq.put(3, 'c');
    assert_eq!(&[(1, 'a'), (2, 'b'), (4, 'd'), (5, 'e'), (3, 'c')][..], &pq[..]);
    assert_eq!(Some((1, 'a')), pq.pop());
    assert_eq!(&[(2, 'b'), (3, 'c'), (4, 'd'), (5, 'e')][..], &pq[..]);
    assert_eq!(Some((2, 'b')), pq.pop());
    assert_eq!(&[(3, 'c'), (5, 'e'), (4, 'd')][..], &pq[..]);
}

#[test]
fn length_counts_inserts_less_extracts() {
    let mut pq: PriorityQueue<u16, u16> = PriorityQueue::new();
    for k in 0..40 {
        pq.put(40 - k, k);
        assert_eq!(usize::from(k) + 1, pq.len());
    }
    for m in 1..=25 {
        assert!(pq.pop().is_some());
        assert_eq!(40 - m, pq.len());
    }
    pq.put(7, 7);
    assert_eq!(16, pq.len());
    pq.clear();
    assert_eq!(0, pq.len());
    assert!(pq.pop().is_none());
    assert_eq!(0, pq.len());
}

#[test]
fn sorted_conversion_returns_every_entry_ascending() {
    let mut rng = thread_rng();
    let n = 3000;
    let mut pairs: Vec<(i64, usize)> = (0..n).map(|i| (rng.gen_range(-1000..1000), i)).collect();
    let mut pq: PriorityQueue<i64, usize> = PriorityQueue::new();
    for &(score, item) in pairs.iter() {
        pq.put(score, item);
    }
    let sorted = pq.into_sorted_vec();
    assert_eq!(n, sorted.len());
    assert!(sorted.windows(2).all(|w| w[0].0 <= w[1].0));
    let mut got = sorted.clone();
    got.sort();
    pairs.sort();
    assert_eq!(pairs, got);
}

#[test]
fn sorted_conversion_keeps_buffer_order_among_equal_scores() {
    let pq = PriorityQueue::from(vec![(2, 'a'), (1, 'b'), (2, 'c'), (1, 'd'), (2, 'e')]);
    let buffer: Vec<(i32, char)> = pq.to_vec();
    assert_eq!(vec![(1, 'b'), (1, 'd'), (2, 'c'), (2, 'a'), (2, 'e')], buffer);
    let sorted = pq.into_sorted_vec();
    assert_eq!(vec![(1, 'b'), (1, 'd'), (2, 'c'), (2, 'a'), (2, 'e')], sorted);
}

#[test]
fn sorted_conversion_takes_the_earlier_of_an_incomparable_pair_first() {
    let pq = PriorityQueue::from(vec![(f64::NAN, 'n'), (1.0, 'a')]);
    let sorted = pq.into_sorted_vec();
    assert_eq!(2, sorted.len());
    assert!(sorted[0].0.is_nan());
    assert_eq!('n', sorted[0].1);
    assert_eq!((1.0, 'a'), sorted[1]);

    let pq = PriorityQueue::from(vec![(3.0, 'c'), (f64::NAN, 'n'), (1.0, 'a'), (2.0, 'b')]);
    let sorted: Vec<char> = pq.into_sorted_vec().into_iter().map(|entry| entry.1).collect();
    assert_eq!(vec!['a', 'n', 'b', 'c'], sorted);
}

#[test]
fn merge_empties_the_other_and_holds_the_union() {
    let mut a: PriorityQueue<u8, &str> = PriorityQueue::new();
    a.put(1, "one");
    a.put(2, "two");
    a.put(3, "three");
    a.put(5, "five");
    let mut b: PriorityQueue<u8, &str> = PriorityQueue::new();
    b.put(4, "four");
    b.put(6, "six");
    a.merge(&mut b);
    assert!(b.is_empty());
    assert_eq!(0, b.len());
    assert_eq!(6, a.len());
    for score in 1..=6 {
        assert_eq!(score, a.pop().unwrap().0);
    }
    assert!(a.pop().is_none());
}

#[test]
fn merge_with_an_empty_queue_changes_nothing() {
    let mut a = PriorityQueue::from([(2, 20), (1, 10)]);
    let mut b: PriorityQueue<i32, i32> = PriorityQueue::new();
    a.merge(&mut b);
    assert_eq!(&[(1, 10), (2, 20)][..], &a[..]);
    b.merge(&mut a);
    assert!(a.is_empty());
    assert_eq!(&[(1, 10), (2, 20)][..], &b[..]);
}

#[test]
fn sum_of_two_queues_holds_the_union() {
    let a = PriorityQueue::from([(3, 'c'), (1, 'a')]);
    let b = PriorityQueue::from([(2, 'b'), (0, 'z')]);
    let mut sum = a + b;
    assert_eq!(4, sum.len());
    assert_eq!(Some((0, 'z')), sum.pop());
    assert_eq!(Some((1, 'a')), sum.pop());
    assert_eq!(Some((2, 'b')), sum.pop());
    assert_eq!(Some((3, 'c')), sum.pop());
}

#[test]
fn drain_leaves_the_queue_empty_when_nothing_is_taken() {
    let mut pq = PriorityQueue::from([(5, 55), (1, 11), (4, 44)]);
    let len = pq.len();
    drop(pq.drain(0..len));
    assert_eq!(0, pq.len());
    assert!(pq.peek().is_none());

    let mut pq = PriorityQueue::from([(5, 55), (1, 11), (4, 44)]);
    let mut drained = pq.drain(0..3);
    assert_eq!(Some((1, 11)), drained.next());
    drop(drained);
    assert_eq!(0, pq.len());
}

#[test]
fn truncate_beyond_the_length_changes_nothing() {
    let mut pq = PriorityQueue::from([(4, 44), (2, 22), (7, 77), (8, 88)]);
    let before: Vec<(i32, i32)> = pq.to_vec();
    pq.truncate(5);
    assert_eq!(4, pq.len());
    assert_eq!(before, pq.to_vec());
    pq.truncate(4);
    assert_eq!(4, pq.len());
    assert_eq!(before, pq.to_vec());
    pq.truncate(usize::MAX);
    assert_eq!(before, pq.to_vec());
}

#[test]
fn queue_from_a_collection_equals_one_filled_by_hand() {
    let mut rng = thread_rng();
    let mut scores: Vec<u32> = (0..1000).collect();
    scores.shuffle(&mut rng);
    let pairs: Vec<(u32, u32)> = scores.iter().map(|&s| (s, s * 3)).collect();

    let mut by_hand: PriorityQueue<u32, u32> = PriorityQueue::new();
    for &(score, item) in pairs.iter() {
        by_hand.put(score, item);
    }
    let mut built = PriorityQueue::from(pairs.clone());
    assert_eq!(by_hand.to_vec(), built.to_vec());

    for expected in 0..1000 {
        let from_built = built.pop().unwrap();
        let from_hand = by_hand.pop().unwrap();
        assert_eq!((expected, expected * 3), from_built);
        assert_eq!(from_built, from_hand);
    }
    assert!(built.is_empty() && by_hand.is_empty());
}

#[test]
fn queue_from_an_array_equals_one_filled_by_hand() {
    let built = PriorityQueue::from([(9, 'i'), (3, 'c'), (7, 'g'), (1, 'a')]);
    let mut by_hand: PriorityQueue<i32, char> = PriorityQueue::new();
    by_hand.put(9, 'i');
    by_hand.put(3, 'c');
    by_hand.put(7, 'g');
    by_hand.put(1, 'a');
    assert_eq!(&[(1, 'a'), (3, 'c'), (7, 'g'), (9, 'i')][..], &built[..]);
    assert_eq!(by_hand.to_vec(), built.to_vec());
}
