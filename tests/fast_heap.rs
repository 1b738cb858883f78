use vchord_algorithm::fast_heap::FastHeap;
use vchord_algorithm::heap::Heap;

fn drain(heap: &mut FastHeap) -> Vec<i32> {
    let mut out = Vec::new();
    while let Some(x) = heap.pop() {
        out.push(x);
    }
    out
}

fn descending(values: &[i32]) -> Vec<i32> {
    let mut x = values.to_vec();
    x.sort_by_key(|x| std::cmp::Reverse(*x));
    x
}

#[test]
fn test_select_heap() {
    for _ in 0..1000 {
        let sequence = (0..10000)
            .map(|_| rand::random::<i32>())
            .collect::<Vec<_>>();
        let answer = descending(&sequence);
        let result = {
            let mut x = FastHeap::from_vec(sequence.clone());
            std::iter::from_fn(|| x.pop()).collect::<Vec<_>>()
        };
        assert_eq!(answer, result);
    }
}

#[test]
fn test_issue_209() {
    let mut heap = FastHeap::from_vec(vec![0]);
    assert_eq!(heap.pop(), Some(0));
    assert_eq!(heap.pop(), None);
}

#[test]
fn drains_in_order_at_window_boundaries() {
    for n in [0usize, 1, 383, 384, 385, 768, 769] {
        let values: Vec<i32> = (0..n as i32).map(|i| (i * 7919) % 1000 - 500).collect();
        let mut heap = FastHeap::from_vec(values.clone());
        assert_eq!(drain(&mut heap), descending(&values), "n = {}", n);
        assert_eq!(heap.pop(), None);
    }
}

#[test]
fn small_inputs_start_as_binary_heap() {
    assert!(matches!(FastHeap::from_vec(vec![1; 383]), FastHeap::Binary(_)));
    assert!(matches!(FastHeap::from_vec(vec![1; 384]), FastHeap::Sorted(_)));
}

#[test]
fn empty_heap_stays_empty() {
    let mut heap = FastHeap::from_vec(Vec::new());
    for _ in 0..3 {
        assert_eq!(heap.peek(), None);
        assert_eq!(heap.pop(), None);
    }
}

#[test]
fn peek_matches_following_pop() {
    for n in [5usize, 400, 800] {
        let values: Vec<i32> = (0..n as i32).map(|i| (i * 31) % 97).collect();
        let mut heap = FastHeap::from_vec(values);
        loop {
            let seen = heap.peek().copied();
            assert_eq!(heap.peek().copied(), seen);
            let popped = heap.pop();
            assert_eq!(seen, popped);
            if popped.is_none() {
                break;
            }
        }
    }
}

#[test]
fn pop_if_scenario() {
    let mut heap = FastHeap::make(vec![5, 3, 5, 1, 9, 9, 2]);
    let mut taken = Vec::new();
    while let Some(x) = heap.pop_if(|x| *x > 4) {
        taken.push(x);
    }
    assert_eq!(taken, vec![9, 9, 5, 5]);
    assert_eq!(heap.peek(), Some(&3));
    assert_eq!(drain(&mut heap), vec![3, 2, 1]);
}

#[test]
fn full_drain_scenario() {
    let mut heap = FastHeap::from_vec(vec![5, 3, 5, 1, 9, 9, 2]);
    assert_eq!(drain(&mut heap), vec![9, 9, 5, 5, 3, 2, 1]);
}

#[test]
fn rejected_pop_if_leaves_heap_unchanged() {
    let values: Vec<i32> = (0..1000).map(|i| (i * 37) % 211).collect();
    let mut a = FastHeap::from_vec(values.clone());
    let mut b = FastHeap::from_vec(values);
    assert_eq!(a.pop(), b.pop());
    assert_eq!(a.pop_if(|_| false), None);
    assert_eq!(drain(&mut a), drain(&mut b));
}

#[test]
fn pop_if_crosses_into_binary_heap() {
    let values: Vec<i32> = (0..768).collect();
    let mut heap = FastHeap::from_vec(values);
    assert_eq!(heap.pop_if(|x| *x == 767), Some(767));
    assert_eq!(heap.pop_if(|x| *x == 766), Some(766));
    assert!(matches!(heap, FastHeap::Binary(_)));
    assert_eq!(heap.pop_if(|x| *x == 765), Some(765));
    assert_eq!(heap.pop_if(|x| *x == 0), None);
    assert_eq!(heap.peek(), Some(&764));
}

#[test]
fn into_vec_returns_remaining_elements() {
    let values: Vec<i32> = (0..800).map(|i| (i * 13) % 400).collect();
    let mut heap = FastHeap::from_vec(values.clone());
    let first = heap.pop().unwrap();
    let mut rest = heap.into_vec();
    rest.push(first);
    rest.sort();
    let mut expected = values;
    expected.sort();
    assert_eq!(rest, expected);
}

#[test]
fn sorted_window_holds_largest_in_order() {
    let values: Vec<i32> = (0..1152).rev().collect();
    let heap = FastHeap::from_vec(values);
    let backing = heap.into_vec();
    assert_eq!(&backing[1149..], &[1149, 1150, 1151]);
}

#[test]
fn drain_sorted_empties_in_descending_order() {
    let values: Vec<i32> = (0..1000).map(|i| (i * 7) % 300 - 150).collect();
    let mut heap = FastHeap::from_vec(values.clone());
    assert_eq!(heap.drain_sorted(), descending(&values));
    assert_eq!(heap.pop(), None);
    let mut small = FastHeap::from_vec(vec![5, 3, 5, 1, 9, 9, 2]);
    assert_eq!(small.drain_sorted(), vec![9, 9, 5, 5, 3, 2, 1]);
}

#[test]
fn sorted_window_pops_stay_sorted_until_exhausted() {
    let values: Vec<i32> = (0..769).collect();
    let mut heap = FastHeap::from_vec(values);
    assert!(matches!(heap, FastHeap::Sorted(_)));
    assert_eq!(heap.pop(), Some(768));
    assert!(matches!(heap, FastHeap::Sorted(_)));
    assert_eq!(heap.pop(), Some(767));
    assert!(matches!(heap, FastHeap::Binary(_)));
    assert_eq!(heap.pop(), Some(766));
    assert!(matches!(heap, FastHeap::Binary(_)));
}
