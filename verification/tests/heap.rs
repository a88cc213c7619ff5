use aoc2021::heap::MinHeap;

#[test]
fn empty_heap_pops_nothing() {
    let mut heap: MinHeap<u8> = MinHeap::new();
    assert!(heap.is_empty());
    assert_eq!(heap.len(), 0);
    assert_eq!(heap.pop(), None);
}

#[test]
fn pops_in_ascending_cost() {
    let mut heap = MinHeap::new();
    let costs = [5usize, 3, 9, 1, 7, 3, 8, 2, 6, 4, 0, 9];
    for (i, c) in costs.iter().enumerate() {
        heap.push(i, *c);
    }
    assert_eq!(heap.len(), costs.len());
    let mut out = Vec::new();
    while let Some((i, c)) = heap.pop() {
        assert_eq!(costs[i], c);
        out.push(c);
    }
    assert_eq!(out, vec![0, 1, 2, 3, 3, 4, 5, 6, 7, 8, 9, 9]);
    assert!(heap.is_empty());
}

#[test]
fn push_between_pops() {
    let mut heap = MinHeap::new();
    heap.push('a', 4);
    heap.push('b', 2);
    assert_eq!(heap.pop(), Some(('b', 2)));
    heap.push('c', 1);
    heap.push('d', 6);
    assert_eq!(heap.pop(), Some(('c', 1)));
    assert_eq!(heap.pop(), Some(('a', 4)));
    assert_eq!(heap.pop(), Some(('d', 6)));
    assert_eq!(heap.pop(), None);
}

#[test]
fn many_entries_come_out_sorted() {
    let mut heap = MinHeap::new();
    let mut x: usize = 12345;
    let mut costs = Vec::new();
    for i in 0..1000usize {
        x = (x * 1103515245 + 12345) % 2147483648;
        costs.push(x % 500);
        heap.push(i, x % 500);
    }
    costs.sort();
    let mut out = Vec::new();
    while let Some((_, c)) = heap.pop() {
        out.push(c);
    }
    assert_eq!(out, costs);
}
