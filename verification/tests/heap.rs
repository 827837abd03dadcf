use graph_rs::graph::heap::MinHeap;

#[test]
fn an_empty_heap_gives_nothing() {
    let mut heap = MinHeap::new();
    assert_eq!(heap.len(), 0);
    assert_eq!(heap.pop(), None);
}

#[test]
fn entries_leave_by_rising_priority() {
    let mut heap = MinHeap::new();
    for key in [5u64, 3, 9, 1, 7, 3, 8, 2, 6, 4] {
        heap.push((key, 0, 0));
    }
    assert_eq!(heap.len(), 10);
    let mut out = Vec::new();
    while let Some((key, _, _)) = heap.pop() {
        out.push(key);
    }
    assert_eq!(out, vec![1, 2, 3, 3, 4, 5, 6, 7, 8, 9]);
    assert_eq!(heap.len(), 0);
}

#[test]
fn ties_go_to_the_higher_cost_then_the_higher_node() {
    let mut heap = MinHeap::new();
    heap.push((4, 1, 9));
    heap.push((4, 2, 0));
    heap.push((4, 2, 3));
    heap.push((3, 0, 0));
    heap.push((4, 2, 3));
    assert_eq!(heap.pop(), Some((3, 0, 0)));
    assert_eq!(heap.pop(), Some((4, 2, 3)));
    assert_eq!(heap.pop(), Some((4, 2, 3)));
    assert_eq!(heap.pop(), Some((4, 2, 0)));
    assert_eq!(heap.pop(), Some((4, 1, 9)));
    assert_eq!(heap.pop(), None);
}
