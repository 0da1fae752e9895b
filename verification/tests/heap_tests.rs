use data_structures::heap::{BinaryHeap, DArrayHeap};

#[test]
fn test_binary_heap() {
    let heap = vec![u32::MIN, 15, 13, 9, 5, 12, 8, 7, 4, 0, 6, 2, 1];
    let heap = BinaryHeap { heap_size: heap.len() - 1, a: heap };
    {
        let mut heap = BinaryHeap { heap_size: heap.heap_size, a: heap.a.clone() };
        let result = heap.extract_max();
        assert_eq!(result, 15);
        let result = [u32::MIN, 13, 12, 9, 5, 6, 8, 7, 4, 0, 1, 2, 1];
        assert_eq!(&result, heap.a.as_slice());
    }
    {
        let mut heap = BinaryHeap { heap_size: heap.heap_size, a: heap.a.clone() };
        heap.insert(10);
        let result = [u32::MIN, 15, 13, 10, 5, 12, 9, 7, 4, 0, 6, 2, 1, 8];
        assert_eq!(&result, heap.a.as_slice());
    }
}

#[test]
fn test_heap_sort() {
    let heap = vec![u32::MIN, 5, 13, 2, 25, 7, 17, 20, 8, 4];
    let mut heap = BinaryHeap { heap_size: heap.len() - 1, a: heap };
    heap.sort();
    let result = [u32::MIN, 2, 4, 5, 7, 8, 13, 17, 20, 25];
    assert_eq!(&result, heap.a.as_slice());
}

#[test]
fn test_tertiary_max_heap() {
    let heap = vec![5, 13, 2, 25, 7, 17, 20, 8, 4, 24, 3, 2, 14, 12, 9, 10, 1];
    let heap = DArrayHeap { heap_size: heap.len() - 1, a: heap, d: 3 };
    {
        let mut heap = DArrayHeap { heap_size: heap.heap_size, a: heap.a.clone(), d: 3 };
        heap.build_max_heap();
        let result = [25, 20, 24, 14, 12, 17, 13, 8, 4, 2, 3, 2, 5, 7, 9, 10, 1];
        assert_eq!(&result, heap.a.as_slice());

        heap.insert(24);
        let result = [
            25, 24, 24, 14, 12, 20, 13, 8, 4, 2, 3, 2, 5, 7, 9, 10, 1, 17,
        ];
        assert_eq!(&result, heap.a.as_slice());
    }
    {
        let mut heap = DArrayHeap { heap_size: heap.heap_size, a: heap.a.clone(), d: 3 };
        heap.sort();
        let result = [1, 2, 2, 3, 4, 5, 7, 8, 9, 10, 12, 13, 14, 17, 20, 24, 25];
        assert_eq!(&result, heap.a.as_slice());
    }
}
