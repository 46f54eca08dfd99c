use std::collections::BinaryHeap;

#[derive(Debug, PartialEq)]
struct Neighbor {
    id: usize,
    d: f64,
}

impl Eq for Neighbor {}

impl PartialOrd for Neighbor {
    fn partial_cmp(&self, other: &Self) -> Option<std::cmp::Ordering> {
        self.d.partial_cmp(&other.d)
    }
}

impl Ord for Neighbor {
    fn cmp(&self, other: &Self) -> std::cmp::Ordering {
        self.d.partial_cmp(&other.d).unwrap()
    }
}

#[test]
fn test_hnsw_binary_heap() {
    let mut heap: BinaryHeap<Neighbor> = BinaryHeap::new();

    heap.push(Neighbor { id: 0, d: 10.0 });
    heap.push(Neighbor { id: 2, d: 9.0 });
    heap.push(Neighbor { id: 1, d: 15.0 });
    let sorted = heap.into_sorted_vec();
    println!("{:?}", sorted);
    assert_eq!(
        sorted,
        vec![
            Neighbor { id: 2, d: 9.0 },
            Neighbor { id: 0, d: 10.0 },
            Neighbor { id: 1, d: 15.0 },
        ]
    );
}
