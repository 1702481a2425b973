use orx_priority_queue::{BinaryHeapWithMap, PriorityQueue, PriorityQueueDecKey};

struct Edge {
    node: usize,
    cost: usize,
}

fn shortest_path(adj_list: &[Vec<Edge>], start: usize, goal: usize) -> Option<usize> {
    let mut heap = BinaryHeapWithMap::default();

    heap.push(start, 0);

    while let Some((position, cost)) = heap.pop() {
        if position == goal {
            return Some(cost);
        }

        for edge in &adj_list[position] {
            heap.try_decrease_key_or_push(&edge.node, cost + edge.cost);
        }
    }

    None
}

#[test]
fn dijkstra() {
    let graph = vec![
        vec![Edge { node: 2, cost: 10 }, Edge { node: 1, cost: 1 }],
        vec![Edge { node: 3, cost: 2 }],
        vec![
            Edge { node: 1, cost: 1 },
            Edge { node: 3, cost: 3 },
            Edge { node: 4, cost: 1 },
        ],
        vec![Edge { node: 0, cost: 7 }, Edge { node: 4, cost: 2 }],
        vec![],
    ];

    assert_eq!(shortest_path(&graph, 0, 1), Some(1));
    assert_eq!(shortest_path(&graph, 0, 3), Some(3));
    assert_eq!(shortest_path(&graph, 3, 0), Some(7));
    assert_eq!(shortest_path(&graph, 0, 4), Some(5));
    assert_eq!(shortest_path(&graph, 4, 0), None);
}
