use train_planner::min_heap::{create_min_heap, MinHeap};
use train_planner::route::Route;

#[test]
fn test_min_heap() {
    let mut min_heap = MinHeap::new();
    min_heap.add(Route {
        to: "a".to_string(),
        distance: 1,
    });
    min_heap.add(Route {
        to: "b".to_string(),
        distance: 5,
    });
    min_heap.add(Route {
        to: "c".to_string(),
        distance: 2,
    });
    let res1 = min_heap.remove();
    assert!(res1.is_some_and(|route| route.to == "a"));
    let res2 = min_heap.remove();
    assert!(res2.is_some_and(|route| route.to == "c"));
    min_heap.add(Route {
        to: "d".to_string(),
        distance: 3,
    });
    let res3 = min_heap.remove();
    assert!(res3.is_some_and(|route| route.to == "d"));
    let res4 = min_heap.remove();
    assert!(res4.is_some_and(|route| route.to == "b"));
    let res5 = min_heap.remove();
    assert!(res5.is_none());
}

fn route(to: &str, distance: i32) -> Route {
    Route {
        to: to.to_string(),
        distance,
    }
}

#[test]
fn index_arithmetic() {
    assert_eq!(MinHeap::get_left_child_index(0), 1);
    assert_eq!(MinHeap::get_right_child_index(0), 2);
    assert_eq!(MinHeap::get_left_child_index(3), 7);
    assert_eq!(MinHeap::get_right_child_index(3), 8);
    assert_eq!(MinHeap::get_parent_index(7), 3);
    assert_eq!(MinHeap::get_parent_index(8), 3);
    assert_eq!(MinHeap::get_parent_index(1), 0);
    assert_eq!(MinHeap::get_parent_index(2), 0);
    assert_eq!(MinHeap::get_parent_index(0), -1);
    assert_eq!(MinHeap::get_parent_index(-1), -1);
    assert_eq!(MinHeap::get_parent_index(-2), -2);
    assert_eq!(MinHeap::get_parent_index(i32::MIN), -1073741825);
    assert_eq!(MinHeap::get_parent_index(i32::MAX), 1073741823);
    assert_eq!(MinHeap::get_parent_index(16777217), 8388608);
    assert!(!MinHeap::has_parent(0));
    assert!(MinHeap::has_parent(1));
    assert!(!MinHeap::has_parent(-3));
}

#[test]
fn children_and_parents_by_index() {
    let mut heap = create_min_heap();
    assert!(!heap.has_left_child(0));
    assert!(heap.peek().is_none());
    heap.add(route("a", 1));
    heap.add(route("b", 5));
    assert!(heap.has_left_child(0));
    assert!(!heap.has_right_child(0));
    heap.add(route("c", 2));
    assert!(heap.has_right_child(0));
    assert!(!heap.has_left_child(1));
    assert_eq!(heap.left_child(0), route("b", 5));
    assert_eq!(heap.right_child(0), route("c", 2));
    assert_eq!(heap.parent(1), route("a", 1));
    assert_eq!(heap.parent(2), route("a", 1));
    assert_eq!(heap.peek(), Some(route("a", 1)));
    assert_eq!(heap.heap.len(), 3);
    heap.swap(1, 2);
    assert_eq!(heap.heap, vec![route("a", 1), route("c", 2), route("b", 5)]);
}

#[test]
fn heapify_restores_the_order() {
    let mut up = MinHeap {
        heap: vec![route("a", 3), route("b", 4), route("c", 5), route("d", 1)],
    };
    up.heapify_up();
    assert_eq!(
        up.heap,
        vec![route("d", 1), route("a", 3), route("c", 5), route("b", 4)]
    );
    let mut down = MinHeap {
        heap: vec![route("a", 9), route("b", 4), route("c", 2), route("d", 7)],
    };
    down.heapify_down();
    assert_eq!(
        down.heap,
        vec![route("c", 2), route("b", 4), route("a", 9), route("d", 7)]
    );
}

#[test]
fn removals_come_in_order_of_distance() {
    let mut heap = MinHeap::new();
    let distances = [7, 3, 9, 3, 0, 12, 5, 5, 1, 8, 2, 6];
    for (i, distance) in distances.iter().enumerate() {
        heap.add(route(&format!("s{}", i), *distance));
    }
    let mut last = i32::MIN;
    let mut taken = 0;
    while let Some(next) = heap.remove() {
        assert!(last <= next.distance);
        last = next.distance;
        taken += 1;
        if taken == 4 {
            heap.add(route("late", last));
            heap.add(route("later", last + 4));
        }
    }
    assert_eq!(taken, distances.len() + 2);
    assert!(heap.remove().is_none());
}
