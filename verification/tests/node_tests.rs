use quadtree::{Node, Point, Rectangle, Spatial, TreeNode, TICKS_PER_UNIT};

fn ticks(units: f64) -> i32 {
    (units * TICKS_PER_UNIT as f64).round() as i32
}

fn pt(x: f64, y: f64) -> Point {
    Point::new(ticks(x), ticks(y))
}

fn rect(x: f64, y: f64, width: f64, height: f64) -> Rectangle {
    Rectangle::new(pt(x, y), ticks(width) as u32, ticks(height) as u32)
}

#[test]
fn node_can_insert() {
    let mut node: Node<u8> = Node::new_bounded(&rect(0.0, 0.0, 10.0, 20.0));
    assert_eq!(0, node.data_count());

    node.insert(Spatial::new(0, pt(0.1, 0.2)));
    assert_eq!(1, node.data_count());

    node.insert(Spatial::new(12, pt(0.1, 0.3)));
    assert_eq!(0, node.data_count());

    node.insert(Spatial::new(4, pt(6.0, 0.5)));
    assert_eq!(1, node.data_count());

    node.insert(Spatial::new(4, pt(6.0, 12.0)));
    assert_eq!(2, node.data_count());

    node.insert(Spatial::new(4, pt(2.0, 18.0)));
    assert_eq!(3, node.data_count());
}

#[test]
fn node_can_remove() {
    let mut node: Node<u8> = Node::new_bounded(&rect(0.0, 0.0, 10.0, 20.0));
    assert_eq!(0, node.data_count());
    assert!(node.is_empty());

    node.insert(Spatial::new(0, pt(0.1, 0.2)));
    assert_eq!(1, node.data_count());

    assert_eq!(Some(0), node.remove(&pt(0.1, 0.2)));

    node.insert(Spatial::new(0, pt(0.0, 0.0)));
    node.insert(Spatial::new(0, pt(0.0, 0.1)));
    node.insert(Spatial::new(0, pt(0.0, 0.2)));

    assert_eq!(7, node.node_children().len());

    node.remove(&pt(0.0, 0.0));
    node.remove(&pt(0.0, 0.1));
    node.remove(&pt(0.0, 0.2));

    assert_eq!(7, node.node_children().len());

    assert_eq!(0, node.collapse().len());

    assert_eq!(0, node.node_children().len());
}

#[test]
fn node_can_query_by_bounds() {
    let mut node: Node<usize> = Node::new_bounded(&rect(0.0, 0.0, 10.0, 10.0));
    assert_eq!(0, node.data_count());
    assert!(node.is_empty());

    let mut points: Vec<Point> = Vec::with_capacity(100);
    for i in 0..10 {
        for j in 0..10 {
            points.push(pt(i as f64 + 0.5, j as f64 + 0.5));
        }
    }

    for (index, point) in points.iter().enumerate() {
        node.insert(Spatial::new(index, *point));
        println!("{:?}: {:?}", index, point);
    }

    let query_rect = rect(5.0, 5.0, 5.6, 5.6);
    println!("{:?}", node.find_in_bounds(&query_rect));
    assert_eq!(25, node.find_in_bounds(&query_rect).unwrap().len())
}

#[test]
fn node_size() {
    println!("size of u8: {:?}", std::mem::size_of::<u8>());
    println!("size of i32: {:?}", std::mem::size_of::<i32>());
    println!("size of Point: {:?}", std::mem::size_of::<Point>());
    println!("size of Rectangle: {:?}", std::mem::size_of::<Rectangle>());
    println!("size of Spatial<u8>: {:?}", std::mem::size_of::<Spatial<u8>>());
    println!("size of Box<Node<u8>>: {:?}", std::mem::size_of::<Box<Node<u8>>>());
    println!("size of TreeNode<u8>: {:?}", std::mem::size_of::<TreeNode<u8>>());
    println!("size of Node<u8>: {:?}", std::mem::size_of::<Node<u8>>());

    assert!(true)
}

#[test]
fn node_query_is_the_same_for_any_insertion_order() {
    let mut points: Vec<Point> = Vec::new();
    for i in 0..10 {
        for j in 0..10 {
            points.push(pt(i as f64 + 0.5, j as f64 + 0.5));
        }
    }
    let query_rect = rect(2.0, 3.0, 4.0, 2.0);
    let mut expected: Vec<Point> = points
        .iter()
        .copied()
        .filter(|p| {
            p.x() >= ticks(2.0) && p.x() <= ticks(6.0) && p.y() >= ticks(3.0) && p.y() <= ticks(5.0)
        })
        .collect();
    expected.sort_by_key(|p| (p.x(), p.y()));
    assert_eq!(8, expected.len());

    let mut forward: Node<usize> = Node::new_bounded(&rect(0.0, 0.0, 10.0, 10.0));
    for (index, point) in points.iter().enumerate() {
        forward.insert(Spatial::new(index, *point));
    }
    let mut backward: Node<usize> = Node::new_bounded(&rect(0.0, 0.0, 10.0, 10.0));
    for (index, point) in points.iter().enumerate().rev() {
        backward.insert(Spatial::new(index, *point));
    }
    for node in [&forward, &backward] {
        let mut found: Vec<Point> =
            node.find_in_bounds(&query_rect).unwrap().iter().map(|s| *s.position()).collect();
        found.sort_by_key(|p| (p.x(), p.y()));
        assert_eq!(expected, found);
    }
}

#[test]
fn node_query_of_a_disjoint_window_finds_nothing() {
    let mut node: Node<u8> = Node::new_bounded(&rect(0.0, 0.0, 10.0, 10.0));
    node.insert(Spatial::new(1, pt(1.0, 1.0)));
    assert!(node.find_in_bounds(&rect(20.0, 20.0, 5.0, 5.0)).is_none());
}

#[test]
fn node_query_inside_the_bounds_follows_the_touched_quadrants() {
    let mut node: Node<u8> = Node::new_bounded(&rect(0.0, 0.0, 10.0, 10.0));
    node.insert(Spatial::new(1, pt(1.0, 1.0)));
    node.insert(Spatial::new(2, pt(9.0, 1.0)));
    node.insert(Spatial::new(3, pt(9.0, 9.0)));
    node.insert(Spatial::new(4, pt(1.0, 9.0)));
    let found = node.find_in_bounds(&rect(0.5, 0.5, 1.0, 1.0)).unwrap();
    assert_eq!(1, found.len());
    assert_eq!(&1, found[0].data());
    let found = node.find_in_bounds(&rect(0.5, 0.5, 9.0, 1.0)).unwrap();
    let data: Vec<u8> = found.iter().map(|s| *s.data()).collect();
    assert_eq!(vec![1, 2], data);
}

#[test]
fn node_find_and_remove_follow_the_quadrants() {
    let mut node: Node<u8> = Node::new_bounded(&rect(0.0, 0.0, 10.0, 20.0));
    node.insert(Spatial::new(7, pt(0.1, 0.2)));
    node.insert(Spatial::new(8, pt(0.1, 0.3)));
    assert_eq!(Some(&7), node.find(&pt(0.1, 0.2)));
    assert_eq!(Some(&8), node.find(&pt(0.1, 0.3)));
    assert_eq!(None, node.find(&pt(0.1, 0.25)));
    assert_eq!(None, node.find(&pt(-1.0, 0.0)));
    assert_eq!(None, node.remove(&pt(30.0, 0.0)));
    assert_eq!(None, node.remove(&pt(0.1, 0.25)));
    assert_eq!(Some(7), node.remove(&pt(0.1, 0.2)));
    assert_eq!(None, node.find(&pt(0.1, 0.2)));
    assert_eq!(Some(&8), node.find(&pt(0.1, 0.3)));
}

#[test]
fn node_split_moves_a_leaf_one_level_down() {
    let mut node: Node<u8> = Node::new_bounded(&rect(0.0, 0.0, 10.0, 20.0));
    node.insert(Spatial::new(7, pt(1.0, 1.0)));
    assert_eq!(1, node.data_count());
    assert_eq!(0, node.nodes().len());
    node.insert(Spatial::new(8, pt(4.0, 9.0)));
    assert_eq!(0, node.data_count());
    assert_eq!(1, node.nodes().len());
    assert_eq!(1, node.node_children().len());
    assert_eq!(&rect(0.0, 0.0, 5.0, 10.0), node.nodes()[0].bounds());
    assert_eq!(2, node.nodes()[0].data_count());
    assert_eq!(Some(&7), node.find(&pt(1.0, 1.0)));
    assert_eq!(Some(&8), node.find(&pt(4.0, 9.0)));
}

#[test]
fn node_collapse_hands_out_every_leaf() {
    let mut node: Node<u8> = Node::new_bounded(&rect(0.0, 0.0, 10.0, 20.0));
    node.insert(Spatial::new(1, pt(9.0, 1.0)));
    node.insert(Spatial::new(2, pt(0.1, 0.2)));
    node.insert(Spatial::new(3, pt(0.1, 0.3)));
    node.insert(Spatial::new(4, pt(1.0, 19.0)));
    let all: Vec<u8> = node.data_children().iter().map(|s| *s.data()).collect();
    assert_eq!(vec![1, 4, 2, 3], all);
    let leaves = node.collapse();
    let data: Vec<u8> = leaves.into_iter().map(|s| s.consume()).collect();
    assert_eq!(vec![2, 3, 1, 4], data);
    assert!(node.is_empty());
    assert_eq!(0, node.data_children().len());
}

#[test]
fn node_shrink_children_drops_one_level_at_a_time() {
    let mut node: Node<u8> = Node::new_bounded(&rect(0.0, 0.0, 10.0, 20.0));
    node.insert(Spatial::new(0, pt(0.0, 0.0)));
    node.insert(Spatial::new(0, pt(0.0, 0.1)));
    assert_eq!(7, node.node_children().len());
    node.remove(&pt(0.0, 0.0));
    node.remove(&pt(0.0, 0.1));
    let mut left = 7;
    while left > 0 {
        node.shrink_children();
        left -= 1;
        assert_eq!(left, node.node_children().len());
    }
    node.shrink_children();
    assert_eq!(0, node.node_children().len());
}

#[test]
fn node_shrink_children_twice_counts_the_same_once_nothing_dangles() {
    let mut node: Node<u8> = Node::new_bounded(&rect(0.0, 0.0, 10.0, 20.0));
    node.insert(Spatial::new(1, pt(0.1, 0.2)));
    node.insert(Spatial::new(2, pt(0.1, 0.3)));
    node.insert(Spatial::new(3, pt(6.0, 12.0)));
    node.insert(Spatial::new(4, pt(6.0, 12.5)));
    node.remove(&pt(6.0, 12.0));
    node.remove(&pt(6.0, 12.5));
    while node.aabbs().len() != {
        node.shrink_children();
        node.aabbs().len()
    } {}
    let once = node.aabbs().len();
    node.shrink_children();
    assert_eq!(once, node.aabbs().len());
    assert_eq!(Some(&1), node.find(&pt(0.1, 0.2)));
    assert_eq!(Some(&2), node.find(&pt(0.1, 0.3)));
}

#[test]
fn node_distance_for_the_search_window() {
    let mut node: Node<u8> = Node::new_bounded(&rect(0.0, 0.0, 5.0, 10.0));
    assert_eq!(None, node.minimum_coordinate_distance(&pt(6.0, 1.0)));
    assert_eq!(Some(8100), node.minimum_coordinate_distance(&pt(3.0, 8.0)));
    node.insert(Spatial::new(3, pt(4.0, 6.0)));
    assert_eq!(Some(2100), node.minimum_coordinate_distance(&pt(3.0, 8.0)));
}

#[test]
fn node_query_misses_what_lies_in_a_crossing_window() {
    let mut node: Node<u8> = Node::new_bounded(&Rectangle::new(Point::new(4, 0), 2, 10));
    node.insert(Spatial::new(1, Point::new(5, 5)));
    let crossing = Rectangle::new(Point::new(0, 4), 10, 2);
    assert!(node.find_in_bounds(&crossing).is_none());
    let holding = Rectangle::new(Point::new(0, 4), 5, 2);
    assert_eq!(1, node.find_in_bounds(&holding).unwrap().len());
}

#[test]
fn node_lists_its_slots_in_fixed_order() {
    let mut node: Node<u8> = Node::new_bounded(&rect(0.0, 0.0, 10.0, 20.0));
    node.insert(Spatial::new(1, pt(9.0, 1.0)));
    node.insert(Spatial::new(2, pt(1.0, 19.0)));
    node.insert(Spatial::new(3, pt(1.5, 19.0)));
    let slots = node.quadrants();
    assert!(slots[0].is_none());
    assert!(matches!(slots[1], Some(TreeNode::Point(_))));
    assert!(slots[2].is_none());
    assert!(matches!(slots[3], Some(TreeNode::Node(_))));
    assert_eq!(1, node.data().len());
    assert_eq!(1, node.nodes().len());
}
