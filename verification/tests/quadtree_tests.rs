use quadtree::{Point, QuadTree, Rectangle, TICKS_PER_UNIT};

fn ticks(units: f64) -> i32 {
    (units * TICKS_PER_UNIT as f64).round() as i32
}

fn pt(x: f64, y: f64) -> Point {
    Point::new(ticks(x), ticks(y))
}

fn rect(x: f64, y: f64, width: f64, height: f64) -> Rectangle {
    Rectangle::new(pt(x, y), ticks(width) as u32, ticks(height) as u32)
}

#[test]
fn quadtree_can_insert() {
    let bounds: Rectangle = rect(0.0, 0.0, 10.0, 20.0);
    let mut quadtree: QuadTree<u8> = QuadTree::new_bounded(&bounds);

    quadtree.insert_unchecked(4, pt(0.0, 0.5));

    assert!(quadtree.contains(pt(0.0, 0.5)));
    assert_eq!(Some(&4u8), quadtree.find_exact(pt(0.0, 0.5)));

    quadtree.insert(2, pt(1.0, 1.0));
    quadtree.insert(2, pt(2.0, 1.0));
    quadtree.insert(2, pt(0.5, 1.0));

    assert_eq!(5, quadtree.node_count());
    assert_eq!(4, quadtree.len());
}

#[test]
fn quadtree_insert_rejects_duplicates_and_outsiders() {
    let mut quadtree = QuadTree::new_bounded(&rect(0.0, 0.0, 5.0, 10.0));
    assert!(quadtree.insert(12u8, pt(0.0, 0.5)));
    assert!(!quadtree.insert(6u8, pt(0.0, 0.5)));
    assert!(!quadtree.insert(2u8, pt(-2.0, 5.0)));
    assert_eq!(1, quadtree.len());
    assert_eq!(Some(&12), quadtree.find_exact(pt(0.0, 0.5)));
}

#[test]
fn quadtree_remove_gives_the_payload_back_once() {
    let mut quadtree = QuadTree::new_bounded(&rect(0.0, 0.0, 5.0, 10.0));
    assert!(quadtree.insert(12u8, pt(0.0, 0.5)));
    assert_eq!(Some(&12), quadtree.find_exact(pt(0.0, 0.5)));
    assert_eq!(Some(12), quadtree.remove(pt(0.0, 0.5)));
    assert_eq!(None, quadtree.find_exact(pt(0.0, 0.5)));
    assert_eq!(None, quadtree.remove(pt(0.0, 0.5)));
}

#[test]
fn quadtree_replace_swaps_payloads() {
    let mut quadtree = QuadTree::new_bounded(&rect(0.0, 0.0, 5.0, 10.0));
    assert!(quadtree.insert(12u8, pt(0.0, 0.5)));
    assert_eq!(Some(12u8), quadtree.replace(6, pt(0.0, 0.5)));
    assert_eq!(Some(6), quadtree.replace(4, pt(0.0, 0.5)));
    assert_eq!(Some(4), quadtree.replace(12, pt(0.0, 0.5)));
    assert_eq!(None, quadtree.replace(1, pt(1.0, 0.5)));
    assert!(!quadtree.contains(pt(1.0, 0.5)));
    assert_eq!(1, quadtree.len());
}

#[test]
fn quadtree_find_exact_needs_the_exact_position() {
    let mut quadtree = QuadTree::new_bounded(&rect(0.0, 0.0, 5.0, 10.0));
    quadtree.insert(3u8, pt(2.0, 7.0));
    assert!(quadtree.contains(pt(2.0, 7.0)));
    assert_eq!(Some(&3u8), quadtree.find_exact(pt(2.0, 7.0)));
    assert_eq!(None, quadtree.find_exact(pt(-5.0, 12.0)));
    assert_eq!(None, quadtree.find_exact(pt(2.001, 6.999)));
}

#[test]
fn quadtree_split_empties_the_top_level() {
    let mut quadtree: QuadTree<u8> = QuadTree::new_bounded(&rect(0.0, 0.0, 10.0, 20.0));
    assert!(quadtree.insert(0, pt(0.1, 0.2)));
    assert_eq!(1, quadtree.root.data_count());
    assert!(quadtree.insert(12, pt(0.1, 0.3)));
    assert_eq!(0, quadtree.root.data_count());
    assert_eq!(2, quadtree.len());
}

#[test]
fn quadtree_finds_the_nearest_neighbor() {
    let mut quadtree = QuadTree::new_bounded(&rect(0.0, 0.0, 5.0, 10.0));
    assert_eq!(None, quadtree.find_nearest_neighbor(pt(3.0, 8.0)));
    quadtree.insert(3u8, pt(2.0, 7.0));
    quadtree.insert(2, pt(2.5, 7.5));

    assert_eq!(Some(&2u8), quadtree.find_nearest_neighbor(pt(3.0, 8.0)));
    assert_eq!(Some(pt(2.5, 7.5)), quadtree.find_nearest_neighbor_position(pt(3.0, 8.0)));
    assert_eq!(None, quadtree.find_nearest_neighbor(pt(30.0, 8.0)));
    assert_eq!(None, quadtree.find_nearest_neighbor_position(pt(30.0, 8.0)));
}

#[test]
fn quadtree_lists_neighbors_nearest_first() {
    let mut quadtree = QuadTree::new_bounded(&rect(0.0, 0.0, 5.0, 10.0));
    quadtree.insert(3u8, pt(2.0, 7.0));
    quadtree.insert(2, pt(2.5, 7.5));
    quadtree.insert(1, pt(1.0, 5.5));
    let found = quadtree.find_nearest_neighbors(&pt(3.0, 8.0), 5).unwrap();
    let data: Vec<u8> = found.iter().map(|s| *s.data()).collect();
    assert_eq!(vec![2, 3, 1], data);
    let found = quadtree.find_nearest_neighbors(&pt(3.0, 8.0), 2).unwrap();
    let data: Vec<u8> = found.iter().map(|s| *s.data()).collect();
    assert_eq!(vec![2, 3], data);
    let found = quadtree.find_nearest_neighbors(&pt(3.0, 8.0), 0).unwrap();
    assert!(found.is_empty());
}

#[test]
fn quadtree_finds_payloads_in_bounds() {
    let mut quadtree = QuadTree::new_bounded(&rect(0.0, 0.0, 5.0, 10.0));
    quadtree.insert(3u8, pt(2.0, 7.0));
    quadtree.insert(2, pt(2.5, 7.5));
    quadtree.insert(1, pt(1.0, 5.5));

    let bounds = rect(2.0, 6.0, 4.0, 5.0);
    assert_eq!(Some(vec![&2u8, &3]), quadtree.find_in_bounds(&bounds));
    assert_eq!(
        Some(vec![pt(2.5, 7.5), pt(2.0, 7.0)]),
        quadtree.find_in_bounds_positions(&bounds)
    );
    assert_eq!(None, quadtree.find_in_bounds(&rect(6.0, 11.0, 1.0, 1.0)));
    assert_eq!(None, quadtree.find_in_bounds_positions(&rect(6.0, 11.0, 1.0, 1.0)));
}

#[test]
fn quadtree_counts_nodes() {
    let mut quadtree = QuadTree::new_bounded(&rect(0.0, 0.0, 5.0, 10.0));
    assert_eq!(1, quadtree.node_count());
    quadtree.insert(3u8, pt(2.0, 7.0));
    quadtree.insert(2, pt(2.5, 7.5));
    assert_eq!(4, quadtree.node_count());
}

#[test]
fn quadtree_lists_the_bounds_of_its_nodes() {
    let mut quadtree = QuadTree::new_bounded(&rect(0.0, 0.0, 5.0, 10.0));
    quadtree.insert(3u8, pt(2.0, 7.0));
    quadtree.insert(2, pt(2.5, 7.5));

    let bounds = [
        rect(0.0, 0.0, 5.0, 10.0),
        rect(0.0, 5.0, 2.5, 5.0),
        rect(1.25, 5.0, 1.25, 2.5),
        rect(1.875, 6.25, 0.625, 1.25),
    ];
    assert_eq!(bounds.iter().collect::<Vec<&Rectangle>>(), quadtree.aabbs());
}

#[test]
fn quadtree_counts_payloads() {
    let mut quadtree = QuadTree::new_bounded(&rect(0.0, 0.0, 5.0, 10.0));
    assert_eq!(0, quadtree.len());
    quadtree.insert(3u8, pt(2.0, 7.0));
    assert_eq!(1, quadtree.len());
    quadtree.insert(2, pt(2.5, 7.5));
    assert_eq!(2, quadtree.len());
    quadtree.remove(pt(2.5, 7.5));
    assert_eq!(1, quadtree.len());
}

#[test]
fn quadtree_lists_positions_and_payloads() {
    let mut quadtree = QuadTree::new_bounded(&rect(0.0, 0.0, 5.0, 10.0));
    quadtree.insert(3u8, pt(2.0, 7.0));
    quadtree.insert(2, pt(2.5, 7.5));

    assert_eq!(vec![&pt(2.5, 7.5), &pt(2.0, 7.0)], quadtree.iter_positions());
    assert_eq!(vec![&2u8, &3], quadtree.iter_data());
}

#[test]
fn quadtree_shrink_keeps_payloads_and_drops_empty_nodes() {
    let mut quadtree = QuadTree::new_bounded(&rect(0.0, 0.0, 10.0, 20.0));
    quadtree.insert(1u8, pt(0.0, 0.0));
    quadtree.insert(2, pt(0.0, 0.1));
    quadtree.insert(3, pt(0.0, 0.2));
    quadtree.insert(4, pt(9.0, 19.0));
    assert_eq!(8, quadtree.node_count());
    assert_eq!(Some(2), quadtree.remove(pt(0.0, 0.1)));
    assert_eq!(Some(3), quadtree.remove(pt(0.0, 0.2)));
    assert_eq!(8, quadtree.node_count());
    assert_eq!(2, quadtree.len());

    quadtree.shrink();

    assert_eq!(1, quadtree.node_count());
    assert_eq!(2, quadtree.len());
    assert_eq!(Some(&1), quadtree.find_exact(pt(0.0, 0.0)));
    assert_eq!(Some(&4), quadtree.find_exact(pt(9.0, 19.0)));
    assert_eq!(None, quadtree.find_exact(pt(0.0, 0.1)));
    assert_eq!(None, quadtree.find_exact(pt(0.0, 0.2)));
}

#[test]
fn quadtree_shrink_round_trip_on_a_grid() {
    let mut quadtree = QuadTree::new_bounded(&rect(0.0, 0.0, 8.0, 8.0));
    let mut stored: Vec<(usize, Point)> = Vec::new();
    for i in 0..8 {
        for j in 0..8 {
            let p = pt(i as f64 + 0.25, j as f64 + 0.75);
            assert!(quadtree.insert(stored.len(), p));
            stored.push((stored.len(), p));
        }
    }
    for (index, p) in stored.iter() {
        if index % 3 == 0 {
            assert_eq!(Some(*index), quadtree.remove(*p));
        }
    }
    let len = quadtree.len();
    let nodes = quadtree.node_count();
    quadtree.shrink();
    assert_eq!(len, quadtree.len());
    assert!(quadtree.node_count() <= nodes);
    for (index, p) in stored.iter() {
        if index % 3 == 0 {
            assert_eq!(None, quadtree.find_exact(*p));
        } else {
            assert_eq!(Some(index), quadtree.find_exact(*p));
        }
    }
}

#[test]
fn quadtree_insert_find_remove_everywhere_in_the_bounds() {
    let bounds = Rectangle::new(Point::new(-3, -2), 7, 5);
    let mut quadtree: QuadTree<i32> = QuadTree::new_bounded(&bounds);
    for x in -3..=4 {
        for y in -2..=3 {
            let p = Point::new(x, y);
            assert!(quadtree.insert(x * 100 + y, p));
            assert_eq!(Some(&(x * 100 + y)), quadtree.find_exact(p));
        }
    }
    assert_eq!(48, quadtree.len());
    for x in -3..=4 {
        for y in -2..=3 {
            let p = Point::new(x, y);
            assert_eq!(Some(x * 100 + y), quadtree.remove(p));
            assert_eq!(None, quadtree.find_exact(p));
            assert!(!quadtree.contains(p));
        }
    }
    assert_eq!(0, quadtree.len());
}

#[test]
fn quadtree_neighbors_equally_far_keep_their_order() {
    let mut quadtree = QuadTree::new_bounded(&Rectangle::new(Point::new(0, 0), 100, 100));
    quadtree.insert('a', Point::new(60, 50));
    quadtree.insert('b', Point::new(40, 50));
    quadtree.insert('c', Point::new(50, 70));
    let found = quadtree.find_nearest_neighbors(&Point::new(50, 50), 3).unwrap();
    let data: Vec<char> = found.iter().map(|s| *s.data()).collect();
    assert_eq!(vec!['b', 'a', 'c'], data);
}

#[test]
fn point_and_leaf_from_pairs() {
    let p: Point = (3, -4).into();
    assert_eq!(Point::new(3, -4), p);
    let leaf: quadtree::Spatial<u8> = (9, p).into();
    assert_eq!(&9, leaf.data());
    assert_eq!(&p, leaf.position());
    assert_eq!(9, leaf.consume());
}
