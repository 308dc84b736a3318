use quadtree::{Point, Quadrant, Rectangle, RectangleRelation, TICKS_PER_UNIT};

fn ticks(units: f64) -> i32 {
    (units * TICKS_PER_UNIT as f64).round() as i32
}

fn pt(x: f64, y: f64) -> Point {
    Point::new(ticks(x), ticks(y))
}

fn rect(x: f64, y: f64, width: f64, height: f64) -> Rectangle {
    Rectangle::new(pt(x, y), ticks(width) as u32, ticks(height) as u32)
}

#[test]
fn rectangle_should_find_quadrants() {
    let anchor = pt(0.0, 0.0);
    let rect = Rectangle::new(anchor, ticks(2.0) as u32, ticks(3.0) as u32);
    let center = pt(1.0, 1.5);

    assert_eq!(Quadrant::BottomLeft, rect.find_quadrant(&center).unwrap());
    assert_eq!(Quadrant::BottomLeft, rect.find_quadrant(&anchor).unwrap());
    assert!(rect.find_quadrant(&pt(-1.0, 0.0)).is_none());

    assert_eq!(Quadrant::BottomRight, rect.find_quadrant(&pt(1.23, 1.5)).unwrap());
    assert_eq!(Quadrant::TopLeft, rect.find_quadrant(&pt(1.0, 1.89)).unwrap());
}

#[test]
fn rectangle_should_create_valid_quadrants() {
    let whole = rect(0.0, 0.0, 1.0, 3.5);
    let bl_rect = rect(0.0, 0.0, 0.5, 1.75);
    let br_rect = rect(0.5, 0.0, 0.5, 1.75);
    let tr_rect = rect(0.5, 1.75, 0.5, 1.75);
    let tl_rect = rect(0.0, 1.75, 0.5, 1.75);

    assert_eq!(bl_rect, whole.create_quadrant(&Quadrant::BottomLeft));
    assert_eq!(br_rect, whole.create_quadrant(&Quadrant::BottomRight));
    assert_eq!(tr_rect, whole.create_quadrant(&Quadrant::TopRight));
    assert_eq!(tl_rect, whole.create_quadrant(&Quadrant::TopLeft));
}

#[test]
fn rectangle_should_find_correct_relations() {
    let base = rect(0.0, 0.0, 5.0, 5.0);

    let other = rect(1.0, 1.0, 3.0, 3.0);
    assert_eq!(RectangleRelation::Containment(true), base.relation(&other));

    let other = rect(-1.0, -1.0, 6.5, 8.5);
    assert_eq!(RectangleRelation::Containment(false), base.relation(&other));

    let other = rect(-5.0, -10.0, 6.5, 8.5);
    assert_eq!(RectangleRelation::Disjoint, base.relation(&other));

    let other = rect(-1.0, -1.0, 3.0, 3.0);
    assert_eq!(RectangleRelation::Intersection, base.relation(&other));

    let other = rect(-1.0, -1.0, 8.0, 3.0);
    assert_eq!(RectangleRelation::Intersection, base.relation(&other));
}

#[test]
fn rectangle_reads_back_its_edges() {
    let r = rect(0.0, 0.0, 10.0, 20.0);
    assert_eq!(0, r.min_x());
    assert_eq!(0, r.min_y());
    assert_eq!(ticks(10.0), r.max_x());
    assert_eq!(ticks(20.0), r.max_y());
    assert_eq!(ticks(10.0) as u32, r.width());
    assert_eq!(ticks(20.0) as u32, r.height());
    assert_eq!(pt(5.0, 10.0), r.center());
}

#[test]
fn rectangle_centered_puts_the_anchor_half_the_extents_away() {
    let r = Rectangle::new_centered(pt(0.0, 0.0), ticks(10.0) as u32, ticks(20.0) as u32);
    assert_eq!(ticks(-5.0), r.min_x());
    assert_eq!(ticks(-10.0), r.min_y());
    assert_eq!(ticks(5.0), r.max_x());
    assert_eq!(ticks(10.0), r.max_y());
}

#[test]
fn rectangle_corners_come_in_fixed_order() {
    let r = Rectangle::new(Point::new(-3, 4), 10, 6);
    let c = r.corners();
    assert_eq!(Point::new(-3, 4), c[0]);
    assert_eq!(Point::new(7, 4), c[1]);
    assert_eq!(Point::new(7, 10), c[2]);
    assert_eq!(Point::new(-3, 10), c[3]);
}

#[test]
fn rectangle_midline_and_edges_count_to_the_lower_left() {
    let r = Rectangle::new(Point::new(0, 0), 10, 10);
    assert_eq!(Some(Quadrant::BottomLeft), r.find_quadrant(&Point::new(5, 5)));
    assert_eq!(Some(Quadrant::BottomRight), r.find_quadrant(&Point::new(6, 5)));
    assert_eq!(Some(Quadrant::TopLeft), r.find_quadrant(&Point::new(5, 6)));
    assert_eq!(Some(Quadrant::TopRight), r.find_quadrant(&Point::new(6, 6)));
    assert_eq!(Some(Quadrant::TopRight), r.find_quadrant(&Point::new(10, 10)));
    assert_eq!(Some(Quadrant::BottomLeft), r.find_quadrant(&Point::new(0, 0)));
    assert_eq!(None, r.find_quadrant(&Point::new(11, 5)));
    assert_eq!(None, r.find_quadrant(&Point::new(5, -1)));
}

#[test]
fn rectangle_odd_extents_split_without_gap() {
    let r = Rectangle::new(Point::new(0, 0), 5, 7);
    let bl = r.create_quadrant(&Quadrant::BottomLeft);
    let br = r.create_quadrant(&Quadrant::BottomRight);
    let tr = r.create_quadrant(&Quadrant::TopRight);
    let tl = r.create_quadrant(&Quadrant::TopLeft);
    assert_eq!(Rectangle::new(Point::new(0, 0), 2, 3), bl);
    assert_eq!(Rectangle::new(Point::new(2, 0), 3, 3), br);
    assert_eq!(Rectangle::new(Point::new(2, 3), 3, 4), tr);
    assert_eq!(Rectangle::new(Point::new(0, 3), 2, 4), tl);
    let area = |q: &Rectangle| q.width() as u64 * q.height() as u64;
    assert_eq!(area(&r), area(&bl) + area(&br) + area(&tr) + area(&tl));
    for x in 0..=5 {
        for y in 0..=7 {
            let p = Point::new(x, y);
            let q = r.find_quadrant(&p).unwrap();
            assert!(r.create_quadrant(&q).find_quadrant(&p).is_some());
        }
    }
}

#[test]
fn rectangle_crossing_without_corners_counts_as_disjoint() {
    let tall = Rectangle::new(Point::new(4, 0), 2, 10);
    let wide = Rectangle::new(Point::new(0, 4), 10, 2);
    assert_eq!(RectangleRelation::Disjoint, tall.relation(&wide));
    assert_eq!(RectangleRelation::Disjoint, wide.relation(&tall));
}

#[test]
fn point_distances() {
    let a = Point::new(-3, 4);
    let b = Point::new(1, 1);
    assert_eq!(25, a.squared_distance(&b));
    assert_eq!(4, a.coordinate_distance(&b));
    assert_eq!(0, a.squared_distance(&a));
    let far = Point::new(i32::MAX, i32::MAX);
    let near = Point::new(i32::MIN, i32::MIN);
    assert_eq!(u32::MAX, far.coordinate_distance(&near));
    assert_eq!(2 * (u32::MAX as u128) * (u32::MAX as u128), far.squared_distance(&near));
    assert_eq!(-3, a.x());
    assert_eq!(4, a.y());
}

#[test]
fn rectangle_farthest_corner_prefers_the_later_of_equals() {
    let r = Rectangle::new(Point::new(0, 0), 10, 10);
    assert_eq!(Point::new(0, 0), r.find_farthest_corner(&Point::new(8, 9)));
    assert_eq!(Point::new(10, 10), r.find_farthest_corner(&Point::new(1, 2)));
    assert_eq!(Point::new(0, 10), r.find_farthest_corner(&Point::new(5, 5)));
}
