use level_geometry::{Point, Seg, Side};

fn pt(x: i64, y: i64, z: i64) -> Point {
    Point::new(x, y, z).unwrap()
}

fn seg(a: (i64, i64, i64), b: (i64, i64, i64), height: i64) -> Seg {
    Seg::new((pt(a.0, a.1, a.2), pt(b.0, b.1, b.2)), height).unwrap()
}

fn init() -> (Seg, Seg, Seg, Seg) {
    let height = 10;
    (
        seg((0, 0, 0), (1, 0, 1), height),
        seg((1, 0, 0), (2, 0, 1), height),
        seg((0, 0, 1), (2, 0, 0), height),
        seg((0, 0, -1), (1, 0, -2), height),
    )
}

fn expected_split() -> (Seg, Seg) {
    let height = 10;
    let should_intersect_at = Point::with_denominator(2, 0, 2, 3).unwrap();
    (
        Seg::new((pt(0, 0, 0), should_intersect_at), height).unwrap(),
        Seg::new((should_intersect_at, pt(1, 0, 1)), height).unwrap(),
    )
}

#[test]
fn geometry_parallel() {
    let (seg0, seg1, _, _) = init();
    assert!(seg0.intersects(seg1) == false)
}

#[test]
fn geometry_not_parallel() {
    let (seg0, _, seg2, _) = init();
    assert!(seg0.intersects(seg2) == true)
}

#[test]
fn geometry_split_parallel() {
    let (seg0, seg1, _, _) = init();
    assert!(seg0.split_by(seg1).is_none() == true)
}

#[test]
fn geometry_split() {
    let (seg0, _, seg2, _) = init();
    let (newseg0, newseg1) = seg0.split_by(seg2).unwrap();
    assert!((newseg0, newseg1) == expected_split())
}

#[test]
fn geometry_no_actual_intersect() {
    let (seg0, _, _, seg3) = init();
    let split = seg0.split_by(seg3);
    assert!(split.is_none() == true)
}

#[test]
fn lib_parallel() {
    let (seg0, seg1, _, _) = init();
    assert!(seg0.intersects(seg1) == false)
}

#[test]
fn lib_not_parallel() {
    let (seg0, _, seg2, _) = init();
    assert!(seg0.intersects(seg2) == true)
}

#[test]
fn lib_split_parallel() {
    let (seg0, seg1, _, _) = init();
    assert!(seg0.split_by(seg1).is_none() == true)
}

#[test]
fn lib_split() {
    let (seg0, _, seg2, _) = init();
    let (newseg0, newseg1) = seg0.split_by(seg2).unwrap();
    assert!((newseg0, newseg1) == expected_split())
}

#[test]
fn lib_no_actual_intersect() {
    let (seg0, _, _, seg3) = init();
    let split = seg0.split_by(seg3);
    assert!(split.is_none() == true)
}

#[test]
fn flip() {
    let (mut seg0, _, _, _) = init();
    seg0.flip();
    assert!(seg0 == seg((1, 0, 1), (0, 0, 0), 10))
}

#[test]
fn normal_swap() {
    let (seg0, _, _, _) = init();

    let mut flip_seg0 = seg0.clone();
    flip_seg0.flip();

    assert!(seg0.normal() != flip_seg0.normal())
}

#[test]
fn front() {
    let (seg0, seg1, _, _) = init();
    assert!(seg0.determine_side(seg1) == Side::Front)
}

#[test]
fn back() {
    let (mut seg0, seg1, _, _) = init();
    seg0.flip();
    assert!(seg0.determine_side(seg1) == Side::Back)
}

#[test]
fn neither() {
    let (seg0, _, seg2, _) = init();
    assert!(seg0.determine_side(seg2) == Side::Neither)
}

#[test]
fn split_pieces_chain_to_the_original() {
    let target = seg((0, 0, 0), (2, 0, 2), 7);
    let divider = seg((0, 0, 2), (2, 0, 0), 3);
    let (a, b) = target.split_by(divider).unwrap();
    assert_eq!(a.points().0, target.points().0);
    assert_eq!(a.points().1, b.points().0);
    assert_eq!(b.points().1, target.points().1);
    assert_eq!(a.points().1, pt(1, 0, 1));
    assert_eq!(a.height(), 7);
    assert_eq!(b.height(), 7);
    assert_eq!(divider.determine_side(a), Side::Front);
    assert_eq!(divider.determine_side(b), Side::Back);
}

#[test]
fn split_point_keeps_the_first_elevation() {
    let target = seg((0, 4, 0), (2, 6, 2), 1);
    let divider = seg((0, 0, 2), (2, 0, 0), 1);
    let (a, _) = target.split_by(divider).unwrap();
    assert_eq!(a.points().1.coordinates(), (1, 4, 1, 1));
}

#[test]
fn split_point_in_lowest_terms() {
    let target = seg((0, 0, 0), (3, 0, 6), 1);
    let divider = seg((0, 0, 4), (4, 0, 0), 1);
    let (a, _) = target.split_by(divider).unwrap();
    assert_eq!(a.points().1.coordinates(), (4, 0, 8, 3));
}

#[test]
fn parallel_pairs_never_split() {
    let up = seg((0, 0, 0), (0, 0, 5), 1);
    let down = seg((3, 0, 5), (3, 0, 0), 1);
    assert!(!up.intersects(down));
    assert!(up.split_by(down).is_none());
    assert!(down.split_by(up).is_none());
    let flat = seg((0, 0, 0), (4, 0, 0), 1);
    let flat2 = seg((9, 0, 3), (1, 0, 3), 1);
    assert!(flat.split_by(flat2).is_none());
    let (seg0, seg1, _, _) = init();
    assert!(seg1.split_by(seg0).is_none());
}

#[test]
fn split_needs_ascending_endpoints() {
    let target = seg((2, 0, 2), (0, 0, 0), 1);
    let divider = seg((0, 0, 2), (2, 0, 0), 1);
    assert!(target.intersects(divider));
    assert!(target.split_by(divider).is_none());
}

#[test]
fn flip_swaps_front_and_back() {
    let (seg0, seg1, seg2, _) = init();
    let mut flipped = seg0;
    flipped.flip();
    assert_eq!(seg0.determine_side(seg1), Side::Front);
    assert_eq!(flipped.determine_side(seg1), Side::Back);
    assert_eq!(seg0.determine_side(seg2), Side::Neither);
    assert_eq!(flipped.determine_side(seg2), Side::Neither);
    let on_line = seg((2, 0, 2), (3, 0, 3), 1);
    assert_eq!(seg0.determine_side(on_line), Side::Front);
    assert_eq!(flipped.determine_side(on_line), Side::Front);
    let touching = seg((1, 0, 1), (1, 0, 5), 1);
    assert_eq!(seg0.determine_side(touching), Side::Back);
    assert_eq!(flipped.determine_side(touching), Side::Front);
}

#[test]
fn a_segment_is_in_front_of_itself() {
    let (seg0, _, _, _) = init();
    assert_eq!(seg0.determine_side(seg0), Side::Front);
}

#[test]
fn gradient_and_normal() {
    let (seg0, _, seg2, _) = init();
    assert_eq!(seg0.xz_gradient(), (1, 1));
    assert_eq!(seg2.xz_gradient(), (-1, 2));
    assert_eq!(seg0.normal(), (1, -1));
    let vertical = seg((4, 0, 0), (4, 0, 3), 1);
    assert_eq!(vertical.xz_gradient(), (3, 0));
}

#[test]
fn corners_rise_by_height() {
    let wall = seg((0, 2, 0), (1, 2, 1), 10);
    let (a, b, c, d) = wall.get_corners();
    assert_eq!(a, pt(0, 2, 0));
    assert_eq!(b, pt(1, 2, 1));
    assert_eq!(c, pt(0, 12, 0));
    assert_eq!(d, pt(1, 12, 1));
}

#[test]
fn degenerate_and_out_of_range_values_are_refused() {
    assert!(Seg::new((pt(1, 0, 1), pt(1, 5, 1)), 10).is_none());
    let half = Point::with_denominator(1, 0, 1, 2).unwrap();
    let same = Point::with_denominator(2, 0, 2, 4).unwrap();
    assert!(Seg::new((half, same), 1).is_none());
    assert!(Point::new(1 << 30, 0, 0).is_none());
    assert!(Point::new((1 << 30) - 1, 0, 0).is_some());
    assert!(Point::with_denominator(1, 0, 1, 0).is_none());
    assert!(Seg::new((pt(0, 0, 0), pt(1, 0, 0)), 1 << 29).is_none());
    assert!(Seg::new((pt(0, 1 << 29, 0), pt(1, 0, 0)), 1).is_none());
}
