use level_geometry::{front_back, non_recursive_partition, Direction, PartitionError, Point, Seg};

fn pt(x: i64, y: i64, z: i64) -> Point {
    Point::new(x, y, z).unwrap()
}

fn seg(a: (i64, i64, i64), b: (i64, i64, i64), height: i64) -> Seg {
    Seg::new((pt(a.0, a.1, a.2), pt(b.0, b.1, b.2)), height).unwrap()
}

fn init() -> (Seg, Seg, Seg, Seg) {
    let height = 10;
    (
        seg((0, 0, 0), (1, 0, 1), height),
        seg((1, 0, 0), (2, 0, 1), height),
        seg((0, 0, 1), (2, 0, 0), height),
        seg((0, 0, -1), (1, 0, -2), height),
    )
}

fn child(node: &level_geometry::Node<Vec<Seg>>, direction: Direction) -> Vec<Seg> {
    node.get_child_reference(direction).unwrap().value().clone()
}

#[test]
fn partitioning_no_panic_sanity_check() {
    let (seg0, seg1, seg2, seg3) = init();
    let segvec = vec![seg0, seg1, seg2, seg3];
    let node = front_back(segvec.clone());
    assert_eq!(*node.value(), segvec);
    assert_eq!(child(&node, Direction::Left), vec![seg2]);
    assert_eq!(child(&node, Direction::Right), vec![seg0, seg1, seg3]);
}

#[test]
fn non_recursive_panic_test() {
    let (a, b, c, d) = init();
    let segs = vec![a, b, c, d];
    match non_recursive_partition(segs, 8) {
        Err(PartitionError::NotConverged { groups }) => {
            assert_eq!(groups.len(), 9);
            assert_eq!(groups[0], vec![c]);
            assert_eq!(groups[8], vec![a, b, d]);
            assert!(groups[1..8].iter().all(|g| g.is_empty()));
        }
        Ok(_) => panic!("the front group never shrinks"),
    }
}

#[test]
fn a_cut_adds_exactly_one_segment() {
    let rep = seg((0, 0, 2), (2, 0, 0), 1);
    let target = seg((0, 0, 0), (2, 0, 2), 1);
    let (piece0, piece1) = target.split_by(rep).unwrap();
    let node = front_back(vec![rep, target]);
    let back = child(&node, Direction::Left);
    let front = child(&node, Direction::Right);
    assert_eq!(back.len() + front.len(), 3);
    assert_eq!(back, vec![piece1]);
    assert_eq!(front, vec![rep, piece0]);
}

#[test]
fn uncuttable_straddler_goes_to_the_back() {
    let (seg0, _, seg2, _) = init();
    let node = front_back(vec![seg0, seg2]);
    assert_eq!(child(&node, Direction::Left), vec![seg2]);
    assert_eq!(child(&node, Direction::Right), vec![seg0]);
}

#[test]
fn two_segments_split_without_duplication() {
    let (seg0, seg1, _, _) = init();
    let node = front_back(vec![seg0, seg1]);
    assert_eq!(child(&node, Direction::Left), vec![]);
    assert_eq!(child(&node, Direction::Right), vec![seg0, seg1]);
}

#[test]
fn partition_orders_back_before_front() {
    let a = seg((0, 0, 0), (1, 0, 0), 1);
    let b = seg((0, 0, 1), (1, 0, 1), 1);
    let out = non_recursive_partition(vec![a, b], 4).unwrap();
    assert_eq!(out, vec![b, a]);
    assert!(out.len() <= 2);
}

#[test]
fn partition_of_a_settled_input_is_unchanged() {
    let a = seg((0, 0, 0), (1, 0, 0), 1);
    assert_eq!(non_recursive_partition(vec![a], 0).unwrap(), vec![a]);
    assert_eq!(non_recursive_partition(vec![a], 5).unwrap(), vec![a]);
    assert_eq!(non_recursive_partition(vec![], 3).unwrap(), vec![]);
    let b = seg((0, 0, 1), (1, 0, 1), 1);
    let out = non_recursive_partition(vec![a, b], 4).unwrap();
    let again = non_recursive_partition(vec![out[0]], 4).unwrap();
    assert_eq!(again, vec![out[0]]);
}

#[test]
fn partition_reports_non_convergence_at_the_cap() {
    let a = seg((0, 0, 0), (1, 0, 0), 1);
    let b = seg((0, 0, 1), (1, 0, 1), 1);
    match non_recursive_partition(vec![a, b], 0) {
        Err(PartitionError::NotConverged { groups }) => assert_eq!(groups, vec![vec![a, b]]),
        Ok(_) => panic!("no round was allowed"),
    }
}

#[test]
fn rerunning_on_two_ordered_segments_splits_again() {
    let a = seg((0, 0, 0), (1, 0, 0), 1);
    let b = seg((0, 0, 1), (1, 0, 1), 1);
    let out = non_recursive_partition(vec![a, b], 4).unwrap();
    assert!(non_recursive_partition(out, 4).is_err());
}

#[test]
fn settled_partition_keeps_every_segment() {
    let a = seg((0, 0, 0), (1, 0, 0), 1);
    let b = seg((0, 0, 1), (1, 0, 1), 1);
    let c = seg((0, 0, 2), (1, 0, 2), 1);
    let out = non_recursive_partition(vec![a, b, c], 8).unwrap();
    assert_eq!(out, vec![c, b, a]);
}
