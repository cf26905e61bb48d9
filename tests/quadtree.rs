use boids::boids::UNIT;
use boids::geometry::{Vec2, AABB};
use boids::quadtree::{QuadTree, QuadTreeData, QuadTreeError};

/// A point given in world units.
fn at(x: i64, y: i64) -> Vec2 {
    Vec2::new(x * UNIT, y * UNIT)
}

fn leaf_len(tree: &QuadTree) -> usize {
    if let QuadTreeData::Leaf(data) = &tree.root {
        data.len()
    } else {
        unreachable!()
    }
}

/// Every point stored under `tree` lies in the boundary of the node that holds it.
fn check_containment(tree: &QuadTree) -> usize {
    match &tree.root {
        QuadTreeData::Leaf(data) => {
            for (p, _) in data {
                assert!(tree.boundary.contains(*p));
            }
            data.len()
        }
        QuadTreeData::Node(a, b, c, d) => {
            for child in [a, b, c, d] {
                for (p, _) in child.query_range(&child.boundary) {
                    assert!(tree.boundary.contains(p));
                }
            }
            check_containment(a) + check_containment(b) + check_containment(c) + check_containment(d)
        }
    }
}

fn sorted(mut v: Vec<(Vec2, usize)>) -> Vec<(i64, i64, usize)> {
    let mut out: Vec<(i64, i64, usize)> = v.drain(..).map(|(p, id)| (p.x, p.y, id)).collect();
    out.sort();
    out
}

#[test]
fn create_quadtree() {
    let tree = QuadTree::new(AABB::new(at(0, 0), Vec2::new(UNIT / 2, UNIT / 2)));
    assert!(matches!(&tree.root, QuadTreeData::Leaf(data) if data.is_empty()));
}

#[test]
fn add_element() {
    let mut tree = QuadTree::new(AABB::new(at(0, 0), at(50, 50)));
    tree.insert(at(42, 0), 0).unwrap();
    assert_eq!(leaf_len(&tree), 1);
}

#[test]
fn four_element() {
    let mut tree = QuadTree::new(AABB::new(at(0, 0), at(50, 50)));
    tree.insert(at(42, 0), 0).unwrap();
    tree.insert(at(43, 0), 1).unwrap();
    tree.insert(at(44, 0), 2).unwrap();
    tree.insert(at(45, 0), 3).unwrap();
    assert_eq!(leaf_len(&tree), 4);
}

#[test]
fn five_element() {
    let mut tree = QuadTree::new(AABB::new(at(0, 0), at(50, 50)));
    tree.insert(at(-20, 10), 0).unwrap();
    tree.insert(at(20, 10), 1).unwrap();
    tree.insert(at(-20, -10), 2).unwrap();
    tree.insert(at(20, -10), 3).unwrap();
    assert_eq!(leaf_len(&tree), 4);

    tree.insert(at(22, 10), 4).unwrap();
    if let QuadTreeData::Node(a, b, c, d) = &tree.root {
        assert_eq!(leaf_len(a), 2);
        assert_eq!(leaf_len(b), 1);
        assert_eq!(leaf_len(c), 1);
        assert_eq!(leaf_len(d), 1);
    } else {
        unreachable!()
    }
}

#[test]
fn remove_element() {
    let mut tree = QuadTree::new(AABB::new(at(0, 0), at(50, 50)));
    tree.insert(at(-20, 10), 0).unwrap();
    tree.insert(at(20, 10), 1).unwrap();
    tree.insert(at(-20, -10), 2).unwrap();
    tree.insert(at(20, -10), 3).unwrap();
    assert_eq!(leaf_len(&tree), 4);

    tree.insert(at(22, 10), 4).unwrap();

    tree.remove(at(20, 10));

    if let QuadTreeData::Node(a, b, c, d) = &tree.root {
        assert_eq!(leaf_len(a), 1);
        assert_eq!(leaf_len(b), 1);
        assert_eq!(leaf_len(c), 1);
        assert_eq!(leaf_len(d), 1);
    } else {
        unreachable!()
    }

    tree.remove(at(-20, -10));

    if let QuadTreeData::Node(a, b, c, d) = &tree.root {
        assert_eq!(leaf_len(a), 1);
        assert_eq!(leaf_len(b), 0);
        assert_eq!(leaf_len(c), 1);
        assert_eq!(leaf_len(d), 1);
    } else {
        unreachable!()
    }
}

#[test]
fn query_elements() {
    let mut tree = QuadTree::new(AABB::new(at(0, 0), at(50, 50)));
    tree.insert(at(-20, 10), 0).unwrap();
    tree.insert(at(20, 10), 1).unwrap();
    tree.insert(at(-20, -10), 2).unwrap();
    tree.insert(at(20, -10), 3).unwrap();
    tree.insert(at(22, 10), 4).unwrap();

    let res = tree.query_range(&AABB::new(at(-20, 10), at(1, 1)));
    assert_eq!(res.len(), 1);
    assert_eq!(res[0], (at(-20, 10), 0));

    let res = tree.query_range(&AABB::new(at(0, 0), at(100, 100)));
    assert_eq!(res.len(), 5);
}

#[test]
fn insert_outside_boundary_is_refused() {
    let mut tree = QuadTree::new(AABB::new(at(0, 0), at(50, 50)));
    tree.insert(at(1, 1), 0).unwrap();
    assert_eq!(tree.insert(at(51, 0), 1), Err(QuadTreeError::OutOfBoundary));
    assert_eq!(tree.insert(at(0, -51), 2), Err(QuadTreeError::OutOfBoundary));
    assert_eq!(leaf_len(&tree), 1);
    // Edges are inclusive.
    assert_eq!(tree.insert(at(50, -50), 3), Ok(()));
    assert_eq!(leaf_len(&tree), 2);
}

#[test]
fn capacity_then_subdivision() {
    let mut tree = QuadTree::new(AABB::new(at(0, 0), at(100, 100)));
    for (i, x) in [42, 43, 44, 45].iter().enumerate() {
        tree.insert(at(*x, 0), i).unwrap();
    }
    assert_eq!(leaf_len(&tree), 4);

    tree.insert(at(46, 0), 4).unwrap();
    assert!(matches!(&tree.root, QuadTreeData::Node(..)));
    assert_eq!(check_containment(&tree), 5);
    let all = tree.query_range(&tree.boundary);
    assert_eq!(
        sorted(all),
        vec![
            (42 * UNIT, 0, 0),
            (43 * UNIT, 0, 1),
            (44 * UNIT, 0, 2),
            (45 * UNIT, 0, 3),
            (46 * UNIT, 0, 4)
        ]
    );
}

#[test]
fn subdivision_distributes_by_quadrant() {
    let mut tree = QuadTree::new(AABB::new(at(0, 0), at(100, 100)));
    tree.insert(at(10, 10), 0).unwrap();
    tree.insert(at(-10, -10), 1).unwrap();
    tree.insert(at(10, -10), 2).unwrap();
    tree.insert(at(-10, 10), 3).unwrap();
    tree.insert(at(20, 20), 4).unwrap();
    if let QuadTreeData::Node(a, b, c, d) = &tree.root {
        assert_eq!(a.boundary, AABB::new(at(50, 50), at(50, 50)));
        assert_eq!(b.boundary, AABB::new(at(-50, -50), at(50, 50)));
        assert_eq!(c.boundary, AABB::new(at(50, -50), at(50, 50)));
        assert_eq!(d.boundary, AABB::new(at(-50, 50), at(50, 50)));
        assert_eq!(leaf_len(a) + leaf_len(b) + leaf_len(c) + leaf_len(d), 5);
        assert_eq!(leaf_len(a), 2);
    } else {
        unreachable!()
    }
    assert_eq!(check_containment(&tree), 5);
}

#[test]
fn odd_extent_quadrants_cover_parent() {
    let parent = AABB::new(Vec2::new(0, 0), Vec2::new(5, 3));
    assert_eq!(parent.quadrant(0), AABB::new(Vec2::new(2, 1), Vec2::new(3, 2)));
    assert_eq!(parent.quadrant(1), AABB::new(Vec2::new(-2, -1), Vec2::new(3, 2)));
    assert_eq!(parent.quadrant(2), AABB::new(Vec2::new(2, -1), Vec2::new(3, 2)));
    assert_eq!(parent.quadrant(3), AABB::new(Vec2::new(-2, 1), Vec2::new(3, 2)));
    for x in -5..=5 {
        for y in -3..=3 {
            let p = Vec2::new(x, y);
            assert!((0..4).any(|q| parent.quadrant(q).contains(p)));
        }
    }
}

#[test]
fn collapse_after_removing_everything() {
    let mut tree = QuadTree::new(AABB::new(at(0, 0), at(50, 50)));
    let points = [at(-20, 10), at(20, 10), at(-20, -10), at(20, -10), at(22, 10)];
    for (i, p) in points.iter().enumerate() {
        tree.insert(*p, i).unwrap();
    }
    assert!(matches!(&tree.root, QuadTreeData::Node(..)));
    for p in points.iter() {
        tree.remove(*p);
    }
    assert!(matches!(&tree.root, QuadTreeData::Leaf(data) if data.is_empty()));
    assert!(tree.is_empty());
}

#[test]
fn remove_absent_point_changes_nothing() {
    let mut tree = QuadTree::new(AABB::new(at(0, 0), at(50, 50)));
    tree.insert(at(1, 2), 7).unwrap();
    tree.remove(at(2, 1));
    tree.remove(at(500, 500));
    assert_eq!(sorted(tree.query_range(&tree.boundary)), vec![(UNIT, 2 * UNIT, 7)]);
}

#[test]
fn remove_takes_every_record_at_the_point() {
    let mut tree = QuadTree::new(AABB::new(at(0, 0), at(50, 50)));
    tree.insert(at(3, 3), 0).unwrap();
    tree.insert(at(3, 3), 1).unwrap();
    tree.insert(at(4, 4), 2).unwrap();
    tree.remove(at(3, 3));
    assert_eq!(sorted(tree.query_range(&tree.boundary)), vec![(4 * UNIT, 4 * UNIT, 2)]);
}

#[test]
fn query_matches_brute_force() {
    let mut tree = QuadTree::new(AABB::new(at(0, 0), at(100, 100)));
    let mut stored = Vec::new();
    let mut id = 0usize;
    for x in (-90..=90).step_by(15) {
        for y in (-90..=90).step_by(20) {
            tree.insert(at(x, y), id).unwrap();
            stored.push((at(x, y), id));
            id += 1;
        }
    }
    tree.remove(at(0, 10));
    stored.retain(|(p, _)| *p != at(0, 10));
    let ranges = [
        AABB::new(at(0, 0), at(30, 30)),
        AABB::new(at(-60, 45), at(10, 50)),
        AABB::new(at(200, 200), at(10, 10)),
        AABB::new(at(75, -75), at(15, 15)),
    ];
    for range in ranges.iter() {
        let expected: Vec<(Vec2, usize)> =
            stored.iter().cloned().filter(|(p, _)| range.contains(*p)).collect();
        assert_eq!(sorted(tree.query_range(range)), sorted(expected));
    }
    assert_eq!(check_containment(&tree), stored.len());
}

#[test]
fn aabb_contains_and_intersects_are_inclusive() {
    let a = AABB::new(Vec2::new(0, 0), Vec2::new(10, 5));
    assert!(a.contains(Vec2::new(10, 5)));
    assert!(a.contains(Vec2::new(-10, -5)));
    assert!(!a.contains(Vec2::new(11, 0)));
    assert!(!a.contains(Vec2::new(0, -6)));
    let touching = AABB::new(Vec2::new(20, 0), Vec2::new(10, 1));
    assert!(a.intersects(&touching));
    let apart = AABB::new(Vec2::new(21, 0), Vec2::new(10, 1));
    assert!(!a.intersects(&apart));
    let above = AABB::new(Vec2::new(0, 7), Vec2::new(1, 1));
    assert!(!a.intersects(&above));
    assert!(a.intersects(&AABB::new(Vec2::new(0, 6), Vec2::new(1, 1))));
}

#[test]
fn identical_points_beyond_capacity() {
    let mut tree = QuadTree::new(AABB::new(at(0, 0), at(50, 50)));
    for id in 0..6 {
        tree.insert(at(7, -3), id).unwrap();
    }
    assert!(matches!(&tree.root, QuadTreeData::Node(..)));
    assert_eq!(tree.query_range(&AABB::new(at(7, -3), Vec2::new(0, 0))).len(), 6);
    assert_eq!(check_containment(&tree), 6);
    tree.remove(at(7, -3));
    assert!(tree.is_empty());
    assert!(matches!(&tree.root, QuadTreeData::Leaf(data) if data.is_empty()));

    // A region too small to split keeps every point in one leaf.
    let mut small = QuadTree::new(AABB::new(Vec2::new(0, 0), Vec2::new(1, 1)));
    for id in 0..6 {
        small.insert(Vec2::new(1, 0), id).unwrap();
    }
    assert_eq!(leaf_len(&small), 6);
}

#[test]
fn empty_tree_queries_nothing() {
    let tree = QuadTree::new(AABB::new(at(0, 0), at(50, 50)));
    assert!(tree.is_empty());
    assert!(tree.query_range(&tree.boundary).is_empty());
}

#[test]
fn box_tests_take_extreme_coordinates() {
    let far = AABB::new(Vec2::new(i64::MAX, i64::MIN), Vec2::new(i64::MAX, i64::MAX));
    assert!(far.contains(Vec2::new(0, -1)));
    assert!(!far.contains(Vec2::new(0, 0)));
    assert!(far.contains(Vec2::new(i64::MAX, i64::MIN)));
    assert!(far.intersects(&AABB::new(Vec2::new(0, 0), Vec2::new(i64::MAX, i64::MAX))));
    assert!(!far.intersects(&AABB::new(Vec2::new(-1, 0), Vec2::new(0, i64::MAX))));
    assert!(!AABB::new(Vec2::new(i64::MIN, 0), Vec2::new(0, 0)).contains(Vec2::new(i64::MAX, 0)));
}

#[test]
fn insert_into_node_touches_one_child() {
    let mut tree = QuadTree::new(AABB::new(at(0, 0), at(50, 50)));
    tree.insert(at(-20, 10), 0).unwrap();
    tree.insert(at(20, 10), 1).unwrap();
    tree.insert(at(-20, -10), 2).unwrap();
    tree.insert(at(20, -10), 3).unwrap();
    tree.insert(at(22, 10), 4).unwrap();
    // On the shared edge x = 0, y = 0 the first quadrant, (+x, +y), takes the point.
    tree.insert(at(0, 0), 5).unwrap();
    if let QuadTreeData::Node(a, b, c, d) = &tree.root {
        assert_eq!(leaf_len(a), 3);
        assert_eq!(leaf_len(b), 1);
        assert_eq!(leaf_len(c), 1);
        assert_eq!(leaf_len(d), 1);
    } else {
        unreachable!()
    }
}

#[test]
fn subdivide_hands_points_to_first_quadrant() {
    let mut tree = QuadTree::new(AABB::new(at(0, 0), at(50, 50)));
    tree.insert(at(0, 0), 0).unwrap();
    tree.insert(at(-1, -1), 1).unwrap();
    tree.subdivide();
    if let QuadTreeData::Node(a, b, c, d) = &tree.root {
        assert_eq!(leaf_len(a), 1);
        assert_eq!(leaf_len(b), 1);
        assert_eq!(leaf_len(c), 0);
        assert_eq!(leaf_len(d), 0);
    } else {
        unreachable!()
    }
    // An empty leaf is not split.
    let mut empty = QuadTree::new(AABB::new(at(0, 0), at(50, 50)));
    empty.subdivide();
    assert_eq!(leaf_len(&empty), 0);
}
