use quadtree::entity::Entity;
use quadtree::geom::Rect;
use quadtree::quadtree::{QuadNode, QuadTree};

fn ids(entities: &[Entity]) -> Vec<usize> {
    let mut v: Vec<usize> = entities.iter().map(|e| e.id).collect();
    v.sort();
    v
}

fn drain_iter(tree: &QuadTree<Entity>) -> Vec<Entity> {
    let mut it = tree.iter();
    let mut out = Vec::new();
    while let Some(e) = it.next() {
        out.push(e);
    }
    out
}

fn leaf_points_contained(node: &QuadNode<Entity>) -> bool {
    for p in &node.points {
        if !node.contains(p) {
            return false;
        }
    }
    match &node.children {
        None => true,
        Some(c) => {
            leaf_points_contained(&c.ne)
                && leaf_points_contained(&c.nw)
                && leaf_points_contained(&c.sw)
                && leaf_points_contained(&c.se)
        }
    }
}

#[test]
fn count_matches_traversal() {
    let mut tree: QuadTree<Entity> = QuadTree::new(100, 100, 2);
    let positions = [(5, 5), (95, 5), (5, 95), (95, 95), (50, 50)];
    for (i, (x, y)) in positions.iter().enumerate() {
        assert!(tree.push(Entity::new(i, *x, *y)));
    }
    assert_eq!(tree.count(), 5);
    let seen = drain_iter(&tree);
    assert_eq!(seen.len(), 5);
    assert_eq!(ids(&seen), vec![0, 1, 2, 3, 4]);
    tree.update();
    assert_eq!(tree.count(), 5);
    assert_eq!(drain_iter(&tree).len(), 5);
}

#[test]
fn containment_after_update() {
    let mut tree: QuadTree<Entity> = QuadTree::new(100, 100, 1);
    for (i, (x, y)) in [(10, 10), (90, 10), (10, 90), (90, 90)].iter().enumerate() {
        assert!(tree.push(Entity::new(i, *x, *y)));
    }
    // Move every entity to the opposite corner region, breaking the
    // positional invariant, then repair it.
    tree.map_points(&|e: Entity| Entity {
        id: e.id,
        x: 99 - e.x,
        y: 99 - e.y,
    });
    tree.update();
    assert!(leaf_points_contained(&tree.root));
    assert_eq!(tree.count(), 4);
}

#[test]
fn subdivision_trigger() {
    let mut tree: QuadTree<Entity> = QuadTree::new(64, 64, 3);
    // Four entities in one previously-empty leaf: one subdivision, after
    // which each lands in a different quadrant.
    for (i, (x, y)) in [(10, 10), (40, 10), (10, 40), (40, 40)].iter().enumerate() {
        assert!(tree.push(Entity::new(i, *x, *y)));
    }
    let bounds = tree.bounds();
    assert_eq!(bounds.len(), 5);
    assert_eq!(bounds[0], Rect { x: 0, y: 0, w: 64, h: 64 });
    // NE, NW, SW, SE quadrants, each exactly a quarter of the parent.
    assert!(bounds.contains(&Rect { x: 32, y: 0, w: 32, h: 32 }));
    assert!(bounds.contains(&Rect { x: 0, y: 0, w: 32, h: 32 }));
    assert!(bounds.contains(&Rect { x: 0, y: 32, w: 32, h: 32 }));
    assert!(bounds.contains(&Rect { x: 32, y: 32, w: 32, h: 32 }));
    assert_eq!(tree.root.points.len(), 0);
}

#[test]
fn query_returns_entity_at_its_own_position() {
    let mut tree: QuadTree<Entity> = QuadTree::new(100, 100, 2);
    for (i, (x, y)) in [(10, 10), (12, 12), (90, 90)].iter().enumerate() {
        assert!(tree.push(Entity::new(i, *x, *y)));
    }
    // Zero-radius query at entity 0's position returns entity 0, and its
    // node co-residents come with it.
    let res = tree.query(10, 10, 0);
    assert!(res.iter().any(|e| e.id == 0));
    let res1 = tree.query(12, 12, 0);
    assert!(res1.iter().any(|e| e.id == 1));
}

#[test]
fn query_pair_within_range() {
    let mut tree: QuadTree<Entity> = QuadTree::new(100, 100, 1);
    // Two entities 6 apart, straddling the vertical midline after the
    // tree subdivides.
    assert!(tree.push(Entity::new(0, 47, 50)));
    assert!(tree.push(Entity::new(1, 53, 50)));
    assert!(tree.push(Entity::new(2, 90, 10)));
    let res = tree.query(47, 50, 10);
    assert!(res.iter().any(|e| e.id == 0));
    assert!(res.iter().any(|e| e.id == 1));
}

#[test]
fn repartition_moves_boundary_crosser() {
    let mut tree: QuadTree<Entity> = QuadTree::new(100, 100, 1);
    assert!(tree.push(Entity::new(0, 49, 10)));
    assert!(tree.push(Entity::new(1, 90, 90)));
    // Entity 0 sits just inside the NW quadrant; advance it past the
    // midline into the NE quadrant.
    tree.map_points(&|e: Entity| {
        if e.id == 0 {
            Entity { id: 0, x: 51, y: 10 }
        } else {
            e
        }
    });
    tree.update();
    assert_eq!(tree.count(), 2);
    let res = tree.query(51, 10, 0);
    assert!(res.iter().any(|e| e.id == 0 && e.x == 51));
    let c = tree.root.children.as_ref().expect("root subdivided");
    assert!(c.ne.points.iter().any(|e| e.id == 0));
    assert!(!c.nw.points.iter().any(|e| e.id == 0));
}

#[test]
fn concrete_two_corner_scenario() {
    let mut tree: QuadTree<Entity> = QuadTree::new(100, 100, 1);
    assert!(tree.push(Entity::new(0, 10, 10)));
    assert!(tree.push(Entity::new(1, 90, 90)));
    let bounds = tree.bounds();
    assert_eq!(bounds.len(), 5);
    assert!(bounds.contains(&Rect { x: 0, y: 0, w: 50, h: 50 }));
    assert!(bounds.contains(&Rect { x: 50, y: 0, w: 50, h: 50 }));
    assert!(bounds.contains(&Rect { x: 0, y: 50, w: 50, h: 50 }));
    assert!(bounds.contains(&Rect { x: 50, y: 50, w: 50, h: 50 }));
    assert_eq!(tree.root.points.len(), 0);
    let c = tree.root.children.as_ref().expect("root subdivided");
    assert_eq!(c.nw.points.len(), 1);
    assert_eq!(c.nw.points[0].id, 0);
    assert_eq!(c.se.points.len(), 1);
    assert_eq!(c.se.points[0].id, 1);
    assert_eq!(c.ne.points.len(), 0);
    assert_eq!(c.sw.points.len(), 0);
}

#[test]
fn clear_resets_to_single_root() {
    let mut tree: QuadTree<Entity> = QuadTree::new(100, 100, 1);
    for i in 0..5 {
        assert!(tree.push(Entity::new(i, 10 * (i as i64 + 1), 20)));
    }
    assert!(tree.count() > 0);
    tree.clear();
    assert_eq!(tree.count(), 0);
    let bounds = tree.bounds();
    assert_eq!(bounds.len(), 1);
    assert_eq!(bounds[0], Rect { x: 0, y: 0, w: 100, h: 100 });
}

#[test]
fn out_of_bounds_push_is_rejected() {
    let mut tree: QuadTree<Entity> = QuadTree::new(100, 100, 2);
    assert!(!tree.push(Entity::new(0, 150, 50)));
    assert!(!tree.push(Entity::new(1, 50, -1)));
    assert!(!tree.push(Entity::new(2, 100, 50)));
    assert_eq!(tree.count(), 0);
    assert!(tree.query(50, 50, 100).is_empty());
}

#[test]
fn queries_on_empty_tree_are_empty() {
    let tree: QuadTree<Entity> = QuadTree::new(100, 100, 4);
    assert!(tree.query(50, 50, 0).is_empty());
    assert!(tree.query(0, 0, 100).is_empty());
    assert_eq!(tree.count(), 0);
}

#[test]
fn drain_empties_and_resets_count() {
    let mut tree: QuadTree<Entity> = QuadTree::new(100, 100, 1);
    for i in 0..3 {
        assert!(tree.push(Entity::new(i, 20 * (i as i64 + 1), 30)));
    }
    let mut it = tree.drain();
    let mut got = Vec::new();
    while let Some(e) = it.next() {
        got.push(e);
    }
    assert_eq!(ids(&got), vec![0, 1, 2]);
    assert_eq!(tree.count(), 0);
    assert!(tree.query(20, 30, 50).is_empty());
    assert!(tree.push(Entity::new(7, 20, 30)));
    assert_eq!(tree.count(), 1);
}

#[test]
fn clustered_entities_beyond_capacity_are_kept() {
    // Entities at one position can exceed capacity once a region can no
    // longer be split; nothing is lost.
    let mut tree: QuadTree<Entity> = QuadTree::new(2, 2, 1);
    for i in 0..3 {
        assert!(tree.push(Entity::new(i, 0, 0)));
    }
    assert_eq!(tree.count(), 3);
    let res = tree.query(0, 0, 0);
    assert_eq!(ids(&res), vec![0, 1, 2]);
}

#[test]
fn query_circle_touching_node_edge_sees_candidates() {
    let mut tree: QuadTree<Entity> = QuadTree::new(100, 100, 1);
    assert!(tree.push(Entity::new(0, 10, 10)));
    assert!(tree.push(Entity::new(1, 90, 90)));
    // (50, 50) lies on the closed edges of all four quadrants, so every
    // non-empty node is a candidate source.
    let res = tree.query(50, 50, 0);
    assert_eq!(ids(&res), vec![0, 1]);
}

#[test]
fn query_overlap_boundary_is_exact() {
    let mut tree: QuadTree<Entity> = QuadTree::new(100, 100, 1);
    assert!(tree.push(Entity::new(0, 10, 10)));
    assert!(tree.push(Entity::new(1, 90, 90)));
    // The NW quadrant spans x in [0, 50).  A circle at (52, 10) clamps to
    // (50, 10): squared distance 4.  Radius 1 misses, radius 2 touches.
    assert!(!tree.query(52, 10, 1).iter().any(|e| e.id == 0));
    assert!(tree.query(52, 10, 2).iter().any(|e| e.id == 0));
}
