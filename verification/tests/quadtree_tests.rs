use my_library::static_quadtree::checked_node_count;
use my_library::{NodeSet, Rect2D, StaticQuadTree, Vec2};

fn rect(min_x: i64, min_y: i64, max_x: i64, max_y: i64) -> Rect2D {
    Rect2D::new(Vec2::new(min_x, min_y), Vec2::new(max_x, max_y))
}

fn square_at(x: i64, y: i64, half: i64) -> Rect2D {
    rect(x - half, y - half, x + half, y + half)
}

fn sorted(set: &NodeSet) -> Vec<usize> {
    let mut items = set.to_vec();
    items.sort();
    items
}

#[test]
fn node_count_follows_the_closed_form() {
    for depth in 1..=6usize {
        let tree = StaticQuadTree::new(Vec2::new(1024, 768), depth);
        let expected = (4usize.pow(depth as u32 + 1) - 1) / 3;
        assert_eq!(tree.len(), expected);
        assert_eq!(checked_node_count(depth), Some(expected));
        assert_eq!(tree.max_depth(), depth);
    }
}

#[test]
fn node_count_of_small_trees() {
    assert_eq!(StaticQuadTree::new(Vec2::new(16, 16), 1).len(), 5);
    assert_eq!(StaticQuadTree::new(Vec2::new(16, 16), 2).len(), 21);
    assert_eq!(StaticQuadTree::new(Vec2::new(16, 16), 3).len(), 85);
}

#[test]
fn node_count_that_does_not_fit_is_refused() {
    assert_eq!(checked_node_count(0), Some(1));
    assert_eq!(checked_node_count(40), None);
    assert_eq!(checked_node_count(usize::MAX), None);
    assert!(StaticQuadTree::try_new(Vec2::new(16, 16), 40).is_none());
}

#[test]
fn malformed_input_is_refused() {
    assert!(StaticQuadTree::try_new(Vec2::new(16, 16), 0).is_none());
    assert!(StaticQuadTree::try_new(Vec2::new(0, 16), 2).is_none());
    assert!(StaticQuadTree::try_new(Vec2::new(16, 0), 2).is_none());
    assert!(StaticQuadTree::try_new(Vec2::new(-16, 16), 2).is_none());
    assert!(StaticQuadTree::try_new(Vec2::new(16, 16), 2).is_some());
}

#[test]
fn root_is_centered_on_the_origin() {
    let tree = StaticQuadTree::new(Vec2::new(1024, 768), 1);
    let root = tree.node(0).unwrap();
    assert_eq!(root.bounds, rect(-512, -384, 512, 384));
    assert_eq!(root.children, Some([1, 2, 3, 4]));
    assert!(tree.node(5).is_none());
}

#[test]
fn children_are_the_quadrants_of_their_parent() {
    let tree = StaticQuadTree::new(Vec2::new(1024, 768), 2);
    for index in 0..tree.len() {
        let node = tree.node(index).unwrap();
        if let Some(children) = node.children {
            let quads = node.bounds.quadrants();
            for k in 0..4 {
                assert!(children[k] > index);
                assert_eq!(tree.node(children[k]).unwrap().bounds, quads[k]);
            }
        }
    }
}

#[test]
fn nodes_are_laid_out_depth_first() {
    let tree = StaticQuadTree::new(Vec2::new(1024, 768), 2);
    assert_eq!(tree.node(0).unwrap().children, Some([1, 2, 3, 4]));
    assert_eq!(tree.node(1).unwrap().children, Some([5, 6, 7, 8]));
    assert_eq!(tree.node(2).unwrap().children, Some([9, 10, 11, 12]));
    assert_eq!(tree.node(3).unwrap().children, Some([13, 14, 15, 16]));
    assert_eq!(tree.node(4).unwrap().children, Some([17, 18, 19, 20]));
    for leaf in 5..21 {
        assert_eq!(tree.node(leaf).unwrap().children, None);
    }
    let deeper = StaticQuadTree::new(Vec2::new(1024, 768), 3);
    assert_eq!(deeper.node(1).unwrap().children, Some([5, 6, 7, 8]));
    assert_eq!(deeper.node(5).unwrap().children, Some([9, 10, 11, 12]));
    assert_eq!(deeper.node(6).unwrap().children, Some([13, 14, 15, 16]));
    assert_eq!(deeper.node(2).unwrap().children, Some([25, 26, 27, 28]));
}

#[test]
fn every_leaf_covers_its_share_of_the_play_area() {
    let depth = 3usize;
    let tree = StaticQuadTree::new(Vec2::new(1024, 768), depth);
    let mut leaves = 0;
    for index in 0..tree.len() {
        let node = tree.node(index).unwrap();
        if node.children.is_none() {
            leaves += 1;
            let area = (node.bounds.max.x - node.bounds.min.x) * (node.bounds.max.y - node.bounds.min.y);
            assert_eq!(area * 4i64.pow(depth as u32), 1024 * 768);
            assert_eq!(node.bounds.max.x - node.bounds.min.x, 128);
            assert_eq!(node.bounds.max.y - node.bounds.min.y, 96);
        }
    }
    assert_eq!(leaves, 64);
}

#[test]
fn smallest_node_descends_while_one_child_intersects() {
    let tree = StaticQuadTree::new(Vec2::new(1024, 768), 2);
    assert_eq!(tree.smallest_node(&square_at(400, 300, 4)), 20);
    assert_eq!(tree.smallest_node(&square_at(-400, -300, 4)), 5);
    assert_eq!(tree.smallest_node(&square_at(400, -300, 4)), 10);
    assert_eq!(tree.smallest_node(&square_at(-400, 300, 4)), 15);
}

#[test]
fn smallest_node_stops_where_the_target_straddles_a_boundary() {
    let tree = StaticQuadTree::new(Vec2::new(1024, 768), 2);
    assert_eq!(tree.smallest_node(&square_at(0, 0, 4)), 0);
    assert_eq!(tree.smallest_node(&square_at(256, 192, 4)), 4);
    assert_eq!(tree.smallest_node(&square_at(0, 300, 4)), 0);
    assert_eq!(tree.smallest_node(&square_at(256, 100, 4)), 4);
}

#[test]
fn smallest_node_of_a_target_on_a_shared_edge_is_the_parent() {
    let tree = StaticQuadTree::new(Vec2::new(1024, 768), 1);
    assert_eq!(tree.smallest_node(&rect(-10, 5, 0, 15)), 0);
    assert_eq!(tree.smallest_node(&rect(-10, 5, -1, 15)), 3);
}

#[test]
fn smallest_node_outside_the_play_area_is_the_root() {
    let tree = StaticQuadTree::new(Vec2::new(1024, 768), 2);
    assert_eq!(tree.smallest_node(&square_at(5000, 5000, 4)), 0);
}

#[test]
fn smallest_node_is_the_same_when_asked_again() {
    let tree = StaticQuadTree::new(Vec2::new(1024, 768), 3);
    for x in [-500i64, -130, -1, 0, 77, 300, 511] {
        for y in [-380i64, -97, 0, 5, 200, 383] {
            let target = square_at(x, y, 8);
            let first = tree.smallest_node(&target);
            let second = tree.smallest_node(&target);
            assert_eq!(first, second);
            assert!(first < tree.len());
        }
    }
}

#[test]
fn intersecting_nodes_of_a_small_target() {
    let tree = StaticQuadTree::new(Vec2::new(1024, 768), 2);
    assert_eq!(sorted(&tree.intersecting_nodes(&square_at(400, 300, 4))), vec![0, 4, 20]);
    assert_eq!(sorted(&tree.intersecting_nodes(&square_at(-400, -300, 4))), vec![0, 1, 5]);
}

#[test]
fn intersecting_nodes_of_a_target_on_the_center() {
    let tree = StaticQuadTree::new(Vec2::new(1024, 768), 2);
    assert_eq!(
        sorted(&tree.intersecting_nodes(&square_at(0, 0, 4))),
        vec![0, 1, 2, 3, 4, 8, 11, 14, 17]
    );
}

#[test]
fn intersecting_nodes_outside_the_play_area_are_none() {
    let tree = StaticQuadTree::new(Vec2::new(1024, 768), 2);
    let found = tree.intersecting_nodes(&square_at(5000, 5000, 4));
    assert_eq!(found.len(), 0);
    assert!(!found.contains(0));
}

#[test]
fn intersecting_nodes_hold_the_root_and_all_ancestors() {
    let tree = StaticQuadTree::new(Vec2::new(1024, 768), 3);
    let mut parent = vec![usize::MAX; tree.len()];
    for index in 0..tree.len() {
        if let Some(children) = tree.node(index).unwrap().children {
            for child in children {
                parent[child] = index;
            }
        }
    }
    for x in [-512i64, -300, -1, 0, 130, 512] {
        for y in [-384i64, -100, 0, 200, 384] {
            let found = tree.intersecting_nodes(&square_at(x, y, 16));
            assert!(found.contains(0));
            for node in found.to_vec() {
                let mut up = node;
                while up != 0 {
                    up = parent[up];
                    assert!(found.contains(up));
                }
            }
        }
    }
}

#[test]
fn intersecting_nodes_are_all_nodes_that_intersect() {
    let tree = StaticQuadTree::new(Vec2::new(1024, 768), 3);
    let target = rect(-40, -500, 270, 10);
    let found = tree.intersecting_nodes(&target);
    let mut expected = Vec::new();
    for index in 0..tree.len() {
        if tree.node(index).unwrap().bounds.intersect(&target) {
            expected.push(index);
        }
    }
    assert_eq!(sorted(&found), expected);
    assert_eq!(found.len(), expected.len());
}

#[test]
fn intersect_adds_the_hits_of_one_subtree() {
    let tree = StaticQuadTree::new(Vec2::new(1024, 768), 2);
    let mut result = NodeSet::new();
    assert!(result.insert(3));
    assert!(!result.insert(3));
    tree.intersect(4, &mut result, &square_at(400, 300, 4));
    assert_eq!(sorted(&result), vec![3, 4, 20]);
    tree.intersect(1, &mut result, &square_at(400, 300, 4));
    assert_eq!(sorted(&result), vec![3, 4, 20]);
}

#[test]
fn odd_play_area_is_halved_toward_zero() {
    let tree = StaticQuadTree::new(Vec2::new(5, 3), 1);
    assert_eq!(tree.node(0).unwrap().bounds, rect(-2, -1, 2, 1));
    assert_eq!(tree.node(1).unwrap().bounds, rect(-2, -1, 0, 0));
    assert_eq!(tree.node(4).unwrap().bounds, rect(0, 0, 2, 1));
}

#[test]
fn trees_of_the_same_area_and_depth_are_the_same() {
    let first = StaticQuadTree::new(Vec2::new(640, 480), 3);
    let second = StaticQuadTree::new(Vec2::new(640, 480), 3);
    assert_eq!(first.len(), second.len());
    for index in 0..first.len() {
        let a = first.node(index).unwrap();
        let b = second.node(index).unwrap();
        assert_eq!(a.bounds, b.bounds);
        assert_eq!(a.children, b.children);
    }
}

#[test]
fn smallest_node_is_reached_within_the_depth() {
    let depth = 4;
    let tree = StaticQuadTree::new(Vec2::new(1024, 768), depth);
    let mut parent = vec![usize::MAX; tree.len()];
    for index in 0..tree.len() {
        if let Some(children) = tree.node(index).unwrap().children {
            for child in children {
                parent[child] = index;
            }
        }
    }
    let home = tree.smallest_node(&square_at(301, -217, 2));
    let mut steps = 0;
    let mut up = home;
    while up != 0 {
        up = parent[up];
        steps += 1;
    }
    assert_eq!(steps, depth);
    assert!(tree.node(home).unwrap().children.is_none());
}
