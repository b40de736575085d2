use n_body::body::Body;
use n_body::geometry::{Domain, Point};
use n_body::tree::TreeNode;

#[test]
fn new_tree_is_empty() {
    let domain = Domain { center_x2: 100, center_y2: 100, size: 100 };
    let tree = TreeNode::new(domain);
    assert!(tree.is_empty());
    assert_eq!(tree.len(), 0);
    assert_eq!(tree.mass(), 0);
    assert_eq!(tree.center_of_mass(), None);
    assert_eq!(tree.domain(), domain);
    assert_eq!(tree.get(Point { x: 3, y: 4 }), None);
}

#[test]
fn insert_into_empty_makes_a_leaf() {
    let mut tree = TreeNode::new(Domain { center_x2: 100, center_y2: 100, size: 100 });
    let b = Body { id: 1, mass: 5, position: Point { x: 10, y: 20 } };
    tree.insert(&b);
    assert!(!tree.is_empty());
    assert_eq!(tree.len(), 1);
    assert_eq!(tree.mass(), 5);
    assert_eq!(tree.center_of_mass(), Some(Point { x: 10, y: 20 }));
    assert_eq!(tree.get(Point { x: 10, y: 20 }), Some(b));
    assert_eq!(tree.get(Point { x: 10, y: 21 }), None);
}

#[test]
fn root_mass_is_the_sum_of_inserted_masses() {
    let mut tree = TreeNode::new(Domain { center_x2: 1000, center_y2: 1000, size: 1000 });
    let mut expected: u64 = 0;
    for i in 0..50u32 {
        let b = Body {
            id: i as u64,
            mass: (i as u64) * 3 + 1,
            position: Point { x: (i * 37) % 1001, y: (i * 101) % 1001 },
        };
        expected += b.mass;
        tree.insert(&b);
        assert_eq!(tree.mass(), expected);
    }
    assert_eq!(tree.mass(), 3725);
    assert_eq!(tree.len(), 50);
}

#[test]
fn center_of_mass_is_the_weighted_mean_rounded_down() {
    let mut tree = TreeNode::new(Domain { center_x2: 100, center_y2: 100, size: 100 });
    tree.insert(&Body { id: 1, mass: 5, position: Point { x: 3, y: 4 } });
    tree.insert(&Body { id: 2, mass: 7, position: Point { x: 3, y: 4 } });
    tree.insert(&Body { id: 3, mass: 1, position: Point { x: 5, y: 0 } });
    // x: (5*3 + 7*3 + 1*5) / 13 = 41 / 13, y: (5*4 + 7*4) / 13 = 48 / 13.
    assert_eq!(tree.mass(), 13);
    assert_eq!(tree.center_of_mass(), Some(Point { x: 3, y: 3 }));
    tree.insert(&Body { id: 4, mass: 13, position: Point { x: 100, y: 100 } });
    // x: (41 + 1300) / 26, y: (48 + 1300) / 26.
    assert_eq!(tree.center_of_mass(), Some(Point { x: 51, y: 51 }));
}

#[test]
fn bodies_at_one_point_are_fused() {
    let mut tree = TreeNode::new(Domain { center_x2: 100, center_y2: 100, size: 100 });
    let p = Point { x: 42, y: 42 };
    tree.insert(&Body { id: 8, mass: 5, position: p });
    tree.insert(&Body { id: 9, mass: 7, position: p });
    tree.insert(&Body { id: 10, mass: 1, position: p });
    assert_eq!(tree.len(), 1);
    assert_eq!(tree.mass(), 13);
    assert_eq!(tree.get(p), Some(Body { id: 8, mass: 13, position: p }));
}

#[test]
fn neighbours_on_the_lattice_stay_apart() {
    let mut tree = TreeNode::new(
        Domain { center_x2: u32::MAX as u64, center_y2: u32::MAX as u64, size: u32::MAX as u64 },
    );
    let a = Body { id: 1, mass: 2, position: Point { x: 1_000_000, y: 77 } };
    let b = Body { id: 2, mass: 3, position: Point { x: 1_000_001, y: 77 } };
    let c = Body { id: 3, mass: 4, position: Point { x: u32::MAX, y: u32::MAX } };
    let d = Body { id: 4, mass: 5, position: Point { x: u32::MAX - 1, y: u32::MAX } };
    tree.insert(&a);
    tree.insert(&b);
    tree.insert(&c);
    tree.insert(&d);
    assert_eq!(tree.len(), 4);
    assert_eq!(tree.get(a.position), Some(a));
    assert_eq!(tree.get(b.position), Some(b));
    assert_eq!(tree.get(c.position), Some(c));
    assert_eq!(tree.get(d.position), Some(d));
}

#[test]
fn depth_grows_as_bodies_get_closer_and_stops_at_the_grid() {
    let domain = Domain { center_x2: 1 << 20, center_y2: 1 << 20, size: 1 << 20 };
    let mut tree = TreeNode::new(domain);
    assert_eq!(tree.depth(), 0);
    tree.insert(&Body { id: 1, mass: 1, position: Point { x: 0, y: 0 } });
    assert_eq!(tree.depth(), 0);
    tree.insert(&Body { id: 2, mass: 1, position: Point { x: 1 << 20, y: 1 << 20 } });
    assert_eq!(tree.depth(), 1);
    // A quarter along the side: apart after two levels.
    tree.insert(&Body { id: 3, mass: 1, position: Point { x: 1 << 18, y: 0 } });
    assert_eq!(tree.depth(), 2);
    // One lattice step apart on a side of 2^20 steps: apart after twenty levels.
    tree.insert(&Body { id: 4, mass: 1, position: Point { x: 1, y: 0 } });
    assert_eq!(tree.depth(), 20);
    // At the same point: no deeper.
    tree.insert(&Body { id: 5, mass: 1, position: Point { x: 1, y: 0 } });
    assert_eq!(tree.depth(), 20);
    assert_eq!(tree.len(), 4);

    let widest = Domain {
        center_x2: u32::MAX as u64,
        center_y2: u32::MAX as u64,
        size: u32::MAX as u64,
    };
    let mut deep = TreeNode::new(widest);
    deep.insert(&Body { id: 1, mass: 1, position: Point { x: 0, y: 0 } });
    deep.insert(&Body { id: 2, mass: 1, position: Point { x: 1, y: 0 } });
    assert_eq!(deep.depth(), 32);
    assert_eq!(deep.len(), 2);
}

#[test]
fn bodies_without_mass_change_nothing() {
    let mut tree = TreeNode::new(Domain { center_x2: 100, center_y2: 100, size: 100 });
    tree.insert(&Body { id: 1, mass: 5, position: Point { x: 10, y: 20 } });
    tree.insert(&Body { id: 2, mass: 7, position: Point { x: 90, y: 80 } });
    let before = tree.clone();
    for i in 0..10u32 {
        tree.insert(&Body { id: 100 + i as u64, mass: 0, position: Point { x: 0, y: 0 } });
        tree.insert(&Body { id: 200 + i as u64, mass: 0, position: Point { x: 10, y: 20 } });
        tree.insert(&Body { id: 300 + i as u64, mass: 0, position: Point { x: 5000, y: 1 } });
    }
    assert_eq!(tree, before);
    assert_eq!(tree.mass(), 12);
    assert_eq!(tree.len(), 2);
    assert_eq!(tree.center_of_mass(), before.center_of_mass());
    assert_eq!(tree.to_words(), before.to_words());
}

#[test]
fn insert_in_a_domain_of_one_step() {
    let mut tree = TreeNode::new(Domain { center_x2: 6, center_y2: 8, size: 1 });
    tree.insert(&Body { id: 1, mass: 5, position: Point { x: 3, y: 4 } });
    tree.insert(&Body { id: 2, mass: 6, position: Point { x: 3, y: 4 } });
    assert_eq!(tree.len(), 1);
    assert_eq!(tree.mass(), 11);
}

#[test]
fn merge_with_empty_keeps_the_other() {
    let domain = Domain { center_x2: 100, center_y2: 100, size: 100 };
    let mut a = TreeNode::new(domain);
    let mut b = TreeNode::new(domain);
    b.insert(&Body { id: 1, mass: 5, position: Point { x: 10, y: 20 } });
    b.insert(&Body { id: 2, mass: 7, position: Point { x: 90, y: 80 } });
    let expected = b.clone();
    a.merge(b);
    assert_eq!(a, expected);
    a.merge(TreeNode::new(domain));
    assert_eq!(a, expected);
}

#[test]
fn merge_of_two_leaves_makes_an_internal_node() {
    let domain = Domain { center_x2: 100, center_y2: 100, size: 100 };
    let x = Body { id: 1, mass: 5, position: Point { x: 10, y: 20 } };
    let y = Body { id: 2, mass: 7, position: Point { x: 90, y: 80 } };
    let mut a = TreeNode::new(domain);
    a.insert(&x);
    let mut b = TreeNode::new(domain);
    b.insert(&y);
    a.merge(b);
    assert_eq!(a.len(), 2);
    assert_eq!(a.mass(), 12);
    assert_eq!(a.get(x.position), Some(x));
    assert_eq!(a.get(y.position), Some(y));
    let mut both = TreeNode::new(domain);
    both.insert(&x);
    both.insert(&y);
    assert_eq!(a, both);
}

#[test]
fn merge_of_leaf_and_internal_either_way() {
    let domain = Domain { center_x2: 100, center_y2: 100, size: 100 };
    let x = Body { id: 1, mass: 5, position: Point { x: 10, y: 20 } };
    let y = Body { id: 2, mass: 7, position: Point { x: 90, y: 80 } };
    let z = Body { id: 3, mass: 9, position: Point { x: 91, y: 80 } };
    let mut leaf = TreeNode::new(domain);
    leaf.insert(&x);
    let mut internal = TreeNode::new(domain);
    internal.insert(&y);
    internal.insert(&z);
    let mut all = TreeNode::new(domain);
    all.insert(&x);
    all.insert(&y);
    all.insert(&z);

    let mut one = leaf.clone();
    one.merge(internal.clone());
    assert_eq!(one, all);
    let mut other = internal.clone();
    other.merge(leaf.clone());
    assert_eq!(other, all);
}

#[test]
fn merge_of_two_internal_nodes_adds_masses() {
    let domain = Domain { center_x2: 1000, center_y2: 1000, size: 1000 };
    let mut a = TreeNode::new(domain);
    let mut b = TreeNode::new(domain);
    let mut all = TreeNode::new(domain);
    for i in 0..40u32 {
        let body = Body {
            id: i as u64,
            mass: (i as u64) + 1,
            position: Point { x: (i * 97) % 1001, y: (i * 211) % 1001 },
        };
        if i % 2 == 0 {
            a.insert(&body);
        } else {
            b.insert(&body);
        }
        all.insert(&body);
    }
    let (mass_a, mass_b) = (a.mass(), b.mass());
    assert_eq!(mass_a, 400);
    assert_eq!(mass_b, 420);
    let mut ab = a.clone();
    ab.merge(b.clone());
    let mut ba = b.clone();
    ba.merge(a.clone());
    assert_eq!(ab.mass(), mass_a + mass_b);
    assert_eq!(ba.mass(), mass_a + mass_b);
    assert_eq!(ab.center_of_mass(), ba.center_of_mass());
    assert_eq!(ab, all);
    assert_eq!(ba, all);
}

#[test]
fn merge_fuses_leaves_at_one_point_and_the_first_keeps_its_identity() {
    let domain = Domain { center_x2: 100, center_y2: 100, size: 100 };
    let p = Point { x: 33, y: 66 };
    let q = Point { x: 70, y: 10 };
    let mut a = TreeNode::new(domain);
    a.insert(&Body { id: 1, mass: 5, position: p });
    a.insert(&Body { id: 2, mass: 1, position: q });
    let mut b = TreeNode::new(domain);
    b.insert(&Body { id: 3, mass: 7, position: p });
    let mut ab = a.clone();
    ab.merge(b.clone());
    assert_eq!(ab.get(p), Some(Body { id: 1, mass: 12, position: p }));
    assert_eq!(ab.len(), 2);
    let mut ba = b.clone();
    ba.merge(a.clone());
    assert_eq!(ba.get(p), Some(Body { id: 3, mass: 12, position: p }));
    assert_eq!(ba.get(q), Some(Body { id: 2, mass: 1, position: q }));
    assert_eq!(ab.mass(), ba.mass());
}

#[test]
fn merge_is_the_same_in_any_grouping() {
    let domain = Domain { center_x2: 64, center_y2: 64, size: 64 };
    let mut parts: Vec<TreeNode> = Vec::new();
    for k in 0..3u32 {
        let mut t = TreeNode::new(domain);
        for i in 0..6u32 {
            t.insert(&Body {
                id: (k * 10 + i) as u64,
                mass: (k + i + 1) as u64,
                position: Point { x: (k * 7 + i * 11) % 65, y: (k * 13 + i * 5) % 65 },
            });
        }
        parts.push(t);
    }
    let mut left = parts[0].clone();
    left.merge(parts[1].clone());
    left.merge(parts[2].clone());
    let mut tail = parts[1].clone();
    tail.merge(parts[2].clone());
    let mut right = parts[0].clone();
    right.merge(tail);
    assert_eq!(left, right);
}

#[test]
fn clone_is_equal_and_independent() {
    let mut tree = TreeNode::new(Domain { center_x2: 100, center_y2: 100, size: 100 });
    tree.insert(&Body { id: 1, mass: 5, position: Point { x: 10, y: 20 } });
    let copy = tree.clone();
    tree.insert(&Body { id: 2, mass: 7, position: Point { x: 90, y: 80 } });
    assert_eq!(copy.len(), 1);
    assert_eq!(tree.len(), 2);
    assert_ne!(copy, tree);
}
