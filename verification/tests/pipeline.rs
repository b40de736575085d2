use n_body::body::Body;
use n_body::geometry::{get_bounds, Domain, Point};
use n_body::pipeline::{
    build_local, build_shard, merge_all, merge_peers, shard_len, BuildError, MergeError,
};
use n_body::tree::TreeNode;

fn population(n: u32) -> Vec<Body> {
    let mut bodies: Vec<Body> = Vec::new();
    for i in 0..n {
        bodies.push(Body {
            id: i as u64,
            mass: if i % 5 == 4 { 0 } else { 1 + (i as u64 * 3) % 17 },
            position: if i % 5 == 4 {
                Point { x: 0, y: 0 }
            } else {
                Point { x: 100 + (i * 193) % 800, y: 100 + (i * 67) % 800 }
            },
        });
    }
    bodies
}

fn domain_of(bodies: &[Body]) -> Domain {
    let positions: Vec<Point> = bodies.iter().filter(|b| b.mass > 0).map(|b| b.position).collect();
    Domain::enclosing(&get_bounds(&positions).unwrap())
}

#[test]
fn shard_len_is_the_quotient_and_one() {
    assert_eq!(shard_len(0, 1), 1);
    assert_eq!(shard_len(0, 8), 1);
    assert_eq!(shard_len(10, 1), 11);
    assert_eq!(shard_len(10, 3), 4);
    assert_eq!(shard_len(12, 4), 4);
    assert_eq!(shard_len(1000, 7), 143);
    assert_eq!(shard_len(5, 8), 1);
}

#[test]
fn shards_are_no_more_than_threads() {
    for n in 0..60usize {
        for t in 1..9usize {
            let len = shard_len(n, t);
            let bodies = vec![0u8; n];
            assert!(bodies.chunks(len).count() <= t);
        }
    }
}

#[test]
fn build_shard_inserts_the_bodies_with_mass() {
    let bodies = population(40);
    let domain = domain_of(&bodies);
    let tree = build_shard(domain, &bodies).unwrap();
    let mut expected = TreeNode::new(domain);
    let mut mass: u64 = 0;
    let mut count: u64 = 0;
    for b in &bodies {
        if b.mass > 0 {
            expected.insert(b);
            mass += b.mass;
            count += 1;
        }
    }
    assert_eq!(tree, expected);
    assert_eq!(tree.mass(), mass);
    assert_eq!(tree.len(), count);
    assert_eq!(count, 32);
}

#[test]
fn build_shard_of_nothing_is_empty() {
    let domain = Domain { center_x2: 8, center_y2: 8, size: 8 };
    assert_eq!(build_shard(domain, &[]), Ok(TreeNode::new(domain)));
    let padding = vec![Body { id: 1, mass: 0, position: Point { x: 999, y: 999 } }; 5];
    assert_eq!(build_shard(domain, &padding), Ok(TreeNode::new(domain)));
}

#[test]
fn build_shard_refuses_a_body_outside() {
    let domain = Domain { center_x2: 8, center_y2: 8, size: 8 };
    let bodies = vec![
        Body { id: 1, mass: 1, position: Point { x: 1, y: 1 } },
        Body { id: 2, mass: 1, position: Point { x: 9, y: 1 } },
    ];
    assert_eq!(build_shard(domain, &bodies), Err(BuildError::OutOfDomain));
}

#[test]
fn build_shard_refuses_masses_beyond_u64() {
    let domain = Domain { center_x2: 8, center_y2: 8, size: 8 };
    let mut bodies = vec![
        Body { id: 1, mass: u64::MAX, position: Point { x: 1, y: 1 } },
        Body { id: 2, mass: 1, position: Point { x: 2, y: 1 } },
    ];
    assert_eq!(build_shard(domain, &bodies), Err(BuildError::MassOverflow));
    bodies[0].mass = u64::MAX - 1;
    assert_eq!(build_shard(domain, &bodies).unwrap().mass(), u64::MAX);
    // A body outside is reported even where the masses are too many.
    bodies.push(Body { id: 3, mass: 5, position: Point { x: 20, y: 1 } });
    assert_eq!(build_shard(domain, &bodies), Err(BuildError::OutOfDomain));
}

#[test]
fn sharded_build_is_the_build_in_one_go() {
    let bodies = population(53);
    let domain = domain_of(&bodies);
    let whole = build_shard(domain, &bodies).unwrap();
    for threads in 1..9usize {
        let len = shard_len(bodies.len(), threads);
        let parts: Vec<TreeNode> =
            bodies.chunks(len).map(|c| build_shard(domain, c).unwrap()).collect();
        assert!(parts.len() <= threads);
        let mut root = TreeNode::new(domain);
        assert_eq!(merge_all(&mut root, parts), Ok(()));
        assert_eq!(root, whole);
        assert_eq!(root.mass(), whole.mass());
    }
}

#[test]
fn build_local_is_the_build_in_one_go() {
    let bodies = population(53);
    let domain = domain_of(&bodies);
    let whole = build_shard(domain, &bodies).unwrap();
    for threads in 1..9usize {
        assert_eq!(build_local(domain, &bodies, threads), Ok(whole.clone()));
    }
    assert_eq!(build_local(domain, &bodies, 1000), Ok(whole));
    assert_eq!(build_local(domain, &[], 4), Ok(TreeNode::new(domain)));
}

#[test]
fn build_local_refuses_what_build_shard_refuses() {
    let domain = Domain { center_x2: 8, center_y2: 8, size: 8 };
    let mut bodies = vec![
        Body { id: 1, mass: u64::MAX, position: Point { x: 1, y: 1 } },
        Body { id: 2, mass: 1, position: Point { x: 2, y: 1 } },
    ];
    assert_eq!(build_local(domain, &bodies, 2), Err(BuildError::MassOverflow));
    bodies.push(Body { id: 3, mass: 5, position: Point { x: 20, y: 1 } });
    assert_eq!(build_local(domain, &bodies, 2), Err(BuildError::OutOfDomain));
    assert_eq!(build_local(domain, &bodies, 1), Err(BuildError::OutOfDomain));
}

#[test]
fn merge_all_of_nothing_changes_nothing() {
    let bodies = population(10);
    let domain = domain_of(&bodies);
    let mut root = build_shard(domain, &bodies).unwrap();
    let before = root.clone();
    assert_eq!(merge_all(&mut root, vec![]), Ok(()));
    assert_eq!(root, before);
}

#[test]
fn merge_all_refuses_another_domain_and_merges_nothing() {
    let domain = Domain { center_x2: 8, center_y2: 8, size: 8 };
    let other = Domain { center_x2: 8, center_y2: 8, size: 9 };
    let a = build_shard(domain, &[Body { id: 1, mass: 1, position: Point { x: 1, y: 1 } }]).unwrap();
    let b = build_shard(other, &[Body { id: 2, mass: 1, position: Point { x: 2, y: 1 } }]).unwrap();
    let mut root = TreeNode::new(domain);
    assert_eq!(merge_all(&mut root, vec![a, b]), Err(MergeError::DomainMismatch));
    assert!(root.is_empty());
}

#[test]
fn merge_all_refuses_masses_beyond_u64_and_merges_nothing() {
    let domain = Domain { center_x2: 8, center_y2: 8, size: 8 };
    let a = build_shard(domain, &[Body { id: 1, mass: u64::MAX, position: Point { x: 1, y: 1 } }])
        .unwrap();
    let b = build_shard(domain, &[Body { id: 2, mass: 1, position: Point { x: 2, y: 1 } }]).unwrap();
    let mut root = TreeNode::new(domain);
    assert_eq!(merge_all(&mut root, vec![a.clone(), b.clone()]), Err(MergeError::MassOverflow));
    assert!(root.is_empty());
    assert_eq!(merge_all(&mut root, vec![a]), Ok(()));
    assert_eq!(root.mass(), u64::MAX);
    assert_eq!(merge_all(&mut root, vec![b]), Err(MergeError::MassOverflow));
    assert_eq!(root.mass(), u64::MAX);
}

#[test]
fn merge_peers_leaves_out_the_own_tree() {
    let bodies = population(60);
    let domain = domain_of(&bodies);
    let whole = build_shard(domain, &bodies).unwrap();
    let peers: Vec<TreeNode> = bodies.chunks(20).map(|c| build_shard(domain, c).unwrap()).collect();
    assert_eq!(peers.len(), 3);
    for rank in 0..3usize {
        let mut root = peers[rank].clone();
        assert_eq!(merge_peers(&mut root, peers.clone(), rank), Ok(()));
        assert_eq!(root.mass(), whole.mass());
        assert_eq!(root.len(), whole.len());
        assert_eq!(root.center_of_mass(), whole.center_of_mass());
        assert_eq!(root, whole);
    }
}

#[test]
fn merge_peers_needs_the_own_rank_among_the_peers() {
    let domain = Domain { center_x2: 8, center_y2: 8, size: 8 };
    let a = build_shard(domain, &[Body { id: 1, mass: 1, position: Point { x: 1, y: 1 } }]).unwrap();
    let mut root = a.clone();
    assert_eq!(merge_peers(&mut root, vec![a.clone()], 1), Err(MergeError::NoSuchRank));
    assert_eq!(merge_peers(&mut root, vec![], 0), Err(MergeError::NoSuchRank));
    assert_eq!(root, a);
    assert_eq!(merge_peers(&mut root, vec![a.clone()], 0), Ok(()));
    assert_eq!(root, a);
}

#[test]
fn merge_peers_does_not_look_at_the_own_slot() {
    let domain = Domain { center_x2: 8, center_y2: 8, size: 8 };
    let other = Domain { center_x2: 8, center_y2: 8, size: 9 };
    let a = build_shard(domain, &[Body { id: 1, mass: 1, position: Point { x: 1, y: 1 } }]).unwrap();
    let b = build_shard(domain, &[Body { id: 2, mass: 2, position: Point { x: 2, y: 1 } }]).unwrap();
    let odd = build_shard(other, &[Body { id: 3, mass: u64::MAX, position: Point { x: 2, y: 1 } }])
        .unwrap();
    let mut root = a.clone();
    assert_eq!(merge_peers(&mut root, vec![odd.clone(), b.clone()], 0), Ok(()));
    assert_eq!(root.mass(), 3);
    let mut root = a.clone();
    assert_eq!(merge_peers(&mut root, vec![b, odd], 0), Err(MergeError::DomainMismatch));
    assert_eq!(root, a);
}
