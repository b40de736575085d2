use n_body::body::Body;
use n_body::codec::CodecError;
use n_body::force::Theta;
use n_body::geometry::{Domain, Point};
use n_body::tree::TreeNode;

#[test]
fn words_of_an_empty_tree() {
    let tree = TreeNode::new(Domain { center_x2: 8, center_y2: 6, size: 4 });
    assert_eq!(tree.to_words(), vec![8, 6, 4, 0]);
}

#[test]
fn words_of_a_single_leaf() {
    let mut tree = TreeNode::new(Domain { center_x2: 8, center_y2: 8, size: 8 });
    tree.insert(&Body { id: 17, mass: 5, position: Point { x: 3, y: 4 } });
    assert_eq!(tree.to_words(), vec![8, 8, 8, 1, 17, 5, 3, 4]);
}

#[test]
fn words_of_two_leaves_in_two_quarters() {
    let mut tree = TreeNode::new(Domain { center_x2: 8, center_y2: 8, size: 8 });
    tree.insert(&Body { id: 1, mass: 5, position: Point { x: 1, y: 1 } });
    tree.insert(&Body { id: 2, mass: 6, position: Point { x: 7, y: 6 } });
    // North-east, north-west, south-east, south-west.
    assert_eq!(tree.to_words(), vec![8, 8, 8, 2, 1, 2, 6, 7, 6, 0, 0, 1, 1, 5, 1, 1]);
}

#[test]
fn words_of_two_leaves_in_one_quarter() {
    let mut tree = TreeNode::new(Domain { center_x2: 8, center_y2: 8, size: 8 });
    tree.insert(&Body { id: 1, mass: 5, position: Point { x: 0, y: 0 } });
    tree.insert(&Body { id: 2, mass: 6, position: Point { x: 3, y: 0 } });
    // Both lie south-west; one level down they are west and east.
    assert_eq!(
        tree.to_words(),
        vec![8, 8, 8, 2, 0, 0, 0, 2, 0, 0, 1, 2, 6, 3, 0, 1, 1, 5, 0, 0]
    );
}

#[test]
fn reading_words_gives_the_tree_back() {
    let mut tree = TreeNode::new(Domain { center_x2: 8, center_y2: 8, size: 8 });
    tree.insert(&Body { id: 1, mass: 5, position: Point { x: 0, y: 0 } });
    tree.insert(&Body { id: 2, mass: 6, position: Point { x: 3, y: 0 } });
    tree.insert(&Body { id: 3, mass: 7, position: Point { x: 8, y: 8 } });
    let back = TreeNode::from_words(&tree.to_words()).unwrap();
    assert_eq!(back, tree);
    assert_eq!(back.mass(), 18);
    assert_eq!(back.center_of_mass(), tree.center_of_mass());
}

#[test]
fn words_that_are_no_tree_are_refused() {
    let read = |w: Vec<u64>| TreeNode::from_words(&w);
    // Too short for a domain, or a domain and nothing behind it.
    assert_eq!(read(vec![]), None);
    assert_eq!(read(vec![8, 8]), None);
    assert_eq!(read(vec![8, 8, 8]), None);
    // A domain without a side, or beyond the lattice.
    assert_eq!(read(vec![8, 8, 0, 0]), None);
    assert_eq!(read(vec![8, 8, 1 << 32, 0]), None);
    assert_eq!(read(vec![1 << 33, 8, 8, 0]), None);
    assert_eq!(read(vec![8, 1 << 33, 8, 0]), None);
    // A tag that is none of the three.
    assert_eq!(read(vec![8, 8, 8, 3]), None);
    // Words left over.
    assert_eq!(read(vec![8, 8, 8, 0, 0]), None);
    assert_eq!(read(vec![8, 8, 8, 1, 17, 5, 3, 4, 0]), None);
    // A leaf cut short, without mass, beyond the lattice, outside the domain.
    assert_eq!(read(vec![8, 8, 8, 1, 17, 5, 3]), None);
    assert_eq!(read(vec![8, 8, 8, 1, 17, 0, 3, 4]), None);
    assert_eq!(read(vec![8, 8, 8, 1, 17, 5, 1 << 32, 4]), None);
    assert_eq!(read(vec![8, 8, 8, 1, 17, 5, 3, 1 << 32]), None);
    assert_eq!(read(vec![8, 8, 8, 1, 17, 5, 9, 4]), None);
    // An internal node cut short, with one leaf only, with none.
    assert_eq!(read(vec![8, 8, 8, 2, 0, 0, 0]), None);
    assert_eq!(read(vec![8, 8, 8, 2, 1, 2, 6, 7, 6, 0, 0, 0]), None);
    assert_eq!(read(vec![8, 8, 8, 2, 0, 0, 0, 0]), None);
    // A leaf in the wrong quarter: (1, 1) does not lie north-east.
    assert_eq!(read(vec![8, 8, 8, 2, 1, 1, 5, 1, 1, 0, 0, 1, 2, 6, 7, 6]), None);
    // Masses that add up beyond u64.
    assert_eq!(
        read(vec![8, 8, 8, 2, 1, 2, u64::MAX, 7, 6, 0, 0, 1, 1, 1, 1, 1]),
        None
    );
    // And the same words set right are read.
    assert!(read(vec![8, 8, 8, 2, 1, 2, 6, 7, 6, 0, 0, 1, 1, 5, 1, 1]).is_some());
    assert!(read(vec![8, 8, 8, 2, 1, 2, u64::MAX - 1, 7, 6, 0, 0, 1, 1, 1, 1, 1]).is_some());
}

#[test]
fn bytes_are_the_packed_words() {
    let mut tree = TreeNode::new(Domain { center_x2: 8, center_y2: 8, size: 8 });
    tree.insert(&Body { id: 1, mass: 5, position: Point { x: 1, y: 1 } });
    tree.insert(&Body { id: 2, mass: 6, position: Point { x: 7, y: 6 } });
    let bytes = tree.encode().unwrap();
    let words = tree.to_words();
    assert_eq!(bytes, bitcode::serialize(&words).unwrap());
    assert_eq!(bitcode::deserialize::<Vec<u64>>(&bytes).unwrap(), words);
    // Packed, sixteen small words take less room than sixteen times eight bytes.
    assert!(bytes.len() < words.len() * 8);
    assert!(!bytes.is_empty());
}

#[test]
fn round_trip_keeps_the_forces() {
    let mut tree = TreeNode::new(Domain { center_x2: 1024, center_y2: 1024, size: 1024 });
    for i in 0..30u32 {
        tree.insert(&Body {
            id: i as u64,
            mass: 1 + (i as u64 * 7) % 11,
            position: Point { x: (i * 173) % 600, y: (i * 59) % 300 },
        });
    }
    // Some quarters stay empty, some hold one body, some are split again.
    assert!(tree.depth() >= 3);
    let words = tree.to_words();
    assert!(words.iter().filter(|w| **w == 0).count() > 3);
    let bytes = tree.encode().unwrap();
    let back = TreeNode::decode(&bytes).unwrap();
    assert_eq!(back, tree);
    assert_eq!(back.to_words(), words);
    assert_eq!(back.mass(), tree.mass());
    assert_eq!(back.center_of_mass(), tree.center_of_mass());
    let probe = Body { id: 1000, mass: 3, position: Point { x: 900, y: 900 } };
    for theta in [Theta { num: 0, den: 1 }, Theta { num: 1, den: 2 }, Theta { num: 3, den: 1 }] {
        assert_eq!(back.force_terms(&probe, theta), tree.force_terms(&probe, theta));
    }
    let inside = Body { id: 4, mass: 3, position: Point { x: (4 * 173) % 600, y: (4 * 59) % 300 } };
    assert_eq!(
        back.force_terms(&inside, Theta { num: 1, den: 2 }),
        tree.force_terms(&inside, Theta { num: 1, den: 2 })
    );
}

#[test]
fn round_trip_of_an_empty_tree() {
    let tree = TreeNode::new(Domain { center_x2: 3, center_y2: 5, size: 7 });
    let back = TreeNode::decode(&tree.encode().unwrap()).unwrap();
    assert_eq!(back, tree);
    assert!(back.is_empty());
    assert_eq!(back.domain(), Domain { center_x2: 3, center_y2: 5, size: 7 });
}

#[test]
fn bytes_that_do_not_unpack_are_refused() {
    assert_eq!(TreeNode::decode(&[]), Err(CodecError::Packing));
    let mut tree = TreeNode::new(Domain { center_x2: 8, center_y2: 8, size: 8 });
    tree.insert(&Body { id: 1, mass: 5, position: Point { x: 1, y: 1 } });
    let bytes = tree.encode().unwrap();
    // Cut short, and with a byte too many.
    assert_eq!(TreeNode::decode(&bytes[..bytes.len() - 1]), Err(CodecError::Packing));
    let mut longer = bytes.clone();
    longer.push(0);
    assert_eq!(TreeNode::decode(&longer), Err(CodecError::Packing));
}

#[test]
fn bytes_that_unpack_into_no_tree_are_refused() {
    let no_root = bitcode::serialize(&vec![8u64, 8, 8]).unwrap();
    assert_eq!(TreeNode::decode(&no_root), Err(CodecError::Malformed));
    let bad_tag = bitcode::serialize(&vec![8u64, 8, 8, 9]).unwrap();
    assert_eq!(TreeNode::decode(&bad_tag), Err(CodecError::Malformed));
    let nothing = bitcode::serialize(&Vec::<u64>::new()).unwrap();
    assert_eq!(TreeNode::decode(&nothing), Err(CodecError::Malformed));
    let good = bitcode::serialize(&vec![8u64, 8, 8, 1, 17, 5, 3, 4]).unwrap();
    let tree = TreeNode::decode(&good).unwrap();
    assert_eq!(
        tree.get(Point { x: 3, y: 4 }),
        Some(Body { id: 17, mass: 5, position: Point { x: 3, y: 4 } })
    );
}
