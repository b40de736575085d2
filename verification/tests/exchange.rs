use n_body::body::Body;
use n_body::exchange::{message_len, ExchangeError, ExchangePlan};
use n_body::geometry::{Domain, Point};
use n_body::codec::CodecError;
use n_body::pipeline::{absorb_peers, build_shard, merge_peers, MergeError, StepError};
use n_body::tree::TreeNode;

#[test]
fn message_len_is_the_length_where_it_fits() {
    assert_eq!(message_len(0), Some(0));
    assert_eq!(message_len(17), Some(17));
    assert_eq!(message_len(i32::MAX as usize), Some(i32::MAX));
    assert_eq!(message_len(i32::MAX as usize + 1), None);
    assert_eq!(message_len(usize::MAX), None);
}

#[test]
fn displacements_are_the_prefix_sums() {
    let plan = ExchangePlan::new(vec![5, 0, 7, 3]).unwrap();
    assert_eq!(plan.len(), 4);
    assert_eq!(plan.counts_ref(), &vec![5, 0, 7, 3]);
    assert_eq!(plan.displs_ref(), &vec![0, 5, 5, 12]);
    assert_eq!(plan.total_len(), 15);
    assert_eq!(plan.bounds(0), (0, 5));
    assert_eq!(plan.bounds(1), (5, 5));
    assert_eq!(plan.bounds(2), (5, 12));
    assert_eq!(plan.bounds(3), (12, 15));
}

#[test]
fn plan_of_no_process_is_empty() {
    let plan = ExchangePlan::new(vec![]).unwrap();
    assert_eq!(plan.len(), 0);
    assert_eq!(plan.total_len(), 0);
    assert_eq!(plan.displs_ref(), &Vec::<i32>::new());
}

#[test]
fn plan_refuses_a_negative_length() {
    assert_eq!(ExchangePlan::new(vec![5, -1, 7]).err(), Some(ExchangeError::NegativeLength));
    assert_eq!(
        ExchangePlan::new(vec![i32::MAX, i32::MAX, -1]).err(),
        Some(ExchangeError::NegativeLength)
    );
}

#[test]
fn plan_refuses_more_than_the_transport_takes() {
    assert_eq!(ExchangePlan::new(vec![i32::MAX, 1]).err(), Some(ExchangeError::TooLong));
    assert_eq!(ExchangePlan::new(vec![1 << 30, 1 << 30]).err(), Some(ExchangeError::TooLong));
    let plan = ExchangePlan::new(vec![1 << 30, (1 << 30) - 1, 0]).unwrap();
    assert_eq!(plan.total_len(), i32::MAX as usize);
    assert_eq!(plan.bounds(2), (i32::MAX as usize, i32::MAX as usize));
}

#[test]
fn peer_bytes_are_cut_from_the_buffer() {
    let plan = ExchangePlan::new(vec![2, 0, 3]).unwrap();
    let buffer: Vec<u8> = vec![10, 11, 20, 21, 22];
    assert_eq!(plan.peer_bytes(&buffer, 0), &[10, 11]);
    assert_eq!(plan.peer_bytes(&buffer, 1), &[] as &[u8]);
    assert_eq!(plan.peer_bytes(&buffer, 2), &[20, 21, 22]);
}

#[test]
fn trees_go_through_an_exchange() {
    let domain = Domain { center_x2: 100, center_y2: 100, size: 100 };
    let shards: Vec<Vec<Body>> = (0..3u32)
        .map(|rank| {
            (0..5u32)
                .map(|i| Body {
                    id: (rank * 5 + i) as u64,
                    mass: (1 + rank + i) as u64,
                    position: Point { x: (rank * 31 + i * 17) % 101, y: (rank * 7 + i * 23) % 101 },
                })
                .collect()
        })
        .collect();
    let local: Vec<TreeNode> = shards.iter().map(|s| build_shard(domain, s).unwrap()).collect();
    let encoded: Vec<Vec<u8>> = local.iter().map(|t| t.encode().unwrap()).collect();
    let counts: Vec<i32> = encoded.iter().map(|b| message_len(b.len()).unwrap()).collect();
    let plan = ExchangePlan::new(counts).unwrap();
    let buffer: Vec<u8> = encoded.concat();
    assert_eq!(buffer.len(), plan.total_len());
    let all: Vec<Body> = shards.concat();
    let whole = build_shard(domain, &all).unwrap();
    for rank in 0..3usize {
        let peers: Vec<TreeNode> = (0..plan.len())
            .map(|i| TreeNode::decode(plan.peer_bytes(&buffer, i)).unwrap())
            .collect();
        assert_eq!(peers, local);
        let mut root = local[rank].clone();
        assert_eq!(merge_peers(&mut root, peers, rank), Ok(()));
        assert_eq!(root.mass(), whole.mass());
        assert_eq!(root.len(), whole.len());
        assert_eq!(root.center_of_mass(), whole.center_of_mass());
        let mut again = local[rank].clone();
        assert_eq!(absorb_peers(&mut again, &plan, &buffer, rank), Ok(()));
        assert_eq!(again, root);
    }
}

fn one_body_tree(domain: Domain, id: u64, mass: u64, x: u32) -> TreeNode {
    build_shard(domain, &[Body { id, mass, position: Point { x, y: 1 } }]).unwrap()
}

#[test]
fn absorb_peers_refuses_a_buffer_of_the_wrong_length() {
    let domain = Domain { center_x2: 8, center_y2: 8, size: 8 };
    let a = one_body_tree(domain, 1, 1, 1);
    let bytes = a.encode().unwrap();
    let plan = ExchangePlan::new(vec![message_len(bytes.len()).unwrap()]).unwrap();
    let mut root = a.clone();
    let mut longer = bytes.clone();
    longer.push(0);
    assert_eq!(absorb_peers(&mut root, &plan, &longer, 0), Err(StepError::Frame));
    assert_eq!(absorb_peers(&mut root, &plan, &bytes[1..], 0), Err(StepError::Frame));
    assert_eq!(root, a);
    assert_eq!(absorb_peers(&mut root, &plan, &bytes, 0), Ok(()));
    assert_eq!(root, a);
}

#[test]
fn absorb_peers_refuses_bytes_that_are_no_tree() {
    let domain = Domain { center_x2: 8, center_y2: 8, size: 8 };
    let a = one_body_tree(domain, 1, 1, 1);
    let good = a.encode().unwrap();
    let no_tree = bitcode::serialize(&vec![8u64, 8, 8, 9]).unwrap();
    let junk: Vec<u8> = vec![];
    let mut root = a.clone();

    let plan = ExchangePlan::new(vec![good.len() as i32, no_tree.len() as i32]).unwrap();
    let buffer = [good.clone(), no_tree.clone()].concat();
    assert_eq!(
        absorb_peers(&mut root, &plan, &buffer, 0),
        Err(StepError::Decode(CodecError::Malformed))
    );
    // The own bytes are read as well, as those of every process are.
    let plan = ExchangePlan::new(vec![no_tree.len() as i32, good.len() as i32]).unwrap();
    let buffer = [no_tree.clone(), good.clone()].concat();
    assert_eq!(
        absorb_peers(&mut root, &plan, &buffer, 0),
        Err(StepError::Decode(CodecError::Malformed))
    );
    // The first that fails is reported.
    let plan = ExchangePlan::new(vec![good.len() as i32, 0, no_tree.len() as i32]).unwrap();
    let buffer = [good.clone(), junk, no_tree].concat();
    assert_eq!(
        absorb_peers(&mut root, &plan, &buffer, 0),
        Err(StepError::Decode(CodecError::Packing))
    );
    assert_eq!(root, a);
}

#[test]
fn absorb_peers_refuses_what_merge_peers_refuses() {
    let domain = Domain { center_x2: 8, center_y2: 8, size: 8 };
    let other = Domain { center_x2: 8, center_y2: 8, size: 9 };
    let a = one_body_tree(domain, 1, 1, 1);
    let b = one_body_tree(other, 2, 1, 2);
    let heavy = one_body_tree(domain, 3, u64::MAX, 3);
    let frame = |trees: &[&TreeNode]| -> (ExchangePlan, Vec<u8>) {
        let encoded: Vec<Vec<u8>> = trees.iter().map(|t| t.encode().unwrap()).collect();
        let counts: Vec<i32> = encoded.iter().map(|e| e.len() as i32).collect();
        (ExchangePlan::new(counts).unwrap(), encoded.concat())
    };
    let mut root = a.clone();
    let (plan, buffer) = frame(&[&a, &b]);
    assert_eq!(
        absorb_peers(&mut root, &plan, &buffer, 0),
        Err(StepError::Merge(MergeError::DomainMismatch))
    );
    assert_eq!(
        absorb_peers(&mut root, &plan, &buffer, 2),
        Err(StepError::Merge(MergeError::NoSuchRank))
    );
    let (plan, buffer) = frame(&[&a, &heavy]);
    assert_eq!(
        absorb_peers(&mut root, &plan, &buffer, 0),
        Err(StepError::Merge(MergeError::MassOverflow))
    );
    assert_eq!(root, a);
    let (plan, buffer) = frame(&[]);
    assert_eq!(
        absorb_peers(&mut root, &plan, &buffer, 0),
        Err(StepError::Merge(MergeError::NoSuchRank))
    );
}
