use merkle_tree::digest::{hash_pair, hash_value};
use merkle_tree::{generate_proof, MerkleNode, MerkleProof, MerkleTree, ProofElement};

fn proof_for(values: &[Vec<u8>], index: usize) -> MerkleProof {
    let leaves: Vec<MerkleNode> = values.iter().map(|v| MerkleNode::new_leaf(v)).collect();
    let tree = MerkleTree::from_leaves(leaves);
    let root = tree.root().unwrap();
    let path = generate_proof(root, index, tree.leaf_count());
    MerkleProof::new(index, values[index].clone(), path, root.hash.clone())
}

fn values(n: usize) -> Vec<Vec<u8>> {
    (0..n).map(|i| format!("value-{}", i).into_bytes()).collect()
}

#[test]
fn test_proof_generation_and_verification() {
    let leaves = vec![
        MerkleNode::new_leaf(b"data0"),
        MerkleNode::new_leaf(b"data1"),
        MerkleNode::new_leaf(b"data2"),
        MerkleNode::new_leaf(b"data3"),
    ];

    let tree = MerkleTree::from_leaves(leaves.clone());
    let root = tree.root().unwrap();

    let proof_elements = generate_proof(root, 2, 4);
    let proof = MerkleProof::new(2, b"data2".to_vec(), proof_elements, root.hash.clone());

    assert!(proof.verify());
}

#[test]
fn test_invalid_proof() {
    let leaves = vec![MerkleNode::new_leaf(b"data0"), MerkleNode::new_leaf(b"data1")];

    let tree = MerkleTree::from_leaves(leaves);
    let root = tree.root().unwrap();

    let proof_elements = generate_proof(root, 0, 2);
    let proof = MerkleProof::new(0, b"wrong_data".to_vec(), proof_elements, root.hash.clone());

    assert!(!proof.verify());
}

#[test]
fn test_proof_three_odd_commitments_all_indices() {
    let leaves = vec![
        MerkleNode::new_leaf(b"aaa"),
        MerkleNode::new_leaf(b"bbb"),
        MerkleNode::new_leaf(b"ccc"),
    ];
    let tree = MerkleTree::from_leaves(leaves.clone());
    let root = tree.root().unwrap();
    let proof0 = MerkleProof::new(0, b"aaa".to_vec(), generate_proof(root, 0, 3), root.hash.clone());
    assert!(proof0.verify());
    let proof1 = MerkleProof::new(1, b"bbb".to_vec(), generate_proof(root, 1, 3), root.hash.clone());
    assert!(proof1.verify());
    let proof2 = MerkleProof::new(2, b"ccc".to_vec(), generate_proof(root, 2, 3), root.hash.clone());
    assert!(proof2.verify());
}

#[test]
fn four_leaves_index_two_scenario() {
    let vals: Vec<Vec<u8>> = ["data0", "data1", "data2", "data3"]
        .iter()
        .map(|s| s.as_bytes().to_vec())
        .collect();
    let proof = proof_for(&vals, 2);
    assert_eq!(proof.proof.len(), 2);
    assert!(proof.verify());
    let wrong = MerkleProof::new(2, b"wrong_data".to_vec(), proof.proof.clone(), proof.root.clone());
    assert!(!wrong.verify());
}

#[test]
fn round_trip_every_index_up_to_nine_leaves() {
    for n in 1..=9 {
        let vals = values(n);
        for i in 0..n {
            assert!(proof_for(&vals, i).verify(), "n = {}, index = {}", n, i);
        }
    }
}

#[test]
fn odd_counts_verify_at_every_index() {
    for &n in &[1usize, 2, 3, 5, 7] {
        let vals = values(n);
        for i in 0..n {
            assert!(proof_for(&vals, i).verify(), "n = {}, index = {}", n, i);
        }
    }
}

#[test]
fn five_leaves_index_three_verifies() {
    let vals = values(5);
    let proof = proof_for(&vals, 3);
    assert_eq!(proof.proof.len(), 3);
    assert!(proof.verify());
}

#[test]
fn proof_length_is_tree_depth() {
    assert_eq!(proof_for(&values(1), 0).proof.len(), 0);
    assert_eq!(proof_for(&values(2), 1).proof.len(), 1);
    assert_eq!(proof_for(&values(3), 2).proof.len(), 2);
    assert_eq!(proof_for(&values(8), 7).proof.len(), 3);
    assert_eq!(proof_for(&values(9), 8).proof.len(), 4);
}

#[test]
fn flipped_value_byte_fails() {
    let vals = values(5);
    for i in 0..5 {
        let mut p = proof_for(&vals, i);
        p.value[0] ^= 1;
        assert!(!p.verify());
    }
}

#[test]
fn flipped_sibling_byte_fails() {
    let vals = values(6);
    let p = proof_for(&vals, 4);
    for k in 0..p.proof.len() {
        let mut q = p.clone();
        q.proof[k].hash[5] ^= 0x80;
        assert!(!q.verify());
    }
}

#[test]
fn swapped_side_flag_fails() {
    let vals = values(4);
    let p = proof_for(&vals, 1);
    for k in 0..p.proof.len() {
        let mut q = p.clone();
        q.proof[k].is_left = !q.proof[k].is_left;
        assert!(!q.verify());
    }
}

#[test]
fn other_root_fails() {
    let p = proof_for(&values(3), 0);
    let other = proof_for(&values(4), 0);
    let q = MerkleProof::new(p.index, p.value.clone(), p.proof.clone(), other.root.clone());
    assert!(!q.verify());
    let short = MerkleProof::new(p.index, p.value.clone(), p.proof.clone(), p.root[..31].to_vec());
    assert!(!short.verify());
}

#[test]
fn dropped_or_extra_element_fails() {
    let p = proof_for(&values(4), 3);
    let mut fewer = p.clone();
    fewer.proof.pop();
    assert!(!fewer.verify());
    let mut more = p.clone();
    more.proof.push(p.proof[0].clone());
    assert!(!more.verify());
}

#[test]
fn single_leaf_proof_is_empty_and_verifies() {
    let p = proof_for(&values(1), 0);
    assert!(p.proof.is_empty());
    assert!(p.verify());
}

#[test]
fn unpaired_leaf_sibling_is_its_own_digest() {
    let leaves = vec![
        MerkleNode::new_leaf(b"aaa"),
        MerkleNode::new_leaf(b"bbb"),
        MerkleNode::new_leaf(b"ccc"),
    ];
    let tree = MerkleTree::from_leaves(leaves);
    let path = generate_proof(tree.root().unwrap(), 2, 3);
    let expected = vec![
        ProofElement { hash: hash_value(b"ccc"), is_left: false },
        ProofElement { hash: hash_pair(&hash_value(b"aaa"), &hash_value(b"bbb")), is_left: true },
    ];
    assert_eq!(path, expected);
}

#[test]
fn five_leaves_padded_siblings() {
    let names: [&[u8]; 5] = [b"data0", b"data1", b"data2", b"data3", b"data4"];
    let leaves: Vec<MerkleNode> = names.iter().map(|v| MerkleNode::new_leaf(v)).collect();
    let tree = MerkleTree::from_leaves(leaves);
    let l: Vec<Vec<u8>> = names.iter().map(|v| hash_value(v)).collect();
    let p44 = hash_pair(&l[4], &l[4]);
    let path = generate_proof(tree.root().unwrap(), 3, 5);
    let expected = vec![
        ProofElement { hash: l[2].clone(), is_left: true },
        ProofElement { hash: hash_pair(&l[0], &l[1]), is_left: true },
        ProofElement { hash: hash_pair(&p44, &p44), is_left: false },
    ];
    assert_eq!(path, expected);
}
