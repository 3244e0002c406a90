use merkle_tree::digest::hash_value;
use merkle_tree::dto::{AddCommitmentRequest, AddCommitmentResponse, CommitmentResponse, ProofResponse, RootResponse};
use merkle_tree::{AppError, Commitment, CommitmentStorage, MemoryStorage, MerkleNode, MerkleTree};

#[test]
fn test_commitment_creation() {
    let value = vec![1, 2, 3, 4];
    let root = vec![5, 6, 7, 8];
    let commitment = Commitment::new(0, value.clone(), root.clone());

    assert_eq!(commitment.index(), 0);
    assert_eq!(commitment.value(), &value);
    assert_eq!(commitment.merkle_root(), &root);
}

#[test]
fn test_add_and_get_commitment() {
    let mut storage = MemoryStorage::new();
    let data = b"test data".to_vec();

    let (index, _root) = storage.add_commitment(data.clone()).unwrap();
    assert_eq!(index, 0);

    let commitment = storage.get_commitment(index).unwrap();
    assert_eq!(commitment.value, data);
}

#[test]
fn test_multiple_commitments() {
    let mut storage = MemoryStorage::new();

    for i in 0..5 {
        let data = format!("data{}", i).into_bytes();
        storage.add_commitment(data).unwrap();
    }

    let count = storage.commitment_count().unwrap();
    assert_eq!(count, 5);
}

#[test]
fn test_get_nonexistent_commitment() {
    let storage = MemoryStorage::new();
    let result = storage.get_commitment(999);
    assert!(result.is_err());
}

#[test]
fn empty_store_reports_not_found() {
    let storage = MemoryStorage::new();
    assert!(matches!(storage.get_root_hash(), Err(AppError::NotFound(_))));
    assert!(matches!(storage.get_commitment(0), Err(AppError::NotFound(_))));
    assert!(matches!(storage.get_proof(0), Err(AppError::NotFound(_))));
    assert_eq!(storage.commitment_count().unwrap(), 0);
    assert_eq!(storage.get_tree().unwrap().leaf_count(), 0);
}

#[test]
fn indices_are_assigned_in_order() {
    let mut storage = MemoryStorage::new();
    for i in 0..10usize {
        let (index, _) = storage.add_commitment(vec![i as u8]).unwrap();
        assert_eq!(index, i);
    }
    let all = storage.get_all_commitments().unwrap();
    let indices: Vec<usize> = all.iter().map(|c| c.index).collect();
    assert_eq!(indices, (0..10).collect::<Vec<usize>>());
}

#[test]
fn tree_leaf_count_matches_commitments() {
    let mut storage = MemoryStorage::new();
    for i in 0..7u8 {
        storage.add_commitment(vec![i, i]).unwrap();
        let tree = storage.get_tree().unwrap();
        let all = storage.get_all_commitments().unwrap();
        assert_eq!(tree.leaf_count(), all.len());
        assert_eq!(tree.root_hash().unwrap(), storage.get_root_hash().unwrap());
    }
}

#[test]
fn recorded_root_is_root_after_each_add() {
    let mut storage = MemoryStorage::new();
    let vals: Vec<Vec<u8>> = vec![b"p".to_vec(), b"q".to_vec(), b"r".to_vec()];
    for (i, v) in vals.iter().enumerate() {
        let (_, root) = storage.add_commitment(v.clone()).unwrap();
        let leaves: Vec<MerkleNode> = vals[..=i].iter().map(|x| MerkleNode::new_leaf(x)).collect();
        let expected = MerkleTree::from_leaves(leaves).root_hash().unwrap();
        assert_eq!(root, expected);
        assert_eq!(storage.get_commitment(i).unwrap().merkle_root, expected);
    }
    assert_eq!(storage.get_root_hash().unwrap(), storage.get_commitment(2).unwrap().merkle_root);
}

#[test]
fn store_proofs_verify_for_every_index() {
    let mut storage = MemoryStorage::new();
    for i in 0..7u8 {
        storage.add_commitment(vec![b'v', i]).unwrap();
    }
    for i in 0..7usize {
        let p = storage.get_proof(i).unwrap();
        assert_eq!(p.index, i);
        assert_eq!(p.value, vec![b'v', i as u8]);
        assert_eq!(p.root, storage.get_root_hash().unwrap());
        assert!(p.verify());
    }
    assert!(matches!(storage.get_proof(7), Err(AppError::NotFound(_))));
}

#[test]
fn store_works_through_the_trait() {
    fn add_two<S: CommitmentStorage>(s: &mut S) -> usize {
        s.add_commitment(b"one".to_vec()).unwrap();
        s.add_commitment(b"two".to_vec()).unwrap();
        s.commitment_count().unwrap()
    }
    let mut storage = MemoryStorage::new();
    assert_eq!(add_two(&mut storage), 2);
    assert_eq!(CommitmentStorage::get_commitment(&storage, 1).unwrap().value, b"two".to_vec());
}

#[test]
fn validation_rejects_empty_and_oversized() {
    assert!(AddCommitmentRequest { value: vec![] }.validate().is_err());
    assert!(AddCommitmentRequest { value: vec![0; 1_000_001] }.validate().is_err());
    assert!(AddCommitmentRequest { value: vec![0; 1_000_000] }.validate().is_ok());
    assert!(AddCommitmentRequest { value: vec![7] }.validate().is_ok());
}

#[test]
fn responses_carry_lowercase_hex() {
    let r = AddCommitmentResponse::new(3, vec![0x0a, 0xff, 0x00]);
    assert_eq!(r.index, 3);
    assert_eq!(r.merkle_root, "0aff00");
    assert_eq!(r.merkle_root_bytes, Some(vec![0x0a, 0xff, 0x00]));

    let c = CommitmentResponse::from_commitment(Commitment::new(1, vec![0xab], vec![0x12, 0x34]));
    assert_eq!(c.value_hex, "ab");
    assert_eq!(c.root_hex, "1234");
    assert_eq!(c.commitment.index, 1);

    let root = RootResponse::new(vec![0xde, 0xad], 2);
    assert_eq!(root.root, "dead");
    assert_eq!(root.commitment_count, 2);
}

#[test]
fn proof_response_hexes_each_sibling() {
    let mut storage = MemoryStorage::new();
    storage.add_commitment(b"a".to_vec()).unwrap();
    storage.add_commitment(b"b".to_vec()).unwrap();
    let p = storage.get_proof(0).unwrap();
    let resp = ProofResponse::from_proof(p.clone());
    assert_eq!(resp.proof_hex, vec![hex::encode(hash_value(b"b"))]);
    assert_eq!(resp.root_hex, hex::encode(&p.root));
}
