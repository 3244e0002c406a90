//! The commitment store: an ordered log of commitments and the tree over it.
use crate::commitment::Commitment;
use crate::digest::{sha256_of, DIGEST_LEN};
use crate::error::AppError;
use crate::inclusion::{generate_proof, path_verifies, path_view, MerkleProof};
use crate::merkle::{leaf_digests, merkle_root, node_hashes, MerkleNode, MerkleTree};
use vstd::prelude::*;
use vstd::slice::slice_to_vec;

verus! {

/// The operations a commitment backend offers, over the ordered values it
/// has committed.
pub trait CommitmentStorage {
    /// The backend's own consistency condition, kept by every operation.
    spec fn inv(&self) -> bool;

    /// The committed values, in index order.
    spec fn committed_values(&self) -> Seq<Seq<u8>>;

    /// Appends `value` and returns its index and the root over all values;
    /// fails, changing nothing, only when the log is full.
    fn add_commitment(&mut self, value: Vec<u8>) -> (r: Result<(usize, Vec<u8>), AppError>)
        requires
            old(self).inv(),
        ensures
            final(self).inv(),
            r is Ok <==> old(self).committed_values().len() < usize::MAX,
            r is Err ==> final(self).committed_values() == old(self).committed_values(),
            r matches Ok((index, root)) ==> {
                &&& index == old(self).committed_values().len()
                &&& final(self).committed_values() == old(self).committed_values().push(value@)
                &&& root@ == merkle_root(final(self).committed_values())
            },
    ;

    /// The commitment at `index`; NotFound when there is none.
    fn get_commitment(&self, index: usize) -> (r: Result<Commitment, AppError>)
        requires
            self.inv(),
        ensures
            r is Ok <==> index < self.committed_values().len(),
            r matches Ok(c) ==> {
                &&& c.index == index
                &&& c.value@ == self.committed_values()[index as int]
                &&& c.merkle_root@ == merkle_root(self.committed_values().subrange(0, index + 1))
            },
            r matches Err(e) ==> e is NotFound,
    ;

    /// All commitments, in index order.
    fn get_all_commitments(&self) -> (r: Result<Vec<Commitment>, AppError>)
        requires
            self.inv(),
        ensures
            r matches Ok(v) && v@.len() == self.committed_values().len() && forall|i: int|
                0 <= i < v@.len() ==> {
                    &&& (#[trigger] v@[i]).index == i
                    &&& v@[i].value@ == self.committed_values()[i]
                    &&& v@[i].merkle_root@ == merkle_root(self.committed_values().subrange(0, i + 1))
                },
    ;

    /// A copy of the current tree, built over all values.
    fn get_tree(&self) -> (r: Result<MerkleTree, AppError>)
        requires
            self.inv(),
        ensures
            r matches Ok(t) && t.built_over(leaf_digests(self.committed_values())),
    ;

    /// The current root digest; NotFound while nothing is committed.
    fn get_root_hash(&self) -> (r: Result<Vec<u8>, AppError>)
        requires
            self.inv(),
        ensures
            r is Ok <==> self.committed_values().len() > 0,
            r matches Ok(h) ==> h@ == merkle_root(self.committed_values()) && h@.len() == DIGEST_LEN,
            r matches Err(e) ==> e is NotFound,
    ;

    /// Number of commitments.
    fn commitment_count(&self) -> (r: Result<usize, AppError>)
        requires
            self.inv(),
        ensures
            r matches Ok(n) && n == self.committed_values().len(),
    ;
}

/// Values of a sequence of commitments, in order.
pub open spec fn values_of(cs: Seq<Commitment>) -> Seq<Seq<u8>> {
    cs.map_values(|c: Commitment| c.value@)
}

/// An in-memory store. Mutation goes through `&mut self`, so the log and
/// the tree always change together.
pub struct MemoryStorage {
    commitments: Vec<Commitment>,
    tree: MerkleTree,
}

impl MemoryStorage {
    pub closed spec fn spec_commitments(self) -> Seq<Commitment> {
        self.commitments@
    }

    pub closed spec fn spec_tree(self) -> MerkleTree {
        self.tree
    }

    /// The committed values, in index order.
    pub open spec fn values(self) -> Seq<Seq<u8>> {
        values_of(self.spec_commitments())
    }

    /// Indices run 0, 1, 2, ...; each commitment holds the root over the
    /// values up to and including its own; the tree is the one over all
    /// values.
    pub open spec fn wf(self) -> bool {
        &&& forall|i: int|
            0 <= i < self.spec_commitments().len() ==> (#[trigger] self.spec_commitments()[i]).index
                == i
        &&& forall|i: int|
            0 <= i < self.spec_commitments().len() ==> (#[trigger] self.spec_commitments()[i]).merkle_root@
                == merkle_root(self.values().subrange(0, i + 1))
        &&& self.spec_tree().built_over(leaf_digests(self.values()))
    }

    /// An empty store.
    pub fn new() -> (r: Self)
        ensures
            r.wf(),
            r.spec_commitments().len() == 0,
    {
        let r = MemoryStorage { commitments: Vec::new(), tree: MerkleTree::new() };
        assert(leaf_digests(r.values()) =~= seq![]);
        r
    }

    /// Appends `value` as the next commitment and rebuilds the tree over all
    /// values. Fails only when the log is full.
    pub fn add_commitment(&mut self, value: Vec<u8>) -> (r: Result<(usize, Vec<u8>), AppError>)
        requires
            old(self).wf(),
        ensures
            final(self).wf(),
            r is Ok <==> old(self).spec_commitments().len() < usize::MAX,
            r is Err ==> r->Err_0 is Internal && *final(self) == *old(self),
            r matches Ok((index, root)) ==> {
                &&& index == old(self).spec_commitments().len()
                &&& root@ == merkle_root(old(self).values().push(value@))
                &&& final(self).spec_commitments().drop_last() == old(self).spec_commitments()
                &&& final(self).values() == old(self).values().push(value@)
            },
    {
        let index = self.commitments.len();
        if index == usize::MAX {
            return Err(AppError::Internal("commitment log is full".to_string()));
        }
        let ghost vals = self.values().push(value@);
        let mut leaves: Vec<MerkleNode> = Vec::new();
        let mut i: usize = 0;
        while i < self.commitments.len()
            invariant
                0 <= i <= self.commitments@.len(),
                leaves@.len() == i,
                forall|k: int| 0 <= k < i ==> (#[trigger] leaves@[k]).is_leaf_spec() && leaves@[k].hash@.len() == 32,
                node_hashes(leaves@) == leaf_digests(self.values()).subrange(0, i as int),
            decreases self.commitments@.len() - i,
        {
            let leaf = MerkleNode::new_leaf(self.commitments[i].value.as_slice());
            leaves.push(leaf);
            proof {
                assert(node_hashes(leaves@) =~= leaf_digests(self.values()).subrange(0, i + 1));
            }
            i = i + 1;
        }
        let ghost prefix = leaves@;
        proof {
            assert(leaf_digests(self.values()).subrange(0, i as int) =~= leaf_digests(self.values()));
        }
        leaves.push(MerkleNode::new_leaf(value.as_slice()));
        proof {
            assert(node_hashes(leaves@) =~= node_hashes(prefix).push(sha256_of(value@)));
            assert(node_hashes(leaves@) =~= leaf_digests(vals));
        }
        let tree = MerkleTree::from_leaves(leaves);
        let root_hash = match tree.root_hash() {
            Some(h) => h,
            None => {
                return Err(AppError::TreeBuildError("tree over a non-empty log has no root".to_string()));
            },
        };
        let ghost old_cs = self.commitments@;
        let commitment = Commitment::new(index, value, slice_to_vec(root_hash.as_slice()));
        self.commitments.push(commitment);
        self.tree = tree;
        proof {
            assert(self.commitments@.drop_last() =~= old_cs);
            assert(self.values() =~= vals);
            assert forall|k: int| 0 <= k < self.commitments@.len() implies
                (#[trigger] self.commitments@[k]).merkle_root@ == merkle_root(self.values().subrange(0, k + 1)) by {
                if k < old_cs.len() {
                    assert(self.values().subrange(0, k + 1) =~= values_of(old_cs).subrange(0, k + 1));
                } else {
                    assert(self.values().subrange(0, k + 1) =~= vals);
                }
            }
        }
        Ok((index, root_hash))
    }

    /// The commitment at `index`; NotFound when there is none.
    pub fn get_commitment(&self, index: usize) -> (r: Result<Commitment, AppError>)
        ensures
            r is Ok <==> index < self.spec_commitments().len(),
            r matches Ok(c) ==> c.same_as(self.spec_commitments()[index as int]),
            r matches Err(e) ==> e is NotFound,
    {
        if index < self.commitments.len() {
            Ok(self.commitments[index].copy())
        } else {
            Err(AppError::NotFound("no commitment at this index".to_string()))
        }
    }

    /// A snapshot of all commitments, in index order.
    pub fn get_all_commitments(&self) -> (r: Result<Vec<Commitment>, AppError>)
        ensures
            r matches Ok(v) && v@.len() == self.spec_commitments().len() && forall|i: int|
                0 <= i < v@.len() ==> (#[trigger] v@[i]).same_as(self.spec_commitments()[i]),
    {
        let mut out: Vec<Commitment> = Vec::new();
        let mut i: usize = 0;
        while i < self.commitments.len()
            invariant
                0 <= i <= self.commitments@.len(),
                out@.len() == i,
                forall|k: int| 0 <= k < i ==> (#[trigger] out@[k]).same_as(self.commitments@[k]),
            decreases self.commitments@.len() - i,
        {
            out.push(self.commitments[i].copy());
            i = i + 1;
        }
        Ok(out)
    }

    /// A snapshot of the current tree, which is built over all values.
    pub fn get_tree(&self) -> (r: Result<MerkleTree, AppError>)
        requires
            self.wf(),
        ensures
            r matches Ok(t) && t.built_over(leaf_digests(self.values())),
    {
        Ok(self.tree.duplicate())
    }

    /// The current root; NotFound while the store is empty.
    pub fn get_root_hash(&self) -> (r: Result<Vec<u8>, AppError>)
        requires
            self.wf(),
        ensures
            r is Ok <==> self.spec_commitments().len() > 0,
            r matches Ok(h) ==> h@ == merkle_root(self.values()) && h@.len() == DIGEST_LEN,
            r matches Err(e) ==> e is NotFound,
    {
        match self.tree.root_hash() {
            Some(h) => Ok(h),
            None => Err(AppError::NotFound("no root hash yet".to_string())),
        }
    }

    /// Number of commitments.
    pub fn commitment_count(&self) -> (r: Result<usize, AppError>)
        ensures
            r matches Ok(n) && n == self.spec_commitments().len(),
    {
        Ok(self.commitments.len())
    }

    /// An inclusion proof for the commitment at `index` against the current
    /// root; NotFound when there is none.
    pub fn get_proof(&self, index: usize) -> (r: Result<MerkleProof, AppError>)
        requires
            self.wf(),
        ensures
            r is Ok <==> index < self.spec_commitments().len(),
            r matches Err(e) ==> e is NotFound,
            r matches Ok(p) ==> {
                &&& p.index == index
                &&& p.value@ == self.values()[index as int]
                &&& p.root@ == merkle_root(self.values())
                &&& path_verifies(p.value@, path_view(p.proof@), p.root@)
            },
    {
        if index >= self.commitments.len() {
            return Err(AppError::NotFound("no commitment at this index".to_string()));
        }
        let root = match self.tree.root() {
            Some(n) => n,
            None => {
                return Err(AppError::NotFound("tree has no root".to_string()));
            },
        };
        let path = generate_proof(root, index, self.tree.leaf_count());
        proof {
            crate::inclusion::lemma_round_trip(self.tree, self.values(), index as int);
        }
        let value = slice_to_vec(self.commitments[index].value.as_slice());
        Ok(MerkleProof::new(index, value, path, slice_to_vec(root.hash.as_slice())))
    }
}

/// Indices are dense: the commitments of a well-formed store carry exactly
/// the indices 0, 1, ..., n - 1, in order.
pub proof fn lemma_indices_dense(s: MemoryStorage)
    requires
        s.wf(),
    ensures
        s.spec_commitments().map_values(|c: Commitment| c.index as int) == Seq::new(
            s.spec_commitments().len(),
            |i: int| i,
        ),
{
    assert(s.spec_commitments().map_values(|c: Commitment| c.index as int) =~= Seq::new(
        s.spec_commitments().len(),
        |i: int| i,
    ));
}

/// Indices in call order: along a run of adds from an empty store, where
/// add `j` takes `states[j]` to `states[j + 1]` by appending `values[j]`,
/// the store before add `j` holds exactly `values[0..j]`, so that add is
/// given index `j`: no gap, no reuse.
pub proof fn lemma_indices_in_call_order(states: Seq<MemoryStorage>, values: Seq<Seq<u8>>)
    requires
        states.len() == values.len() + 1,
        states[0].values().len() == 0,
        forall|j: int|
            0 <= j < values.len() ==> #[trigger] states[j + 1].values() == states[j].values().push(
                values[j],
            ),
    ensures
        forall|j: int| 0 <= j <= values.len() ==> #[trigger] states[j].values() == values.subrange(0, j),
        forall|j: int| 0 <= j < values.len() ==> #[trigger] states[j].values().len() == j,
    decreases values.len(),
{
    if values.len() > 0 {
        let k = values.len() - 1;
        lemma_indices_in_call_order(states.drop_last(), values.drop_last());
        assert forall|j: int| 0 <= j <= values.len() implies #[trigger] states[j].values()
            == values.subrange(0, j) by {
            if j < values.len() {
                assert(states.drop_last()[j] == states[j]);
                assert(values.drop_last().subrange(0, j) =~= values.subrange(0, j));
            } else {
                assert(states.drop_last()[k] == states[k]);
                assert(values.drop_last().subrange(0, k) =~= values.subrange(0, k));
                assert(states[k + 1].values() == states[k].values().push(values[k]));
                assert(values.subrange(0, k).push(values[k]) =~= values.subrange(0, j));
            }
        }
        assert forall|j: int| 0 <= j < values.len() implies #[trigger] states[j].values().len() == j by {
            assert(states[j].values() == values.subrange(0, j));
        }
    } else {
        assert(states[0].values() =~= values.subrange(0, 0));
    }
}

/// Snapshot consistency: in a well-formed store the tree's leaf count is
/// the number of commitments, and its root is the root over their values.
pub proof fn lemma_snapshot_consistent(s: MemoryStorage)
    requires
        s.wf(),
    ensures
        s.spec_tree().spec_leaf_count() == s.spec_commitments().len(),
        s.spec_commitments().len() > 0 ==> s.spec_tree().spec_root() is Some
            && s.spec_tree().spec_root()->0.hash@ == merkle_root(s.values()),
{
}

impl CommitmentStorage for MemoryStorage {
    open spec fn inv(&self) -> bool {
        self.wf()
    }

    open spec fn committed_values(&self) -> Seq<Seq<u8>> {
        self.values()
    }

    fn add_commitment(&mut self, value: Vec<u8>) -> Result<(usize, Vec<u8>), AppError> {
        MemoryStorage::add_commitment(self, value)
    }

    fn get_commitment(&self, index: usize) -> Result<Commitment, AppError> {
        MemoryStorage::get_commitment(self, index)
    }

    fn get_all_commitments(&self) -> Result<Vec<Commitment>, AppError> {
        MemoryStorage::get_all_commitments(self)
    }

    fn get_tree(&self) -> Result<MerkleTree, AppError> {
        MemoryStorage::get_tree(self)
    }

    fn get_root_hash(&self) -> Result<Vec<u8>, AppError> {
        MemoryStorage::get_root_hash(self)
    }

    fn commitment_count(&self) -> Result<usize, AppError> {
        MemoryStorage::commitment_count(self)
    }
}

} // verus!
