//! Inclusion proofs: generation from a tree and self-contained verification.
use crate::digest::{combine_spec, hash_pair, hash_value, sha256_of};
use crate::merkle::{leaf_digests, sibling_path, MerkleNode, MerkleTree};
use vstd::prelude::*;
use vstd::slice::slice_to_vec;

verus! {

/// One step of a proof path: a sibling digest and the side it sits on.
#[derive(Debug, Clone, PartialEq, Eq)]
pub struct ProofElement {
    /// Digest of the sibling node.
    pub hash: Vec<u8>,
    /// True when the sibling is the left operand at this level.
    pub is_left: bool,
}

impl View for ProofElement {
    type V = (Seq<u8>, bool);

    open spec fn view(&self) -> (Seq<u8>, bool) {
        (self.hash@, self.is_left)
    }
}

/// The abstract path of a sequence of proof elements.
pub open spec fn path_view(elems: Seq<ProofElement>) -> Seq<(Seq<u8>, bool)> {
    elems.map_values(|e: ProofElement| e@)
}

/// Combines the running digest with one sibling, on the side it names.
pub open spec fn step(current: Seq<u8>, e: (Seq<u8>, bool)) -> Seq<u8> {
    if e.1 {
        combine_spec(e.0, current)
    } else {
        combine_spec(current, e.0)
    }
}

/// The digest reached from `start` by applying the path from its first element.
pub open spec fn fold_path(start: Seq<u8>, path: Seq<(Seq<u8>, bool)>) -> Seq<u8>
    decreases path.len(),
{
    if path.len() == 0 {
        start
    } else {
        step(fold_path(start, path.drop_last()), path.last())
    }
}

/// A proof of `value` along `path` checks out against `root`.
pub open spec fn path_verifies(value: Seq<u8>, path: Seq<(Seq<u8>, bool)>, root: Seq<u8>) -> bool {
    fold_path(sha256_of(value), path) == root
}

/// Folding the sibling path of any leaf position from that leaf's digest
/// gives the node's digest.
pub proof fn lemma_sibling_path_folds(node: MerkleNode, idx: int)
    requires
        node.wf(),
        0 <= idx < node.frontier().len(),
    ensures
        fold_path(node.frontier()[idx], sibling_path(node, idx)) == node.hash@,
    decreases node,
{
    match (node.left, node.right) {
        (Some(l), Some(r)) => {
            let half = l.frontier().len() as int;
            if idx < half {
                lemma_sibling_path_folds(*l, idx);
                assert(sibling_path(node, idx).drop_last() == sibling_path(*l, idx));
            } else {
                lemma_sibling_path_folds(*r, idx - half);
                assert(sibling_path(node, idx).drop_last() == sibling_path(*r, idx - half));
            }
        },
        _ => {
            assert(node.frontier() =~= seq![node.hash@]);
        },
    }
}

/// Two to the power `k`.
pub open spec fn pow2(k: nat) -> nat
    decreases k,
{
    if k == 0 {
        1
    } else {
        2 * pow2((k - 1) as nat)
    }
}

/// A sibling path has one element per level: two to the power of its
/// length is the node's width.
pub proof fn lemma_sibling_path_length(node: MerkleNode, idx: int)
    requires
        node.wf(),
        0 <= idx < node.frontier().len(),
    ensures
        pow2(sibling_path(node, idx).len()) == node.frontier().len(),
    decreases node,
{
    match (node.left, node.right) {
        (Some(l), Some(r)) => {
            let half = l.frontier().len() as int;
            if idx < half {
                lemma_sibling_path_length(*l, idx);
            } else {
                lemma_sibling_path_length(*r, idx - half);
            }
        },
        _ => {},
    }
}

/// A complete, self-contained inclusion proof.
#[derive(Debug, Clone)]
pub struct MerkleProof {
    /// Position of the proved value.
    pub index: usize,
    /// The proved value.
    pub value: Vec<u8>,
    /// Sibling digests from the leaf level up to just below the root.
    pub proof: Vec<ProofElement>,
    /// The root the path must reach.
    pub root: Vec<u8>,
}

impl MerkleProof {
    /// Assembles a proof from its parts.
    pub fn new(index: usize, value: Vec<u8>, proof: Vec<ProofElement>, root: Vec<u8>) -> (r: Self)
        ensures
            r.index == index,
            r.value@ == value@,
            path_view(r.proof@) == path_view(proof@),
            r.root@ == root@,
    {
        MerkleProof { index, value, proof, root }
    }

    /// Whether folding the path from the value's digest reaches the root.
    pub fn verify(&self) -> (r: bool)
        ensures
            r == path_verifies(self.value@, path_view(self.proof@), self.root@),
    {
        let ghost path = path_view(self.proof@);
        let mut current = hash_value(self.value.as_slice());
        let mut i: usize = 0;
        while i < self.proof.len()
            invariant
                path == path_view(self.proof@),
                0 <= i <= self.proof@.len(),
                current@ == fold_path(sha256_of(self.value@), path.subrange(0, i as int)),
            decreases self.proof@.len() - i,
        {
            let e = &self.proof[i];
            if e.is_left {
                current = hash_pair(e.hash.as_slice(), current.as_slice());
            } else {
                current = hash_pair(current.as_slice(), e.hash.as_slice());
            }
            proof {
                assert(path.subrange(0, i + 1).drop_last() =~= path.subrange(0, i as int));
            }
            i = i + 1;
        }
        proof {
            assert(path.subrange(0, path.len() as int) =~= path);
        }
        crate::digest::bytes_equal(current.as_slice(), self.root.as_slice())
    }
}

proof fn lemma_width_even(node: MerkleNode)
    requires
        node.wf(),
        !node.is_leaf_spec(),
    ensures
        node.frontier().len() % 2 == 0,
{
    match (node.left, node.right) {
        (Some(l), Some(r)) => {
            assert(node.frontier() == l.frontier() + r.frontier());
        },
        _ => {},
    }
}

fn span(node: &MerkleNode) -> (r: usize)
    requires
        node.wf(),
        node.frontier().len() <= usize::MAX,
    ensures
        r == node.frontier().len(),
    decreases node,
{
    match &node.left {
        Some(l) => {
            let h = span(l);
            h + h
        },
        None => 1,
    }
}

fn path_from(node: &MerkleNode, idx: usize, half: usize) -> (r: Vec<ProofElement>)
    requires
        node.wf(),
        idx < node.frontier().len(),
        !node.is_leaf_spec() ==> node.frontier().len() == 2 * half,
    ensures
        path_view(r@) == sibling_path(*node, idx as int),
    decreases node,
{
    match (&node.left, &node.right) {
        (Some(l), Some(r)) => {
            proof {
                assert(l.frontier().len() == half);
                if !l.is_leaf_spec() {
                    lemma_width_even(**l);
                }
                if !r.is_leaf_spec() {
                    lemma_width_even(**r);
                }
            }
            if idx < half {
                let mut p = path_from(l, idx, half / 2);
                let ghost before = p@;
                p.push(ProofElement { hash: slice_to_vec(r.hash.as_slice()), is_left: false });
                proof {
                    assert(path_view(p@) =~= path_view(before).push((r.hash@, false)));
                }
                p
            } else {
                let mut p = path_from(r, idx - half, half / 2);
                let ghost before = p@;
                p.push(ProofElement { hash: slice_to_vec(l.hash.as_slice()), is_left: true });
                proof {
                    assert(path_view(p@) =~= path_view(before).push((l.hash@, true)));
                }
                p
            }
        },
        _ => {
            let p: Vec<ProofElement> = Vec::new();
            assert(path_view(p@) =~= seq![]);
            p
        },
    }
}

/// The sibling path for leaf `target_index` of the tree rooted at `tree`,
/// built from `total_leaves` leaves. An index outside the leaves, or a leaf
/// count the tree was not built from, is a caller error ruled out by the
/// precondition.
pub fn generate_proof(tree: &MerkleNode, target_index: usize, total_leaves: usize) -> (r: Vec<ProofElement>)
    requires
        tree.wf(),
        target_index < total_leaves,
        total_leaves <= tree.frontier().len() < 2 * total_leaves,
    ensures
        path_view(r@) == sibling_path(*tree, target_index as int),
        pow2(r@.len()) == tree.frontier().len(),
{
    proof {
        lemma_sibling_path_length(*tree, target_index as int);
    }
    match &tree.left {
        Some(l) => {
            let half = span(l);
            path_from(tree, target_index, half)
        },
        None => path_from(tree, target_index, 0),
    }
}

/// Round trip: in a tree built over the digests of `values`, the sibling
/// path of every position proves the value at that position against the
/// tree's root.
pub proof fn lemma_round_trip(tree: MerkleTree, values: Seq<Seq<u8>>, i: int)
    requires
        tree.built_over(leaf_digests(values)),
        0 <= i < values.len(),
    ensures
        tree.spec_root() is Some,
        path_verifies(values[i], sibling_path(tree.spec_root()->0, i), tree.spec_root()->0.hash@),
{
    let root = tree.spec_root()->0;
    let hs = leaf_digests(values);
    assert(root.frontier().subrange(0, hs.len() as int)[i] == root.frontier()[i]);
    lemma_sibling_path_folds(root, i);
}

/// A path that proves a value against one root proves it against no other.
pub proof fn lemma_other_root_rejected(
    value: Seq<u8>,
    path: Seq<(Seq<u8>, bool)>,
    root: Seq<u8>,
    other: Seq<u8>,
)
    requires
        path_verifies(value, path, root),
        other != root,
    ensures
        !path_verifies(value, path, other),
{
}

/// The digest has no collisions. SHA-256 is only believed to behave so on
/// the inputs anyone can find; the laws below that need it take it as a
/// hypothesis.
pub open spec fn digest_injective() -> bool {
    forall|a: Seq<u8>, b: Seq<u8>| #[trigger] sha256_of(a) == #[trigger] sha256_of(b) ==> a == b
}

proof fn lemma_concat_cancel(a: Seq<u8>, b: Seq<u8>, c: Seq<u8>, d: Seq<u8>)
    requires
        a + b == c + d,
        a.len() == c.len(),
    ensures
        a == c,
        b == d,
{
    assert(a =~= (a + b).subrange(0, a.len() as int));
    assert(c =~= (c + d).subrange(0, c.len() as int));
    assert(b =~= (a + b).subrange(a.len() as int, (a + b).len() as int));
    assert(d =~= (c + d).subrange(c.len() as int, (c + d).len() as int));
}

/// Under a collision-free digest, folding a path is one-to-one in its
/// starting digest.
proof fn lemma_fold_injective(x: Seq<u8>, y: Seq<u8>, path: Seq<(Seq<u8>, bool)>)
    requires
        digest_injective(),
        fold_path(x, path) == fold_path(y, path),
    ensures
        x == y,
    decreases path.len(),
{
    if path.len() > 0 {
        let e = path.last();
        let fx = fold_path(x, path.drop_last());
        let fy = fold_path(y, path.drop_last());
        if e.1 {
            assert(sha256_of(e.0 + fx) == sha256_of(e.0 + fy));
            lemma_concat_cancel(e.0, fx, e.0, fy);
        } else {
            assert(sha256_of(fx + e.0) == sha256_of(fy + e.0));
            assert((fx + e.0).len() == (fy + e.0).len());
            lemma_concat_cancel(fx, e.0, fy, e.0);
        }
        lemma_fold_injective(x, y, path.drop_last());
    }
}

/// Tamper detection for the value: under a collision-free digest, a path
/// that proves one value against a root proves no other value against it.
pub proof fn lemma_changed_value_rejected(
    value: Seq<u8>,
    other: Seq<u8>,
    path: Seq<(Seq<u8>, bool)>,
    root: Seq<u8>,
)
    requires
        digest_injective(),
        path_verifies(value, path, root),
        other != value,
    ensures
        !path_verifies(other, path, root),
{
    if path_verifies(other, path, root) {
        lemma_fold_injective(sha256_of(value), sha256_of(other), path);
    }
}

/// Tamper detection for a sibling: under a collision-free digest, replacing
/// the digest of element `k` by a different one of the same length, side
/// kept, makes a proof that held fail.
pub proof fn lemma_changed_sibling_rejected(
    value: Seq<u8>,
    path: Seq<(Seq<u8>, bool)>,
    root: Seq<u8>,
    k: int,
    hash: Seq<u8>,
)
    requires
        digest_injective(),
        path_verifies(value, path, root),
        0 <= k < path.len(),
        hash != path[k].0,
        hash.len() == path[k].0.len(),
    ensures
        !path_verifies(value, path.update(k, (hash, path[k].1)), root),
{
    lemma_fold_differs(sha256_of(value), path, k, hash);
}

proof fn lemma_fold_differs(start: Seq<u8>, path: Seq<(Seq<u8>, bool)>, k: int, hash: Seq<u8>)
    requires
        digest_injective(),
        0 <= k < path.len(),
        hash != path[k].0,
        hash.len() == path[k].0.len(),
    ensures
        fold_path(start, path.update(k, (hash, path[k].1))) != fold_path(start, path),
    decreases path.len(),
{
    let p2 = path.update(k, (hash, path[k].1));
    let m = path.len() - 1;
    let fx = fold_path(start, path.drop_last());
    let fy = fold_path(start, p2.drop_last());
    let e = path.last();
    let e2 = p2.last();
    if k == m {
        assert(p2.drop_last() =~= path.drop_last());
        if fold_path(start, p2) == fold_path(start, path) {
            if e.1 {
                assert(sha256_of(e2.0 + fy) == sha256_of(e.0 + fx));
                lemma_concat_cancel(e2.0, fy, e.0, fx);
            } else {
                assert(sha256_of(fy + e2.0) == sha256_of(fx + e.0));
                lemma_concat_cancel(fy, e2.0, fx, e.0);
            }
        }
    } else {
        assert(p2.drop_last() =~= path.drop_last().update(k, (hash, path[k].1)));
        lemma_fold_differs(start, path.drop_last(), k, hash);
        assert(e2 == e);
        if fold_path(start, p2) == fold_path(start, path) {
            if e.1 {
                assert(sha256_of(e.0 + fy) == sha256_of(e.0 + fx));
                lemma_concat_cancel(e.0, fy, e.0, fx);
            } else {
                assert(sha256_of(fy + e.0) == sha256_of(fx + e.0));
                assert((fy + e.0).len() == (fx + e.0).len());
                lemma_concat_cancel(fy, e.0, fx, e.0);
            }
        }
    }
}

proof fn lemma_fold_append(start: Seq<u8>, a: Seq<(Seq<u8>, bool)>, b: Seq<(Seq<u8>, bool)>)
    ensures
        fold_path(start, a + b) == fold_path(fold_path(start, a), b),
    decreases b.len(),
{
    if b.len() > 0 {
        lemma_fold_append(start, a, b.drop_last());
        assert((a + b).drop_last() =~= a + b.drop_last());
    } else {
        assert(a + b =~= a);
    }
}

/// Tamper detection for a side flag: under a collision-free digest,
/// swapping the side of element `k` makes a proof that held fail, provided
/// that sibling is not the running digest itself (a node paired with
/// itself reads the same from either side).
pub proof fn lemma_swapped_side_rejected(
    value: Seq<u8>,
    path: Seq<(Seq<u8>, bool)>,
    root: Seq<u8>,
    k: int,
)
    requires
        digest_injective(),
        path_verifies(value, path, root),
        0 <= k < path.len(),
        path[k].0 != fold_path(sha256_of(value), path.subrange(0, k)),
        path[k].0.len() == fold_path(sha256_of(value), path.subrange(0, k)).len(),
    ensures
        !path_verifies(value, path.update(k, (path[k].0, !path[k].1)), root),
{
    let s = sha256_of(value);
    let e = path[k];
    let e2 = (e.0, !e.1);
    let p2 = path.update(k, e2);
    let a = path.subrange(0, k);
    let b = path.subrange(k + 1, path.len() as int);
    let x = fold_path(s, a);
    assert(path =~= a.push(e) + b);
    assert(p2 =~= a.push(e2) + b);
    assert(a.push(e).drop_last() =~= a);
    assert(a.push(e2).drop_last() =~= a);
    lemma_fold_append(s, a.push(e), b);
    lemma_fold_append(s, a.push(e2), b);
    let y1 = fold_path(s, a.push(e));
    let y2 = fold_path(s, a.push(e2));
    if y1 == y2 {
        if e.1 {
            assert(sha256_of(e.0 + x) == sha256_of(x + e.0));
        } else {
            assert(sha256_of(x + e.0) == sha256_of(e.0 + x));
        }
        assert(e.0 + x == x + e.0);
        lemma_concat_cancel(e.0, x, x, e.0);
    }
    if path_verifies(value, p2, root) {
        lemma_fold_injective(y1, y2, b);
    }
}

/// Determinism: `MerkleTree::from_leaves` yields a tree built over the
/// leaves' digests, and two trees built over the same leaf digests have the
/// same leaf count, the same root and the same sibling paths.
pub proof fn lemma_build_deterministic(a: MerkleTree, b: MerkleTree, hs: Seq<Seq<u8>>)
    requires
        a.built_over(hs),
        b.built_over(hs),
    ensures
        a.spec_leaf_count() == b.spec_leaf_count(),
        a.spec_root() is Some <==> b.spec_root() is Some,
        a.spec_root() is Some ==> a.spec_root()->0.hash@ == b.spec_root()->0.hash@,
        forall|i: int|
            0 <= i < hs.len() ==> #[trigger] sibling_path(a.spec_root()->0, i) == sibling_path(
                b.spec_root()->0,
                i,
            ),
{
}

} // verus!
