//! Merkle nodes and trees, built level by level with odd-node duplication.
use crate::digest::{combine_spec, hash_pair, hash_value, sha256_of, DIGEST_LEN};
use vstd::arithmetic::div_mod::{lemma_fundamental_div_mod, lemma_fundamental_div_mod_converse};
use vstd::prelude::*;
use vstd::slice::slice_to_vec;

verus! {

/// A node of a Merkle tree: a leaf (no children) or an internal node with
/// exactly two children whose digests it combines.
pub struct MerkleNode {
    pub hash: Vec<u8>,
    pub left: Option<Box<MerkleNode>>,
    pub right: Option<Box<MerkleNode>>,
}

/// Digests of a sequence of nodes, in order.
pub open spec fn node_hashes(nodes: Seq<MerkleNode>) -> Seq<Seq<u8>> {
    nodes.map_values(|n: MerkleNode| n.hash@)
}

/// Leaf digests of a sequence of raw values, in order.
pub open spec fn leaf_digests(values: Seq<Seq<u8>>) -> Seq<Seq<u8>> {
    values.map_values(|v: Seq<u8>| sha256_of(v))
}

/// One level up: consecutive pairs are combined, and an unpaired last digest
/// is combined with itself.
pub open spec fn parent_level(hs: Seq<Seq<u8>>) -> Seq<Seq<u8>> {
    Seq::new(
        ((hs.len() + 1) / 2) as nat,
        |j: int|
            combine_spec(
                hs[2 * j],
                if 2 * j + 1 < hs.len() {
                    hs[2 * j + 1]
                } else {
                    hs[2 * j]
                },
            ),
    )
}

/// The root digest reached by combining levels until one digest remains.
pub open spec fn root_of(hs: Seq<Seq<u8>>) -> Seq<u8>
    decreases hs.len(),
{
    if hs.len() <= 1 {
        hs[0]
    } else {
        root_of(parent_level(hs))
    }
}

/// Root digest of the tree over `values`.
pub open spec fn merkle_root(values: Seq<Seq<u8>>) -> Seq<u8> {
    root_of(leaf_digests(values))
}

/// The sibling path from leaf position `idx` of `node` up to `node`, leaf
/// level first.
pub open spec fn sibling_path(node: MerkleNode, idx: int) -> Seq<(Seq<u8>, bool)>
    decreases node,
{
    match (node.left, node.right) {
        (Some(l), Some(r)) => {
            let half = l.frontier().len() as int;
            if idx < half {
                sibling_path(*l, idx).push((r.hash@, false))
            } else {
                sibling_path(*r, idx - half).push((l.hash@, true))
            }
        },
        _ => seq![],
    }
}

/// The sibling path of position `i` read off the levels over `hs`, leaf
/// level first: at each level the neighbour of the node on the path, or the
/// node itself when it is an unpaired last node.
pub open spec fn level_path(hs: Seq<Seq<u8>>, i: int) -> Seq<(Seq<u8>, bool)>
    decreases hs.len(),
{
    if hs.len() <= 1 {
        seq![]
    } else {
        seq![level_sibling(hs, i)] + level_path(parent_level(hs), i / 2)
    }
}

/// The neighbour of position `i` within one level, with its side.
pub open spec fn level_sibling(hs: Seq<Seq<u8>>, i: int) -> (Seq<u8>, bool) {
    if i % 2 == 1 {
        (hs[i - 1], true)
    } else if i + 1 < hs.len() {
        (hs[i + 1], false)
    } else {
        (hs[i], false)
    }
}

/// Concatenation of the frontiers of a sequence of nodes.
pub open spec fn flat(nodes: Seq<MerkleNode>) -> Seq<Seq<u8>>
    decreases nodes.len(),
{
    if nodes.len() == 0 {
        seq![]
    } else {
        flat(nodes.drop_last()) + nodes.last().frontier()
    }
}

impl MerkleNode {
    pub open spec fn is_leaf_spec(self) -> bool {
        self.left is None && self.right is None
    }

    /// Leaf digests under this node, left to right; a subtree that was paired
    /// with itself contributes its leaves twice.
    pub open spec fn frontier(self) -> Seq<Seq<u8>>
        decreases self,
    {
        match (self.left, self.right) {
            (Some(l), Some(r)) => l.frontier() + r.frontier(),
            _ => seq![self.hash@],
        }
    }

    /// Every internal node has two children of equal width and the digest
    /// of their digests.
    pub open spec fn wf(self) -> bool
        decreases self,
    {
        match (self.left, self.right) {
            (None, None) => self.hash@.len() == DIGEST_LEN,
            (Some(l), Some(r)) => {
                &&& l.wf()
                &&& r.wf()
                &&& l.frontier().len() == r.frontier().len()
                &&& self.hash@ == combine_spec(l.hash@, r.hash@)
                &&& self.hash@.len() == DIGEST_LEN
            },
            _ => false,
        }
    }

    /// A leaf holding the digest of `data`.
    pub fn new_leaf(data: &[u8]) -> (r: Self)
        ensures
            r.hash@ == sha256_of(data@),
            r.hash@.len() == DIGEST_LEN,
            r.is_leaf_spec(),
            r.wf(),
            r.frontier() == seq![sha256_of(data@)],
    {
        MerkleNode { hash: hash_value(data), left: None, right: None }
    }

    /// The parent of `left` and `right`, holding the digest of their digests.
    pub fn new_parent(left: MerkleNode, right: MerkleNode) -> (r: Self)
        ensures
            r.hash@ == combine_spec(left.hash@, right.hash@),
            r.hash@.len() == DIGEST_LEN,
            r.left == Some(Box::new(left)),
            r.right == Some(Box::new(right)),
            r.frontier() == left.frontier() + right.frontier(),
            (left.wf() && right.wf() && left.frontier().len() == right.frontier().len())
                ==> r.wf(),
    {
        let hash = hash_pair(left.hash.as_slice(), right.hash.as_slice());
        MerkleNode { hash, left: Some(Box::new(left)), right: Some(Box::new(right)) }
    }

    /// This node's digest.
    pub fn root_hash(&self) -> (r: &[u8])
        ensures
            r@ == self.hash@,
    {
        self.hash.as_slice()
    }

    /// Whether this node has no children.
    pub fn is_leaf(&self) -> (r: bool)
        ensures
            r == self.is_leaf_spec(),
    {
        self.left.is_none() && self.right.is_none()
    }

    /// A deep copy of this node.
    pub fn duplicate(&self) -> (r: Self)
        ensures
            r.hash@ == self.hash@,
            r.frontier() == self.frontier(),
            r.wf() == self.wf(),
            r.is_leaf_spec() == self.is_leaf_spec(),
            forall|i: int| #[trigger] sibling_path(r, i) == sibling_path(*self, i),
        decreases self,
    {
        let hash = slice_to_vec(self.hash.as_slice());
        let left = match &self.left {
            Some(l) => Some(Box::new(l.duplicate())),
            None => None,
        };
        let right = match &self.right {
            Some(r) => Some(Box::new(r.duplicate())),
            None => None,
        };
        let r = MerkleNode { hash, left, right };
        proof {
            assert forall|i: int| #[trigger] sibling_path(r, i) == sibling_path(*self, i) by {
                match (self.left, self.right) {
                    (Some(a), Some(b)) => {
                        assert(sibling_path(*r.left->0, i) == sibling_path(*a, i));
                        assert(sibling_path(*r.right->0, i - a.frontier().len()) == sibling_path(
                            *b,
                            i - a.frontier().len(),
                        ));
                    },
                    _ => {},
                }
            }
        }
        r
    }
}


proof fn lemma_flat_push(s: Seq<MerkleNode>, x: MerkleNode)
    ensures
        flat(s.push(x)) == flat(s) + x.frontier(),
{
    assert(s.push(x).drop_last() =~= s);
}

proof fn lemma_flat_leaves(s: Seq<MerkleNode>)
    requires
        forall|i: int| 0 <= i < s.len() ==> (#[trigger] s[i]).is_leaf_spec(),
    ensures
        flat(s) == node_hashes(s),
    decreases s.len(),
{
    if s.len() > 0 {
        lemma_flat_leaves(s.drop_last());
        assert(node_hashes(s) =~= node_hashes(s.drop_last()).push(s.last().hash@));
        assert(s.last().frontier() =~= seq![s.last().hash@]);
    } else {
        assert(node_hashes(s) =~= seq![]);
    }
}

proof fn lemma_flat_len(s: Seq<MerkleNode>, w: nat)
    requires
        forall|i: int| 0 <= i < s.len() ==> (#[trigger] s[i]).frontier().len() == w,
    ensures
        flat(s).len() == s.len() * w,
    decreases s.len(),
{
    if s.len() > 0 {
        lemma_flat_len(s.drop_last(), w);
        assert(s.len() * w == (s.len() - 1) * w + w) by (nonlinear_arith);
    }
}

/// Position in `cur` of the right child of parent `k`: the next node, or
/// the left child itself when it is the unpaired last node.
spec fn pair_right(len: int, k: int) -> int {
    if 2 * k + 1 < len {
        2 * k + 1
    } else {
        2 * k
    }
}

/// Sibling path of offset `t` in parent `k` of level `cur`, whose nodes are
/// `w` wide.
spec fn child_path(cur: Seq<MerkleNode>, k: int, t: int, w: int) -> Seq<(Seq<u8>, bool)> {
    let rk = pair_right(cur.len() as int, k);
    if t < w {
        sibling_path(cur[2 * k], t).push((cur[rk].hash@, false))
    } else {
        sibling_path(cur[rk], t - w).push((cur[2 * k].hash@, true))
    }
}

/// One level up keeps the sibling paths of every real position: the path
/// inside a node followed by the level path from that node.
proof fn lemma_level_step(
    cur: Seq<MerkleNode>,
    nxt: Seq<MerkleNode>,
    w: int,
    n: int,
    hs: Seq<Seq<u8>>,
)
    requires
        cur.len() >= 2,
        w >= 1,
        n <= cur.len() * w,
        nxt.len() == (cur.len() + 1) / 2,
        node_hashes(nxt) == parent_level(node_hashes(cur)),
        forall|k: int, t: int|
            0 <= k < nxt.len() && 0 <= t < 2 * w ==> #[trigger] sibling_path(nxt[k], t)
                == child_path(cur, k, t, w),
        forall|i: int|
            0 <= i < n ==> sibling_path(cur[i / w], i % w) + level_path(node_hashes(cur), i / w)
                == #[trigger] level_path(hs, i),
    ensures
        forall|i: int|
            0 <= i < n ==> sibling_path(nxt[i / (2 * w)], i % (2 * w)) + level_path(
                node_hashes(nxt),
                i / (2 * w),
            ) == #[trigger] level_path(hs, i),
{
    let hcur = node_hashes(cur);
    assert forall|i: int| 0 <= i < n implies sibling_path(nxt[i / (2 * w)], i % (2 * w))
        + level_path(node_hashes(nxt), i / (2 * w)) == #[trigger] level_path(hs, i) by {
        let j = i / w;
        let t = i % w;
        lemma_fundamental_div_mod(i, w);
        let big_j = j / 2;
        let r = j % 2;
        let big_t = r * w + t;
        assert(i == big_j * (2 * w) + big_t) by (nonlinear_arith)
            requires
                i == w * j + t,
                j == 2 * big_j + r,
                big_t == r * w + t,
        ;
        assert(0 <= big_t < 2 * w) by (nonlinear_arith)
            requires
                0 <= t < w,
                0 <= r < 2,
                big_t == r * w + t,
        ;
        lemma_fundamental_div_mod_converse(i, 2 * w, big_j, big_t);
        assert(0 <= j < cur.len()) by (nonlinear_arith)
            requires
                i == w * j + t,
                0 <= t < w,
                0 <= i < n,
                n <= cur.len() * w,
        ;
        assert(sibling_path(nxt[big_j], big_t) == child_path(cur, big_j, big_t, w));
        let e = level_sibling(hcur, j);
        if r == 0 {
            assert(big_t < w) by (nonlinear_arith)
                requires
                    big_t == r * w + t,
                    r == 0,
                    t < w,
            ;
            assert(big_t == t) by (nonlinear_arith)
                requires
                    big_t == r * w + t,
                    r == 0,
            ;
            let rk = pair_right(cur.len() as int, big_j);
            assert(hcur[rk] == cur[rk].hash@);
            assert(j == 2 * big_j);
        } else {
            assert(big_t >= w) by (nonlinear_arith)
                requires
                    big_t == r * w + t,
                    r == 1,
                    t >= 0,
            ;
            assert(big_t - w == t) by (nonlinear_arith)
                requires
                    big_t == r * w + t,
                    r == 1,
            ;
            assert(j == 2 * big_j + 1);
            assert(pair_right(cur.len() as int, big_j) == j);
            assert(hcur[j - 1] == cur[j - 1].hash@);
        }
        assert(sibling_path(nxt[big_j], big_t) == sibling_path(cur[j], t).push(e));
        assert(level_path(hcur, j) == seq![e] + level_path(parent_level(hcur), big_j));
        assert(sibling_path(cur[j], t).push(e) + level_path(node_hashes(nxt), big_j) =~= sibling_path(
            cur[j],
            t,
        ) + (seq![e] + level_path(parent_level(hcur), big_j)));
    }
}

/// A Merkle tree: an optional root and the number of leaves it was built from.
pub struct MerkleTree {
    root: Option<MerkleNode>,
    leaf_count: usize,
}

impl MerkleTree {
    pub closed spec fn spec_root(self) -> Option<MerkleNode> {
        self.root
    }

    pub closed spec fn spec_leaf_count(self) -> nat {
        self.leaf_count as nat
    }

    /// The root is absent exactly when there are no leaves; otherwise it is
    /// well formed and its width is the least power of two that holds them.
    pub open spec fn wf(self) -> bool {
        &&& (self.spec_leaf_count() == 0 <==> self.spec_root() is None)
        &&& (self.spec_root() matches Some(r) ==> {
            &&& r.wf()
            &&& self.spec_leaf_count() <= r.frontier().len()
            &&& r.frontier().len() < 2 * self.spec_leaf_count()
        })
    }

    /// This tree is the one built over the leaf digests `hs`: its leaves
    /// hold `hs` in order and its root holds `root_of(hs)`.
    pub open spec fn built_over(self, hs: Seq<Seq<u8>>) -> bool {
        &&& self.wf()
        &&& self.spec_leaf_count() == hs.len()
        &&& (self.spec_root() matches Some(r) ==> {
            &&& r.hash@ == root_of(hs)
            &&& r.frontier().subrange(0, hs.len() as int) == hs
            &&& forall|i: int|
                0 <= i < hs.len() ==> #[trigger] sibling_path(r, i) == level_path(hs, i)
        })
    }

    /// The empty tree.
    pub fn new() -> (r: Self)
        ensures
            r.built_over(seq![]),
            r.spec_root() is None,
    {
        MerkleTree { root: None, leaf_count: 0 }
    }

    /// The tree built over `leaves`, in order.
    pub fn from_leaves(leaves: Vec<MerkleNode>) -> (r: Self)
        requires
            forall|i: int|
                0 <= i < leaves@.len() ==> (#[trigger] leaves@[i]).is_leaf_spec()
                    && leaves@[i].hash@.len() == DIGEST_LEN,
        ensures
            r.built_over(node_hashes(leaves@)),
    {
        let leaf_count = leaves.len();
        let root = Self::build_tree(leaves);
        MerkleTree { root, leaf_count }
    }

    /// The root node, if any.
    pub fn root(&self) -> (r: Option<&MerkleNode>)
        ensures
            r is Some == self.spec_root() is Some,
            r matches Some(n) ==> *n == self.spec_root()->0,
    {
        self.root.as_ref()
    }

    /// A copy of the root digest, if any.
    pub fn root_hash(&self) -> (r: Option<Vec<u8>>)
        ensures
            r is Some == self.spec_root() is Some,
            r matches Some(h) ==> h@ == self.spec_root()->0.hash@,
    {
        match &self.root {
            Some(n) => Some(slice_to_vec(n.hash.as_slice())),
            None => None,
        }
    }

    /// Number of leaves the tree was built from.
    pub fn leaf_count(&self) -> (r: usize)
        ensures
            r == self.spec_leaf_count(),
    {
        self.leaf_count
    }

    /// A deep copy of this tree.
    pub fn duplicate(&self) -> (r: Self)
        ensures
            r.spec_leaf_count() == self.spec_leaf_count(),
            r.spec_root() is Some == self.spec_root() is Some,
            r.spec_root() matches Some(x) ==> {
                &&& x.hash@ == self.spec_root()->0.hash@
                &&& x.frontier() == self.spec_root()->0.frontier()
                &&& x.wf() == self.spec_root()->0.wf()
                &&& forall|i: int| #[trigger] sibling_path(x, i) == sibling_path(self.spec_root()->0, i)
            },
    {
        let root = match &self.root {
            Some(n) => Some(n.duplicate()),
            None => None,
        };
        MerkleTree { root, leaf_count: self.leaf_count }
    }

    fn build_tree(leaves: Vec<MerkleNode>) -> (r: Option<MerkleNode>)
        requires
            forall|i: int|
                0 <= i < leaves@.len() ==> (#[trigger] leaves@[i]).is_leaf_spec()
                    && leaves@[i].hash@.len() == DIGEST_LEN,
        ensures
            leaves@.len() == 0 <==> r is None,
            r matches Some(root) ==> {
                &&& root.wf()
                &&& leaves@.len() <= root.frontier().len() < 2 * leaves@.len()
                &&& root.hash@ == root_of(node_hashes(leaves@))
                &&& root.frontier().subrange(0, leaves@.len() as int) == node_hashes(leaves@)
                &&& forall|i: int|
                    0 <= i < leaves@.len() ==> #[trigger] sibling_path(root, i) == level_path(
                        node_hashes(leaves@),
                        i,
                    )
            },
    {
        if leaves.len() == 0 {
            return None;
        }
        let ghost n = leaves@.len();
        let ghost hs = node_hashes(leaves@);
        let ghost mut w: nat = 1;
        proof {
            lemma_flat_leaves(leaves@);
            assert forall|i: int| 0 <= i < leaves@.len() implies (#[trigger] leaves@[i]).wf()
                && leaves@[i].frontier().len() == 1 by {
                assert(leaves@[i].frontier() =~= seq![leaves@[i].hash@]);
            }
            assert(flat(leaves@).subrange(0, n as int) =~= hs);
            assert forall|i: int| 0 <= i < n implies sibling_path(leaves@[i / 1], i % 1)
                + level_path(node_hashes(leaves@), i / 1) == #[trigger] level_path(hs, i) by {
                assert(i / 1 == i && i % 1 == 0);
                assert(sibling_path(leaves@[i], 0) =~= seq![]);
                assert(seq![] + level_path(hs, i) =~= level_path(hs, i));
            }
        }
        let mut current_level = leaves;
        while current_level.len() > 1
            invariant
                1 <= current_level@.len(),
                forall|i: int|
                    0 <= i < current_level@.len() ==> (#[trigger] current_level@[i]).wf()
                        && current_level@[i].frontier().len() == w,
                n <= flat(current_level@).len(),
                flat(current_level@).subrange(0, n as int) == hs,
                (current_level@.len() - 1) * w < n <= current_level@.len() * w,
                w == 1 || w < 2 * n,
                root_of(node_hashes(current_level@)) == root_of(hs),
                w >= 1,
                forall|i: int|
                    0 <= i < n ==> sibling_path(current_level@[i / (w as int)], i % (w as int))
                        + level_path(node_hashes(current_level@), i / (w as int))
                        == #[trigger] level_path(hs, i),
            decreases current_level@.len(),
        {
            let ghost cur = current_level@;
            let mut next_level: Vec<MerkleNode> = Vec::new();
            let mut i: usize = 0;
            while i < current_level.len()
                invariant
                    cur == current_level@,
                    cur.len() >= 2,
                    forall|k: int| 0 <= k < cur.len() ==> (#[trigger] cur[k]).wf() && cur[k].frontier().len() == w,
                    i <= cur.len(),
                    i % 2 == 0 || i == cur.len(),
                    next_level@.len() == (i + 1) / 2,
                    forall|k: int|
                        0 <= k < next_level@.len() ==> (#[trigger] next_level@[k]).wf()
                            && next_level@[k].frontier().len() == 2 * w,
                    node_hashes(next_level@) == parent_level(node_hashes(cur)).subrange(0, (i as int + 1) / 2),
                    flat(cur.subrange(0, i as int)).is_prefix_of(flat(next_level@)),
                    i % 2 == 0 ==> flat(next_level@) == flat(cur.subrange(0, i as int)),
                    forall|k: int, t: int|
                        0 <= k < next_level@.len() && 0 <= t < 2 * w ==> #[trigger] sibling_path(
                            next_level@[k],
                            t,
                        ) == child_path(cur, k, t, w as int),
                decreases cur.len() - i,
            {
                let ghost before = next_level@;
                let ghost hcur = node_hashes(cur);
                if i + 1 < current_level.len() {
                    let a = current_level[i].duplicate();
                    let b = current_level[i + 1].duplicate();
                    let ghost ga = a;
                    let ghost gb = b;
                    let p = MerkleNode::new_parent(a, b);
                    next_level.push(p);
                    proof {
                        let k = (i / 2) as int;
                        assert forall|t: int| 0 <= t < 2 * w implies #[trigger] sibling_path(p, t)
                            == child_path(cur, k, t, w as int) by {
                            assert(sibling_path(ga, t) == sibling_path(cur[i as int], t));
                            assert(sibling_path(gb, t - w) == sibling_path(cur[i + 1], t - w));
                        }
                        assert forall|kk: int, t: int|
                            0 <= kk < next_level@.len() && 0 <= t < 2 * w implies #[trigger] sibling_path(
                            next_level@[kk],
                            t,
                        ) == child_path(cur, kk, t, w as int) by {
                            if kk < k {
                                assert(next_level@[kk] == before[kk]);
                            }
                        }
                        lemma_flat_push(before, p);
                        lemma_flat_push(cur.subrange(0, i as int), cur[i as int]);
                        assert(cur.subrange(0, i as int).push(cur[i as int]) =~= cur.subrange(0, i + 1));
                        lemma_flat_push(cur.subrange(0, i + 1), cur[i + 1]);
                        assert(cur.subrange(0, i + 1).push(cur[i + 1]) =~= cur.subrange(0, i + 2));
                        assert(node_hashes(next_level@) =~= parent_level(hcur).subrange(0, (i as int + 3) / 2));
                        assert(flat(next_level@) =~= flat(cur.subrange(0, i + 2)));
                        assert(flat(next_level@).subrange(0, flat(next_level@).len() as int) =~= flat(next_level@));
                    }
                    i = i + 2;
                } else {
                    let a = current_level[i].duplicate();
                    let b = current_level[i].duplicate();
                    let ghost ga = a;
                    let ghost gb = b;
                    let p = MerkleNode::new_parent(a, b);
                    next_level.push(p);
                    proof {
                        let k = (i / 2) as int;
                        assert forall|t: int| 0 <= t < 2 * w implies #[trigger] sibling_path(p, t)
                            == child_path(cur, k, t, w as int) by {
                            assert(sibling_path(ga, t) == sibling_path(cur[i as int], t));
                            assert(sibling_path(gb, t - w) == sibling_path(cur[i as int], t - w));
                        }
                        assert forall|kk: int, t: int|
                            0 <= kk < next_level@.len() && 0 <= t < 2 * w implies #[trigger] sibling_path(
                            next_level@[kk],
                            t,
                        ) == child_path(cur, kk, t, w as int) by {
                            if kk < k {
                                assert(next_level@[kk] == before[kk]);
                            }
                        }
                        lemma_flat_push(before, p);
                        lemma_flat_push(cur.subrange(0, i as int), cur[i as int]);
                        assert(cur.subrange(0, i as int).push(cur[i as int]) =~= cur.subrange(0, i + 1));
                        assert(node_hashes(next_level@) =~= parent_level(hcur).subrange(0, (i as int + 2) / 2));
                        assert(flat(next_level@) =~= flat(cur.subrange(0, i + 1)) + cur[i as int].frontier());
                        assert(flat(next_level@).subrange(0, flat(cur.subrange(0, i + 1)).len() as int) =~= flat(cur.subrange(0, i + 1)));
                    }
                    i = i + 1;
                }
            }
            proof {
                let len = cur.len();
                assert(cur.subrange(0, len as int) =~= cur);
                assert(node_hashes(next_level@) =~= parent_level(node_hashes(cur)));
                lemma_flat_len(cur, w);
                lemma_flat_len(next_level@, 2 * w);
                assert(next_level@.len() * (2 * w) >= len * w) by (nonlinear_arith)
                    requires next_level@.len() == (len + 1) / 2;
                assert((next_level@.len() - 1) * (2 * w) <= (len - 1) * w) by (nonlinear_arith)
                    requires next_level@.len() == (len + 1) / 2, len >= 2;
                assert(w < n) by (nonlinear_arith)
                    requires (len - 1) * w < n, len >= 2;
                assert(flat(next_level@).subrange(0, n as int) =~= flat(cur).subrange(0, n as int));
                lemma_level_step(cur, next_level@, w as int, n as int, hs);
                w = 2 * w;
            }
            current_level = next_level;
        }
        proof {
            assert(current_level@.drop_last() =~= seq![]);
            assert(flat(current_level@.drop_last()) =~= seq![]);
            assert(flat(current_level@) =~= current_level@[0].frontier());
            assert(node_hashes(current_level@) =~= seq![current_level@[0].hash@]);
            assert forall|i: int| 0 <= i < n implies #[trigger] sibling_path(current_level@[0], i)
                == level_path(hs, i) by {
                assert(n <= w) by (nonlinear_arith)
                    requires
                        n <= current_level@.len() * w,
                        current_level@.len() == 1,
                ;
                assert(w as int != 0);
                assert(0 <= i < w as int);
                assert(i == 0 * (w as int) + i);
                lemma_fundamental_div_mod_converse(i, w as int, 0, i);
                assert(level_path(node_hashes(current_level@), 0) =~= seq![]);
                assert(sibling_path(current_level@[0], i) + seq![] =~= sibling_path(current_level@[0], i));
            }
        }
        current_level.pop()
    }
}

impl Clone for MerkleNode {
    fn clone(&self) -> (r: Self)
        ensures
            r.hash@ == self.hash@,
            r.frontier() == self.frontier(),
            r.wf() == self.wf(),
            r.is_leaf_spec() == self.is_leaf_spec(),
            forall|i: int| #[trigger] sibling_path(r, i) == sibling_path(*self, i),
    {
        self.duplicate()
    }
}

impl Clone for MerkleTree {
    fn clone(&self) -> (r: Self)
        ensures
            r.spec_leaf_count() == self.spec_leaf_count(),
            r.spec_root() is Some == self.spec_root() is Some,
            r.spec_root() matches Some(x) ==> {
                &&& x.hash@ == self.spec_root()->0.hash@
                &&& x.frontier() == self.spec_root()->0.frontier()
                &&& x.wf() == self.spec_root()->0.wf()
                &&& forall|i: int| #[trigger] sibling_path(x, i) == sibling_path(self.spec_root()->0, i)
            },
    {
        self.duplicate()
    }
}

impl Default for MerkleTree {
    fn default() -> (r: Self)
        ensures
            r.built_over(seq![]),
    {
        Self::new()
    }
}

} // verus!
