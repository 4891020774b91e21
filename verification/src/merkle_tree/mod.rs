//! A binary Merkle tree over SHA-256: leaves are the digests of the data
//! items, each inner node the digest of its two children's digests, and an
//! opening is the list of siblings from a leaf up to the root.
use vstd::prelude::*;
use vstd::arithmetic::power2::*;
use vstd::arithmetic::div_mod::*;
use crate::bits::{is_pow2_len, is_power_of_two, lemma_bit_ops};
use crate::field::{fe128, le_bytes, le_value, pow256, q128, Field128, MONTGOMERY_R};
use crate::hash::{digest_eq, extend_bytes, sha256, sha256_spec};
use crate::text::{decimal_text, hex_list_text, push_decimal, push_hex_list};
use vstd::string::StringExecFns;

verus! {

/// Data that a Merkle tree can commit to: each item hashes as a byte string.
pub trait MerkleLeaf: Sized {
    /// The bytes the item hashes as.
    spec fn leaf_bytes(&self) -> Seq<u8>;

    fn as_bytes(&self) -> (r: Vec<u8>)
        ensures
            r@ == self.leaf_bytes(),
    ;

    /// A copy of the item, with the same bytes.
    fn copy_leaf(&self) -> (r: Self)
        ensures
            r.leaf_bytes() == self.leaf_bytes(),
    ;
}

impl<const N: usize> MerkleLeaf for [u8; N] {
    open spec fn leaf_bytes(&self) -> Seq<u8> {
        self@
    }

    fn as_bytes(&self) -> (r: Vec<u8>) {
        let mut out: Vec<u8> = Vec::new();
        extend_bytes(&mut out, self.as_slice());
        out
    }

    fn copy_leaf(&self) -> (r: Self) {
        *self
    }
}

impl MerkleLeaf for Field128 {
    /// The field's byte encoding.
    open spec fn leaf_bytes(&self) -> Seq<u8> {
        le_bytes(fe128(self@ * MONTGOMERY_R), 16)
    }

    fn as_bytes(&self) -> (r: Vec<u8>) {
        self.to_bytes()
    }

    fn copy_leaf(&self) -> (r: Self) {
        *self
    }
}

/// Which side of its parent a sibling sits on.
#[derive(Clone, Copy, Debug, PartialEq, Eq)]
pub enum Direction {
    Left,
    Right,
}

/// A tree over `2^h` items: `layers[0]` holds the leaf digests and each
/// next layer the digests of pairs of the one below, up to the root.
#[derive(Debug)]
pub struct Merkle<T> {
    pub layers: Vec<Vec<[u8; 32]>>,
    pub data: Vec<T>,
}

/// An item and the siblings on the way from its leaf to the root.
#[derive(Debug, Clone)]
pub struct MerkleInclusionPath<T> {
    pub value: T,
    pub path: Vec<([u8; 32], Direction)>,
}

/// Why an opening is rejected.
#[derive(Debug)]
pub enum MerkleInclusionPathError {
    /// The root expected, then the root the path leads to.
    IncompatibleHash([u8; 32], [u8; 32]),
    /// The index expected, then the index the path leads to.
    IncompatibleIndex(usize, usize),
}

/// The message of an inclusion-path error.
pub open spec fn inclusion_message(e: MerkleInclusionPathError) -> Seq<char> {
    match e {
        MerkleInclusionPathError::IncompatibleHash(h1, h2) =>
            "Incompatible hash. Expected "@ + hex_list_text(h1@) + ", found "@ + hex_list_text(h2@),
        MerkleInclusionPathError::IncompatibleIndex(i1, i2) =>
            "Incompatible index. Expected "@ + decimal_text(i1 as nat) + ", found "@ + decimal_text(i2 as nat),
    }
}

impl MerkleInclusionPathError {
    /// The error's message.
    pub fn message(&self) -> (r: String)
        ensures
            r@ == inclusion_message(*self),
    {
        let mut s = String::new();
        match self {
            MerkleInclusionPathError::IncompatibleHash(h1, h2) => {
                s.append("Incompatible hash. Expected ");
                push_hex_list(&mut s, h1.as_slice());
                s.append(", found ");
                push_hex_list(&mut s, h2.as_slice());
            },
            MerkleInclusionPathError::IncompatibleIndex(i1, i2) => {
                s.append("Incompatible index. Expected ");
                push_decimal(&mut s, *i1 as u64);
                s.append(", found ");
                push_decimal(&mut s, *i2 as u64);
            },
        }
        s
    }
}

/// The digest of an inner node with the given children digests.
pub open spec fn node_hash(left: Seq<u8>, right: Seq<u8>) -> Seq<u8> {
    sha256_spec(left + right)
}

/// The leaf digests of the items.
pub open spec fn leaf_hashes<T: MerkleLeaf>(data: Seq<T>) -> Seq<Seq<u8>> {
    data.map_values(|t: T| sha256_spec(t.leaf_bytes()))
}

/// The layer above `h`: the digests of its consecutive pairs.
pub open spec fn next_layer(h: Seq<Seq<u8>>) -> Seq<Seq<u8>> {
    Seq::new(h.len() / 2, |j: int| node_hash(h[2 * j], h[2 * j + 1]))
}

/// Layer `k` of the tree over the leaf digests `h0`.
pub open spec fn layer(h0: Seq<Seq<u8>>, k: nat) -> Seq<Seq<u8>>
    decreases k,
{
    if k == 0 {
        h0
    } else {
        next_layer(layer(h0, (k - 1) as nat))
    }
}

/// The digests of a layer as byte strings.
pub open spec fn digests(v: Seq<[u8; 32]>) -> Seq<Seq<u8>> {
    v.map_values(|d: [u8; 32]| d@)
}

/// A path as digests and directions.
pub open spec fn path_view(p: Seq<([u8; 32], Direction)>) -> Seq<(Seq<u8>, Direction)> {
    p.map_values(|e: ([u8; 32], Direction)| (e.0@, e.1))
}

/// The digest reached from `h` after the first `k` steps of `path`.
pub open spec fn fold_path(h: Seq<u8>, path: Seq<(Seq<u8>, Direction)>, k: nat) -> Seq<u8>
    decreases k,
{
    if k == 0 {
        h
    } else {
        let prev = fold_path(h, path, (k - 1) as nat);
        let step = path[k - 1];
        match step.1 {
            Direction::Left => node_hash(step.0, prev),
            Direction::Right => node_hash(prev, step.0),
        }
    }
}

/// The leaf index that the first `k` steps of `path` lead to: bit `i` is
/// set where the sibling of step `i` sits on the left.
pub open spec fn path_index(path: Seq<(Seq<u8>, Direction)>, k: nat) -> int
    decreases k,
{
    if k == 0 {
        0
    } else {
        path_index(path, (k - 1) as nat) + (if path[k - 1].1 == Direction::Left { pow2((k - 1) as nat) as int } else { 0 })
    }
}

/// No sibling on the left sits at a step whose index bit does not fit in
/// a `usize`.
pub open spec fn path_fits(path: Seq<(Seq<u8>, Direction)>) -> bool {
    forall|i: int| 0 <= i < path.len() && path[i].1 == Direction::Left ==> i < usize::BITS
}

impl<T: MerkleLeaf> Merkle<T> {
    /// The number of layers above the leaves.
    pub open spec fn height(self) -> nat {
        (self.layers.len() - 1) as nat
    }

    /// The layers are those of the tree over the data.
    pub open spec fn wf(self) -> bool {
        &&& self.layers.len() >= 1
        &&& self.layers.len() <= usize::BITS
        &&& self.data.len() == pow2(self.height())
        &&& forall|k: int| 0 <= k < self.layers.len() ==>
            #[trigger] digests(self.layers@[k]@) == layer(leaf_hashes(self.data@), k as nat)
    }

    /// The root digest of the tree over the data.
    pub open spec fn root_spec(self) -> Seq<u8> {
        layer(leaf_hashes(self.data@), self.height())[0]
    }

    /// The siblings from leaf `index` up to the root.
    pub open spec fn opening(self, index: int) -> Seq<(Seq<u8>, Direction)> {
        let h0 = leaf_hashes(self.data@);
        Seq::new(self.height(), |k: int| {
            let ik = index / pow2(k as nat) as int;
            if ik % 2 == 0 {
                (layer(h0, k as nat)[ik + 1], Direction::Right)
            } else {
                (layer(h0, k as nat)[ik - 1], Direction::Left)
            }
        })
    }

    /// Builds the tree over `data`, whose length must be a power of two.
    pub fn commit(data: Vec<T>) -> (r: Self)
        requires
            is_pow2_len(data.len() as int),
        ensures
            r.wf(),
            r.data@ == data@,
    {
        let ghost h0 = leaf_hashes(data@);
        let mut first_layer: Vec<[u8; 32]> = Vec::new();
        let mut j: usize = 0;
        while j < data.len()
            invariant
                0 <= j <= data.len(),
                h0 == leaf_hashes(data@),
                first_layer.len() == j,
                forall|i: int| 0 <= i < j ==> #[trigger] first_layer@[i]@ == h0[i],
            decreases data.len() - j,
        {
            first_layer.push(hash_leaf(&data[j]));
            j = j + 1;
        }
        proof {
            assert(digests(first_layer@) =~= layer(h0, 0));
        }
        let ghost n = data.len() as int;
        let ghost height: nat = choose|k: nat| pow2(k) == n;
        proof {
            lemma_layer_len(h0, 0, height);
            crate::bits::lemma_pow2_fits_usize(height, n);
        }
        let mut layers: Vec<Vec<[u8; 32]>> = Vec::new();
        layers.push(first_layer);
        let mut last: usize = 0;
        while layers[last].len() > 1
            invariant
                h0 == leaf_hashes(data@),
                h0.len() == pow2(height),
                n == data.len(),
                height < usize::BITS,
                layers.len() == last + 1,
                last <= height,
                forall|k: int| 0 <= k < layers.len() ==> #[trigger] digests(layers@[k]@) == layer(h0, k as nat),
                layers@[last as int].len() == pow2((height - last) as nat),
            decreases height - last,
        {
            proof {
                if last == height {
                    assert(pow2(0) == 1) by { lemma2_to64(); }
                }
                lemma_layer_len(h0, (last + 1) as nat, height);
            }
            let next = next_layer_exec(&layers[last]);
            proof {
                assert(digests(next@) == layer(h0, (last + 1) as nat));
            }
            layers.push(next);
            last = last + 1;
        }
        proof {
            if last < height {
                lemma_pow2_strictly_increases(0, (height - last) as nat);
                lemma2_to64();
            }
            assert(layers.len() - 1 == height);
        }
        Merkle { layers, data }
    }

    /// The root digest.
    pub fn root(&self) -> (r: [u8; 32])
        requires
            self.wf(),
        ensures
            r@ == self.root_spec(),
    {
        proof {
            lemma_layer_len(leaf_hashes(self.data@), self.height(), self.height());
            assert(pow2(0) == 1) by { lemma2_to64(); }
            assert(digests(self.layers@[self.height() as int]@)[0] == self.layers@[self.height() as int]@[0]@);
        }
        let last = self.layers.len() - 1;
        self.layers[last][0]
    }

    /// The item at `index` and its siblings up to the root; `None` where
    /// `index` is out of range.
    pub fn open(&self, index: usize) -> (r: Option<MerkleInclusionPath<T>>)
        requires
            self.wf(),
        ensures
            index >= self.data.len() ==> r is None,
            index < self.data.len() ==> (r matches Some(p) && {
                &&& p.value.leaf_bytes() == self.data@[index as int].leaf_bytes()
                &&& path_view(p.path@) == self.opening(index as int)
            }),
    {
        if index >= self.data.len() {
            return None;
        }
        let value = self.data[index].copy_leaf();
        let ghost h0 = leaf_hashes(self.data@);
        let ghost height = self.height();
        let ghost target = self.opening(index as int);
        let mut path: Vec<([u8; 32], Direction)> = Vec::new();
        let mut current_index: usize = index;
        let mut k: usize = 0;
        proof {
            assert(pow2(0) == 1) by { lemma2_to64(); }
        }
        while k < self.layers.len()
            invariant
                self.wf(),
                h0 == leaf_hashes(self.data@),
                height == self.height(),
                target == self.opening(index as int),
                index < self.data.len(),
                0 <= k <= self.layers.len(),
                current_index as int == index as int / pow2(k as nat) as int,
                path.len() == (if k <= height { k as int } else { height as int }),
                forall|m: int| 0 <= m < path.len() ==> #[trigger] path_view(path@)[m] == target[m],
            decreases self.layers.len() - k,
        {
            let layer_k = &self.layers[k];
            proof {
                lemma_layer_len(h0, k as nat, height);
                lemma_pow2_pos(k as nat);
                if k <= height {
                    lemma_pow2_adds(k as nat, (height - k) as nat);
                    lemma_multiply_divide_lt(index as int, pow2(k as nat) as int, pow2((height - k) as nat) as int);
                }
                assert(digests(layer_k@) == layer(h0, k as nat));
            }
            let even = current_index % 2 == 0;
            let sibling_index: usize = if even { current_index + 1 } else { current_index - 1 };
            let direction = if even { Direction::Right } else { Direction::Left };
            if sibling_index < layer_k.len() {
                proof {
                    if k == height {
                        assert(pow2(0) == 1) by { lemma2_to64(); }
                        assert(false);
                    }
                    assert(layer_k@[sibling_index as int]@ == layer(h0, k as nat)[sibling_index as int]);
                }
                let ghost before = path_view(path@);
                path.push((layer_k[sibling_index], direction));
                proof {
                    assert(path_view(path@)[k as int] == target[k as int]);
                    assert forall|m: int| 0 <= m < k implies #[trigger] path_view(path@)[m] == target[m] by {
                        assert(path_view(path@)[m] == before[m]);
                    }
                }
            } else {
                proof {
                    if k < height {
                        lemma_pow2_strictly_increases(0, (height - k) as nat);
                        lemma_pow2_unfold((height - k) as nat);
                        assert(pow2(0) == 1) by { lemma2_to64(); }
                        assert(false);
                    }
                }
            }
            proof {
                lemma_div_denominator(index as int, pow2(k as nat) as int, 2);
                lemma_pow2_unfold((k + 1) as nat);
                assert(pow2(k as nat) * 2 == pow2((k + 1) as nat));
            }
            current_index = current_index / 2;
            k = k + 1;
        }
        proof {
            assert(path_view(path@) =~= target);
        }
        Some(MerkleInclusionPath { value, path })
    }
}

/// The layer above `h`, computed.
fn next_layer_exec(h: &Vec<[u8; 32]>) -> (r: Vec<[u8; 32]>)
    ensures
        digests(r@) == next_layer(digests(h@)),
{
    let mut out: Vec<[u8; 32]> = Vec::new();
    let half = h.len() / 2;
    let mut j: usize = 0;
    while j < half
        invariant
            0 <= j <= half,
            half == h.len() / 2,
            out.len() == j,
            forall|i: int| 0 <= i < j ==> #[trigger] out@[i]@ == next_layer(digests(h@))[i],
        decreases half - j,
    {
        let d = hash_node(&h[2 * j], &h[2 * j + 1]);
        proof {
            assert(digests(h@)[2 * j as int] == h@[2 * j as int]@);
            assert(digests(h@)[2 * j + 1] == h@[2 * j + 1]@);
        }
        out.push(d);
        j = j + 1;
    }
    proof {
        assert(digests(out@) =~= next_layer(digests(h@)));
    }
    out
}

/// The digest of a leaf: the hash of the item's bytes.
fn hash_leaf<T: MerkleLeaf>(item: &T) -> (r: [u8; 32])
    ensures
        r@ == sha256_spec(item.leaf_bytes()),
{
    let bytes = item.as_bytes();
    sha256(bytes.as_slice())
}

/// The digest of an inner node.
fn hash_node(left: &[u8; 32], right: &[u8; 32]) -> (r: [u8; 32])
    ensures
        r@ == node_hash(left@, right@),
{
    let mut buf: Vec<u8> = Vec::new();
    extend_bytes(&mut buf, left.as_slice());
    extend_bytes(&mut buf, right.as_slice());
    sha256(buf.as_slice())
}

/// Layer `k` of a tree over `2^h` leaves has `2^(h - k)` digests.
pub proof fn lemma_layer_len(h0: Seq<Seq<u8>>, k: nat, h: nat)
    requires
        h0.len() == pow2(h),
        k <= h,
    ensures
        layer(h0, k).len() == pow2((h - k) as nat),
    decreases k,
{
    if k > 0 {
        lemma_layer_len(h0, (k - 1) as nat, h);
        lemma_pow2_unfold((h - k + 1) as nat);
    }
}

impl<T: MerkleLeaf> MerkleInclusionPath<T> {
    /// Recomputes the root from the item and the siblings, and the index
    /// from the directions, and compares them with `root` and `index`.
    pub fn verify(&self, root: &[u8; 32], index: usize) -> (r: Result<(), MerkleInclusionPathError>)
        requires
            path_fits(path_view(self.path@)),
        ensures
            ({
                let path = path_view(self.path@);
                let computed = fold_path(sha256_spec(self.value.leaf_bytes()), path, path.len());
                let computed_index = path_index(path, path.len());
                &&& computed != root@ ==> (r matches Err(MerkleInclusionPathError::IncompatibleHash(e, c))
                    && e@ == root@ && c@ == computed)
                &&& computed == root@ && computed_index != index ==> r == Err::<(), MerkleInclusionPathError>(
                    MerkleInclusionPathError::IncompatibleIndex(index, computed_index as usize))
                &&& computed == root@ && computed_index == index ==> r is Ok
            }),
    {
        let ghost path = path_view(self.path@);
        let ghost leaf = sha256_spec(self.value.leaf_bytes());
        let mut computed_hash = hash_leaf(&self.value);
        let mut computed_index: usize = 0;
        let mut i: usize = 0;
        proof {
            lemma_pow2_pos(0);
        }
        while i < self.path.len()
            invariant
                0 <= i <= self.path.len(),
                path == path_view(self.path@),
                path_fits(path),
                computed_hash@ == fold_path(leaf, path, i as nat),
                computed_index as int == path_index(path, i as nat),
                0 <= path_index(path, i as nat) < pow2(i as nat),
            decreases self.path.len() - i,
        {
            let (sibling_hash, direction) = self.path[i];
            proof {
                assert(path[i as int] == (sibling_hash@, direction));
                lemma_pow2_unfold((i + 1) as nat);
            }
            match direction {
                Direction::Left => {
                    proof {
                        assert(i < usize::BITS);
                        lemma_bit_ops(0, i);
                        crate::bits::lemma_pow2_le((i + 1) as nat, usize::BITS as nat);
                        lemma2_to64();
                    }
                    computed_index = computed_index + (1usize << i);
                    computed_hash = hash_node(&sibling_hash, &computed_hash);
                },
                Direction::Right => {
                    computed_hash = hash_node(&computed_hash, &sibling_hash);
                },
            }
            i = i + 1;
        }
        if !digest_eq(&computed_hash, root) {
            return Err(MerkleInclusionPathError::IncompatibleHash(*root, computed_hash));
        }
        if computed_index != index {
            return Err(MerkleInclusionPathError::IncompatibleIndex(index, computed_index));
        }
        Ok(())
    }
}

/// Opening a leaf of a tree and checking the opening against the tree's
/// root and the same index succeeds: the path leads back to the root, and
/// its directions spell the index.
pub proof fn lemma_open_verify<T: MerkleLeaf>(tree: Merkle<T>, index: int)
    requires
        tree.wf(),
        0 <= index < tree.data.len(),
    ensures
        ({
            let path = tree.opening(index);
            &&& path.len() == tree.height()
            &&& path_fits(path)
            &&& fold_path(sha256_spec(tree.data@[index].leaf_bytes()), path, path.len()) == tree.root_spec()
            &&& path_index(path, path.len()) == index
        }),
{
    let h0 = leaf_hashes(tree.data@);
    let path = tree.opening(index);
    let height = tree.height();
    lemma_opening_prefix(tree, index, height);
    lemma_pow2_pos(height);
    assert(index / (pow2(height) as int) == 0) by {
        lemma_basic_div(index, pow2(height) as int);
    }
    lemma_small_mod(index as nat, pow2(height));
    assert(h0[index] == sha256_spec(tree.data@[index].leaf_bytes()));
}

/// After `k` steps, the opening of `index` has reached node
/// `index / 2^k` of layer `k`, and has spelled the low `k` bits of `index`.
proof fn lemma_opening_prefix<T: MerkleLeaf>(tree: Merkle<T>, index: int, k: nat)
    requires
        tree.wf(),
        0 <= index < tree.data.len(),
        k <= tree.height(),
    ensures
        fold_path(leaf_hashes(tree.data@)[index], tree.opening(index), k)
            == layer(leaf_hashes(tree.data@), k)[index / pow2(k) as int],
        path_index(tree.opening(index), k) == index % (pow2(k) as int),
    decreases k,
{
    let h0 = leaf_hashes(tree.data@);
    let path = tree.opening(index);
    lemma_pow2_pos(k);
    if k == 0 {
        assert(pow2(0) == 1) by { lemma2_to64(); }
        assert(index % 1 == 0) by (nonlinear_arith);
        assert(index / 1 == index) by (nonlinear_arith);
    } else {
        let j = (k - 1) as nat;
        lemma_opening_prefix(tree, index, j);
        lemma_pow2_pos(j);
        lemma_pow2_unfold(k);
        let pj = pow2(j) as int;
        let ij = index / pj;
        lemma_div_denominator(index, pj, 2);
        lemma_mod_breakdown(index, pj, 2);
        lemma_fundamental_div_mod(ij, 2);
        assert(path[j as int] == (if ij % 2 == 0 {
            (layer(h0, j)[ij + 1], Direction::Right)
        } else {
            (layer(h0, j)[ij - 1], Direction::Left)
        }));
        lemma_layer_len(h0, j, tree.height());
        lemma_layer_len(h0, k, tree.height());
        lemma_div_pos_is_pos(index, pj);
        lemma_pow2_adds(j, (tree.height() - j) as nat);
        lemma_multiply_divide_lt(index, pj, pow2((tree.height() - j) as nat) as int);
        lemma_pow2_unfold((tree.height() - j) as nat);
        assert(layer(h0, k) == next_layer(layer(h0, j)));
        assert(pow2(k) as int == pj * 2);
        assert(index % (pj * 2) == pj * (ij % 2) + index % pj);
        if ij % 2 == 0 {
            assert(path_index(path, k) == path_index(path, j));
            assert(2 * (ij / 2) == ij);
            assert(layer(h0, k)[ij / 2] == node_hash(layer(h0, j)[ij], layer(h0, j)[ij + 1]));
            assert(pj * (ij % 2) == 0) by (nonlinear_arith)
                requires ij % 2 == 0;
            assert(index % (pj * 2) == index % pj);
            assert(path_index(path, k) == index % (pj * 2));
        } else {
            assert(path_index(path, k) == path_index(path, j) + pj);
            assert(2 * (ij / 2) + 1 == ij);
            assert(layer(h0, k)[ij / 2] == node_hash(layer(h0, j)[ij - 1], layer(h0, j)[ij]));
            assert(pj * (ij % 2) == pj) by (nonlinear_arith)
                requires ij % 2 == 1;
            assert(index % (pj * 2) == pj + index % pj);
            assert(path_index(path, k) == index % (pj * 2));
        }
    }
}

/// The little-endian bytes read back give the number, below `256^n`.
proof fn lemma_le_roundtrip(v: int, n: nat)
    requires
        v >= 0,
    ensures
        le_value(le_bytes(v, n), n) == v % pow256(n),
    decreases n,
{
    if n == 0 {
        lemma_mod_self_0(1);
        lemma_small_mod(0, 1);
        assert(v % 1 == 0) by { lemma_mod_basics(v, 1); }
    } else {
        let m = (n - 1) as nat;
        lemma_le_roundtrip(v, m);
        lemma_le_prefix(le_bytes(v, n), le_bytes(v, m), m);
        lemma_pow256_pos_m(m);
        lemma_mod_breakdown(v, pow256(m), 256);
        assert(pow256(n) == 256 * pow256(m));
        assert(pow256(m) * 256 == pow256(n));
        assert(le_bytes(v, n)[m as int] as int == (v / pow256(m)) % 256) by {
            lemma_mod_in_range(v / pow256(m), 256);
        }
        assert(((v / pow256(m)) % 256) * pow256(m) == pow256(m) * ((v / pow256(m)) % 256)) by (nonlinear_arith);
    }
}

proof fn lemma_mod_basics(v: int, d: int)
    requires
        d == 1,
    ensures
        v % d == 0,
{
    lemma_fundamental_div_mod(v, d);
    lemma_mod_in_range(v, d);
}

proof fn lemma_mod_in_range(v: int, d: int)
    requires
        d > 0,
    ensures
        0 <= v % d < d,
{
    vstd::arithmetic::div_mod::lemma_mod_bound(v, d);
}

proof fn lemma_pow256_pos_m(k: nat)
    ensures
        pow256(k) >= 1,
    decreases k,
{
    if k > 0 {
        lemma_pow256_pos_m((k - 1) as nat);
    }
}

proof fn lemma_le_prefix(a: Seq<u8>, b: Seq<u8>, n: nat)
    requires
        n <= a.len(),
        n <= b.len(),
        forall|i: int| 0 <= i < n ==> a[i] == b[i],
    ensures
        le_value(a, n) == le_value(b, n),
    decreases n,
{
    if n > 0 {
        lemma_le_prefix(a, b, (n - 1) as nat);
    }
}

/// A field element used as a Merkle leaf hashes the 16 bytes of its
/// encoding, which read back as its Montgomery form; so distinct elements
/// hash distinct byte strings.
pub proof fn lemma_field_leaf_bytes(x: Field128, y: Field128)
    ensures
        x.leaf_bytes().len() == 16,
        le_value(x.leaf_bytes(), 16) == fe128(x@ * MONTGOMERY_R),
        x.leaf_bytes() == y.leaf_bytes() ==> x@ == y@,
{
    let r = MONTGOMERY_R as int;
    let ri: int = 14621507951185999817222201980271722851;
    let q = q128();
    let mx = fe128(x@ * r);
    let my = fe128(y@ * r);
    lemma_mod_in_range(x@ * r, q);
    lemma_mod_in_range(y@ * r, q);
    reveal_with_fuel(pow256, 17);
    assert(pow256(16) == 0x1_0000_0000_0000_0000_0000_0000_0000_0000);
    lemma_le_roundtrip(mx, 16);
    lemma_le_roundtrip(my, 16);
    lemma_small_mod(mx as nat, pow256(16) as nat);
    lemma_small_mod(my as nat, pow256(16) as nat);
    if x.leaf_bytes() == y.leaf_bytes() {
        assert(mx == my);
        crate::field::lemma_view128_range(x);
        crate::field::lemma_view128_range(y);
        assert(r * ri == 2126008811164 * q + 1);
        lemma_mod_multiples_vanish(2126008811164, 1, q);
        lemma_small_mod(1, q as nat);
        assert((r * ri) % q == 1);
        lemma_mul_mod_noop_left(x@ * r, ri, q);
        lemma_mul_mod_noop_left(y@ * r, ri, q);
        assert(x@ * r * ri == x@ * (r * ri)) by (nonlinear_arith);
        assert(y@ * r * ri == y@ * (r * ri)) by (nonlinear_arith);
        lemma_mul_mod_noop_right(x@, r * ri, q);
        lemma_mul_mod_noop_right(y@, r * ri, q);
        lemma_small_mod(x@ as nat, q as nat);
        lemma_small_mod(y@ as nat, q as nat);
    }
}

} // verus!
