//! The tree: its mathematical model and its construction.
//!
//! Items are padded with 32-byte zero buffers up to the next power of two
//! (an empty list becomes one padding item), every padded item is hashed into
//! a leaf, and each layer above pairs the nodes `(2k, 2k + 1)` of the layer
//! below. Layer `0` holds the leaves, the last layer holds the root alone.
use vstd::prelude::*;
use crate::digest::{Data, Digest, leaf_digest, combine, hash_data, concatenate_and_hash};
use crate::inclusion::{Side, ProofEntry, Proof, Error, proof_view, path_of, position, sibling_of, side_of};

verus! {

/// `2` to the power `k`.
pub open spec fn two_pow(k: nat) -> nat
    decreases k,
{
    if k == 0 {
        1
    } else {
        2 * two_pow((k - 1) as nat)
    }
}

/// The number of layers above the leaves for `n` items: the least `k` with
/// `n <= 2^k`.
pub open spec fn depth_for(n: nat) -> nat
    decreases n,
{
    if n <= 1 {
        0
    } else {
        1 + depth_for(((n + 1) / 2) as nat)
    }
}

/// The number of leaves for `n` items: the least power of two that is at least `n`.
pub open spec fn leaf_count_for(n: nat) -> nat {
    two_pow(depth_for(n))
}

/// The item that fills the leaves after the real ones: 32 zero bytes.
pub open spec fn padding_item() -> Seq<u8> {
    Seq::new(32, |i: int| 0u8)
}

/// The items followed by as many padding items as the leaf count asks for.
pub open spec fn padded(items: Seq<Seq<u8>>) -> Seq<Seq<u8>> {
    Seq::new(
        leaf_count_for(items.len()),
        |i: int|
            if i < items.len() {
                items[i]
            } else {
                padding_item()
            },
    )
}

/// The leaf digests of a list of items.
pub open spec fn leaf_layer(items: Seq<Seq<u8>>) -> Seq<Seq<char>> {
    padded(items).map_values(|d: Seq<u8>| leaf_digest(d))
}

/// The layer above `layer`: node `k` combines nodes `2k` and `2k + 1`.
pub open spec fn parent_layer(layer: Seq<Seq<char>>) -> Seq<Seq<char>> {
    Seq::new(layer.len() / 2, |k: int| combine(layer[2 * k], layer[2 * k + 1]))
}

/// Layer `i` of the tree whose leaves are `leaves`.
pub open spec fn layer_at(leaves: Seq<Seq<char>>, i: nat) -> Seq<Seq<char>>
    decreases i,
{
    if i == 0 {
        leaves
    } else {
        parent_layer(layer_at(leaves, (i - 1) as nat))
    }
}

/// All layers of the tree built from `items`, leaves first, root last.
pub open spec fn tree_layers(items: Seq<Seq<u8>>) -> Seq<Seq<Seq<char>>> {
    Seq::new(depth_for(items.len()) + 1, |i: int| layer_at(leaf_layer(items), i as nat))
}

/// The root digest of the tree built from `items`.
pub open spec fn root_of(items: Seq<Seq<u8>>) -> Seq<char> {
    tree_layers(items).last()[0]
}

/// The byte contents of a list of buffers.
pub open spec fn items_view(input: Seq<Data>) -> Seq<Seq<u8>> {
    input.map_values(|d: Data| d@)
}

/// Layers that form a tree: a power of two of leaves, each layer the parent
/// layer of the one below, and a single root on top.
pub open spec fn layers_wf(t: Seq<Seq<Seq<char>>>) -> bool {
    &&& t.len() >= 1
    &&& t[0].len() == two_pow((t.len() - 1) as nat)
    &&& forall|i: int| 1 <= i < t.len() ==> #[trigger] t[i] == parent_layer(t[i - 1])
}

/// All nodes, layer after layer, leaves first.
pub open spec fn concat_layers(t: Seq<Seq<Seq<char>>>) -> Seq<Seq<char>>
    decreases t.len(),
{
    if t.len() == 0 {
        seq![]
    } else {
        concat_layers(t.drop_last()) + t.last()
    }
}

/// `i` is the first of the leaves below `count` whose digest is `d`.
pub open spec fn first_match(leaves: Seq<Seq<char>>, count: nat, d: Seq<char>, i: int) -> bool {
    &&& 0 <= i < count
    &&& leaves[i] == d
    &&& forall|j: int| 0 <= j < i ==> leaves[j] != d
}

/// `i` is the first position of `d` in `nodes`.
pub open spec fn first_index(nodes: Seq<Seq<char>>, d: Seq<char>, i: int) -> bool {
    &&& 0 <= i < nodes.len()
    &&& nodes[i] == d
    &&& forall|j: int| 0 <= j < i ==> nodes[j] != d
}

/// The digests of a layer of nodes.
pub open spec fn layer_view(layer: Seq<MerkleNode>) -> Seq<Seq<char>> {
    layer.map_values(|n: MerkleNode| n.hash@)
}

/// One node of the tree.
#[derive(Debug)]
pub struct MerkleNode {
    pub hash: Digest,
}

/// A tree built from a list of items.
#[derive(Debug)]
pub struct MerkleTree {
    layers: Vec<Vec<MerkleNode>>,
    item_count: usize,
}

impl View for MerkleTree {
    type V = Seq<Seq<Seq<char>>>;

    /// The digests, layer by layer: layer `0` holds the leaves.
    closed spec fn view(&self) -> Seq<Seq<Seq<char>>> {
        self.layers@.map_values(|l: Vec<MerkleNode>| layer_view(l@))
    }
}

impl MerkleTree {
    #[verifier::type_invariant]
    closed spec fn inv(&self) -> bool {
        &&& layers_wf(self@)
        &&& self.item_count <= self@[0].len()
        &&& self@[0].len() <= usize::MAX / 2
    }

    /// The number of items the tree was built from, padding excluded.
    pub closed spec fn real_leaf_count(&self) -> nat {
        self.item_count as nat
    }
}

/// Every power of two is at least one.
proof fn lemma_two_pow_positive(k: nat)
    ensures
        two_pow(k) >= 1,
    decreases k,
{
    if k > 0 {
        lemma_two_pow_positive((k - 1) as nat);
    }
}

/// `k` is the depth for `n` when `n` lies above `2^(k-1)` and at most `2^k`.
proof fn lemma_depth_exact(n: nat, k: nat)
    requires
        (k == 0 && n <= 1) || (k > 0 && two_pow((k - 1) as nat) < n <= two_pow(k)),
    ensures
        depth_for(n) == k,
    decreases k,
{
    if k > 0 {
        let m = ((n + 1) / 2) as nat;
        if k >= 2 {
            assert(two_pow((k - 1) as nat) == 2 * two_pow((k - 2) as nat));
        }
        lemma_depth_exact(m, (k - 1) as nat);
    }
}

/// The leaf count and the depth for `n` items.
fn leaf_shape(n: usize) -> (r: (usize, usize))
    requires
        n <= usize::MAX / 4,
    ensures
        r.0 == leaf_count_for(n as nat),
        r.1 == depth_for(n as nat),
        r.0 <= usize::MAX / 2,
        n <= r.0,
{
    let mut count: usize = 1;
    let mut depth: usize = 0;
    while count < n
        invariant
            n <= usize::MAX / 4,
            count == two_pow(depth as nat),
            1 <= count,
            depth <= count,
            depth == 0 || two_pow((depth - 1) as nat) < n,
            count == 1 || count < 2 * n,
        decreases usize::MAX - count,
    {
        count = count * 2;
        depth = depth + 1;
    }
    proof {
        lemma_depth_exact(n as nat, depth as nat);
    }
    (count, depth)
}

/// 32 zero bytes.
fn zero_buffer() -> (r: Data)
    ensures
        r@ == padding_item(),
{
    let mut r: Data = Vec::new();
    let mut i: usize = 0;
    while i < 32
        invariant
            i <= 32,
            r@ == Seq::new(i as nat, |j: int| 0u8),
        decreases 32 - i,
    {
        r.push(0u8);
        i = i + 1;
    }
    assert(r@ =~= padding_item());
    r
}

/// Pads the input with zero buffers up to `leaf_count` items.
fn pair_off_tree(input: &[Data], leaf_count: usize) -> (r: Vec<Data>)
    requires
        leaf_count == leaf_count_for(input@.len()),
    ensures
        r@.len() == leaf_count,
        items_view(r@) == padded(items_view(input@)),
{
    let mut r: Vec<Data> = Vec::new();
    let mut i: usize = 0;
    while i < leaf_count
        invariant
            leaf_count == leaf_count_for(input@.len()),
            i <= leaf_count,
            r@.len() == i,
            forall|j: int| 0 <= j < i ==> #[trigger] r@[j]@ == padded(items_view(input@))[j],
        decreases leaf_count - i,
    {
        if i < input.len() {
            let item = input[i].clone();
            assert(item@ =~= input@[i as int]@);
            r.push(item);
        } else {
            r.push(zero_buffer());
        }
        i = i + 1;
    }
    assert(items_view(r@) =~= padded(items_view(input@)));
    r
}

/// The layer above `layer`: node `k` holds the digest of nodes `2k` and `2k + 1`.
fn build_parent_layer(layer: &Vec<MerkleNode>) -> (r: Vec<MerkleNode>)
    ensures
        layer_view(r@) == parent_layer(layer_view(layer@)),
{
    let len = layer.len();
    let half = len / 2;
    let mut r: Vec<MerkleNode> = Vec::new();
    let mut k: usize = 0;
    while k < half
        invariant
            len == layer@.len(),
            half == len / 2,
            k <= half,
            r@.len() == k,
            forall|j: int|
                0 <= j < k ==> #[trigger] r@[j].hash@ == combine(
                    layer@[2 * j].hash@,
                    layer@[2 * j + 1].hash@,
                ),
        decreases half - k,
    {
        let hash = concatenate_and_hash(&layer[2 * k].hash, &layer[2 * k + 1].hash);
        r.push(MerkleNode { hash });
        k = k + 1;
    }
    assert(layer_view(r@) =~= parent_layer(layer_view(layer@)));
    r
}

/// Appending an entry to a proof appends its digest and side to the view.
proof fn lemma_proof_view_push(p: Seq<ProofEntry>, e: ProofEntry)
    ensures
        proof_view(p.push(e)) == proof_view(p).push((e.sibling@, e.side)),
{
    assert(proof_view(p.push(e)) =~= proof_view(p).push((e.sibling@, e.side)));
}

/// In a tree of depth `L`, layer `i` holds `2^(L - i)` nodes.
pub proof fn lemma_wf_layer_len(t: Seq<Seq<Seq<char>>>, i: nat)
    requires
        layers_wf(t),
        i < t.len(),
    ensures
        t[i as int].len() == two_pow((t.len() - 1 - i) as nat),
    decreases i,
{
    if i > 0 {
        lemma_wf_layer_len(t, (i - 1) as nat);
        assert(t[i as int] == parent_layer(t[i - 1]));
        assert(two_pow((t.len() - i) as nat) == 2 * two_pow((t.len() - 1 - i) as nat));
    }
}

/// Of a tree of depth `L`, the first `m` layers hold `2^(L+1) - 2^(L+1-m)` nodes.
proof fn lemma_concat_len(t: Seq<Seq<Seq<char>>>, m: nat)
    requires
        layers_wf(t),
        m <= t.len(),
    ensures
        concat_layers(t.take(m as int)).len() + two_pow((t.len() - m) as nat) == two_pow(
            t.len() as nat,
        ),
    decreases m,
{
    if m > 0 {
        lemma_concat_len(t, (m - 1) as nat);
        lemma_wf_layer_len(t, (m - 1) as nat);
        assert(t.take(m as int).drop_last() =~= t.take(m - 1));
        assert(two_pow((t.len() - m + 1) as nat) == 2 * two_pow((t.len() - m) as nat));
    } else {
        assert(t.take(0) =~= Seq::<Seq<Seq<char>>>::empty());
    }
}

/// A tree over `n` leaves has `2n - 1` nodes.
pub proof fn lemma_wf_node_count(t: Seq<Seq<Seq<char>>>)
    requires
        layers_wf(t),
    ensures
        concat_layers(t).len() == 2 * t[0].len() - 1,
{
    lemma_concat_len(t, t.len() as nat);
    assert(t.take(t.len() as int) =~= t);
    assert(two_pow(t.len() as nat) == 2 * two_pow((t.len() - 1) as nat));
}

/// The nodes of the first `m` layers come first among all nodes.
proof fn lemma_concat_prefix(t: Seq<Seq<Seq<char>>>, m: nat)
    requires
        m <= t.len(),
    ensures
        concat_layers(t.take(m as int)).len() <= concat_layers(t).len(),
        forall|j: int|
            0 <= j < concat_layers(t.take(m as int)).len() ==> concat_layers(t)[j]
                == #[trigger] concat_layers(t.take(m as int))[j],
    decreases t.len() - m,
{
    if m < t.len() {
        lemma_concat_prefix(t, (m + 1) as nat);
        assert(t.take(m + 1 as int).drop_last() =~= t.take(m as int));
        let shorter = concat_layers(t.take(m as int));
        let longer = concat_layers(t.take(m + 1 as int));
        assert(longer == shorter + t[m as int]);
        assert forall|j: int| 0 <= j < shorter.len() implies concat_layers(t)[j] == #[trigger] shorter[j] by {
            assert(longer[j] == shorter[j]);
        }
    } else {
        assert(t.take(m as int) =~= t);
    }
}

impl MerkleTree {
    /// Builds the tree over `input`. An empty list gives a tree of one
    /// padding leaf.
    pub fn construct_by_input(input: &[Data]) -> (r: Self)
        requires
            input@.len() <= usize::MAX / 4,
        ensures
            r@ == tree_layers(items_view(input@)),
            r.real_leaf_count() == input@.len(),
    {
        let ghost items = items_view(input@);
        let (leaf_count, depth) = leaf_shape(input.len());
        let padded_items = pair_off_tree(input, leaf_count);
        let mut leaves: Vec<MerkleNode> = Vec::new();
        let mut i: usize = 0;
        while i < leaf_count
            invariant
                padded_items@.len() == leaf_count,
                items_view(padded_items@) == padded(items),
                i <= leaf_count,
                leaves@.len() == i,
                forall|j: int|
                    0 <= j < i ==> #[trigger] leaves@[j].hash@ == leaf_digest(padded_items@[j]@),
            decreases leaf_count - i,
        {
            let hash = hash_data(&padded_items[i]);
            leaves.push(MerkleNode { hash });
            i = i + 1;
        }
        let ghost lv = leaf_layer(items);
        assert(layer_view(leaves@) =~= lv) by {
            assert forall|j: int| 0 <= j < leaf_count implies layer_view(leaves@)[j] == lv[j] by {
                assert(items_view(padded_items@)[j] == padded(items)[j]);
            }
        }
        let mut layers: Vec<Vec<MerkleNode>> = Vec::new();
        layers.push(leaves);
        let mut level: usize = 0;
        while level < depth
            invariant
                lv.len() == two_pow(depth as nat),
                level <= depth,
                layers@.len() == level + 1,
                forall|j: int|
                    0 <= j <= level ==> #[trigger] layer_view(layers@[j]@) == layer_at(lv, j as nat),
            decreases depth - level,
        {
            let next = build_parent_layer(&layers[level]);
            layers.push(next);
            level = level + 1;
        }
        let tree = MerkleTree { layers, item_count: input.len() };
        assert(tree@ =~= tree_layers(items));
        tree
    }

    /// The proof for leaf `index`: for each layer below the root, the digest
    /// of the sibling of the leaf's ancestor there and the side it stands on.
    pub fn get_merkle_proof_by_leaf_index(&self, index: usize) -> (r: Result<Proof, Error>)
        ensures
            match r {
                Ok(p) => index < self@[0].len() && proof_view(p@) == path_of(self@, index as nat),
                Err(e) => index >= self@[0].len() && e == Error::InvalidLeafIndex,
            },
    {
        proof {
            use_type_invariant(self);
        }
        if index >= self.layers[0].len() {
            return Err(Error::InvalidLeafIndex);
        }
        let depth = self.layers.len() - 1;
        let ghost path = path_of(self@, index as nat);
        proof {
            assert forall|i: int| 0 <= i <= depth implies #[trigger] self@[i].len() == two_pow(
                (depth - i) as nat,
            ) by {
                lemma_wf_layer_len(self@, i as nat);
            }
        }
        let mut proof: Proof = Vec::new();
        let mut pos: usize = index;
        let mut level: usize = 0;
        while level < depth
            invariant
                depth == self@.len() - 1,
                forall|i: int| 0 <= i <= depth ==> #[trigger] self@[i].len() == two_pow((depth - i) as nat),
                index < self@[0].len(),
                path == path_of(self@, index as nat),
                level <= depth,
                pos == position(index as nat, level as nat),
                pos < self@[level as int].len(),
                proof_view(proof@) == path.take(level as int),
            decreases depth - level,
        {
            proof {
                assert(self@[level as int].len() == two_pow((depth - level) as nat));
                assert(self@[level + 1].len() == two_pow((depth - level - 1) as nat));
                assert(two_pow((depth - level) as nat) == 2 * two_pow((depth - level - 1) as nat));
            }
            let layer = &self.layers[level];
            let (sibling, side) = if pos % 2 == 0 {
                (pos + 1, Side::Right)
            } else {
                (pos - 1, Side::Left)
            };
            let entry = ProofEntry { sibling: layer[sibling].hash.clone(), side };
            assert(self@[level as int] == layer_view(layer@));
            assert(entry.sibling@ == self@[level as int][sibling as int]);
            assert(path[level as int] == (entry.sibling@, entry.side));
            let ghost before = proof@;
            proof.push(entry);
            proof {
                lemma_proof_view_push(before, entry);
                assert(path.take(level + 1) =~= path.take(level as int).push(path[level as int]));
            }
            pos = pos / 2;
            level = level + 1;
        }
        assert(path.take(depth as int) =~= path);
        Ok(proof)
    }

    /// The proof for the first real leaf whose digest is that of `data`.
    /// Padding leaves are never matched.
    pub fn get_merkle_proof_by_data(&self, data: Data) -> (r: Result<Proof, Error>)
        ensures
            match r {
                Ok(p) => exists|i: int|
                    first_match(self@[0], self.real_leaf_count(), leaf_digest(data@), i)
                        && proof_view(p@) == path_of(self@, i as nat),
                Err(e) => e == Error::DataNotFound && forall|i: int|
                    0 <= i < self.real_leaf_count() ==> self@[0][i] != leaf_digest(data@),
            },
    {
        proof {
            use_type_invariant(self);
        }
        let wanted = hash_data(&data);
        let leaves = &self.layers[0];
        let mut i: usize = 0;
        while i < self.item_count
            invariant
                self.item_count <= leaves@.len(),
                layer_view(leaves@) == self@[0],
                wanted@ == leaf_digest(data@),
                i <= self.item_count,
                forall|j: int| 0 <= j < i ==> self@[0][j] != wanted@,
            decreases self.item_count - i,
        {
            if leaves[i].hash == wanted {
                assert(first_match(self@[0], self.real_leaf_count(), wanted@, i as int));
                return self.get_merkle_proof_by_leaf_index(i);
            }
            i = i + 1;
        }
        Err(Error::DataNotFound)
    }

    /// The digest of the root.
    pub fn root_hash(&self) -> (r: Digest)
        ensures
            r@ == self@.last()[0],
    {
        proof {
            use_type_invariant(self);
            lemma_wf_layer_len(self@, (self@.len() - 1) as nat);
        }
        let top = self.layers.len() - 1;
        self.layers[top][0].hash.clone()
    }

    /// The number of leaves, padding included.
    pub fn get_number_of_leaves(&self) -> (r: usize)
        ensures
            r == self@[0].len(),
    {
        proof {
            use_type_invariant(self);
        }
        self.layers[0].len()
    }

    /// The leaves, padding included, in order.
    pub fn leaves(&self) -> (r: &[MerkleNode])
        ensures
            layer_view(r@) == self@[0],
    {
        proof {
            use_type_invariant(self);
        }
        self.layers[0].as_slice()
    }

    /// The number of layers above the leaves.
    pub fn levels(&self) -> (r: usize)
        ensures
            r == self@.len() - 1,
    {
        proof {
            use_type_invariant(self);
        }
        self.layers.len() - 1
    }

    /// The number of nodes: twice the number of leaves, less one.
    pub fn node_count(&self) -> (r: usize)
        ensures
            r == concat_layers(self@).len(),
            r == 2 * self@[0].len() - 1,
    {
        proof {
            use_type_invariant(self);
            lemma_wf_node_count(self@);
        }
        2 * self.layers[0].len() - 1
    }

    /// The position of the first node with digest `hash`, counting the leaves
    /// first and then each layer above in turn.
    pub fn get_node_index(&self, hash: Digest) -> (r: Option<usize>)
        ensures
            match r {
                Some(i) => first_index(concat_layers(self@), hash@, i as int),
                None => forall|j: int|
                    0 <= j < concat_layers(self@).len() ==> concat_layers(self@)[j] != hash@,
            },
    {
        proof {
            use_type_invariant(self);
            lemma_wf_node_count(self@);
        }
        let ghost t = self@;
        let mut offset: usize = 0;
        let mut level: usize = 0;
        while level < self.layers.len()
            invariant
                t == self@,
                layers_wf(t),
                concat_layers(t).len() == 2 * t[0].len() - 1,
                t[0].len() <= usize::MAX / 2,
                level <= t.len(),
                offset == concat_layers(t.take(level as int)).len(),
                forall|j: int|
                    0 <= j < offset ==> concat_layers(t.take(level as int))[j] != hash@,
            decreases t.len() - level,
        {
            let layer = &self.layers[level];
            let ghost before = concat_layers(t.take(level as int));
            assert(t.take(level + 1).drop_last() =~= t.take(level as int));
            assert(concat_layers(t.take(level + 1)) == before + t[level as int]);
            proof {
                lemma_concat_len(t, (level + 1) as nat);
                lemma_two_pow_positive((t.len() - level - 1) as nat);
            }
            let mut k: usize = 0;
            while k < layer.len()
                invariant
                    t == self@,
                    t.len() >= 1,
                    level < t.len(),
                    before == concat_layers(t.take(level as int)),
                    concat_layers(t.take(level + 1)) == before + t[level as int],
                    layer_view(layer@) == t[level as int],
                    offset == before.len(),
                    offset + layer@.len() <= 2 * t[0].len() - 1,
                    t[0].len() <= usize::MAX / 2,
                    k <= layer@.len(),
                    forall|j: int| 0 <= j < offset ==> before[j] != hash@,
                    forall|j: int| 0 <= j < k ==> t[level as int][j] != hash@,
                decreases layer@.len() - k,
            {
                if layer[k].hash == hash {
                    let ghost all = concat_layers(t);
                    proof {
                        assert(t.take(t.len() as int) =~= t);
                        lemma_concat_prefix(t, (level + 1) as nat);
                        assert forall|j: int| 0 <= j < offset + k implies all[j] != hash@ by {
                            assert(all[j] == concat_layers(t.take(level + 1))[j]);
                            if j >= offset {
                                assert(all[j] == t[level as int][j - offset]);
                            }
                        }
                        assert(all[offset + k] == concat_layers(t.take(level + 1))[offset + k]);
                        assert(concat_layers(t.take(level + 1))[offset + k] == t[level as int][k as int]);
                        assert(t[level as int][k as int] == layer@[k as int].hash@);
                        assert(first_index(all, hash@, offset + k));
                    }
                    return Some(offset + k);
                }
                k = k + 1;
            }
            offset = offset + layer.len();
            level = level + 1;
        }
        assert(t.take(t.len() as int) =~= t);
        None
    }

    /// Checks that the tree built from `input` has the root `root`.
    pub fn verify(input: &[Data], root: Digest) -> (r: bool)
        requires
            input@.len() <= usize::MAX / 4,
        ensures
            r == (root_of(items_view(input@)) == root@),
    {
        let tree = MerkleTree::construct_by_input(input);
        tree.root_hash() == root
    }
}

} // verus!
