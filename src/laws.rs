//! What holds of every tree and every proof.
use vstd::prelude::*;
use crate::digest::leaf_digest;
use crate::tree::{
    two_pow, leaf_count_for, padded, leaf_layer, parent_layer, layer_at, tree_layers,
    root_of, layers_wf, concat_layers, lemma_wf_layer_len, lemma_wf_node_count,
};
use crate::inclusion::{Side, fold_path, path_of, position, sibling_of, side_of, step};

verus! {

proof fn lemma_leaf_count_covers(n: nat)
    ensures
        n <= leaf_count_for(n),
    decreases n,
{
    if n > 1 {
        lemma_leaf_count_covers(((n + 1) / 2) as nat);
    }
}

/// The layers built from any list of items form a tree whose leaves start
/// with the digests of the items, in order.
pub proof fn lemma_tree_layers_wf(items: Seq<Seq<u8>>)
    ensures
        layers_wf(tree_layers(items)),
        tree_layers(items)[0].len() == leaf_count_for(items.len()),
        forall|i: int|
            0 <= i < items.len() ==> #[trigger] tree_layers(items)[0][i] == leaf_digest(items[i]),
{
    let t = tree_layers(items);
    lemma_leaf_count_covers(items.len());
    assert(t[0] == leaf_layer(items));
    assert forall|i: int| 1 <= i < t.len() implies #[trigger] t[i] == parent_layer(t[i - 1]) by {
        assert(t[i] == layer_at(leaf_layer(items), i as nat));
    }
    assert forall|i: int| 0 <= i < items.len() implies #[trigger] t[0][i] == leaf_digest(
        items[i],
    ) by {
        assert(padded(items)[i] == items[i]);
    }
}

/// Building is deterministic: equal lists of items give equal trees, hence
/// equal roots.
pub proof fn lemma_build_deterministic(a: Seq<Seq<u8>>, b: Seq<Seq<u8>>)
    requires
        a.len() == b.len(),
        forall|i: int| 0 <= i < a.len() ==> a[i] == b[i],
    ensures
        tree_layers(a) == tree_layers(b),
        root_of(a) == root_of(b),
{
    assert(a =~= b);
}

/// In any tree, following the proof of a leaf from that leaf's digest leads
/// to the root.
pub proof fn lemma_path_reaches_root(t: Seq<Seq<Seq<char>>>, index: nat)
    requires
        layers_wf(t),
        index < t[0].len(),
    ensures
        fold_path(t[0][index as int], path_of(t, index)) == t.last()[0],
{
    let depth = (t.len() - 1) as nat;
    let path = path_of(t, index);
    lemma_path_prefix(t, index, depth);
    assert(path.take(depth as int) =~= path);
    lemma_wf_layer_len(t, depth);
}

/// After the first `m` steps of the proof of leaf `index`, the digest reached
/// is that of the leaf's ancestor on layer `m`.
proof fn lemma_path_prefix(t: Seq<Seq<Seq<char>>>, index: nat, m: nat)
    requires
        layers_wf(t),
        index < t[0].len(),
        m < t.len(),
    ensures
        position(index, m) < t[m as int].len(),
        fold_path(t[0][index as int], path_of(t, index).take(m as int)) == t[m as int][position(
            index,
            m,
        ) as int],
    decreases m,
{
    let path = path_of(t, index);
    if m == 0 {
        assert(path.take(0) =~= Seq::<(Seq<char>, Side)>::empty());
    } else {
        let prev = (m - 1) as nat;
        lemma_path_prefix(t, index, prev);
        lemma_wf_layer_len(t, prev);
        lemma_wf_layer_len(t, m);
        assert(two_pow((t.len() - m) as nat) == 2 * two_pow((t.len() - 1 - m) as nat));
        assert(path.take(m as int).drop_last() =~= path.take(prev as int));
        let p = position(index, prev);
        let below = t[prev as int];
        assert(t[m as int] == parent_layer(below));
        let here = fold_path(t[0][index as int], path.take(prev as int));
        assert(here == below[p as int]);
        assert(path.take(m as int).last() == path[prev as int]);
        assert(path[prev as int] == (below[sibling_of(p) as int], side_of(p)));
        assert(step(here, path[prev as int]) == parent_layer(below)[(p / 2) as int]);
    }
}

/// Each real item is proved by its proof: from the item's digest, the proof
/// built for its index leads to the root of the tree over the items.
pub proof fn lemma_proof_verifies(items: Seq<Seq<u8>>, index: nat)
    requires
        index < items.len(),
    ensures
        fold_path(leaf_digest(items[index as int]), path_of(tree_layers(items), index))
            == root_of(items),
{
    lemma_tree_layers_wf(items);
    lemma_leaf_count_covers(items.len());
    lemma_path_reaches_root(tree_layers(items), index);
}

/// A buffer whose digest is the digest of no item matches no real leaf of the
/// tree over the items, so no proof is found for it.
pub proof fn lemma_absent_data_not_found(items: Seq<Seq<u8>>, data: Seq<u8>)
    requires
        forall|i: int| 0 <= i < items.len() ==> leaf_digest(items[i]) != leaf_digest(data),
    ensures
        forall|i: int|
            0 <= i < items.len() ==> #[trigger] tree_layers(items)[0][i] != leaf_digest(data),
{
    lemma_tree_layers_wf(items);
}

/// The tree over `n` padded leaves has exactly `2n - 1` nodes.
pub proof fn lemma_node_count(items: Seq<Seq<u8>>)
    ensures
        concat_layers(tree_layers(items)).len() == 2 * leaf_count_for(items.len()) - 1,
{
    lemma_tree_layers_wf(items);
    lemma_wf_node_count(tree_layers(items));
}

} // verus!
