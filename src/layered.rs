//! What makes a sequence of layers a well-formed tree, and the facts that
//! follow from it.

use vstd::prelude::*;

use crate::bits::{bit_set, lemma_eq_by_bits, lemma_zero_iff_no_bit};
use crate::layout::{
    ancestor, ceil_div64, ceil_log64, layer_bits, layer_count, layer_words, lemma_ancestor_in_layer,
    lemma_ceil_div64_cover,
};

verus! {

/// Whether position `p` of a layer is set.
pub open spec fn layer_bit(layer: Seq<u64>, p: int) -> bool {
    bit_set(layer[p / 64], (p % 64) as u64)
}

/// Bit `j` of layer `l` is the OR of word `j` of layer `l - 1`.
pub open spec fn summarises(t: Seq<Seq<u64>>, l: int, j: int) -> bool {
    layer_bit(t[l], j) == (t[l - 1][j] != 0)
}

/// The layers of a tree over `[0, n)` have the right number and sizes, and
/// no position past the meaningful ones of its layer is set.
pub open spec fn shaped(t: Seq<Seq<u64>>, n: nat) -> bool {
    &&& 0 < n <= usize::MAX
    &&& t.len() == layer_count(n)
    &&& layer_bits(n, ceil_log64(n)) == 1
    &&& forall|l: int| 0 <= l < t.len() ==> #[trigger] t[l].len() == layer_words(n, l as nat)
    &&& forall|l: int, p: int|
        0 <= l < t.len() && 0 <= p < 64 * t[l].len() && #[trigger] layer_bit(t[l], p) ==> p
            < layer_bits(n, l as nat)
}

/// Every summary bit is right, but perhaps bit `px` of layer `lx`.
pub open spec fn summaries_except(t: Seq<Seq<u64>>, lx: int, px: int) -> bool {
    forall|l: int, j: int|
        1 <= l < t.len() && 0 <= j < t[l - 1].len() && (l != lx || j != px)
            ==> #[trigger] summarises(t, l, j)
}

/// A well-formed tree over `[0, n)`: shaped, with every summary bit equal to
/// the OR of the block below it.
pub open spec fn layered(t: Seq<Seq<u64>>, n: nat) -> bool {
    &&& shaped(t, n)
    &&& forall|l: int, j: int|
        1 <= l < t.len() && 0 <= j < t[l - 1].len() ==> #[trigger] summarises(t, l, j)
}

/// `r` is the least set position of `layer` above `item` in the block of 64 that holds `item`.
pub open spec fn next_set_in_block(layer: Seq<u64>, item: int, r: int) -> bool {
    &&& item < r
    &&& r / 64 == item / 64
    &&& layer_bit(layer, r)
    &&& forall|q: int| item < q < r ==> !#[trigger] layer_bit(layer, q)
}

/// The elements that the leaf layer of `t` holds, out of `[0, n)`.
pub open spec fn leaf_elements(t: Seq<Seq<u64>>, n: nat) -> Set<usize> {
    Set::new(|e: usize| e < n && layer_bit(t[0], e as int))
}

/// An element that is present sets, in every layer, the position that stands for it.
pub proof fn lemma_ancestor_set(t: Seq<Seq<u64>>, n: nat, e: usize, l: nat)
    requires
        layered(t, n),
        leaf_elements(t, n).contains(e),
        l < t.len(),
    ensures
        layer_bit(t[l as int], ancestor(e as int, l)),
    decreases l,
{
    if l > 0 {
        let k = (l - 1) as nat;
        lemma_ancestor_set(t, n, e, k);
        let p = ancestor(e as int, k);
        lemma_ancestor_in_layer(n, e as int, k);
        lemma_ceil_div64_cover(layer_bits(n, k));
        assert(t[k as int].len() == layer_words(n, k));
        let w = t[k as int][p / 64];
        lemma_zero_iff_no_bit(w);
        assert(bit_set(w, (p % 64) as u64));
        assert(summarises(t, l as int, p / 64));
    }
}

/// Changing position `pos` of layer `layer` to the value that the layer below
/// asks for moves the one wrong summary bit, if any, up to the parent of `pos`.
pub proof fn lemma_repair_step(
    t: Seq<Seq<u64>>,
    t1: Seq<Seq<u64>>,
    n: nat,
    layer: int,
    pos: int,
    v: u64,
)
    requires
        shaped(t, n),
        summaries_except(t, layer, pos),
        0 <= layer < t.len(),
        0 <= pos < layer_bits(n, layer as nat),
        t1 == t.update(layer, t[layer].update(pos / 64, v)),
        forall|q: int|
            0 <= q < 64 * t[layer].len() && q != pos ==> #[trigger] layer_bit(t1[layer], q)
                == layer_bit(t[layer], q),
        layer >= 1 ==> layer_bit(t1[layer], pos) == (t[layer - 1][pos] != 0),
    ensures
        shaped(t1, n),
        summaries_except(t1, layer + 1, pos / 64),
{
    lemma_ceil_div64_cover(layer_bits(n, layer as nat));
    assert forall|l: int| 0 <= l < t1.len() implies #[trigger] t1[l].len() == layer_words(
        n,
        l as nat,
    ) by {
        assert(t[l].len() == layer_words(n, l as nat));
    }
    assert forall|l: int, p: int|
        0 <= l < t1.len() && 0 <= p < 64 * t1[l].len() && #[trigger] layer_bit(t1[l], p) implies p
            < layer_bits(n, l as nat) by {
        if l == layer && p != pos {
            assert(layer_bit(t[l], p));
        } else if l != layer {
            assert(layer_bit(t[l], p));
        }
    }
    assert forall|l: int, j: int|
        1 <= l < t1.len() && 0 <= j < t1[l - 1].len() && (l != layer + 1 || j != pos / 64)
            implies #[trigger] summarises(t1, l, j) by {
        if l == layer {
            if j != pos {
                assert(summarises(t, l, j));
                assert(t[layer].len() == layer_words(n, layer as nat));
                assert(layer_words(n, layer as nat) == ceil_div64(layer_bits(n, layer as nat)));
                assert(layer_bits(n, layer as nat) == t[l - 1].len()) by {
                    assert(t[l - 1].len() == layer_words(n, (l - 1) as nat));
                }
            }
        } else if l == layer + 1 {
            assert(summarises(t, l, j));
            assert(t1[layer][j] == t[layer][j]);
        } else {
            assert(summarises(t, l, j));
        }
    }
}

/// Two layers of one length with the same bits are equal.
pub proof fn lemma_layer_eq_by_bits(a: Seq<u64>, b: Seq<u64>)
    requires
        a.len() == b.len(),
        forall|p: int| 0 <= p < 64 * a.len() ==> #[trigger] layer_bit(a, p) == layer_bit(b, p),
    ensures
        a == b,
{
    assert forall|i: int| 0 <= i < a.len() implies a[i] == b[i] by {
        assert forall|j: u64| j < 64 implies #[trigger] bit_set(a[i], j) == bit_set(b[i], j) by {
            let p = 64 * i + j;
            assert(p / 64 == i && p % 64 == j);
            assert(layer_bit(a, p) == layer_bit(b, p));
        }
        lemma_eq_by_bits(a[i], b[i]);
    }
    assert(a =~= b);
}

/// The layers of a tree are fixed by its capacity and its elements.
pub proof fn lemma_layers_canonical(t1: Seq<Seq<u64>>, t2: Seq<Seq<u64>>, n: nat)
    requires
        layered(t1, n),
        layered(t2, n),
        leaf_elements(t1, n) == leaf_elements(t2, n),
    ensures
        t1 == t2,
{
    assert forall|k: int| 0 <= k < t1.len() implies t1[k] == t2[k] by {
        lemma_layers_canonical_upto(t1, t2, n, k as nat);
    }
    assert(t1 =~= t2);
}

proof fn lemma_layers_canonical_upto(t1: Seq<Seq<u64>>, t2: Seq<Seq<u64>>, n: nat, k: nat)
    requires
        layered(t1, n),
        layered(t2, n),
        leaf_elements(t1, n) == leaf_elements(t2, n),
        k < t1.len(),
    ensures
        t1[k as int] == t2[k as int],
    decreases k,
{
    let a = t1[k as int];
    let b = t2[k as int];
    assert(a.len() == b.len()) by {
        assert(a.len() == layer_words(n, k));
        assert(b.len() == layer_words(n, k));
    }
    if k == 0 {
        assert forall|p: int| 0 <= p < 64 * a.len() implies #[trigger] layer_bit(a, p)
            == layer_bit(b, p) by {
            if p < n {
                let e = p as usize;
                assert(leaf_elements(t1, n).contains(e) == layer_bit(a, p));
                assert(leaf_elements(t2, n).contains(e) == layer_bit(b, p));
            }
        }
    } else {
        let j = (k - 1) as nat;
        lemma_layers_canonical_upto(t1, t2, n, j);
        assert(layer_bits(n, k) == t1[j as int].len());
        assert forall|p: int| 0 <= p < 64 * a.len() implies #[trigger] layer_bit(a, p)
            == layer_bit(b, p) by {
            if p < t1[j as int].len() {
                assert(summarises(t1, k as int, p));
                assert(summarises(t2, k as int, p));
            }
        }
    }
    lemma_layer_eq_by_bits(a, b);
}

/// A tree with no elements has every word of every layer zero.
pub proof fn lemma_empty_all_zero(t: Seq<Seq<u64>>, n: nat)
    requires
        layered(t, n),
        leaf_elements(t, n) == Set::<usize>::empty(),
    ensures
        forall|l: int, i: int| 0 <= l < t.len() && 0 <= i < t[l].len() ==> t[l][i] == 0,
{
    assert forall|l: int, i: int| 0 <= l < t.len() && 0 <= i < t[l].len() implies t[l][i] == 0 by {
        lemma_empty_layer_zero(t, n, l as nat);
        assert(t[l][i] == Seq::new(t[l].len(), |i: int| 0u64)[i]);
    }
}

proof fn lemma_empty_layer_zero(t: Seq<Seq<u64>>, n: nat, k: nat)
    requires
        layered(t, n),
        leaf_elements(t, n) == Set::<usize>::empty(),
        k < t.len(),
    ensures
        t[k as int] == Seq::new(t[k as int].len(), |i: int| 0u64),
    decreases k,
{
    let a = t[k as int];
    let z = Seq::new(a.len(), |i: int| 0u64);
    assert forall|p: int| 0 <= p < 64 * a.len() implies !#[trigger] layer_bit(a, p) by {
        if k == 0 {
            if p < n {
                assert(!leaf_elements(t, n).contains(p as usize));
            }
        } else {
            let j = (k - 1) as nat;
            lemma_empty_layer_zero(t, n, j);
            assert(layer_bits(n, k) == t[j as int].len());
            if p < t[j as int].len() {
                assert(summarises(t, k as int, p));
                assert(t[j as int][p] == z.len() * 0);
            }
        }
    }
    assert forall|p: int| 0 <= p < 64 * a.len() implies #[trigger] layer_bit(a, p)
        == layer_bit(z, p) by {
        assert(z[p / 64] == 0u64);
        lemma_zero_iff_no_bit(0u64);
    }
    lemma_layer_eq_by_bits(a, z);
}

} // verus!
