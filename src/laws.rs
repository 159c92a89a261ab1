//! Laws that relate the operations of a tree to one another.

use vstd::prelude::*;

use crate::bits::{bit_set, lemma_zero_iff_no_bit};
use crate::layered::{layer_bit, lemma_empty_all_zero, lemma_layers_canonical, summarises};
use crate::tree::SuccTree;

verus! {

/// In a well-formed tree, bit `b` of layer `l + 1` is set exactly when some
/// position of `[64 * b, 64 * b + 64)` in layer `l` is set.
pub proof fn lemma_summary_is_or(t: SuccTree, l: int, b: int)
    requires
        t.wf(),
        0 <= l < t.layers().len() - 1,
        0 <= b < t.layers()[l].len(),
    ensures
        layer_bit(t.layers()[l + 1], b) <==> exists|q: int|
            64 * b <= q < 64 * b + 64 && #[trigger] layer_bit(t.layers()[l], q),
{
    let layers = t.layers();
    let w = layers[l][b];
    assert(summarises(layers, l + 1, b));
    lemma_zero_iff_no_bit(w);
    if w != 0 {
        let i = choose|i: u64| i < 64 && !!#[trigger] bit_set(w, i);
        let q = 64 * b + i;
        assert(q / 64 == b && q % 64 == i);
        assert(layer_bit(layers[l], q));
    }
    if exists|q: int| 64 * b <= q < 64 * b + 64 && #[trigger] layer_bit(layers[l], q) {
        let q = choose|q: int| 64 * b <= q < 64 * b + 64 && #[trigger] layer_bit(layers[l], q);
        assert(q / 64 == b);
        assert(bit_set(w, (q % 64) as u64));
    }
}

/// The layers of a well-formed tree are fixed by its capacity and its elements.
pub proof fn lemma_same_elements_same_layers(a: SuccTree, b: SuccTree)
    requires
        a.wf(),
        b.wf(),
        a.capacity() == b.capacity(),
        a@ == b@,
    ensures
        a.layers() == b.layers(),
{
    lemma_layers_canonical(a.layers(), b.layers(), a.capacity());
}

/// Inserting `x` a second time leaves every layer as the first insertion left it.
pub proof fn lemma_insert_idempotent(before: SuccTree, once: SuccTree, twice: SuccTree, x: usize)
    requires
        before.wf(),
        x < before.capacity(),
        once.wf(),
        once.capacity() == before.capacity(),
        once@ == before@.insert(x),
        twice.wf(),
        twice.capacity() == once.capacity(),
        twice@ == once@.insert(x),
    ensures
        twice.layers() == once.layers(),
{
    assert(twice@ =~= once@);
    lemma_same_elements_same_layers(twice, once);
}

/// Deleting `x` a second time leaves every layer as the first deletion left it.
pub proof fn lemma_delete_idempotent(before: SuccTree, once: SuccTree, twice: SuccTree, x: usize)
    requires
        before.wf(),
        x < before.capacity(),
        once.wf(),
        once.capacity() == before.capacity(),
        once@ == before@.remove(x),
        twice.wf(),
        twice.capacity() == once.capacity(),
        twice@ == once@.remove(x),
    ensures
        twice.layers() == once.layers(),
{
    assert(twice@ =~= once@);
    lemma_same_elements_same_layers(twice, once);
}

/// Inserting `x` into an empty tree and deleting it again gives back the
/// empty tree's layers, every word of them zero.
pub proof fn lemma_insert_delete_round_trip(
    empty: SuccTree,
    inserted: SuccTree,
    deleted: SuccTree,
    x: usize,
)
    requires
        empty.wf(),
        empty@ == Set::<usize>::empty(),
        x < empty.capacity(),
        inserted.wf(),
        inserted.capacity() == empty.capacity(),
        inserted@ == empty@.insert(x),
        deleted.wf(),
        deleted.capacity() == inserted.capacity(),
        deleted@ == inserted@.remove(x),
    ensures
        deleted.layers() == empty.layers(),
        forall|l: int, i: int|
            0 <= l < deleted.layers().len() && 0 <= i < deleted.layers()[l].len()
                ==> deleted.layers()[l][i] == 0,
{
    assert(deleted@ =~= empty@);
    lemma_same_elements_same_layers(deleted, empty);
    lemma_empty_all_zero(deleted.layers(), deleted.capacity());
}

/// After an insertion the tree is not empty.
pub proof fn lemma_insert_not_empty(before: SuccTree, after: SuccTree, x: usize)
    requires
        after@ == before@.insert(x),
    ensures
        after@ != Set::<usize>::empty(),
{
    assert(after@.contains(x));
}

/// Deleting the only element leaves the tree empty.
pub proof fn lemma_delete_sole_empty(before: SuccTree, after: SuccTree, x: usize)
    requires
        before@ == Set::<usize>::empty().insert(x),
        after@ == before@.remove(x),
    ensures
        after@ == Set::<usize>::empty(),
{
    assert(after@ =~= Set::<usize>::empty());
}

} // verus!
