//! The layered bitmap and its operations.

use vstd::prelude::*;

use crate::bits::{
    bit_set, lemma_and_not_bit, lemma_mask_above, lemma_or_bit, lemma_trailing_zeros,
    lemma_zero_iff_no_bit,
};
use crate::error::SuccTreeError;
use crate::layered::{
    layer_bit, layered, leaf_elements, lemma_ancestor_set, lemma_empty_all_zero,
    lemma_layers_canonical, lemma_repair_step, next_set_in_block, shaped, summarises,
    summaries_except,
};
use crate::layout::{
    ancestor, ceil_div64, ceil_log64, layer_bits, layer_count, layer_words, lemma_ancestor_in_layer,
    lemma_ancestor_monotone, lemma_ceil_div64_cover, lemma_layer_bits_le,
};

verus! {

broadcast use vstd::std_specs::bits::axiom_u64_trailing_zeros;

/// The width of a word, and so the number of positions that one summary bit covers.
pub const WORD_BITS: usize = 64;

/// `r` is the least element of `s` greater than `x`, or `None` when there is none.
pub open spec fn is_successor(s: Set<usize>, x: usize, r: Option<usize>) -> bool {
    match r {
        Some(y) => s.contains(y) && x < y && forall|e: usize|
            #[trigger] s.contains(e) && x < e ==> y <= e,
        None => forall|e: usize| #[trigger] s.contains(e) ==> e <= x,
    }
}

/// `r` is the least element of `s`, or `None` when `s` is empty.
pub open spec fn is_least(s: Set<usize>, r: Option<usize>) -> bool {
    match r {
        Some(m) => s.contains(m) && forall|e: usize| #[trigger] s.contains(e) ==> m <= e,
        None => s == Set::<usize>::empty(),
    }
}

/// A set of integers in `[0, N)`, stored as layers of 64-bit words. Layer 0
/// holds one bit per element; each bit of layer `l + 1` is set exactly when
/// the word below it in layer `l` is non-zero.
pub struct SuccTree {
    tree: Vec<Vec<u64>>,
    size: usize,
}

impl View for SuccTree {
    type V = Set<usize>;

    /// The elements present.
    open spec fn view(&self) -> Set<usize> {
        leaf_elements(self.layers(), self.capacity())
    }
}

impl SuccTree {
    /// The words of every layer, leaves first.
    pub closed spec fn layers(&self) -> Seq<Seq<u64>> {
        self.tree@.map_values(|v: Vec<u64>| v@)
    }

    /// The capacity `N`: elements are the integers of `[0, N)`.
    pub closed spec fn capacity(&self) -> nat {
        self.size as nat
    }

    /// Well-formedness: the layers fit the capacity and every summary bit is right.
    pub open spec fn wf(&self) -> bool {
        layered(self.layers(), self.capacity())
    }

    /// Creates an empty tree for the elements `[0, size)`, with
    /// `ceil(log_64(size)) + 1` layers of zero words.
    pub fn new(size: usize) -> (t: SuccTree)
        requires
            size > 0,
        ensures
            t.wf(),
            t.capacity() == size,
            t@ == Set::<usize>::empty(),
            t.layers().len() == layer_count(size as nat),
            forall|l: int|
                0 <= l < t.layers().len() ==> #[trigger] t.layers()[l].len() == layer_words(
                    size as nat,
                    l as nat,
                ),
            forall|l: int, i: int|
                0 <= l < t.layers().len() && 0 <= i < t.layers()[l].len() ==> t.layers()[l][i]
                    == 0,
    {
        let mut tree: Vec<Vec<u64>> = Vec::new();
        let mut bits: usize = size;
        loop
            invariant_except_break
                1 <= bits <= size,
                bits == layer_bits(size as nat, tree.len() as nat),
                ceil_log64(size as nat) == tree.len() + ceil_log64(bits as nat),
            invariant
                forall|l: int|
                    0 <= l < tree.len() ==> #[trigger] tree[l]@ == Seq::new(
                        layer_words(size as nat, l as nat),
                        |i: int| 0u64,
                    ),
            ensures
                tree.len() == layer_count(size as nat),
                layer_bits(size as nat, ceil_log64(size as nat)) == 1,
                forall|l: int|
                    0 <= l < tree.len() ==> #[trigger] tree[l]@ == Seq::new(
                        layer_words(size as nat, l as nat),
                        |i: int| 0u64,
                    ),
            decreases bits,
        {
            let words: usize = bits / WORD_BITS + if bits % WORD_BITS == 0 {
                0
            } else {
                1
            };
            assert(words == layer_bits(size as nat, (tree.len() + 1) as nat));
            let layer: Vec<u64> = vec![0u64; words];
            assert(layer@ =~= Seq::new(words as nat, |i: int| 0u64));
            tree.push(layer);
            if bits <= 1 {
                break;
            }
            bits = words;
        }
        let t = SuccTree { tree, size };
        assert(t.layers().len() == tree.len());
        assert forall|l: int| 0 <= l < t.layers().len() implies #[trigger] t.layers()[l]
            == tree[l]@ by {}
        assert forall|l: int, p: int|
            0 <= l < t.layers().len() && 0 <= p < 64 * t.layers()[l].len()
                && #[trigger] layer_bit(t.layers()[l], p) implies p < layer_bits(
                size as nat,
                l as nat,
            ) by {
            assert(t.layers()[l][p / 64] == 0);
            assert(!bit_set(0u64, (p % 64) as u64)) by {
                lemma_zero_iff_no_bit(0u64);
            }
        }
        assert forall|l: int, j: int|
            1 <= l < t.layers().len() && 0 <= j < t.layers()[l - 1].len()
                implies #[trigger] summarises(t.layers(), l, j) by {
            assert(t.layers()[l][j / 64] == 0);
            assert(!bit_set(0u64, (j % 64) as u64)) by {
                lemma_zero_iff_no_bit(0u64);
            }
        }
        assert(t@ =~= Set::<usize>::empty()) by {
            assert forall|e: usize| !t@.contains(e) by {
                if e < size {
                    assert(layer_bits(size as nat, 0) == size);
                    assert(layer_words(size as nat, 0) == ceil_div64(size as nat));
                    assert(t.layers()[0][(e as int) / 64] == 0);
                    assert(!bit_set(0u64, ((e as int) % 64) as u64)) by {
                        lemma_zero_iff_no_bit(0u64);
                    }
                }
            }
        }
        t
    }

    /// Sets position `pos` of layer `layer`; every other bit stays as it was.
    fn set_bit(&mut self, layer: usize, pos: usize)
        requires
            layer < old(self).layers().len(),
            pos as int / 64 < old(self).layers()[layer as int].len(),
        ensures
            final(self).capacity() == old(self).capacity(),
            final(self).layers() == old(self).layers().update(
                layer as int,
                old(self).layers()[layer as int].update(
                    pos as int / 64,
                    old(self).layers()[layer as int][pos as int / 64] | (1u64 << (pos as int
                        % 64) as u64),
                ),
            ),
            forall|q: int|
                0 <= q < 64 * old(self).layers()[layer as int].len() ==> #[trigger] layer_bit(
                    final(self).layers()[layer as int],
                    q,
                ) == (q == pos || layer_bit(old(self).layers()[layer as int], q)),
    {
        let w = pos / WORD_BITS;
        let mask: u64 = 1u64 << ((pos % WORD_BITS) as u64);
        let old_word = self.tree[layer][w];
        self.tree[layer][w] = old_word | mask;
        proof {
            assert(self.layers() =~= old(self).layers().update(
                layer as int,
                old(self).layers()[layer as int].update(pos as int / 64, old_word | mask),
            ));
            lemma_or_bit(old_word, (pos as int % 64) as u64);
            assert forall|q: int|
                0 <= q < 64 * old(self).layers()[layer as int].len() implies #[trigger] layer_bit(
                    self.layers()[layer as int],
                    q,
                ) == (q == pos || layer_bit(old(self).layers()[layer as int], q)) by {
                if q / 64 == pos as int / 64 {
                    assert((q == pos) == ((q % 64) as u64 == (pos as int % 64) as u64));
                }
            }
        }
    }

    /// Clears position `pos` of layer `layer`; every other bit stays as it was.
    fn clear_bit(&mut self, layer: usize, pos: usize)
        requires
            layer < old(self).layers().len(),
            pos as int / 64 < old(self).layers()[layer as int].len(),
        ensures
            final(self).capacity() == old(self).capacity(),
            final(self).layers() == old(self).layers().update(
                layer as int,
                old(self).layers()[layer as int].update(
                    pos as int / 64,
                    old(self).layers()[layer as int][pos as int / 64] & !(1u64 << (pos as int
                        % 64) as u64),
                ),
            ),
            forall|q: int|
                0 <= q < 64 * old(self).layers()[layer as int].len() ==> #[trigger] layer_bit(
                    final(self).layers()[layer as int],
                    q,
                ) == (q != pos && layer_bit(old(self).layers()[layer as int], q)),
    {
        let w = pos / WORD_BITS;
        let mask: u64 = 1u64 << ((pos % WORD_BITS) as u64);
        let old_word = self.tree[layer][w];
        self.tree[layer][w] = old_word & !mask;
        proof {
            assert(self.layers() =~= old(self).layers().update(
                layer as int,
                old(self).layers()[layer as int].update(pos as int / 64, old_word & !mask),
            ));
            lemma_and_not_bit(old_word, (pos as int % 64) as u64);
            assert forall|q: int|
                0 <= q < 64 * old(self).layers()[layer as int].len() implies #[trigger] layer_bit(
                    self.layers()[layer as int],
                    q,
                ) == (q != pos && layer_bit(old(self).layers()[layer as int], q)) by {
                if q / 64 == pos as int / 64 {
                    assert((q == pos) == ((q % 64) as u64 == (pos as int % 64) as u64));
                }
            }
        }
    }

    /// The position in the next layer up that summarises `item`: `item / 64`.
    pub fn move_up_layer(item: usize) -> (r: usize)
        ensures
            r == item / 64,
    {
        item / WORD_BITS
    }

    /// The first position of the block that position `item` summarises in the
    /// layer below: `item * 64`.
    pub fn move_down(item: usize) -> (r: usize)
        requires
            item * 64 <= usize::MAX,
        ensures
            r == item * 64,
    {
        item * WORD_BITS
    }

    /// Whether position `item` of layer `layer` is set.
    fn is_parent_set(&self, layer: usize, item: usize) -> (r: bool)
        requires
            layer < self.layers().len(),
            item / 64 < self.layers()[layer as int].len(),
        ensures
            r == layer_bit(self.layers()[layer as int], item as int),
    {
        let bit: u64 = 1u64 << ((item % WORD_BITS) as u64);
        let word = self.tree[layer][item / WORD_BITS];
        proof {
            let b = (item % 64) as u64;
            assert((word & (1u64 << b) != 0) == bit_set(word, b)) by (bit_vector)
                requires
                    b < 64,
            ;
        }
        word & bit != 0
    }

    /// Whether the word of layer `layer` that holds position `item` has any bit set.
    fn is_any_sibling_set(&self, layer: usize, item: usize) -> (r: bool)
        requires
            layer < self.layers().len(),
            item / 64 < self.layers()[layer as int].len(),
        ensures
            r == (self.layers()[layer as int][item as int / 64] != 0),
    {
        self.tree[layer][item / WORD_BITS] != 0
    }

    /// The least set position of layer `layer` that is greater than `item` and
    /// lies in the same block of 64; `0` when there is none (a position greater
    /// than `item` is never `0`).
    pub fn greater_sibling_in_block(&self, layer: usize, item: usize) -> (r: usize)
        requires
            self.wf(),
            layer < self.layers().len(),
            item < layer_bits(self.capacity(), layer as nat),
        ensures
            r != 0 ==> next_set_in_block(self.layers()[layer as int], item as int, r as int),
            r == 0 ==> forall|q: int|
                item < q && q / 64 == item / 64 ==> !#[trigger] layer_bit(
                    self.layers()[layer as int],
                    q,
                ),
    {
        let ghost t = self.layers();
        let ghost n = self.capacity();
        let w = item / WORD_BITS;
        let off = item % WORD_BITS;
        proof {
            lemma_ceil_div64_cover(layer_bits(n, layer as nat));
            assert(t[layer as int].len() == layer_words(n, layer as nat));
        }
        let word = self.tree[layer][w];
        let value = word & ((u64::MAX << (off as u64)) << 1u64);
        proof {
            lemma_mask_above(word, off as u64);
            lemma_zero_iff_no_bit(value);
        }
        if value == 0 {
            proof {
                assert forall|q: int| item < q && q / 64 == item / 64 implies !#[trigger] layer_bit(
                    t[layer as int],
                    q,
                ) by {
                    let b = (q % 64) as u64;
                    assert(bit_set(value, b) == ((off as u64) < b && bit_set(word, b)));
                }
            }
            return 0;
        }
        let tz = value.trailing_zeros();
        proof {
            lemma_trailing_zeros(value);
            let r = w * 64 + tz;
            assert(r / 64 == w && r % 64 == tz);
            assert(layer_bit(t[layer as int], r));
            assert(0 <= r < 64 * t[layer as int].len());
            lemma_layer_bits_le(n, layer as nat);
            assert forall|q: int| item < q < r implies !#[trigger] layer_bit(
                t[layer as int],
                q,
            ) by {
                let b = (q % 64) as u64;
                    assert(bit_set(value, b) == ((off as u64) < b && bit_set(word, b)));
            }
        }
        w * WORD_BITS + tz as usize
    }

    /// The least set position of layer `layer` in the block that starts at `block`.
    fn first_item_set_in_block(&self, layer: usize, block: usize) -> (r: usize)
        requires
            self.wf(),
            layer < self.layers().len(),
            block % 64 == 0,
            block / 64 < self.layers()[layer as int].len(),
            self.layers()[layer as int][block as int / 64] != 0,
        ensures
            r / 64 == block / 64,
            layer_bit(self.layers()[layer as int], r as int),
            forall|q: int| block <= q < r ==> !#[trigger] layer_bit(self.layers()[layer as int], q),
    {
        let ghost t = self.layers();
        let ghost n = self.capacity();
        let word = self.tree[layer][block / WORD_BITS];
        let tz = word.trailing_zeros();
        proof {
            lemma_trailing_zeros(word);
            let r = block + tz;
            assert(r / 64 == block / 64 && r % 64 == tz);
            assert(layer_bit(t[layer as int], r));
            lemma_layer_bits_le(n, layer as nat);
            assert forall|q: int| block <= q < r implies !#[trigger] layer_bit(
                t[layer as int],
                q,
            ) by {
                assert(q / 64 == block / 64);
                assert(((q % 64) as u64) < tz);
            }
        }
        block + tz as usize
    }

    /// Adds `item`: sets its leaf bit, then sets summary bits upward until one
    /// is found already set. Inserting an element that is present changes no bit.
    pub fn insert(&mut self, item: usize)
        requires
            old(self).wf(),
            item < old(self).capacity(),
        ensures
            final(self).wf(),
            final(self).capacity() == old(self).capacity(),
            final(self)@ == old(self)@.insert(item),
            old(self)@.contains(item) ==> final(self).layers() == old(self).layers(),
    {
        let ghost n = self.capacity();
        let ghost t0 = self.layers();
        let top = self.tree.len() - 1;
        let mut layer: usize = 0;
        let mut pos: usize = item;
        proof {
            assert(layer_bits(n, 0) == n);
        }
        loop
            invariant_except_break
                layer <= top,
                top + 1 == self.layers().len(),
                self.capacity() == n,
                shaped(self.layers(), n),
                summaries_except(self.layers(), layer as int, pos as int),
                pos < layer_bits(n, layer as nat),
                pos == ancestor(item as int, layer as nat),
                layer == 0 ==> self.layers() == t0,
                layer > 0 ==> leaf_elements(self.layers(), n) == leaf_elements(t0, n).insert(item),
                layer > 0 ==> self.layers()[layer - 1][pos as int] != 0,
            ensures
                self.wf(),
                self.capacity() == n,
                leaf_elements(self.layers(), n) == leaf_elements(t0, n).insert(item),
            decreases top - layer,
        {
            let ghost t = self.layers();
            proof {
                lemma_ceil_div64_cover(layer_bits(n, layer as nat));
                assert(t[layer as int].len() == layer_words(n, layer as nat));
            }
            self.set_bit(layer, pos);
            proof {
                let t1 = self.layers();
                lemma_repair_step(
                    t,
                    t1,
                    n,
                    layer as int,
                    pos as int,
                    t[layer as int][pos as int / 64] | (1u64 << (pos as int % 64) as u64),
                );
                let w = t1[layer as int][pos as int / 64];
                lemma_zero_iff_no_bit(w);
                assert(layer_bit(t1[layer as int], pos as int));
                if layer == 0 {
                    assert(leaf_elements(t1, n) =~= leaf_elements(t0, n).insert(item));
                } else {
                    assert(t1[0] == t[0]);
                    assert(leaf_elements(t1, n) =~= leaf_elements(t, n));
                }
            }
            if layer == top {
                break;
            }
            let parent = Self::move_up_layer(pos);
            proof {
                lemma_ceil_div64_cover(layer_bits(n, layer as nat));
                assert(self.layers()[layer + 1].len() == layer_words(n, (layer + 1) as nat));
                lemma_ceil_div64_cover(layer_bits(n, (layer + 1) as nat));
            }
            if self.is_parent_set(layer + 1, parent) {
                proof {
                    assert(summarises(self.layers(), layer + 1, parent as int));
                }
                break;
            }
            layer = layer + 1;
            pos = parent;
        }
        proof {
            if t0.len() > 0 && leaf_elements(t0, n).contains(item) {
                assert(leaf_elements(t0, n).insert(item) =~= leaf_elements(t0, n));
                lemma_layers_canonical(self.layers(), t0, n);
            }
        }
    }

    /// Removes `item`: clears its leaf bit, then clears summary bits upward
    /// while the word just changed has become zero. Deleting an element that
    /// is absent changes no bit.
    pub fn delete(&mut self, item: usize)
        requires
            old(self).wf(),
            item < old(self).capacity(),
        ensures
            final(self).wf(),
            final(self).capacity() == old(self).capacity(),
            final(self)@ == old(self)@.remove(item),
            !old(self)@.contains(item) ==> final(self).layers() == old(self).layers(),
    {
        let ghost n = self.capacity();
        let ghost t0 = self.layers();
        let top = self.tree.len() - 1;
        let mut layer: usize = 0;
        let mut pos: usize = item;
        proof {
            assert(layer_bits(n, 0) == n);
        }
        loop
            invariant_except_break
                layer <= top,
                top + 1 == self.layers().len(),
                self.capacity() == n,
                shaped(self.layers(), n),
                summaries_except(self.layers(), layer as int, pos as int),
                pos < layer_bits(n, layer as nat),
                pos == ancestor(item as int, layer as nat),
                layer == 0 ==> self.layers() == t0,
                layer > 0 ==> leaf_elements(self.layers(), n) == leaf_elements(t0, n).remove(item),
                layer > 0 ==> self.layers()[layer - 1][pos as int] == 0,
            ensures
                self.wf(),
                self.capacity() == n,
                leaf_elements(self.layers(), n) == leaf_elements(t0, n).remove(item),
            decreases top - layer,
        {
            let ghost t = self.layers();
            proof {
                lemma_ceil_div64_cover(layer_bits(n, layer as nat));
                assert(t[layer as int].len() == layer_words(n, layer as nat));
            }
            self.clear_bit(layer, pos);
            proof {
                let t1 = self.layers();
                lemma_repair_step(
                    t,
                    t1,
                    n,
                    layer as int,
                    pos as int,
                    t[layer as int][pos as int / 64] & !(1u64 << (pos as int % 64) as u64),
                );
                if layer == 0 {
                    assert(leaf_elements(t1, n) =~= leaf_elements(t0, n).remove(item));
                } else {
                    assert(t1[0] == t[0]);
                    assert(leaf_elements(t1, n) =~= leaf_elements(t, n));
                }
            }
            if layer == top {
                break;
            }
            proof {
                lemma_ceil_div64_cover(layer_bits(n, layer as nat));
                assert(self.layers()[layer + 1].len() == layer_words(n, (layer + 1) as nat));
            }
            if self.is_any_sibling_set(layer, pos) {
                proof {
                    let t1 = self.layers();
                    let j = pos as int / 64;
                    let w = t[layer as int][j];
                    let w1 = t1[layer as int][j];
                    lemma_and_not_bit(w, (pos as int % 64) as u64);
                    lemma_zero_iff_no_bit(w);
                    lemma_zero_iff_no_bit(w1);
                    assert(w != 0) by {
                        let b = choose|b: u64| b < 64 && #[trigger] bit_set(w1, b);
                        assert(bit_set(w, b));
                    }
                    assert(summarises(t, layer + 1, j));
                    assert(summarises(t1, layer + 1, j));
                }
                break;
            }
            layer = layer + 1;
            pos = Self::move_up_layer(pos);
        }
        proof {
            if !leaf_elements(t0, n).contains(item) {
                assert(leaf_elements(t0, n).remove(item) =~= leaf_elements(t0, n));
                lemma_layers_canonical(self.layers(), t0, n);
            }
        }
    }

    /// The least element greater than `item`, if any. Climbs the layers until a
    /// block holds a set position above the one standing for `item`, then
    /// descends to the leaves taking the first set position of each block.
    pub fn successor(&self, item: usize) -> (r: Option<usize>)
        requires
            self.wf(),
            item < self.capacity(),
        ensures
            is_successor(self@, item, r),
    {
        let ghost t = self.layers();
        let ghost n = self.capacity();
        let ghost s = self@;
        let top = self.tree.len() - 1;
        let mut layer: usize = 0;
        let mut pos: usize = item;
        proof {
            assert(layer_bits(n, 0) == n);
        }
        let mut next = self.greater_sibling_in_block(layer, pos);
        if next != 0 {
            return Some(next);
        }
        while next == 0 && layer < top
            invariant
                self.wf(),
                t == self.layers(),
                s == self@,
                n == self.capacity(),
                top + 1 == t.len(),
                layer <= top,
                item < n,
                pos == ancestor(item as int, layer as nat),
                pos < layer_bits(n, layer as nat),
                forall|e: usize|
                    #[trigger] s.contains(e) && item < e ==> pos < ancestor(e as int, layer as nat),
                next != 0 ==> next_set_in_block(t[layer as int], pos as int, next as int),
                next == 0 ==> forall|q: int|
                    pos < q && q / 64 == pos / 64 ==> !#[trigger] layer_bit(t[layer as int], q),
            decreases top - layer,
        {
            proof {
                assert forall|e: usize| #[trigger] s.contains(e) && item < e implies pos / 64
                    < ancestor(e as int, (layer + 1) as nat) by {
                    let a = ancestor(e as int, layer as nat);
                    lemma_ancestor_set(t, n, e, layer as nat);
                    lemma_ancestor_in_layer(n, e as int, layer as nat);
                    assert(a / 64 != pos / 64);
                    assert(pos / 64 <= a / 64) by (nonlinear_arith)
                        requires
                            0 <= pos < a,
                    ;
                }
            }
            pos = Self::move_up_layer(pos);
            layer = layer + 1;
            next = self.greater_sibling_in_block(layer, pos);
        }
        if next == 0 {
            proof {
                assert forall|e: usize| #[trigger] s.contains(e) implies e <= item by {
                    if item < e {
                        lemma_ancestor_in_layer(n, e as int, layer as nat);
                    }
                }
            }
            return None;
        }
        proof {
            assert forall|e: usize| #[trigger] s.contains(e) implies (item < e <==> next
                <= ancestor(e as int, layer as nat)) by {
                let a = ancestor(e as int, layer as nat);
                lemma_ancestor_set(t, n, e, layer as nat);
                lemma_ancestor_in_layer(n, e as int, layer as nat);
                if item < e {
                    if a / 64 == pos / 64 {
                        assert(!(a < next));
                    } else {
                        assert(pos / 64 <= a / 64) by (nonlinear_arith)
                            requires
                                0 <= pos < a,
                        ;
                    }
                } else {
                    lemma_ancestor_monotone(e as int, item as int, layer as nat);
                }
            }
        }
        while layer > 0
            invariant
                self.wf(),
                t == self.layers(),
                s == self@,
                n == self.capacity(),
                top + 1 == t.len(),
                layer <= top,
                next < 64 * t[layer as int].len(),
                layer_bit(t[layer as int], next as int),
                forall|e: usize|
                    #[trigger] s.contains(e) ==> (item < e <==> next <= ancestor(
                        e as int,
                        layer as nat,
                    )),
            decreases layer,
        {
            let ghost q = next as int;
            let ghost l = layer as nat;
            proof {
                assert(q < layer_bits(n, l));
                assert(layer_bits(n, l) == ceil_div64(layer_bits(n, (l - 1) as nat)));
                lemma_layer_bits_le(n, (l - 1) as nat);
                assert(t[l - 1].len() == layer_bits(n, l));
                assert(summarises(t, l as int, q));
            }
            pos = Self::move_down(next);
            layer = layer - 1;
            next = self.first_item_set_in_block(layer, pos);
            proof {
                assert(layer_bits(n, (layer + 1) as nat) == ceil_div64(
                    layer_bits(n, layer as nat),
                ));
                assert(t[layer as int].len() == layer_bits(n, (layer + 1) as nat));
                assert forall|e: usize| #[trigger] s.contains(e) implies (item < e <==> next
                    <= ancestor(e as int, layer as nat)) by {
                    let a = ancestor(e as int, layer as nat);
                    lemma_ancestor_set(t, n, e, layer as nat);
                    lemma_ancestor_in_layer(n, e as int, layer as nat);
                    if a / 64 > q {
                        assert(64 * q + 64 <= a) by (nonlinear_arith)
                            requires
                                q + 1 <= a / 64,
                                0 <= a,
                        ;
                    } else if a / 64 == q {
                        assert(!(pos <= a < next));
                    }
                }
            }
        }
        proof {
            assert(layer_bits(n, 0) == n);
            assert(s.contains(next));
        }
        Some(next)
    }

    /// The elements `e` with `lower <= e < upper`, in ascending order: `lower`
    /// if present, then successors until one reaches `upper` or none is left.
    pub fn rquery(&self, lower: usize, upper: usize) -> (r: Vec<usize>)
        requires
            self.wf(),
            lower <= upper <= self.capacity(),
        ensures
            forall|i: int, j: int| 0 <= i < j < r.len() ==> r[i] < r[j],
            forall|e: usize| r@.contains(e) <==> (self@.contains(e) && lower <= e < upper),
    {
        let ghost s = self@;
        let mut result: Vec<usize> = Vec::new();
        if lower >= upper {
            proof {
                assert forall|e: usize|
                    result@.contains(e) <==> (s.contains(e) && lower <= e < upper) by {
                    if result@.contains(e) {
                        let i = choose|i: int| 0 <= i < result.len() && result[i] == e;
                    }
                }
            }
            return result;
        }
        proof {
            lemma_ceil_div64_cover(self.capacity());
            assert(layer_bits(self.capacity(), 0) == self.capacity());
        }
        if self.is_parent_set(0, lower) {
            result.push(lower);
        }
        proof {
            assert forall|e: usize|
                result@.contains(e) <==> (s.contains(e) && lower <= e <= lower) by {
                if result@.contains(e) {
                    let i = choose|i: int| 0 <= i < result.len() && result[i] == e;
                }
                if s.contains(e) && e == lower {
                    assert(result[0] == e);
                }
            }
        }
        let mut cur = lower;
        loop
            invariant
                self.wf(),
                s == self@,
                lower <= cur < upper <= self.capacity(),
                forall|i: int, j: int| 0 <= i < j < result.len() ==> result[i] < result[j],
                forall|i: int| 0 <= i < result.len() ==> result[i] <= cur,
                forall|e: usize| result@.contains(e) <==> (s.contains(e) && lower <= e <= cur),
            ensures
                forall|i: int, j: int| 0 <= i < j < result.len() ==> result[i] < result[j],
                forall|e: usize| result@.contains(e) <==> (s.contains(e) && lower <= e < upper),
            decreases upper - cur,
        {
            match self.successor(cur) {
                None => {
                    proof {
                        assert forall|e: usize|
                            result@.contains(e) <==> (s.contains(e) && lower <= e < upper) by {
                            if s.contains(e) {
                                assert(e <= cur);
                            }
                        }
                    }
                    break;
                },
                Some(next) => {
                    if next >= upper {
                        proof {
                            assert forall|e: usize|
                                result@.contains(e) <==> (s.contains(e) && lower <= e < upper) by {
                                if s.contains(e) && cur < e {
                                    assert(next <= e);
                                }
                            }
                        }
                        break;
                    }
                    let ghost before = result@;
                    result.push(next);
                    proof {
                        assert forall|e: usize|
                            result@.contains(e) <==> (s.contains(e) && lower <= e <= next) by {
                            if result@.contains(e) && e != next {
                                let i = choose|i: int| 0 <= i < result.len() && result[i] == e;
                                assert(before.contains(e));
                            }
                            if s.contains(e) && lower <= e <= cur {
                                assert(before.contains(e));
                                let i = choose|i: int| 0 <= i < before.len() && before[i] == e;
                                assert(result[i] == e);
                            }
                            if e == next {
                                assert(result[result.len() - 1] == e);
                            }
                        }
                    }
                    cur = next;
                },
            }
        }
        result
    }

    /// Whether no element is present: the top layer's single word is zero.
    pub fn is_empty(&self) -> (r: bool)
        requires
            self.wf(),
        ensures
            r == (self@ == Set::<usize>::empty()),
    {
        let ghost t = self.layers();
        let ghost n = self.capacity();
        let top = self.tree.len() - 1;
        proof {
            assert(layer_bits(n, (top + 1) as nat) == ceil_div64(layer_bits(n, top as nat)));
            assert(t[top as int].len() == 1);
        }
        let r = self.tree[top][0] == 0;
        proof {
            if r {
                assert forall|e: usize| !self@.contains(e) by {
                    if self@.contains(e) {
                        lemma_ancestor_set(t, n, e, top as nat);
                        lemma_ancestor_in_layer(n, e as int, top as nat);
                        lemma_zero_iff_no_bit(t[top as int][0]);
                    }
                }
                assert(self@ =~= Set::<usize>::empty());
            } else if self@ == Set::<usize>::empty() {
                lemma_empty_all_zero(t, n);
            }
        }
        r
    }

    /// The least element, if any.
    pub fn min(&self) -> (r: Option<usize>)
        requires
            self.wf(),
        ensures
            is_least(self@, r),
    {
        proof {
            lemma_ceil_div64_cover(self.capacity());
            assert(layer_bits(self.capacity(), 0) == self.capacity());
        }
        if self.is_parent_set(0, 0) {
            Some(0)
        } else {
            let r = self.successor(0);
            proof {
                if r is None {
                    assert forall|e: usize| !self@.contains(e) by {}
                    assert(self@ =~= Set::<usize>::empty());
                }
            }
            r
        }
    }

    /// The number of layers.
    pub fn layer_count(&self) -> (r: usize)
        ensures
            r == self.layers().len(),
    {
        self.tree.len()
    }

    /// The number of words of layer `layer`.
    pub fn layer_len(&self, layer: usize) -> (r: usize)
        requires
            layer < self.layers().len(),
        ensures
            r == self.layers()[layer as int].len(),
    {
        self.tree[layer].len()
    }

    /// Word `index` of layer `layer`.
    pub fn word(&self, layer: usize, index: usize) -> (r: u64)
        requires
            layer < self.layers().len(),
            index < self.layers()[layer as int].len(),
        ensures
            r == self.layers()[layer as int][index as int],
    {
        self.tree[layer][index]
    }

    /// Like `new`, but refuses a capacity of zero.
    pub fn try_new(size: usize) -> (r: Result<SuccTree, SuccTreeError>)
        ensures
            size == 0 ==> r == Err::<SuccTree, SuccTreeError>(SuccTreeError::InvalidCapacity),
            size > 0 ==> (r matches Ok(t) && t.wf() && t.capacity() == size && t@ == Set::<
                usize,
            >::empty()),
    {
        if size == 0 {
            Err(SuccTreeError::InvalidCapacity)
        } else {
            Ok(SuccTree::new(size))
        }
    }

    /// Like `insert`, but refuses an element outside `[0, N)` and leaves the tree as it was.
    pub fn try_insert(&mut self, item: usize) -> (r: Result<(), SuccTreeError>)
        requires
            old(self).wf(),
        ensures
            final(self).wf(),
            final(self).capacity() == old(self).capacity(),
            item < old(self).capacity() ==> r is Ok && final(self)@ == old(self)@.insert(item),
            item >= old(self).capacity() ==> r == Err::<(), SuccTreeError>(
                SuccTreeError::OutOfRange,
            ) && final(self).layers() == old(self).layers(),
    {
        if item >= self.size {
            return Err(SuccTreeError::OutOfRange);
        }
        self.insert(item);
        Ok(())
    }

    /// Like `delete`, but refuses an element outside `[0, N)` and leaves the tree as it was.
    pub fn try_delete(&mut self, item: usize) -> (r: Result<(), SuccTreeError>)
        requires
            old(self).wf(),
        ensures
            final(self).wf(),
            final(self).capacity() == old(self).capacity(),
            item < old(self).capacity() ==> r is Ok && final(self)@ == old(self)@.remove(item),
            item >= old(self).capacity() ==> r == Err::<(), SuccTreeError>(
                SuccTreeError::OutOfRange,
            ) && final(self).layers() == old(self).layers(),
    {
        if item >= self.size {
            return Err(SuccTreeError::OutOfRange);
        }
        self.delete(item);
        Ok(())
    }

    /// Like `successor`, but refuses an element outside `[0, N)`.
    pub fn try_successor(&self, item: usize) -> (r: Result<Option<usize>, SuccTreeError>)
        requires
            self.wf(),
        ensures
            item < self.capacity() ==> (r matches Ok(s) && is_successor(self@, item, s)),
            item >= self.capacity() ==> r == Err::<Option<usize>, SuccTreeError>(
                SuccTreeError::OutOfRange,
            ),
    {
        if item >= self.size {
            return Err(SuccTreeError::OutOfRange);
        }
        Ok(self.successor(item))
    }

    /// Like `rquery`, but refuses bounds unless `lower <= upper <= N`.
    pub fn try_rquery(&self, lower: usize, upper: usize) -> (r: Result<Vec<usize>, SuccTreeError>)
        requires
            self.wf(),
        ensures
            lower <= upper <= self.capacity() ==> (r matches Ok(v) && (forall|i: int, j: int|
                0 <= i < j < v.len() ==> v[i] < v[j]) && (forall|e: usize|
                v@.contains(e) <==> (self@.contains(e) && lower <= e < upper))),
            !(lower <= upper <= self.capacity()) ==> r == Err::<Vec<usize>, SuccTreeError>(
                SuccTreeError::OutOfRange,
            ),
    {
        if lower > upper || upper > self.size {
            return Err(SuccTreeError::OutOfRange);
        }
        Ok(self.rquery(lower, upper))
    }
}

} // verus!
