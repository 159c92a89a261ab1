//! Sizing of the layers: how many there are and how many words each holds.

use vstd::arithmetic::div_mod::{lemma_div_denominator, lemma_hoist_over_denominator};
use vstd::arithmetic::power::{lemma_pow_positive, pow};
use vstd::prelude::*;

verus! {

/// `ceil(a / d)`.
pub open spec fn ceil_div(a: nat, d: nat) -> nat
    recommends
        d > 0,
{
    ((a + d - 1) / (d as int)) as nat
}

/// `ceil(n / 64)`.
pub open spec fn ceil_div64(n: nat) -> nat {
    ((n + 63) / 64) as nat
}

/// The number of meaningful positions in layer `l` of a tree over `[0, n)`:
/// `n` in the leaf layer, and one summary position per word of the layer below.
pub open spec fn layer_bits(n: nat, l: nat) -> nat
    decreases l,
{
    if l == 0 {
        n
    } else {
        ceil_div64(layer_bits(n, (l - 1) as nat))
    }
}

/// The number of words of layer `l`: `ceil(ceil(n / 64^l) / 64)`.
pub open spec fn layer_words(n: nat, l: nat) -> nat {
    layer_bits(n, l + 1)
}

/// `ceil(log_64(n))`: the least `e` with `64^e >= n`.
pub open spec fn ceil_log64(n: nat) -> nat
    decreases n,
{
    if n <= 1 {
        0
    } else {
        1 + ceil_log64(ceil_div64(n))
    }
}

/// The number of layers of a tree over `[0, n)`: `ceil(log_64(n)) + 1`.
pub open spec fn layer_count(n: nat) -> nat {
    ceil_log64(n) + 1
}

/// The position that stands for element `e` in layer `l`: `e / 64^l`.
pub open spec fn ancestor(e: int, l: nat) -> int
    decreases l,
{
    if l == 0 {
        e
    } else {
        ancestor(e, (l - 1) as nat) / 64
    }
}

/// `ceil_log64(n)` is the least `e` with `64^e >= n`.
pub proof fn lemma_ceil_log64_least_power(n: nat)
    requires
        n >= 1,
    ensures
        pow(64, ceil_log64(n)) >= n,
        ceil_log64(n) > 0 ==> pow(64, (ceil_log64(n) - 1) as nat) < n,
    decreases n,
{
    reveal(pow);
    if n > 1 {
        let m = ceil_div64(n);
        lemma_ceil_log64_least_power(m);
        assert(pow(64, ceil_log64(m) + 1) == 64 * pow(64, ceil_log64(m)));
        if ceil_log64(m) > 0 {
            assert(pow(64, ceil_log64(m)) == 64 * pow(64, (ceil_log64(m) - 1) as nat));
        }
    }
}

/// Layer `l` has `ceil(n / 64^l)` meaningful positions, and so
/// `ceil(ceil(n / 64^l) / 64)` words.
pub proof fn lemma_layer_size_formula(n: nat, l: nat)
    ensures
        layer_bits(n, l) == ceil_div(n, pow(64, l) as nat),
        layer_words(n, l) == ceil_div(ceil_div(n, pow(64, l) as nat), 64),
    decreases l,
{
    reveal(pow);
    lemma_pow_positive(64, l);
    if l > 0 {
        let k = (l - 1) as nat;
        let p = pow(64, k);
        lemma_layer_size_formula(n, k);
        lemma_pow_positive(64, k);
        assert(pow(64, l) == 64 * p);
        lemma_hoist_over_denominator(n + p - 1, 63, p as nat);
        lemma_div_denominator(n + 64 * p - 1, p, 64);
        assert((n + p - 1) + 63 * p == n + 64 * p - 1);
        assert(p * 64 == 64 * p);
    }
}

/// Every position below `n` lies in one of the `ceil(n / 64)` words.
pub proof fn lemma_ceil_div64_cover(n: nat)
    ensures
        forall|p: int| 0 <= p < n ==> #[trigger] (p / 64) < ceil_div64(n),
        64 * ceil_div64(n) >= n,
{
}

/// No layer has more positions than the leaf layer.
pub proof fn lemma_layer_bits_le(n: nat, l: nat)
    ensures
        layer_bits(n, l) <= n,
    decreases l,
{
    if l > 0 {
        lemma_layer_bits_le(n, (l - 1) as nat);
    }
}

/// An element of `[0, n)` stands at a meaningful position of every layer.
pub proof fn lemma_ancestor_in_layer(n: nat, e: int, l: nat)
    requires
        0 <= e < n,
    ensures
        0 <= ancestor(e, l) < layer_bits(n, l),
    decreases l,
{
    if l > 0 {
        lemma_ancestor_in_layer(n, e, (l - 1) as nat);
    }
}

/// Positions in a higher layer keep the order of the elements they stand for.
pub proof fn lemma_ancestor_monotone(a: int, b: int, l: nat)
    requires
        0 <= a <= b,
    ensures
        0 <= ancestor(a, l) <= ancestor(b, l),
    decreases l,
{
    if l > 0 {
        lemma_ancestor_monotone(a, b, (l - 1) as nat);
        let x = ancestor(a, (l - 1) as nat);
        let y = ancestor(b, (l - 1) as nat);
        assert(x / 64 <= y / 64) by (nonlinear_arith)
            requires
                0 <= x <= y,
        ;
    }
}

} // verus!
