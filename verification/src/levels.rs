use vstd::arithmetic::div_mod::{lemma_div_denominator, lemma_fundamental_div_mod, lemma_mod_bound};
use vstd::arithmetic::power2::{
    lemma2_to64, lemma_pow2_pos, lemma_pow2_strictly_increases, lemma_pow2_unfold, pow2,
};
use vstd::prelude::*;

verus! {

/// The first table index, `k` levels further down, below node `i`.
pub open spec fn base(i: int, k: nat) -> int {
    i * pow2(k)
}

/// Whether `j` is `i` or one of its ancestors in the table.
pub open spec fn on_path(j: int, i: int) -> bool
    decreases i,
{
    i >= 1 && (j == i || on_path(j, i / 2))
}

/// A node's ancestors have smaller indices, from 1 on.
pub proof fn lemma_on_path_bounds(j: int, i: int)
    requires
        on_path(j, i),
    ensures
        1 <= j <= i,
    decreases i,
{
    if j != i {
        lemma_on_path_bounds(j, i / 2);
    }
}

/// A node is its own base at level zero.
pub proof fn lemma_base_zero(i: int)
    ensures
        base(i, 0) == i,
        pow2(0) == 1,
{
    lemma2_to64();
}

/// The bases of the two children of a node, one level further down.
pub proof fn lemma_base_children(i: int, k: nat)
    requires
        k > 0,
    ensures
        base(2 * i, (k - 1) as nat) == base(i, k),
        base(2 * i + 1, (k - 1) as nat) == base(i, k) + pow2((k - 1) as nat),
        pow2(k) == 2 * pow2((k - 1) as nat),
        pow2((k - 1) as nat) >= 1,
{
    lemma_pow2_unfold(k);
    lemma_pow2_pos((k - 1) as nat);
    let h = pow2((k - 1) as nat) as int;
    assert((2 * i) * h == i * (2 * h)) by (nonlinear_arith);
    assert((2 * i + 1) * h == i * (2 * h) + h) by (nonlinear_arith);
}

/// The base of the next node on the same level.
pub proof fn lemma_base_next(i: int, k: nat)
    ensures
        base(i + 1, k) == base(i, k) + pow2(k),
        pow2(k) >= 1,
{
    lemma_pow2_pos(k);
    let h = pow2(k) as int;
    assert((i + 1) * h == i * h + h) by (nonlinear_arith);
}

/// Bases grow with the node's index.
pub proof fn lemma_base_mono(i: int, j: int, k: nat)
    requires
        i <= j,
    ensures
        base(i, k) <= base(j, k),
{
    lemma_pow2_pos(k);
    let h = pow2(k) as int;
    assert(i * h <= j * h) by (nonlinear_arith)
        requires
            i <= j,
            h > 0,
    ;
}

/// Index zero is its own base on every level.
pub proof fn lemma_base_of_zero(k: nat)
    ensures
        base(0, k) == 0,
{
    assert(0 * pow2(k) == 0) by (nonlinear_arith);
}

/// Above level zero a node's base is at least twice its index, and its
/// stretch holds at least two indices.
pub proof fn lemma_base_lower(i: int, k: nat)
    requires
        0 <= i,
        k > 0,
    ensures
        base(i, k) >= 2 * i,
        pow2(k) >= 2,
{
    lemma_pow2_unfold(k);
    lemma_pow2_pos((k - 1) as nat);
    let h = pow2(k) as int;
    assert(i * h >= 2 * i) by (nonlinear_arith)
        requires
            0 <= i,
            h >= 2,
    ;
}

/// Dividing by a power of two gives the node whose stretch holds the index,
/// and halving the quotient gives the node one level up.
pub proof fn lemma_base_div(a: int, k: nat)
    requires
        0 <= a,
    ensures
        base(a / (pow2(k) as int), k) <= a < base(a / (pow2(k) as int), k) + pow2(k),
        (a / (pow2(k) as int)) / 2 == a / (pow2(k + 1) as int),
        0 <= a / (pow2(k) as int),
{
    lemma_pow2_pos(k);
    lemma_pow2_unfold(k + 1);
    let h = pow2(k) as int;
    lemma_fundamental_div_mod(a, h);
    lemma_mod_bound(a, h);
    lemma_div_denominator(a, h, 2);
    assert(h * (a / h) == (a / h) * h) by (nonlinear_arith);
    assert(h * 2 == 2 * h);
    assert(a / h >= 0) by (nonlinear_arith)
        requires
            a >= 0,
            h > 0,
    ;
}

/// The node whose stretch at level `q` holds `x` is the quotient of `x` by
/// two to the power `q`.
pub proof fn lemma_quot_unique(x: int, q: nat, a: int)
    requires
        0 <= x,
        base(a, q) <= x < base(a, q) + pow2(q),
    ensures
        x / (pow2(q) as int) == a,
{
    let c = x / (pow2(q) as int);
    lemma_base_div(x, q);
    lemma_base_next(a, q);
    lemma_base_next(c, q);
    if a < c {
        lemma_base_mono(a + 1, c, q);
    }
    if c < a {
        lemma_base_mono(c + 1, a, q);
    }
}

/// A node's base one level further up is twice its base.
pub proof fn lemma_base_double(i: int, k: nat)
    ensures
        base(i, k + 1) == 2 * base(i, k),
        pow2(k + 1) == 2 * pow2(k),
{
    lemma_pow2_unfold(k + 1);
    let h = pow2(k) as int;
    assert(i * (2 * h) == 2 * (i * h)) by (nonlinear_arith);
}

/// From node zero on, bases grow with the level.
pub proof fn lemma_base_level_mono(i: int, j: nat, k: nat)
    requires
        0 <= i,
        j <= k,
    ensures
        base(i, j) <= base(i, k),
        pow2(j) <= pow2(k),
    decreases k - j,
{
    if j < k {
        lemma_base_level_mono(i, j, (k - 1) as nat);
        lemma_base_double(i, (k - 1) as nat);
        lemma_base_mono(0, i, (k - 1) as nat);
        lemma_base_of_zero((k - 1) as nat);
    }
}

/// Whether `i` is not the base, at level `q`, of any node.
pub open spec fn unaligned(i: int, q: nat) -> bool {
    base(i / (pow2(q) as int), q) != i
}

/// An index that is no base at one level is none at the next level up, and
/// its node there is the parent of its node here.
pub proof fn lemma_unaligned_up(i: int, q: nat)
    requires
        0 <= i,
        unaligned(i, q),
    ensures
        unaligned(i, q + 1),
        i / (pow2(q + 1) as int) == (i / (pow2(q) as int)) / 2,
{
    let c = i / (pow2(q + 1) as int);
    lemma_base_div(i, q);
    lemma_base_div(i, q + 1);
    if !unaligned(i, q + 1) {
        lemma_base_children(c, q + 1);
        lemma_base_next(2 * c, q);
        lemma_quot_unique(i, q, 2 * c);
    }
}

/// Beyond the level at which one stretch holds all indices up to `i`, the
/// node of `i` is node zero, unless `i` is a base.
pub proof fn lemma_above_top(i: int, p: nat, q: nat)
    requires
        0 <= i <= pow2(p),
        p <= q,
        unaligned(i, q),
    ensures
        i / (pow2(q) as int) == 0,
{
    lemma_base_level_mono(1, p, q);
    lemma_base_of_zero(q);
    lemma_base_next(0, q);
    if i < pow2(q) {
        lemma_quot_unique(i, q, 0);
    } else {
        lemma_base_next(1, q);
        lemma_quot_unique(i, q, 1);
    }
}

/// An index in the stretch of node `b`, `k` levels further down, has `b` on
/// its path to the root.
pub proof fn lemma_block_on_path(b: int, k: nat, t: int)
    requires
        1 <= b,
        base(b, k) <= t < base(b, k) + pow2(k),
    ensures
        on_path(b, t),
    decreases k,
{
    if k == 0 {
        lemma_base_zero(b);
    } else {
        lemma_base_double(b, (k - 1) as nat);
        lemma_base_lower(b, k);
        lemma_block_on_path(b, (k - 1) as nat, t / 2);
    }
}

/// An index with `b` on its path to the root lies in the stretch of `b` at
/// some level.
pub proof fn lemma_path_level(b: int, t: int) -> (j: nat)
    requires
        on_path(b, t),
    ensures
        base(b, j) <= t < base(b, j) + pow2(j),
    decreases t,
{
    if b == t {
        lemma_base_zero(b);
        0
    } else {
        let j = lemma_path_level(b, t / 2);
        lemma_base_double(b, j);
        j + 1
    }
}

/// Among the indices `n..2 * n`, those with `b` on their path to the root
/// are the stretch of `b` at the one level at which it lies within them.
pub proof fn lemma_on_path_iff_block(n: int, b: int, k: nat, t: int)
    requires
        1 <= b,
        n <= base(b, k),
        base(b, k) + pow2(k) <= 2 * n,
        n <= t < 2 * n,
    ensures
        on_path(b, t) <==> base(b, k) <= t < base(b, k) + pow2(k),
{
    if base(b, k) <= t < base(b, k) + pow2(k) {
        lemma_block_on_path(b, k, t);
    }
    if on_path(b, t) {
        let j = lemma_path_level(b, t);
        if j < k {
            lemma_base_next(b, j);
            lemma_base_next(b, (k - 1) as nat);
            lemma_base_next(b, k);
            lemma_base_level_mono(b + 1, j, (k - 1) as nat);
            lemma_base_double(b + 1, (k - 1) as nat);
        }
        if j > k {
            lemma_base_level_mono(b, k + 1, j);
            lemma_base_double(b, k);
        }
    }
}

/// A level on which a node from 1 on has its base within `usize` is less
/// than the number of bits of `usize`.
pub proof fn lemma_level_bound(i: int, k: nat)
    requires
        1 <= i,
        base(i, k) <= usize::MAX,
    ensures
        k < usize::BITS,
{
    lemma2_to64();
    lemma_base_mono(1, i, k);
    assert(base(1, k) == pow2(k)) by (nonlinear_arith)
        requires
            base(1, k) == 1 * pow2(k),
    ;
    if k >= usize::BITS {
        if k > usize::BITS {
            lemma_pow2_strictly_increases(usize::BITS as nat, k);
        }
        assert(usize::BITS == 32 || usize::BITS == 64);
        assert(pow2(usize::BITS as nat) > usize::MAX);
    }
}

} // verus!
