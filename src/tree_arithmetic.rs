//! Integer functions over complete binary trees in level order.
use vstd::arithmetic::power2::{
    lemma2_to64, lemma_pow2_adds, lemma_pow2_pos, lemma_pow2_strictly_increases,
    lemma_pow2_unfold, pow2,
};
use vstd::prelude::*;
use crate::NodeIndex;

verus! {

/// Exponent of the smallest power of two that is at least `n` (0 for `n <= 1`).
pub open spec fn ceil_log2(n: nat) -> nat
    decreases n,
{
    if n <= 1 {
        0
    } else {
        1 + ceil_log2(((n + 1) / 2) as nat)
    }
}

/// Exponent of the largest power of two that is at most `n` (0 for `n <= 1`).
pub open spec fn floor_log2(n: nat) -> nat
    decreases n,
{
    if n <= 1 {
        0
    } else {
        1 + floor_log2(n / 2)
    }
}

/// Smallest power of two that is at least `n`; 1 for `n == 0`.
pub open spec fn next_power_of_two_spec(n: nat) -> nat {
    pow2(ceil_log2(n))
}

/// Depth of the node with generalized index `i`.
pub open spec fn depth_of(i: nat) -> nat {
    floor_log2(i + 1)
}

/// Generalized index of the left-most leaf of the subtree of height `height`
/// rooted at `root`.
pub open spec fn left_most_leaf_spec(root: nat, height: nat) -> nat {
    ((root + 1) * pow2(height) - 1) as nat
}

/// Generalized index, in the enclosing tree, of the node at `index` of a
/// subtree whose root sits at `root`.
pub open spec fn subtree_index_to_general_spec(root: nat, index: nat) -> nat {
    root * pow2(depth_of(index)) + index
}

pub proof fn lemma_pow2_zero()
    ensures
        pow2(0) == 1,
{
    lemma2_to64();
}

pub proof fn lemma_pow2_step(e: nat)
    ensures
        pow2(e + 1) == 2 * pow2(e),
        pow2(e) >= 1,
{
    lemma_pow2_unfold(e + 1);
    lemma_pow2_pos(e);
}

pub proof fn lemma_pow2_high()
    ensures
        pow2(60) == 0x1000_0000_0000_0000,
        pow2(61) == 0x2000_0000_0000_0000,
        pow2(62) == 0x4000_0000_0000_0000,
        pow2(63) == 0x8000_0000_0000_0000,
{
    lemma2_to64();
    lemma_pow2_step(60);
    lemma_pow2_step(61);
    lemma_pow2_step(62);
    lemma_pow2_step(63);
}

pub proof fn lemma_pow2_monotone(a: nat, b: nat)
    requires
        a <= b,
    ensures
        pow2(a) <= pow2(b),
{
    if a < b {
        lemma_pow2_strictly_increases(a, b);
    }
}

/// The exponent found by search is the ceiling logarithm.
proof fn lemma_ceil_log2_unique(n: nat, e: nat)
    requires
        pow2(e) >= n,
        e == 0 || pow2((e - 1) as nat) < n,
    ensures
        e == ceil_log2(n),
    decreases n,
{
    lemma_pow2_zero();
    if n <= 1 {
        if e > 0 {
            lemma_pow2_pos((e - 1) as nat);
        }
    } else {
        let m = ((n + 1) / 2) as nat;
        let f = (e - 1) as nat;
        lemma_pow2_step(f);
        if f > 0 {
            lemma_pow2_step((f - 1) as nat);
        }
        lemma_ceil_log2_unique(m, f);
    }
}

/// The depth found by search is the floor logarithm.
proof fn lemma_floor_log2_unique(n: nat, d: nat)
    requires
        pow2(d) <= n < 2 * pow2(d),
    ensures
        d == floor_log2(n),
    decreases n,
{
    lemma_pow2_zero();
    if n <= 1 {
        if d > 0 {
            lemma_pow2_step((d - 1) as nat);
        }
    } else {
        let f = (d - 1) as nat;
        if d == 0 {
        } else {
            lemma_pow2_step(f);
            lemma_floor_log2_unique(n / 2, f);
        }
    }
}

pub proof fn lemma_ceil_log2_bound(n: nat)
    ensures
        n <= pow2(ceil_log2(n)),
    decreases n,
{
    lemma_pow2_zero();
    if n > 1 {
        let m = ((n + 1) / 2) as nat;
        lemma_ceil_log2_bound(m);
        lemma_pow2_step(ceil_log2(m));
    }
}

pub proof fn lemma_floor_log2_bounds(n: nat)
    requires
        n >= 1,
    ensures
        pow2(floor_log2(n)) <= n < pow2(floor_log2(n) + 1),
    decreases n,
{
    lemma_pow2_zero();
    lemma_pow2_step(0);
    if n > 1 {
        lemma_floor_log2_bounds(n / 2);
        lemma_pow2_step(floor_log2(n / 2));
        lemma_pow2_step(floor_log2(n / 2) + 1);
    }
}

/// Moving a node of a subtree into the enclosing tree keeps its index small:
/// a root below `2^a` and a local index below `2^b` give an index below
/// `2^(a + 1 + b)`.
pub proof fn lemma_subtree_index_bound(root: nat, index: nat, a: nat, b: nat)
    requires
        root < pow2(a),
        index < pow2(b),
    ensures
        subtree_index_to_general_spec(root, index) < pow2(a + 1 + b),
{
    let d = depth_of(index);
    lemma_floor_log2_bounds(index + 1);
    lemma_pow2_step(d);
    if d > b {
        lemma_pow2_strictly_increases(b, d);
    }
    lemma_pow2_adds(a, d);
    lemma_pow2_step(a + d);
    lemma_pow2_monotone(a + 1 + d, a + 1 + b);
    let pd = pow2(d);
    let pa = pow2(a);
    assert(root * pd + index < pa * pd + pd) by (nonlinear_arith)
        requires
            root < pa,
            index + 1 < 2 * pd,
            pd >= 1,
    ;
    assert(pa * pd + pd <= 2 * (pa * pd)) by (nonlinear_arith)
        requires
            pa >= 1,
            pd >= 1,
    ;
}

/// Returns the smallest power of two that is at least `n`; 1 for `n == 0`.
pub fn next_power_of_two(n: u64) -> (r: u64)
    requires
        n <= 0x8000_0000_0000_0000,
    ensures
        r == next_power_of_two_spec(n as nat),
{
    let mut p: u64 = 1;
    let ghost mut e: nat = 0;
    proof {
        lemma_pow2_zero();
    }
    while p < n
        invariant
            p == pow2(e),
            p >= 1,
            n <= 0x8000_0000_0000_0000,
            e == 0 || pow2((e - 1) as nat) < n,
        decreases if p < n { n - p } else { 0 },
    {
        proof {
            lemma_pow2_step(e);
        }
        p = p * 2;
        proof { e = e + 1; }
    }
    proof {
        lemma_ceil_log2_unique(n as nat, e);
    }
    p
}

/// Returns the exponent of `n`, which must be a power of two.
pub fn log_base_two(n: u64) -> (r: u64)
    requires
        exists|k: nat| pow2(k) == n,
    ensures
        pow2(r as nat) == n,
        r < 64,
{
    let ghost k: nat = choose|k: nat| pow2(k) == n;
    proof {
        lemma2_to64();
        if k >= 64 {
            lemma_pow2_monotone(64, k);
        }
    }
    let mut x: u64 = n;
    let mut r: u64 = 0;
    while x > 1
        invariant
            r <= k < 64,
            x == pow2((k - r) as nat),
        decreases x,
    {
        proof {
            if k == r {
                lemma_pow2_zero();
            }
            lemma_pow2_step((k - r - 1) as nat);
        }
        x = x / 2;
        r = r + 1;
    }
    proof {
        if r < k {
            lemma_pow2_zero();
            lemma_pow2_strictly_increases(0, (k - r) as nat);
        }
    }
    r
}

/// Returns the generalized index of the left-most leaf of the subtree of
/// height `height` rooted at `root`.
pub fn left_most_leaf(root: NodeIndex, height: u64) -> (r: NodeIndex)
    requires
        (root + 1) * pow2(height as nat) - 1 <= u64::MAX,
    ensures
        r == left_most_leaf_spec(root as nat, height as nat),
{
    let mut r: u64 = root;
    let mut i: u64 = 0;
    proof {
        lemma_pow2_zero();
    }
    while i < height
        invariant
            i <= height,
            r + 1 == (root + 1) * pow2(i as nat),
            (root + 1) * pow2(height as nat) - 1 <= u64::MAX,
        decreases height - i,
    {
        proof {
            lemma_pow2_step(i as nat);
            lemma_pow2_monotone((i + 1) as nat, height as nat);
            assert((root + 1) * pow2((i + 1) as nat) <= (root + 1) * pow2(height as nat))
                by (nonlinear_arith)
                requires
                    pow2((i + 1) as nat) <= pow2(height as nat),
            ;
            assert((root + 1) * pow2((i + 1) as nat) == 2 * ((root + 1) * pow2(i as nat)))
                by (nonlinear_arith)
                requires
                    pow2((i + 1) as nat) == 2 * pow2(i as nat),
            ;
        }
        r = 2 * r + 1;
        i = i + 1;
    }
    r
}

/// Returns the generalized index, in the enclosing tree, of the node at
/// `index` of a subtree whose root sits at `root`.
pub fn subtree_index_to_general(root: NodeIndex, index: NodeIndex) -> (r: NodeIndex)
    requires
        index < u64::MAX,
        subtree_index_to_general_spec(root as nat, index as nat) <= u64::MAX,
    ensures
        r == subtree_index_to_general_spec(root as nat, index as nat),
{
    // `p` walks the first index of each level: level `d` starts at `2^d - 1`.
    let mut p: u64 = 1;
    let ghost mut d: nat = 0;
    proof {
        lemma_pow2_zero();
    }
    while index - (p - 1) >= p
        invariant
            p == pow2(d),
            p >= 1,
            p - 1 <= index < u64::MAX,
        decreases index - (p - 1),
    {
        proof {
            lemma_pow2_step(d);
        }
        p = p * 2;
        proof { d = d + 1; }
    }
    proof {
        lemma_floor_log2_unique((index + 1) as nat, d);
    }
    root * p + index
}

} // verus!
