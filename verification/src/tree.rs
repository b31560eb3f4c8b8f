//! Sizes and leaf indices of complete binary trees.
use vstd::prelude::*;

verus! {

/// `2` to the power of `n`.
pub open spec fn two_pow(n: nat) -> nat
    decreases n,
{
    if n == 0 {
        1
    } else {
        2 * two_pow((n - 1) as nat)
    }
}

pub proof fn lemma_two_pow_positive(n: nat)
    ensures
        two_pow(n) >= 1,
    decreases n,
{
    if n > 0 {
        lemma_two_pow_positive((n - 1) as nat);
    }
}

pub proof fn lemma_two_pow_monotonic(a: nat, b: nat)
    requires
        a <= b,
    ensures
        two_pow(a) <= two_pow(b),
    decreases b,
{
    if a < b {
        lemma_two_pow_monotonic(a, (b - 1) as nat);
        lemma_two_pow_positive((b - 1) as nat);
    }
}

/// Dividing by `2^(l + 1)` is dividing by `2^l` and then by two.
pub proof fn lemma_div_two_pow_step(x: int, l: nat)
    requires
        x >= 0,
    ensures
        x / (two_pow(l + 1) as int) == (x / (two_pow(l) as int)) / 2,
{
    lemma_two_pow_positive(l);
    assert(two_pow(l + 1) == two_pow(l) * 2);
    vstd::arithmetic::div_mod::lemma_div_denominator(x, two_pow(l) as int, 2);
}

/// The ancestor at level `l` of a leaf of a tree of depth `depth` lies in a
/// row of `2^(depth - l)` nodes.
pub proof fn lemma_ancestor_in_row(x: int, depth: nat, l: nat)
    requires
        0 <= x < two_pow(depth),
        l <= depth,
    ensures
        0 <= x / (two_pow(l) as int) < two_pow((depth - l) as nat),
    decreases l,
{
    if l == 0 {
        assert(two_pow(0) == 1);
        assert(x / 1 == x);
    } else {
        lemma_two_pow_positive((l - 1) as nat);
        lemma_ancestor_in_row(x, depth, (l - 1) as nat);
        lemma_div_two_pow_step(x, (l - 1) as nat);
        assert(two_pow((depth - (l - 1)) as nat) == 2 * two_pow((depth - l) as nat));
    }
}

/// `2^30`: the most leaves that a tree size here describes.
pub proof fn lemma_two_pow_30()
    ensures
        two_pow(30) == 0x4000_0000,
{
    reveal_with_fuel(two_pow, 31);
}

/// The size of a complete binary tree: `2^depth` leaves and
/// `2^(depth + 1) - 1` nodes.
#[derive(Debug, Clone, Copy, PartialEq, Eq)]
pub struct TreeSize {
    depth: u32,
    leaves: u32,
}

impl TreeSize {
    #[verifier::type_invariant]
    spec fn well_formed(self) -> bool {
        &&& self.depth <= 30
        &&& self.leaves == two_pow(self.depth as nat)
    }

    /// The number of levels below the root.
    pub closed spec fn spec_depth(self) -> nat {
        self.depth as nat
    }

    /// The number of leaves, `2^depth`.
    pub closed spec fn spec_leaf_count(self) -> nat {
        self.leaves as nat
    }

    /// The smallest complete tree that has at least `nodes` nodes: its depth
    /// `k` is the largest with `2^k <= nodes` (zero when `nodes` is zero).
    pub fn new(nodes: u32) -> (r: TreeSize)
        requires
            nodes < 0x8000_0000,
        ensures
            two_pow(r.spec_depth()) <= if nodes == 0 { 1 } else { nodes as nat },
            (nodes as nat) < two_pow(r.spec_depth() + 1),
            r.spec_leaf_count() == two_pow(r.spec_depth()),
    {
        let mut depth: u32 = 0;
        let mut power: u32 = 1;
        proof {
            lemma_two_pow_30();
        }
        while power <= nodes / 2
            invariant
                depth <= 30,
                power >= 1,
                power == two_pow(depth as nat),
                power <= if nodes == 0 { 1 } else { nodes as nat },
                nodes < 0x8000_0000,
                two_pow(30) == 0x4000_0000,
            decreases nodes - power,
        {
            proof {
                if depth >= 30 {
                    lemma_two_pow_monotonic(30, depth as nat);
                }
            }
            power = power * 2;
            depth = depth + 1;
        }
        TreeSize { depth, leaves: power }
    }

    /// The tree for `leaf_count` leaves: the one whose node count is the
    /// smallest that has room for `2 * leaf_count` nodes, so its leaf count
    /// is the power of two above `leaf_count` and at most twice it.
    pub fn from_leaf_count(leaf_count: u32) -> (r: TreeSize)
        requires
            leaf_count < 0x4000_0000,
        ensures
            leaf_count < r.spec_leaf_count(),
            r.spec_leaf_count() <= if leaf_count == 0 { 1 } else { 2 * leaf_count },
            r.spec_leaf_count() == two_pow(r.spec_depth()),
    {
        TreeSize::new(leaf_count * 2)
    }

    /// The number of leaves.
    pub fn leaf_count(&self) -> (r: u32)
        ensures
            r == self.spec_leaf_count(),
            r == two_pow(self.spec_depth()),
            self.spec_depth() <= 30,
            1 <= r <= 0x4000_0000,
    {
        proof {
            use_type_invariant(self);
            lemma_two_pow_positive(self.depth as nat);
            lemma_two_pow_monotonic(self.depth as nat, 30);
            lemma_two_pow_30();
        }
        self.leaves
    }

    /// The number of levels below the root.
    pub fn depth(&self) -> (r: u32)
        ensures
            r == self.spec_depth(),
    {
        self.depth
    }

    /// The number of nodes, `2 * leaves - 1`.
    pub fn u32(&self) -> (r: u32)
        ensures
            r == 2 * self.spec_leaf_count() - 1,
    {
        let leaves = self.leaf_count();
        2 * leaves - 1
    }
}

/// The index of a leaf, counted from the left.
#[derive(Debug, Clone, Copy, PartialEq, Eq, Structural)]
pub struct LeafNodeIndex {
    pub index: u32,
}

impl LeafNodeIndex {
    pub fn new(index: u32) -> (r: LeafNodeIndex)
        ensures
            r.index == index,
    {
        LeafNodeIndex { index }
    }

    pub fn u32(&self) -> (r: u32)
        ensures
            r == self.index,
    {
        self.index
    }
}

} // verus!
