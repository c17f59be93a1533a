//! Index arithmetic for the block-based storage scheme.
//!
//! Absolute positions (positions counted from the queue's creation, never
//! reset by removals) are partitioned into *levels*: level `l` holds the
//! `pow2(l)` consecutive positions starting at `pow2(l) - 1`, so level 0 is
//! exactly position 0, level 1 holds positions 1 and 2, and so on. The block
//! that holds absolute position `n` has capacity `pow2(level(n))`, and blocks
//! are never renumbered as the front of the queue advances: the queue's block
//! at physical offset `d` always holds the live positions of level
//! `level(head) + d`.

use vstd::prelude::*;
use vstd::arithmetic::power2::{
    lemma2_to64, lemma_pow2_adds, lemma_pow2_pos, lemma_pow2_strictly_increases, pow2,
};

verus! {

broadcast use lemma_pow2_pos;

/// The level of absolute position `n`: the unique `l` with
/// `pow2(l) <= n + 1 < pow2(l + 1)`, that is, `floor(log2(n + 1))`.
pub open spec fn level(n: nat) -> nat
    decreases n,
{
    if n == 0 {
        0
    } else {
        1 + level(((n - 1) / 2) as nat)
    }
}

/// The first absolute position of level `l`.
pub open spec fn level_start(l: nat) -> nat {
    (pow2(l) - 1) as nat
}

/// The offset of absolute position `n` within its level.
pub open spec fn level_offset(n: nat) -> nat {
    (n - level_start(level(n))) as nat
}

/// The physical block offset, counted from the current front block, of the
/// block that holds absolute position `head + index` when the front element
/// sits at absolute position `head`.
pub open spec fn locate_outer(head: nat, index: nat) -> nat {
    (level(head + index) - level(head)) as nat
}

/// The slot within that block: positions of the front block are counted from
/// `head`, positions of every later block from that block's level start.
pub open spec fn locate_inner(head: nat, index: nat) -> nat {
    if level(head + index) == level(head) {
        index
    } else {
        level_offset(head + index)
    }
}

/// The defining property of `level`: `n + 1` lies between consecutive powers
/// of two.
pub proof fn lemma_level_bounds(n: nat)
    ensures
        pow2(level(n)) <= n + 1,
        n + 1 < pow2(level(n) + 1),
    decreases n,
{
    lemma2_to64();
    lemma_pow2_adds(level(n), 1);
    if n > 0 {
        let m = ((n - 1) / 2) as nat;
        lemma_level_bounds(m);
        lemma_pow2_adds(level(m), 1);
        lemma_pow2_adds(level(m) + 1, 1);
    }
}

/// `level` is the only function satisfying those bounds.
pub proof fn lemma_level_unique(n: nat, l: nat)
    requires
        pow2(l) <= n + 1,
        n + 1 < pow2(l + 1),
    ensures
        level(n) == l,
{
    lemma_level_bounds(n);
    if level(n) < l {
        lemma_pow2_strictly_increases(level(n) + 1, l + 1);
        assert(pow2(level(n) + 1) <= pow2(l)) by {
            if level(n) + 1 < l {
                lemma_pow2_strictly_increases(level(n) + 1, l);
            }
        }
    }
    if level(n) > l {
        assert(pow2(l + 1) <= pow2(level(n))) by {
            if l + 1 < level(n) {
                lemma_pow2_strictly_increases(l + 1, level(n));
            }
        }
    }
}

/// Positions do not move to a lower level as they grow.
pub proof fn lemma_level_mono(m: nat, n: nat)
    requires
        m <= n,
    ensures
        level(m) <= level(n),
{
    lemma_level_bounds(m);
    lemma_level_bounds(n);
    if level(m) > level(n) {
        lemma_pow2_strictly_increases(level(n) + 1, level(m) + 1);
        assert(pow2(level(n) + 1) <= pow2(level(m))) by {
            if level(n) + 1 < level(m) {
                lemma_pow2_strictly_increases(level(n) + 1, level(m));
            }
        }
    }
}

/// The level start of level `l` has level `l` and offset 0.
pub proof fn lemma_level_at_start(l: nat)
    ensures
        level(level_start(l)) == l,
        level_offset(level_start(l)) == 0,
{
    lemma_pow2_strictly_increases(l, l + 1);
    lemma_level_unique(level_start(l), l);
}

/// Stepping one position forward either stays within a level or enters the
/// next one at its start; the level grows exactly when the old position sat
/// at the end of its level.
pub proof fn lemma_level_step(n: nat)
    ensures
        level_offset(n) < pow2(level(n)),
        level_offset(n) == pow2(level(n)) - 1 ==> {
            &&& level(n + 1) == level(n) + 1
            &&& level_offset(n + 1) == 0
        },
        level_offset(n) < pow2(level(n)) - 1 ==> {
            &&& level(n + 1) == level(n)
            &&& level_offset(n + 1) == level_offset(n) + 1
        },
{
    lemma2_to64();
    lemma_level_bounds(n);
    lemma_pow2_adds(level(n), 1);
    if level_offset(n) == pow2(level(n)) - 1 {
        // n + 2 == pow2(level(n) + 1), so n + 1 starts the next level
        lemma_pow2_adds(level(n) + 1, 1);
        lemma_level_unique(n + 1, level(n) + 1);
    } else {
        lemma_level_unique(n + 1, level(n));
    }
}

/// `level` never exceeds its argument.
pub proof fn lemma_level_le(n: nat)
    ensures
        level(n) <= n,
    decreases n,
{
    if n > 0 {
        lemma_level_le(((n - 1) / 2) as nat);
    }
}

/// The level of absolute position `index`: the position of the highest set
/// bit of `index + 1`, that is, `floor(log2(index + 1))`.
pub fn outer_index(index: usize) -> (l: usize)
    ensures
        l as nat == level(index as nat),
{
    let mut rest: usize = index;
    let mut l: usize = 0;
    while rest > 0
        invariant
            l + level(rest as nat) == level(index as nat),
        decreases rest,
    {
        proof {
            lemma_level_le(index as nat);
        }
        rest = (rest - 1) / 2;
        l = l + 1;
    }
    l
}

/// `pow2`, executably: the capacity of a block at level `e`.
pub(crate) fn pow2_usize(e: usize) -> (r: usize)
    requires
        pow2(e as nat) <= usize::MAX,
    ensures
        r as nat == pow2(e as nat),
{
    let mut r: usize = 1;
    let mut i: usize = 0;
    proof {
        lemma2_to64();
    }
    while i < e
        invariant
            i <= e,
            r as nat == pow2(i as nat),
            pow2(e as nat) <= usize::MAX,
        decreases e - i,
    {
        proof {
            lemma2_to64();
            lemma_pow2_adds(i as nat, 1);
            if i + 1 < e {
                lemma_pow2_strictly_increases((i + 1) as nat, e as nat);
            }
        }
        r = r * 2;
        i = i + 1;
    }
    r
}

/// Maps the queue's current `head` (absolute position of the front element)
/// and a 0-based logical `index` to the physical block offset and the slot
/// within that block that hold absolute position `head + index`.
pub fn split_index(head: usize, index: usize) -> (r: (usize, usize))
    requires
        head + index < usize::MAX,
    ensures
        r.0 as nat == locate_outer(head as nat, index as nat),
        r.1 as nat == locate_inner(head as nat, index as nat),
{
    let a = head + index;
    let outer = outer_index(a);
    let head_outer = outer_index(head);
    proof {
        lemma_level_mono(head as nat, a as nat);
        lemma_level_bounds(a as nat);
    }
    if outer == head_outer {
        (0, index)
    } else {
        let start = pow2_usize(outer) - 1;
        (outer - head_outer, a - start)
    }
}

} // verus!
