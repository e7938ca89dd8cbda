//! Zero hashes and index arithmetic.

use crate::field::Felt;
use crate::utils::{pedersen, pedersen_spec};
use vstd::arithmetic::power2::{lemma2_to64, lemma_pow2_unfold, pow2};
use vstd::prelude::*;

verus! {

/// The hash of an empty subtree of the given height. The zero of the field at
/// height 0, and above it the hash of two empty subtrees one level below. The
/// shift is carried along; the recurrence does not read it.
pub open spec fn zero_hash(height: nat, shift: nat) -> nat
    decreases height,
{
    if height == 0 {
        0
    } else {
        pedersen_spec(zero_hash((height - 1) as nat, shift), zero_hash((height - 1) as nat, shift))
    }
}

/// The zero hash does not depend on the shift.
pub proof fn lemma_zero_hash_shift(height: nat, shift_a: nat, shift_b: nat)
    ensures
        zero_hash(height, shift_a) == zero_hash(height, shift_b),
    decreases height,
{
    if height > 0 {
        lemma_zero_hash_shift((height - 1) as nat, shift_a, shift_b);
    }
}

/// The hash of an empty subtree of height `depth`.
pub fn get_zero_hash(depth: u32, shift: u32) -> (z: Felt)
    ensures
        z@ == zero_hash(depth as nat, shift as nat),
{
    let mut z = Felt::zero();
    let mut i: u32 = 0;
    while i < depth
        invariant
            i <= depth,
            z@ == zero_hash(i as nat, shift as nat),
        decreases depth - i,
    {
        z = pedersen(&z, &z);
        i = i + 1;
    }
    z
}

/// The zero hashes of the levels from 0 up to a top level, computed once.
#[derive(Debug)]
pub struct ZeroHashes {
    table: Vec<Felt>,
    shift: u32,
}

impl ZeroHashes {
    #[verifier::type_invariant]
    closed spec fn holds_zero_hashes(self) -> bool {
        &&& self.table@.len() >= 1
        &&& forall|i: int|
            0 <= i < self.table@.len() ==> (#[trigger] self.table@[i])@ == zero_hash(
                i as nat,
                self.shift as nat,
            )
    }

    /// The highest level that the table holds.
    pub closed spec fn spec_top(self) -> nat {
        (self.table@.len() - 1) as nat
    }

    /// The shift that the table was made for.
    pub closed spec fn spec_shift(self) -> nat {
        self.shift as nat
    }

    /// The zero hashes of the levels from 0 to `top`.
    pub fn new(top: u32, shift: u32) -> (zeros: ZeroHashes)
        ensures
            zeros.spec_shift() == shift,
            zeros.spec_top() == top,
    {
        let mut table: Vec<Felt> = Vec::new();
        let mut z = Felt::zero();
        table.push(z);
        let mut i: u32 = 0;
        while i < top
            invariant
                i <= top,
                table@.len() == i + 1,
                z@ == zero_hash(i as nat, shift as nat),
                forall|k: int|
                    0 <= k <= i ==> (#[trigger] table@[k])@ == zero_hash(k as nat, shift as nat),
            decreases top - i,
        {
            z = pedersen(&z, &z);
            table.push(z);
            i = i + 1;
        }
        ZeroHashes { table, shift }
    }

    /// The zero hash of a level: from the table, or computed upwards from its
    /// last entry where the level lies above the table.
    pub fn get(&self, level: u32) -> (z: Felt)
        ensures
            z@ == zero_hash(level as nat, self.spec_shift()),
    {
        proof {
            use_type_invariant(self);
        }
        let len = self.table.len();
        if (level as usize) < len {
            self.table[level as usize]
        } else {
            let mut i: u32 = (len - 1) as u32;
            let mut z = self.table[len - 1];
            while i < level
                invariant
                    i <= level,
                    z@ == zero_hash(i as nat, self.shift as nat),
                decreases level - i,
            {
                z = pedersen(&z, &z);
                i = i + 1;
            }
            z
        }
    }
}

impl Clone for ZeroHashes {
    fn clone(&self) -> (copy: ZeroHashes)
        ensures
            copy.spec_shift() == self.spec_shift(),
            copy.spec_top() == self.spec_top(),
    {
        proof {
            use_type_invariant(self);
        }
        let mut table: Vec<Felt> = Vec::new();
        let mut i: usize = 0;
        while i < self.table.len()
            invariant
                i <= self.table@.len(),
                table@ == self.table@.take(i as int),
            decreases self.table@.len() - i,
        {
            table.push(self.table[i]);
            assert(self.table@.take(i + 1) =~= self.table@.take(i as int).push(self.table@[i as int]));
            i = i + 1;
        }
        assert(table@ =~= self.table@);
        ZeroHashes { table, shift: self.shift }
    }
}

/// Whether `idx` is below 2^`bits`.
pub fn index_in_range(idx: u64, bits: u32) -> (r: bool)
    requires
        bits <= 64,
    ensures
        r == (idx < pow2(bits as nat)),
{
    proof {
        lemma2_to64();
    }
    if bits >= 64 {
        true
    } else {
        proof {
            vstd::bits::lemma_u64_pow2_no_overflow(bits as nat);
            vstd::bits::lemma_u64_shl_is_mul(1, bits as u64);
        }
        idx < (1u64 << bits)
    }
}

/// An index below 2^`bits` has its half below 2^(`bits` - 1), and its
/// neighbour in the same pair below 2^`bits`.
pub proof fn lemma_pair_in_range(idx: int, bits: nat)
    requires
        bits >= 1,
        0 <= idx < pow2(bits),
    ensures
        idx / 2 < pow2((bits - 1) as nat),
        2 * (idx / 2) + 1 < pow2(bits),
{
    lemma_pow2_unfold(bits);
}

/// The ancestor of index `idx`, `levels` levels up.
pub open spec fn ancestor(idx: int, levels: nat) -> int
    decreases levels,
{
    if levels == 0 {
        idx
    } else {
        ancestor(idx, (levels - 1) as nat) / 2
    }
}

/// The other index of the pair that `idx` belongs to.
pub open spec fn sibling(idx: int) -> int {
    if idx % 2 == 0 {
        idx + 1
    } else {
        idx - 1
    }
}

/// An index in range has its ancestors in range.
pub proof fn lemma_ancestor_in_range(idx: int, bits: nat, levels: nat)
    requires
        levels <= bits,
        0 <= idx < pow2(bits),
    ensures
        0 <= ancestor(idx, levels) < pow2((bits - levels) as nat),
    decreases levels,
{
    if levels > 0 {
        lemma_ancestor_in_range(idx, bits, (levels - 1) as nat);
        lemma_pair_in_range(ancestor(idx, (levels - 1) as nat), (bits - levels + 1) as nat);
    }
}

/// For each level below `depth`, whether the ancestor of `idx` there is a
/// left child (0) or a right child (1).
pub fn idx_to_binary_pos(idx: u64, depth: usize) -> (pos: Vec<i8>)
    ensures
        pos@.len() == depth,
        forall|i: int| 0 <= i < depth ==> pos@[i] == ancestor(idx as int, i as nat) % 2,
{
    let mut pos: Vec<i8> = Vec::new();
    let mut cur = idx;
    let mut i: usize = 0;
    while i < depth
        invariant
            i <= depth,
            pos@.len() == i,
            cur == ancestor(idx as int, i as nat),
            forall|k: int| 0 <= k < i ==> pos@[k] == ancestor(idx as int, k as nat) % 2,
        decreases depth - i,
    {
        let bit: i8 = if cur % 2 == 0 { 0 } else { 1 };
        pos.push(bit);
        cur = cur / 2;
        i = i + 1;
    }
    pos
}

/// For each level below `depth`, the index of the sibling of the ancestor of
/// `idx` there.
pub fn proof_pos(idx: u64, depth: usize) -> (pos: Vec<u64>)
    ensures
        pos@.len() == depth,
        forall|i: int| 0 <= i < depth ==> pos@[i] == sibling(ancestor(idx as int, i as nat)),
{
    let mut pos: Vec<u64> = Vec::new();
    let mut cur = idx;
    let mut i: usize = 0;
    while i < depth
        invariant
            i <= depth,
            pos@.len() == i,
            cur == ancestor(idx as int, i as nat),
            forall|k: int| 0 <= k < i ==> pos@[k] == sibling(ancestor(idx as int, k as nat)),
        decreases depth - i,
    {
        let sib: u64 = if cur % 2 == 0 { cur + 1 } else { cur - 1 };
        pos.push(sib);
        cur = cur / 2;
        i = i + 1;
    }
    pos
}

} // verus!
