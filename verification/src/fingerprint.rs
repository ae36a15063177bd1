//! Archetype fingerprints: a commutative 64-bit hash of a set of
//! component ids. The fingerprint is only a cache key; the registry
//! checks the exact id set before trusting it.

use vstd::prelude::*;
use vstd::wrapping::u64_specs;
use vstd::seq_lib::group_to_multiset_ensures;

verus! {

/// The stable numeric id of a component type.
pub type ComponentId = u64;

/// The odd multiplicative mixer applied to every id before it is
/// folded into the hash.
pub const FP_MIXER: u64 = 123456789123456789;

/// The mixed form of one component id.
pub open spec fn fp_mix(id: u64) -> u64 {
    u64_specs::wrapping_mul(id, FP_MIXER)
}

/// The contribution one component id makes to a fingerprint: the
/// mixed id, shifted left by an amount the mixed id itself selects.
pub open spec fn fp_contrib(id: u64) -> u64 {
    u64_specs::wrapping_shl(fp_mix(id), ((fp_mix(id) % 32) + 1) as u32)
}

/// The fingerprint of a sequence of component ids: the wrapping sum
/// of the contributions, folded left to right.
pub open spec fn fp_of(ids: Seq<u64>) -> u64
    decreases ids.len(),
{
    if ids.len() == 0 {
        0u64
    } else {
        u64_specs::wrapping_add(fp_of(ids.drop_last()), fp_contrib(ids.last()))
    }
}

/// A commutative 64-bit hash of a collection of component ids,
/// built by feeding the ids in one at a time in any order.
#[derive(Copy, Clone, Eq, PartialEq, Ord, PartialOrd, Structural)]
pub struct Archetype(pub u64);

impl Archetype {
    /// The empty fingerprint.
    pub fn new() -> (r: Self)
        ensures
            r.0 == 0,
    {
        Archetype(0)
    }

    /// Fold one component id into the fingerprint.
    pub fn add(&mut self, id: u64)
        ensures
            final(self).0 == u64_specs::wrapping_add(old(self).0, fp_contrib(id)),
    {
        let mixed: u64 = id.wrapping_mul(FP_MIXER);
        self.0 = self.0.wrapping_add(mixed.wrapping_shl((mixed % 32) as u32 + 1));
    }

    /// Reset to the empty fingerprint.
    pub fn clear(&mut self)
        ensures
            final(self).0 == 0,
    {
        self.0 = 0;
    }
}

/// Swapping the order of the last two contributions folded into a
/// wrapping sum does not change it.
proof fn lemma_wadd_swap(a: u64, b: u64, c: u64)
    ensures
        u64_specs::wrapping_add(u64_specs::wrapping_add(a, b), c)
            == u64_specs::wrapping_add(u64_specs::wrapping_add(a, c), b),
{
}

/// Removing an element from anywhere in a sequence removes exactly
/// its contribution from the fingerprint.
proof fn lemma_fp_remove(ids: Seq<u64>, i: int)
    requires
        0 <= i < ids.len(),
    ensures
        fp_of(ids) == u64_specs::wrapping_add(fp_of(ids.remove(i)), fp_contrib(ids[i])),
    decreases ids.len(),
{
    if i == ids.len() - 1 {
        assert(ids.remove(i) =~= ids.drop_last());
    } else {
        let prefix = ids.drop_last();
        lemma_fp_remove(prefix, i);
        assert(ids.remove(i).drop_last() =~= prefix.remove(i));
        assert(ids.remove(i).last() == ids.last());
        lemma_wadd_swap(fp_of(prefix.remove(i)), fp_contrib(ids[i]), fp_contrib(ids.last()));
    }
}

/// The fingerprint depends only on the multiset of ids: two orderings
/// of the same ids hash to the same value.
pub proof fn lemma_fp_commutes(s1: Seq<u64>, s2: Seq<u64>)
    requires
        s1.to_multiset() == s2.to_multiset(),
    ensures
        fp_of(s1) == fp_of(s2),
    decreases s2.len(),
{
    broadcast use group_to_multiset_ensures;

    if s2.len() == 0 {
        assert(s1.to_multiset().len() == s1.len());
        assert(s2.to_multiset().len() == s2.len());
    } else {
        let x = s2.last();
        let s2p = s2.drop_last();
        assert(s2 =~= s2p.push(x));
        assert(s2p.push(x).to_multiset() =~= s2p.to_multiset().insert(x));
        assert(s1.to_multiset().count(x) > 0);
        assert(s1.contains(x));
        let i = choose|i: int| 0 <= i < s1.len() && s1[i] == x;
        lemma_fp_remove(s1, i);
        assert(s1.remove(i).to_multiset() =~= s1.to_multiset().remove(x));
        assert(s1.to_multiset().remove(x) =~= s2p.to_multiset());
        lemma_fp_commutes(s1.remove(i), s2p);
    }
}

} // verus!

