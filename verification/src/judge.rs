//! The judgements of the admission policies on one entry, and the mask that
//! says which of them count.

use vstd::prelude::*;

verus! {

/// The most policies that one set of judgements can hold.
pub const MAX_JUDGES: usize = 64;

/// Whether bit `index` of `mask` is set.
pub open spec fn spec_bit(mask: u64, index: int) -> bool {
    0 <= index < 64 && (mask >> (index as u64)) & 1 == 1
}

/// Whether bit `index` of `mask` is set.
pub fn bit(mask: u64, index: usize) -> (set: bool)
    requires
        index < MAX_JUDGES,
    ensures
        set == spec_bit(mask, index as int),
{
    (mask >> (index as u64)) & 1 == 1
}

/// Every policy that the mask heeds has judged in favour.
pub open spec fn spec_admitted(judges: Seq<bool>, mask: u64) -> bool {
    forall|i: int| 0 <= i < judges.len() && spec_bit(mask, i) ==> judges[i]
}

/// One judgement per admission policy, and the mask of the policies that are heeded.
#[derive(Debug)]
pub struct Judges {
    judges: Vec<bool>,
    mask: u64,
}

impl Judges {
    /// The judgements, by policy. A policy that has not judged counts as against.
    pub closed spec fn judges(&self) -> Seq<bool> {
        self.judges@
    }

    /// The mask: bit `i` says whether policy `i` is heeded.
    pub closed spec fn mask(&self) -> u64 {
        self.mask
    }

    /// There is room for every policy in the mask.
    pub open spec fn wf(&self) -> bool {
        self.judges().len() <= MAX_JUDGES
    }

    /// Judgements of `size` policies, none in favour yet, all of them heeded.
    pub fn new(size: usize) -> (judges: Judges)
        requires
            size <= MAX_JUDGES,
        ensures
            judges.wf(),
            judges.judges() == Seq::new(size as nat, |i: int| false),
            judges.mask() == u64::MAX,
    {
        let mut v: Vec<bool> = Vec::new();
        let mut i: usize = 0;
        while i < size
            invariant
                i <= size,
                v@ == Seq::new(i as nat, |j: int| false),
            decreases size - i,
        {
            v.push(false);
            i += 1;
            proof {
                assert(v@ =~= Seq::new(i as nat, |j: int| false));
            }
        }
        Judges { judges: v, mask: u64::MAX }
    }

    /// The number of policies.
    pub fn size(&self) -> (size: usize)
        ensures
            size == self.judges().len(),
    {
        self.judges.len()
    }

    /// The judgement of policy `index`.
    pub fn get(&self, index: usize) -> (judge: bool)
        requires
            index < self.judges().len(),
        ensures
            judge == self.judges()[index as int],
    {
        self.judges[index]
    }

    /// Records the judgement of policy `index`.
    pub fn set(&mut self, index: usize, judge: bool)
        requires
            index < old(self).judges().len(),
        ensures
            final(self).judges() == old(self).judges().update(index as int, judge),
            final(self).mask() == old(self).mask(),
    {
        self.judges.set(index, judge);
    }

    /// Says which policies are heeded from now on.
    pub fn set_mask(&mut self, mask: u64)
        ensures
            final(self).judges() == old(self).judges(),
            final(self).mask() == mask,
    {
        self.mask = mask;
    }

    /// Whether the entry is admitted: every heeded policy has judged in favour.
    pub fn judge(&self) -> (admitted: bool)
        requires
            self.wf(),
        ensures
            admitted == spec_admitted(self.judges(), self.mask()),
    {
        let mut i: usize = 0;
        while i < self.judges.len()
            invariant
                i <= self.judges@.len() <= MAX_JUDGES,
                forall|j: int| 0 <= j < i && spec_bit(self.mask, j) ==> self.judges@[j],
            decreases self.judges@.len() - i,
        {
            if bit(self.mask, i) && !self.judges[i] {
                return false;
            }
            i += 1;
        }
        true
    }
}

/// With an empty mask every entry is admitted, whatever the policies judged.
pub proof fn lemma_empty_mask_admits(judges: Seq<bool>)
    ensures
        spec_admitted(judges, 0),
{
    assert forall|i: int| 0 <= i < judges.len() && spec_bit(0, i) implies judges[i] by {
        let s = i as u64;
        assert((0u64 >> s) & 1 != 1) by (bit_vector);
    }
}

/// With every policy heeded an entry is admitted only if all have judged in favour.
pub proof fn lemma_full_mask_needs_all(judges: Seq<bool>)
    requires
        judges.len() <= MAX_JUDGES,
    ensures
        spec_admitted(judges, u64::MAX) <==> forall|i: int| 0 <= i < judges.len() ==> judges[i],
{
    assert forall|i: int| 0 <= i < 64 implies spec_bit(u64::MAX, i) by {
        let s = i as u64;
        assert(s < 64 ==> (0xffff_ffff_ffff_ffffu64 >> s) & 1 == 1) by (bit_vector);
    }
}

} // verus!
