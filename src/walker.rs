//! The bit-sliding index walker: it produces, in increasing order, the basis
//! indices below a bound whose masked bits are all 1.
use crate::error::QitError;
use vstd::prelude::*;

verus! {

/// Whether every bit of `mask` is set in `v`.
pub open spec fn has_mask(v: u64, mask: u64) -> bool {
    v & mask == mask
}

/// Walks the indices below `to` that hold every bit of `mask`.
pub struct BitSlideIndex {
    pub idx: u64,
    pub mask: u64,
    pub to: u64,
}

proof fn lemma_skip_from_zero(mask: u64)
    ensures
        forall|w: u64| w < mask ==> #[trigger] (w & mask) != mask,
{
    assert forall|w: u64| w < mask implies #[trigger] (w & mask) != mask by {
        assert(w & mask <= w) by (bit_vector);
    }
}

proof fn lemma_skip_after(u: u64, mask: u64)
    requires
        u > 0,
        ((u - 1) as u64) & mask == mask,
        (u & mask) != mask,
    ensures
        forall|w: u64| u <= w && w < (u | mask) ==> #[trigger] (w & mask) != mask,
{
    assert forall|w: u64| u <= w && w < (u | mask) implies #[trigger] (w & mask) != mask by {
        assert(u > 0 && ((u - 1) as u64) & mask == mask && (u & mask) != mask && u <= w && w < (u
            | mask) ==> (w & mask) != mask) by (bit_vector);
    }
}

impl BitSlideIndex {
    /// Every masked index below the cursor has been produced already.
    pub open spec fn wf(&self) -> bool {
        &&& self.idx <= self.to
        &&& (self.idx == 0 || self.idx == self.to || has_mask(
            (self.idx - 1) as u64,
            self.mask,
        ))
    }

    /// A walk over the indices below `to` that hold every bit of `mask`.
    pub fn new(to: u64, mask: u64) -> (r: Self)
        ensures
            r.mask == mask,
            r.to == to,
            r.idx == 0,
            r.wf(),
    {
        BitSlideIndex { idx: 0, mask, to }
    }

    /// A fresh walker that also claims the bits of `other`; it fails when
    /// `other` shares a bit with the mask already claimed.
    pub fn merge(&self, other: u64) -> (r: Result<Self, QitError>)
        ensures
            (self.mask & other) != 0 <==> r is Err,
            r is Err ==> r == Err::<Self, QitError>(QitError::MaskOverlap),
            r matches Ok(w) ==> w.mask == (self.mask | other) && w.to == self.to
                && w.idx == 0 && w.wf(),
    {
        if self.mask & other != 0 {
            return Err(QitError::MaskOverlap);
        }
        Ok(BitSlideIndex { idx: 0, mask: self.mask | other, to: self.to })
    }

    /// Restarts the walk.
    pub fn init(&mut self)
        ensures
            final(self).mask == old(self).mask,
            final(self).to == old(self).to,
            final(self).idx == 0,
            final(self).wf(),
    {
        self.idx = 0;
    }

    /// The least index at or after the cursor that holds every masked bit and
    /// lies below the bound, if there is one.
    pub fn next(&mut self) -> (r: Option<u64>)
        requires
            old(self).wf(),
        ensures
            final(self).wf(),
            final(self).mask == old(self).mask,
            final(self).to == old(self).to,
            match r {
                Some(v) => {
                    &&& old(self).idx <= v < old(self).to
                    &&& has_mask(v, old(self).mask)
                    &&& forall|w: u64|
                        old(self).idx <= w < v ==> !#[trigger] has_mask(w, old(self).mask)
                    &&& final(self).idx == v + 1
                },
                None => forall|w: u64|
                    old(self).idx <= w < old(self).to ==> !#[trigger] has_mask(
                        w,
                        old(self).mask,
                    ),
            },
    {
        let idx = self.idx;
        let mask = self.mask;
        if idx >= self.to {
            return None;
        }
        if idx & mask != mask {
            let v = idx | mask;
            proof {
                assert(v >= idx) by (bit_vector)
                    requires
                        v == idx | mask,
                ;
                assert(v & mask == mask) by (bit_vector)
                    requires
                        v == idx | mask,
                ;
                if idx == 0 {
                    assert(v == mask) by (bit_vector)
                        requires
                            v == idx | mask,
                            idx == 0,
                    ;
                    lemma_skip_from_zero(mask);
                } else {
                    lemma_skip_after(idx, mask);
                }
            }
            if v < self.to {
                self.idx = v + 1;
                Some(v)
            } else {
                self.idx = self.to;
                None
            }
        } else {
            self.idx = idx + 1;
            Some(idx)
        }
    }
}

} // verus!
