//! Dense buffer adapter: resize policy and copy planning for a growable
//! external resource of fixed-size elements.
//!
//! The adapter tracks the length and capacity of an index-addressed
//! resource owned by an external provider (for instance GPU-resident
//! memory).  It decides when the resource must be reallocated — growing
//! eagerly by doubling, shrinking lazily only at four-fold slack — and
//! turns a [`MeshPatch`] into one optional reallocation plus a small list
//! of contiguous copy operations.  Actually allocating resources and
//! issuing copies is the provider's business; this module only computes
//! what to ask of it.

use crate::mesh_diff::{runs_cover, Contiguous, MeshPatch};
use vstd::prelude::*;

verus! {

/// Number of element slots a fresh buffer starts with, and the smallest
/// capacity the shrink policy will ever go down to.
pub const DEFAULT_CAPACITY: usize = 512;

/// The smallest capacity reachable from `from` by repeated doubling that
/// holds at least `to` elements.
pub open spec fn grown_capacity(from: int, to: int) -> int
    decreases (if from < to { to - from } else { 0 }),
{
    if from >= to {
        from
    } else if from < 1 {
        to
    } else {
        grown_capacity(2 * from, to)
    }
}

proof fn lemma_grown_capacity_bounds(from: int, to: int)
    requires
        from >= 1,
    ensures
        grown_capacity(from, to) >= to,
        grown_capacity(from, to) >= from,
    decreases (if from < to { to - from } else { 0 }),
{
    if from < to {
        lemma_grown_capacity_bounds(2 * from, to);
    }
}

/// The capacity the resize policy settles on: grow by doubling when the
/// current capacity is too small; rebuild from the default capacity when
/// it exceeds four times the new length; otherwise leave it alone.
pub open spec fn target_capacity(cap: int, new_len: int) -> int {
    if cap < new_len {
        grown_capacity(cap, new_len)
    } else if cap > 4 * new_len {
        grown_capacity(DEFAULT_CAPACITY as int, new_len)
    } else {
        cap
    }
}

/// A pending reallocation of the external resource: allocate
/// `new_capacity` element slots and copy the `copy_len`-element live
/// prefix over from the old resource.
#[derive(Copy, Clone, Debug, PartialEq, Eq, Structural)]
pub struct Realloc {
    pub new_capacity: usize,
    pub copy_len: usize,
}

/// Everything the external provider must do to apply one patch: at most
/// one reallocation, then one bulk copy per contiguous run of writes.
pub struct PatchPlan {
    /// Reallocate before copying, if the resize policy asks for it.
    pub realloc: Option<Realloc>,
    /// One copy operation per maximal contiguous run of the patch's
    /// writes, sourced from the patch's write data uploaded as one blob.
    pub copies: Vec<Contiguous>,
}

/// Tracked length and capacity of a growable dense external resource.
pub struct DenseBuffer {
    len: usize,
    capacity: usize,
}

/// Grow `cap` by doubling until it holds `new_len` elements.
fn grow_from(cap: usize, new_len: usize) -> (c: usize)
    requires
        cap >= 1,
        new_len <= usize::MAX / 2,
    ensures
        c as int == grown_capacity(cap as int, new_len as int),
        c >= new_len,
        c >= cap,
{
    let mut c = cap;
    while c < new_len
        invariant
            c >= 1,
            c >= cap,
            new_len <= usize::MAX / 2,
            grown_capacity(c as int, new_len as int) == grown_capacity(
                cap as int,
                new_len as int,
            ),
        decreases (if c < new_len { new_len - c } else { 0 }),
    {
        c = c * 2;
    }
    c
}

impl DenseBuffer {
    /// The tracked length, in elements.
    pub closed spec fn spec_len(self) -> usize {
        self.len
    }

    /// The tracked capacity, in elements.
    pub closed spec fn spec_capacity(self) -> usize {
        self.capacity
    }

    /// The capacity never falls below the default and always holds the
    /// tracked length.
    pub open spec fn inv(self) -> bool {
        &&& self.spec_capacity() >= DEFAULT_CAPACITY
        &&& self.spec_len() <= self.spec_capacity()
    }

    /// A fresh, empty buffer at the default capacity.
    pub fn new() -> (b: DenseBuffer)
        ensures
            b.inv(),
            b.spec_len() == 0,
            b.spec_capacity() == DEFAULT_CAPACITY,
    {
        DenseBuffer { len: 0, capacity: DEFAULT_CAPACITY }
    }

    /// The current length, in elements.
    pub fn len_elems(&self) -> (n: usize)
        ensures
            n == self.spec_len(),
    {
        self.len
    }

    /// The current capacity, in elements.
    pub fn capacity_elems(&self) -> (n: usize)
        ensures
            n == self.spec_capacity(),
    {
        self.capacity
    }

    /// Set the tracked length.  Capacity grows by doubling when it cannot
    /// hold the new length, and shrinks back to the doubled-up default
    /// when it exceeds four times the new length; anything in between is
    /// left alone, so oscillating lengths do not thrash the allocator.
    /// Returns the reallocation the provider must perform, if any.
    pub fn set_len(&mut self, new_len: usize) -> (r: Option<Realloc>)
        requires
            old(self).inv(),
            new_len <= usize::MAX / 2,
        ensures
            final(self).inv(),
            final(self).spec_len() == new_len,
            final(self).spec_capacity() as int == target_capacity(
                old(self).spec_capacity() as int,
                new_len as int,
            ),
            final(self).spec_capacity() >= new_len,
            r == None::<Realloc> <==> final(self).spec_capacity() == old(self).spec_capacity(),
            r == None::<Realloc> || r == Some(
                Realloc {
                    new_capacity: final(self).spec_capacity(),
                    copy_len: if old(self).spec_len() <= new_len {
                        old(self).spec_len()
                    } else {
                        new_len
                    },
                },
            ),
    {
        let old_capacity = self.capacity;
        let new_capacity: usize;
        if self.capacity < new_len {
            new_capacity = grow_from(self.capacity, new_len);
        } else if (self.capacity as u128) > 4 * (new_len as u128) {
            new_capacity = grow_from(DEFAULT_CAPACITY, new_len);
            proof {
                lemma_grown_capacity_bounds(DEFAULT_CAPACITY as int, new_len as int);
            }
        } else {
            new_capacity = self.capacity;
        }
        let copy_len = if self.len <= new_len {
            self.len
        } else {
            new_len
        };
        self.len = new_len;
        self.capacity = new_capacity;
        if new_capacity != old_capacity {
            Some(Realloc { new_capacity, copy_len })
        } else {
            None
        }
    }

    /// Turn a patch into a plan for the external provider: resize first,
    /// then — unless the patch carries no writes — one copy per maximal
    /// contiguous run of its write list.
    pub fn apply_patch(&mut self, patch: &MeshPatch) -> (plan: PatchPlan)
        requires
            old(self).inv(),
            patch.new_len <= usize::MAX / 2,
        ensures
            final(self).inv(),
            final(self).spec_len() == patch.new_len,
            final(self).spec_capacity() as int == target_capacity(
                old(self).spec_capacity() as int,
                patch.new_len as int,
            ),
            plan.realloc == None::<Realloc> <==> final(self).spec_capacity() == old(
                self,
            ).spec_capacity(),
            patch.writes_data@.len() == 0 ==> plan.copies@.len() == 0,
            patch.writes_data@.len() > 0 ==> runs_cover(patch.writes_indices@, plan.copies@),
    {
        let realloc = self.set_len(patch.new_len);
        if patch.writes_data.is_empty() {
            return PatchPlan { realloc, copies: Vec::new() };
        }
        let copies = patch.iter_contiguous();
        PatchPlan { realloc, copies }
    }
}

} // verus!
