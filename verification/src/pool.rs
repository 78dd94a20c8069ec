//! Generic pool for resource re-use.
//!
//! A pool hands out elements that its logic guarantees to be fresh, and
//! takes used elements back into a bounded free list.  When the free list is
//! empty a new element is created; when it is full a returned element is
//! simply dropped.  Pooling is a throughput optimization only: nothing about
//! the surrounding algorithms depends on an element actually being reused.

use vstd::prelude::*;

verus! {

/// Logic for producing and recycling elements in a pool.
pub trait PoolLogic<T>: Sized {
    /// What counts as a fresh, ready-to-use element.
    spec fn is_fresh(&self, elem: T) -> bool;

    /// Produce a new element for the pool.
    fn create(&self) -> (elem: T)
        ensures
            self.is_fresh(elem),
    ;

    /// Restore a used element to its fresh state.
    fn recycle(&self, elem: &mut T)
        ensures
            self.is_fresh(*final(elem)),
    ;
}

/// Generic pool for resource re-use.
pub struct Pool<T, L: PoolLogic<T>> {
    logic: L,
    cells: Vec<T>,
    size: usize,
}

impl<T, L: PoolLogic<T>> Pool<T, L> {
    /// The pool's recycling logic.
    pub closed spec fn spec_logic(self) -> L {
        self.logic
    }

    /// How many returned elements the pool will hold on to.
    pub closed spec fn capacity(self) -> usize {
        self.size
    }

    /// Create a pool which holds up to `size` returned elements before it
    /// starts dropping them.
    pub fn new(logic: L, size: usize) -> (pool: Self)
        ensures
            pool.spec_logic() == logic,
            pool.capacity() == size,
    {
        Pool { logic, cells: Vec::new(), size }
    }

    /// Borrow a fresh element: a recycled one if the free list is not
    /// empty, a newly created one otherwise.
    pub fn get(&mut self) -> (guard: PoolGuard<T>)
        ensures
            final(self).spec_logic() == old(self).spec_logic(),
            final(self).capacity() == old(self).capacity(),
            old(self).spec_logic().is_fresh(guard.element()),
    {
        match self.cells.pop() {
            Some(mut elem) => {
                self.logic.recycle(&mut elem);
                PoolGuard { elem }
            },
            None => {
                let elem = self.logic.create();
                PoolGuard { elem }
            },
        }
    }

    /// Return a used element to the pool.  If the free list is already at
    /// capacity the element is dropped instead.
    pub fn put(&mut self, elem: T)
        ensures
            final(self).spec_logic() == old(self).spec_logic(),
            final(self).capacity() == old(self).capacity(),
    {
        if self.cells.len() < self.size {
            self.cells.push(elem);
        }
    }
}

/// An element handed out by a [`Pool`].
pub struct PoolGuard<T> {
    elem: T,
}

impl<T> PoolGuard<T> {
    /// The element held by this guard.
    pub closed spec fn element(self) -> T {
        self.elem
    }

    /// Extract the guarded element.
    pub fn take(self) -> (elem: T)
        ensures
            elem == self.element(),
    {
        self.elem
    }
}

} // verus!
