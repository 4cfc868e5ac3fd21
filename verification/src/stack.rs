//! One backing allocation of the arena: a contiguous byte buffer, the bump
//! cursor into it, and an identity tag that stands for the buffer's address.
//!
//! The buffer is replaced wholesale, never resized in place; two allocations
//! are "the same" exactly when their identity tags agree.

use vstd::prelude::*;

use crate::model::AllocModel;
use crate::model::MAX_BLOCK;

verus! {

/// A single backing allocation with its bump cursor.
pub struct Stack {
    id: usize,
    used: usize,
    data: Vec<u8>,
}

impl View for Stack {
    type V = AllocModel;

    closed spec fn view(&self) -> AllocModel {
        AllocModel { id: self.id as int, used: self.used as int, data: self.data@ }
    }
}

impl Stack {
    /// An allocation that owns no memory.
    pub fn null() -> (r: Stack)
        ensures
            r@ == AllocModel::null(),
    {
        let r = Stack { id: 0, used: 0, data: Vec::new() };
        proof {
            assert(r@ =~= AllocModel::null());
        }
        r
    }

    /// A fresh allocation of `size_in_bytes` bytes, cursor at the start.
    /// The caller hands out the identity tag; the arena draws it from a
    /// counter so that no two of its allocations ever share one.
    pub fn new(size_in_bytes: usize, id: usize) -> (r: Stack)
        requires
            1 <= size_in_bytes <= MAX_BLOCK,
            1 <= id,
        ensures
            r@ == (AllocModel {
                id: id as int,
                used: 0,
                data: Seq::new(size_in_bytes as nat, |i: int| 0u8),
            }),
    {
        let data = vec![0u8; size_in_bytes];
        let r = Stack { id, used: 0, data };
        proof {
            assert(r@.data =~= Seq::new(size_in_bytes as nat, |i: int| 0u8));
        }
        r
    }

    /// Whether two allocations are the same backing memory.
    pub fn ref_eq(&self, other: &Self) -> (r: bool)
        ensures
            r == (self@.id == other@.id),
    {
        self.id == other.id
    }

    /// Bytes not yet handed out.
    pub fn remaining_bytes(&self) -> (r: usize)
        requires
            self@.used <= self@.capacity(),
        ensures
            r == self@.remaining(),
    {
        self.data.len() - self.used
    }

    pub fn id(&self) -> (r: usize)
        ensures
            r == self@.id,
    {
        self.id
    }

    pub fn used(&self) -> (r: usize)
        ensures
            r == self@.used,
    {
        self.used
    }

    pub fn capacity(&self) -> (r: usize)
        ensures
            r == self@.capacity(),
    {
        self.data.len()
    }

    /// Advance the bump cursor by `n` bytes.
    pub fn bump(&mut self, n: usize)
        requires
            old(self)@.used + n <= old(self)@.capacity(),
        ensures
            final(self)@ == (AllocModel { used: old(self)@.used + n, ..old(self)@ }),
    {
        // materialize the capacity, so the new cursor is known to fit in a
        // machine word
        let _cap = self.data.len();
        self.used = self.used + n;
    }

    /// Rewind the bump cursor to `n` bytes.
    pub fn set_used(&mut self, n: usize)
        requires
            n <= old(self)@.capacity(),
        ensures
            final(self)@ == (AllocModel { used: n as int, ..old(self)@ }),
    {
        self.used = n;
    }

    /// Read the byte at offset `i`.
    pub fn read_byte(&self, i: usize) -> (r: u8)
        requires
            i < self@.capacity(),
        ensures
            r == self@.data[i as int],
    {
        self.data[i]
    }

    /// Overwrite the byte at offset `i`.
    pub fn write_byte(&mut self, i: usize, v: u8)
        requires
            i < old(self)@.capacity(),
        ensures
            final(self)@ == (AllocModel { data: old(self)@.data.update(i as int, v), ..old(self)@ }),
    {
        self.data[i] = v;
    }

    /// Give the memory back to the allocator unconditionally. Used when the
    /// whole arena is torn down and nothing can still point into the buffer.
    pub fn force_dealloc(&mut self)
        ensures
            final(self)@ == AllocModel::null(),
    {
        self.id = 0;
        self.used = 0;
        self.data = Vec::new();
        proof {
            assert(self@ =~= AllocModel::null());
        }
    }

    /// Give the memory back only if no slice is still carved out of it: a
    /// nonzero cursor means some outstanding borrow below it is responsible
    /// for the eventual free, so the allocation is left alone.
    pub fn try_dealloc(&mut self)
        ensures
            old(self)@.used == 0 ==> final(self)@ == AllocModel::null(),
            old(self)@.used != 0 ==> final(self)@ == old(self)@,
    {
        if self.used != 0 {
            return ;
        }
        self.force_dealloc();
    }
}

} // verus!
