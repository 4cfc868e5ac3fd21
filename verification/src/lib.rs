//! A growable scratch-memory arena ("second stack") for temporary buffers.
//!
//! Callers acquire a scoped slice of scratch bytes, use it, and give it back
//! in reverse order of acquisition; the arena reclaims the memory the moment
//! the matching restore guard is released, growing its single backing
//! allocation geometrically when a request does not fit.
//!
//! The backing memory is modelled as an owned byte buffer with an explicit
//! cursor, and an acquired slice as a range of offsets into one identified
//! allocation, so that every step of the bump-and-restore protocol is
//! verified: acquisition never hands out overlapping ranges, release rewinds
//! exactly to the guard's snapshot, and an allocation superseded by growth is
//! freed by the earliest guard still standing on it.

use vstd::prelude::*;

pub mod laws;
pub mod model;
pub mod source;
pub mod stack;

use model::acquired_before;
use model::align_pad;
use model::bytes_of;
use model::disjoint;
use model::grow_from;
use model::lemma_acquire;
use model::lemma_ensure_capacity;
use model::lemma_get_slice;
use model::lemma_grow_from;
use model::lemma_new_capacity;
use model::lemma_release;
use model::lemma_write;
use model::new_capacity;
use model::same_shape;
use model::slice_live;
use model::spec_acquire;
use model::spec_ensure_capacity;
use model::spec_get_slice;
use model::spec_release;
use model::spec_write;
use model::AllocModel;
use model::RestoreModel;
use model::SliceModel;
use model::StackModel;
use model::MAX_ALIGN;
use model::MAX_ALLOC;
use model::MAX_BLOCK;
use model::MAX_BUFFER;
use model::MIN_BLOCK;
use model::SMALL_LEN;
use source::ByteSource;
use vstd::pervasive::unreached;

verus! {

/// A view into scratch memory handed out by an acquisition: `len` elements
/// of `size` bytes each. All access goes through the arena it came from.
#[derive(Clone, Copy, PartialEq, Eq, Structural, Debug)]
pub struct Slice {
    /// Whether the slice lives in an arena allocation, as opposed to a
    /// degenerate-case buffer of its own.
    pub in_arena: bool,
    /// Identity tag of the arena allocation, or slot of the buffer.
    pub id: usize,
    /// Byte offset of the slice's first element.
    pub start: usize,
    /// Number of elements.
    pub len: usize,
    /// Bytes per element.
    pub size: usize,
}

impl View for Slice {
    type V = SliceModel;

    open spec fn view(&self) -> SliceModel {
        SliceModel {
            arena: self.in_arena,
            id: self.id as int,
            start: self.start as int,
            len: self.len as int,
            size: self.size as int,
        }
    }
}

impl Slice {
    /// Number of elements in the slice.
    pub fn length(&self) -> (r: usize)
        ensures
            r == self@.len,
    {
        self.len
    }

    /// Number of bytes the slice covers.
    pub fn byte_len(&self) -> (r: usize)
        requires
            self@.bytes() <= usize::MAX,
        ensures
            r == self@.bytes(),
    {
        self.len * self.size
    }
}

/// The token that releases an acquisition: a snapshot of the allocation's
/// identity and of the cursor immediately before the slice was carved out.
/// It is consumed exactly once, and acquisitions must be released in
/// reverse order of acquisition.
pub struct Restore {
    in_arena: bool,
    id: usize,
    saved: usize,
}

impl View for Restore {
    type V = RestoreModel;

    closed spec fn view(&self) -> RestoreModel {
        RestoreModel { arena: self.in_arena, id: self.id as int, saved: self.saved as int }
    }
}

/// A scratch-memory arena that is managed separately from any shared one.
/// It owns one live backing allocation, the orphaned allocations that
/// growth superseded while slices were still outstanding, and the buffers
/// that serve degenerate requests outside the arena proper.
pub struct Stack {
    alloc: stack::Stack,
    orphans: Vec<stack::Stack>,
    side: Vec<Vec<u8>>,
    next_id: usize,
}

impl View for Stack {
    type V = StackModel;

    closed spec fn view(&self) -> StackModel {
        StackModel {
            alloc: self.alloc@,
            orphans: Seq::new(self.orphans@.len(), |i: int| self.orphans@[i]@),
            side: Seq::new(self.side@.len(), |i: int| self.side@[i]@),
            next_id: self.next_id as int,
        }
    }
}

impl Stack {
    /// A fresh arena that owns no memory yet.
    pub fn new() -> (r: Stack)
        ensures
            r@ == StackModel::empty(),
            r@.wf(),
    {
        let r = Stack { alloc: stack::Stack::null(), orphans: Vec::new(), side: Vec::new(), next_id: 1 };
        proof {
            assert(r@ =~~= StackModel::empty());
        }
        r
    }

    /// Replace the live allocation when it cannot serve `required` more
    /// bytes. The fresh capacity at least doubles the superseded one and is
    /// doubled until the request fits; the superseded allocation is freed at
    /// once if nothing is carved out of it, and otherwise becomes an orphan
    /// for a later restore guard to reclaim.
    fn ensure_capacity(&mut self, required: usize)
        requires
            old(self)@.wf(),
            required <= MAX_BLOCK,
            old(self)@.next_id < usize::MAX,
        ensures
            final(self)@ == spec_ensure_capacity(old(self)@, required as int),
            final(self)@.wf(),
            final(self)@.alloc.remaining() >= required,
    {
        proof {
            lemma_ensure_capacity(old(self)@, required as int);
        }
        if self.alloc.remaining_bytes() < required {
            let ncap = grow_capacity(self.alloc.capacity(), required);
            let fresh_id = self.next_id;
            self.next_id = self.next_id + 1;
            let mut prev = stack::Stack::new(ncap, fresh_id);
            core::mem::swap(&mut self.alloc, &mut prev);
            if prev.used() != 0 {
                self.orphans.push(prev);
                proof {
                    assert(self@ =~~= spec_ensure_capacity(old(self)@, required as int));
                }
            } else {
                prev.force_dealloc();
                proof {
                    assert(self@ =~~= spec_ensure_capacity(old(self)@, required as int));
                }
            }
        }
    }
}

impl Stack {
    /// Carve `len` elements of `size` bytes each, aligned to `align`, out
    /// of the live allocation, growing it first if the request does not
    /// fit. Returns the slice and the restore guard that releases it.
    ///
    /// The returned slice never overlaps any slice that is still live: the
    /// cursor only moves forward past it, and a replacement allocation
    /// carries a fresh identity.
    pub fn get_slice(&mut self, len: usize, size: usize, align: usize) -> (r: (Slice, Restore))
        requires
            old(self)@.wf(),
            1 <= size,
            1 <= len,
            len * size <= MAX_ALLOC,
            1 <= align <= MAX_ALIGN,
            old(self)@.next_id < usize::MAX,
        ensures
            final(self)@ == spec_get_slice(old(self)@, len as int, size as int, align as int).0,
            r.0@ == spec_get_slice(old(self)@, len as int, size as int, align as int).1,
            r.1@ == spec_get_slice(old(self)@, len as int, size as int, align as int).2,
            final(self)@.wf(),
            slice_live(final(self)@, r.0@),
            r.0@.len == len && r.0@.size == size && r.0@.arena,
            r.0@.start % (align as int) == 0,
            forall|sl0: SliceModel|
                #[trigger] slice_live(old(self)@, sl0) ==> slice_live(final(self)@, sl0)
                    && bytes_of(final(self)@, sl0) == bytes_of(old(self)@, sl0)
                    && disjoint(sl0, r.0@),
            final(self)@.side == old(self)@.side,
            old(self)@.alloc.remaining() >= (align - 1) + len * size ==> final(self)@.owned_bytes()
                == old(self)@.owned_bytes(),
    {
        proof {
            lemma_get_slice(old(self)@, len as int, size as int, align as int);
            assert(size as int * len as int == len as int * size as int) by (nonlinear_arith);
        }
        let bytes = size * len;
        let required = (align - 1) + bytes;
        self.ensure_capacity(required);
        let id = self.alloc.id();
        let saved = self.alloc.used();
        let g = Restore { in_arena: true, id, saved };
        let pad = align_pad_exec(saved, align);
        let start = saved + pad;
        self.alloc.bump(pad + bytes);
        let sl = Slice { in_arena: true, id, start, len, size };
        proof {
            assert(self@ =~~= spec_get_slice(old(self)@, len as int, size as int, align as int).0);
            assert(g@ =~= spec_get_slice(old(self)@, len as int, size as int, align as int).2);
        }
        (sl, g)
    }
}

impl Stack {
    /// Acquire a scratch slice of `len` elements of `size` bytes each,
    /// aligned to `align`. Zero-sized elements and small element counts are
    /// served from a buffer of their own, outside the arena, so that they
    /// never disturb the arena's liveness accounting; every other request
    /// is carved out of the live allocation.
    ///
    /// The slice is disjoint from every slice that is still live, and every
    /// such slice keeps its bytes.
    pub fn acquire(&mut self, len: usize, size: usize, align: usize) -> (r: (Slice, Restore))
        requires
            old(self)@.wf(),
            len * size <= MAX_ALLOC,
            1 <= align <= MAX_ALIGN,
            old(self)@.next_id < usize::MAX,
        ensures
            final(self)@ == spec_acquire(old(self)@, len as int, size as int, align as int).0,
            r.0@ == spec_acquire(old(self)@, len as int, size as int, align as int).1,
            r.1@ == spec_acquire(old(self)@, len as int, size as int, align as int).2,
            final(self)@.wf(),
            slice_live(final(self)@, r.0@),
            r.0@.len == len && r.0@.size == size,
            r.0@.start % (align as int) == 0,
            forall|sl0: SliceModel|
                #[trigger] slice_live(old(self)@, sl0) ==> slice_live(final(self)@, sl0)
                    && bytes_of(final(self)@, sl0) == bytes_of(old(self)@, sl0)
                    && disjoint(sl0, r.0@) && acquired_before(sl0, r.1@),
            size == 0 || len <= SMALL_LEN ==> final(self)@.alloc == old(self)@.alloc
                && final(self)@.orphans == old(self)@.orphans && final(self)@.owned_bytes()
                == old(self)@.owned_bytes(),
            old(self)@.alloc.remaining() >= (align - 1) + len * size ==> final(self)@.owned_bytes()
                == old(self)@.owned_bytes(),
            old(self)@.owned_bytes() <= final(self)@.owned_bytes(),
    {
        proof {
            lemma_acquire(old(self)@, len as int, size as int, align as int);
        }
        if size == 0 || len <= SMALL_LEN {
            let slot = self.side.len();
            let buf = vec![0u8; len * size];
            self.side.push(buf);
            let sl = Slice { in_arena: false, id: slot, start: 0, len, size };
            let g = Restore { in_arena: false, id: slot, saved: 0 };
            proof {
                assert(self@ =~~= spec_acquire(
                    old(self)@,
                    len as int,
                    size as int,
                    align as int,
                ).0);
                assert(g@ =~= spec_acquire(old(self)@, len as int, size as int, align as int).2);
            }
            (sl, g)
        } else {
            self.get_slice(len, size, align)
        }
    }

    /// Give an acquisition back. When the guard's allocation is still the
    /// live one, the cursor rewinds to the guard's snapshot, releasing the
    /// slice (and, under the required reverse-of-acquisition order,
    /// everything acquired after it). When the allocation was superseded by
    /// growth in the meantime, the guard instead frees it exactly when its
    /// snapshot shows no earlier acquisition on it: the chain of snapshots
    /// ends at zero, so the last guard out frees the orphan. A guard for a
    /// degenerate-case buffer returns that buffer.
    ///
    /// A guard that no honest, reverse-ordered release could present leaves
    /// the arena untouched.
    #[verifier::loop_isolation(false)]
    pub fn release(&mut self, g: Restore)
        requires
            old(self)@.wf(),
        ensures
            final(self)@ == spec_release(old(self)@, g@),
            final(self)@.wf(),
            final(self)@.owned_bytes() <= old(self)@.owned_bytes(),
            forall|sl0: SliceModel|
                #[trigger] slice_live(old(self)@, sl0) && acquired_before(sl0, g@) ==> slice_live(
                    final(self)@,
                    sl0,
                ) && bytes_of(final(self)@, sl0) == bytes_of(old(self)@, sl0),
    {
        proof {
            lemma_release(old(self)@, g@);
        }
        if !g.in_arena {
            let n = self.side.len();
            if n > 0 && g.id == n - 1 {
                self.side.pop();
                proof {
                    assert(self@ =~~= spec_release(old(self)@, g@));
                }
            } else {
                proof {
                    assert(self@ =~~= spec_release(old(self)@, g@));
                }
            }
        } else if self.alloc.id() == g.id {
            if g.saved <= self.alloc.used() {
                self.alloc.set_used(g.saved);
                proof {
                    assert(self@ =~~= spec_release(old(self)@, g@));
                }
            } else {
                proof {
                    assert(self@ =~~= spec_release(old(self)@, g@));
                }
            }
        } else {
            if g.saved == 0 {
                let n = self.orphans.len();
                let mut j: usize = 0;
                while j < n
                    invariant
                        n == self.orphans.len(),
                        0 <= j <= n,
                        self == old(self),
                        forall|k: int| 0 <= k < j ==> self@.orphans[k].id != g@.id,
                    decreases n - j,
                {
                    if self.orphans[j].id() == g.id {
                        let mut orphan = self.orphans.remove(j);
                        orphan.force_dealloc();
                        proof {
                            assert(old(self)@.orphans[j as int].id == g@.id);
                            assert(old(self)@.has_block(g@.id));
                            let j2 = old(self)@.orphan_index(g@.id);
                            assert(0 <= j2 < old(self)@.orphans.len() && old(self)@.orphans[j2].id
                                == g@.id);
                            if j2 != j as int {
                                assert(old(self)@.orphans[j2].id != old(self)@.orphans[j as int].id);
                            }
                            assert(self@ =~~= spec_release(old(self)@, g@));
                        }
                        return ;
                    }
                    j = j + 1;
                }
                proof {
                    assert(!old(self)@.has_block(g@.id));
                    assert(self@ =~~= spec_release(old(self)@, g@));
                }
            } else {
                proof {
                    assert(self@ =~~= spec_release(old(self)@, g@));
                }
            }
        }
    }

    /// Read the byte at offset `i` of a live slice.
    #[verifier::loop_isolation(false)]
    pub fn read(&self, sl: &Slice, i: usize) -> (r: u8)
        requires
            self@.wf(),
            slice_live(self@, sl@),
            i < sl@.bytes(),
        ensures
            r == bytes_of(self@, sl@)[i as int],
    {
        if !sl.in_arena {
            let buf = &self.side[sl.id];
            buf[sl.start + i]
        } else {
            proof {
                assert(sl@.end() <= self@.block_of(sl@.id).used);
            }
            if self.alloc.id() == sl.id {
                self.alloc.read_byte(sl.start + i)
            } else {
                let n = self.orphans.len();
                let mut j: usize = 0;
                while j < n
                    invariant
                        n == self@.orphans.len(),
                        0 <= j <= n,
                        forall|k: int| 0 <= k < j ==> self@.orphans[k].id != sl@.id,
                        self@.wf(),
                        slice_live(self@, sl@),
                        i < sl@.bytes(),
                        sl@.arena,
                        self@.alloc.id != sl@.id,
                    decreases n - j,
                {
                    if self.orphans[j].id() == sl.id {
                        proof {
                            let j2 = self@.orphan_index(sl@.id);
                            assert(0 <= j2 < self@.orphans.len() && self@.orphans[j2].id == sl@.id);
                            if j2 != j as int {
                                assert(self@.orphans[j2].id != self@.orphans[j as int].id);
                            }
                            assert(self@.block_of(sl@.id) == self@.orphans[j as int]);
                        }
                        return self.orphans[j].read_byte(sl.start + i);
                    }
                    j = j + 1;
                }
                proof {
                    assert(!self@.has_block(sl@.id));
                    assert(false);
                }
                unreached()
            }
        }
    }

    /// Overwrite the byte at offset `i` of a live slice. Every live slice
    /// disjoint from this one keeps its bytes.
    #[verifier::loop_isolation(false)]
    pub fn write(&mut self, sl: &Slice, i: usize, v: u8)
        requires
            old(self)@.wf(),
            slice_live(old(self)@, sl@),
            i < sl@.bytes(),
        ensures
            final(self)@ == spec_write(old(self)@, sl@, i as int, v),
            final(self)@.wf(),
            same_shape(old(self)@, final(self)@),
            bytes_of(final(self)@, sl@) == bytes_of(old(self)@, sl@).update(i as int, v),
            forall|sl0: SliceModel| #[trigger] slice_live(old(self)@, sl0) ==> slice_live(final(self)@, sl0),
            forall|sl0: SliceModel|
                #[trigger] slice_live(old(self)@, sl0) && disjoint(sl0, sl@) ==> bytes_of(
                    final(self)@,
                    sl0,
                ) == bytes_of(old(self)@, sl0),
    {
        proof {
            lemma_write(old(self)@, sl@, i as int, v);
        }
        if !sl.in_arena {
            let buf = &mut self.side[sl.id];
            buf[sl.start + i] = v;
            proof {
                assert(self@ =~~= spec_write(old(self)@, sl@, i as int, v));
            }
        } else {
            proof {
                assert(sl@.end() <= old(self)@.block_of(sl@.id).used);
            }
            if self.alloc.id() == sl.id {
                self.alloc.write_byte(sl.start + i, v);
                proof {
                    assert(self@ =~~= spec_write(old(self)@, sl@, i as int, v));
                }
            } else {
                let n = self.orphans.len();
                let mut j: usize = 0;
                while j < n
                    invariant
                        n == self@.orphans.len(),
                        0 <= j <= n,
                        self == old(self),
                        forall|k: int| 0 <= k < j ==> self@.orphans[k].id != sl@.id,
                        slice_live(self@, sl@),
                        i < sl@.bytes(),
                        sl@.arena,
                        self@.alloc.id != sl@.id,
                    decreases n - j,
                {
                    if self.orphans[j].id() == sl.id {
                        proof {
                            let j2 = self@.orphan_index(sl@.id);
                            assert(0 <= j2 < self@.orphans.len() && self@.orphans[j2].id == sl@.id);
                            if j2 != j as int {
                                assert(self@.orphans[j2].id != self@.orphans[j as int].id);
                            }
                            assert(self@.block_of(sl@.id) == self@.orphans[j as int]);
                        }
                        let orphan = &mut self.orphans[j];
                        orphan.write_byte(sl.start + i, v);
                        proof {
                            assert(self@ =~~= spec_write(old(self)@, sl@, i as int, v));
                        }
                        return ;
                    }
                    j = j + 1;
                }
                proof {
                    assert(!self@.has_block(sl@.id));
                    assert(false);
                }
            }
        }
    }
}

impl Stack {
    /// Allocate an uninitialized scratch slice on this arena and hand it,
    /// together with the arena, to `f`; the slice is released the moment
    /// `f` returns. `f` may acquire further scratch from the arena it is
    /// handed, as long as it releases in reverse order of acquisition.
    ///
    /// The element count, element size and alignment describe the slice;
    /// its contents start out unspecified and are discarded on release.
    pub fn uninit_slice<R, F: FnOnce(Stack, Slice) -> (Stack, R)>(
        self,
        len: usize,
        size: usize,
        align: usize,
        f: F,
    ) -> (r: (Stack, R))
        requires
            self@.wf(),
            len * size <= MAX_ALLOC,
            1 <= align <= MAX_ALIGN,
            self@.next_id < usize::MAX,
            forall|s: Stack, sl: Slice|
                s@ == spec_acquire(self@, len as int, size as int, align as int).0 && sl@
                    == spec_acquire(self@, len as int, size as int, align as int).1
                    ==> #[trigger] call_requires(f, (s, sl)),
            forall|args: (Stack, Slice), out: (Stack, R)|
                #[trigger] call_ensures(f, args, out) ==> out.0@.wf(),
        ensures
            r.0@.wf(),
            exists|s1: Stack, sl: Slice, s2: Stack|
                {
                    &&& s1@ == spec_acquire(self@, len as int, size as int, align as int).0
                    &&& sl@ == spec_acquire(self@, len as int, size as int, align as int).1
                    &&& #[trigger] call_ensures(f, (s1, sl), (s2, r.1))
                    &&& r.0@ == spec_release(
                        s2@,
                        spec_acquire(self@, len as int, size as int, align as int).2,
                    )
                },
    {
        let mut stack = self;
        let (sl, g) = stack.acquire(len, size, align);
        let ghost s1 = stack;
        let (mut after, out) = f(stack, sl);
        let ghost s2 = after;
        after.release(g);
        proof {
            assert(call_ensures(f, (s1, sl), (s2, out)));
            assert(s1@ == spec_acquire(self@, len as int, size as int, align as int).0);
            assert(after@ == spec_release(
                s2@,
                spec_acquire(self@, len as int, size as int, align as int).2,
            ));
            let rr = (after, out);
            assert(rr.1 == out && rr.0 == after);
            assert(exists|s1x: Stack, slx: Slice, s2x: Stack|
                {
                    &&& s1x@ == spec_acquire(self@, len as int, size as int, align as int).0
                    &&& slx@ == spec_acquire(self@, len as int, size as int, align as int).1
                    &&& #[trigger] call_ensures(f, (s1x, slx), (s2x, rr.1))
                    &&& rr.0@ == spec_release(
                        s2x@,
                        spec_acquire(self@, len as int, size as int, align as int).2,
                    )
                });
        }
        (after, out)
    }

    /// Scratch space for one potentially very large value: a slice of one
    /// element of `size` bytes, aligned to `align`.
    pub fn uninit<R, F: FnOnce(Stack, Slice) -> (Stack, R)>(
        self,
        size: usize,
        align: usize,
        f: F,
    ) -> (r: (Stack, R))
        requires
            self@.wf(),
            size <= MAX_ALLOC,
            1 <= align <= MAX_ALIGN,
            self@.next_id < usize::MAX,
            forall|s: Stack, sl: Slice|
                s@ == spec_acquire(self@, 1, size as int, align as int).0 && sl@ == spec_acquire(
                    self@,
                    1,
                    size as int,
                    align as int,
                ).1 ==> #[trigger] call_requires(f, (s, sl)),
            forall|args: (Stack, Slice), out: (Stack, R)|
                #[trigger] call_ensures(f, args, out) ==> out.0@.wf(),
        ensures
            r.0@.wf(),
            exists|s1: Stack, sl: Slice, s2: Stack|
                {
                    &&& s1@ == spec_acquire(self@, 1, size as int, align as int).0
                    &&& sl@ == spec_acquire(self@, 1, size as int, align as int).1
                    &&& #[trigger] call_ensures(f, (s1, sl), (s2, r.1))
                    &&& r.0@ == spec_release(s2@, spec_acquire(self@, 1, size as int, align as int).2)
                },
    {
        self.uninit_slice(1, size, align, f)
    }

    /// Copy the first `n` bytes of one live slice into another, disjoint
    /// one. Used when the in-progress buffer of `buffer` moves to a larger
    /// slice.
    #[verifier::loop_isolation(false)]
    fn copy_prefix(&mut self, from: &Slice, to: &Slice, n: usize)
        requires
            old(self)@.wf(),
            slice_live(old(self)@, from@),
            slice_live(old(self)@, to@),
            disjoint(from@, to@),
            n <= from@.bytes(),
            n <= to@.bytes(),
        ensures
            final(self)@.wf(),
            same_shape(old(self)@, final(self)@),
            slice_live(final(self)@, from@),
            slice_live(final(self)@, to@),
            bytes_of(final(self)@, from@) == bytes_of(old(self)@, from@),
            bytes_of(final(self)@, to@).subrange(0, n as int) == bytes_of(old(self)@, from@)
                .subrange(0, n as int),
            forall|sl0: SliceModel|
                #[trigger] slice_live(old(self)@, sl0) ==> slice_live(final(self)@, sl0),
            forall|sl0: SliceModel|
                #[trigger] slice_live(old(self)@, sl0) && disjoint(sl0, to@) ==> bytes_of(
                    final(self)@,
                    sl0,
                ) == bytes_of(old(self)@, sl0),
            final(self)@.alloc == (AllocModel {
                data: final(self)@.alloc.data,
                ..old(self)@.alloc
            }),
            final(self)@.side.len() == old(self)@.side.len(),
            final(self)@.next_id == old(self)@.next_id,
    {
        let mut i: usize = 0;
        while i < n
            invariant
                0 <= i <= n,
                self@.wf(),
                same_shape(old(self)@, self@),
                slice_live(self@, from@),
                slice_live(self@, to@),
                bytes_of(self@, from@) == bytes_of(old(self)@, from@),
                bytes_of(self@, to@).subrange(0, i as int) == bytes_of(old(self)@, from@)
                    .subrange(0, i as int),
                forall|sl0: SliceModel|
                    #[trigger] slice_live(old(self)@, sl0) ==> slice_live(self@, sl0),
                forall|sl0: SliceModel|
                    #[trigger] slice_live(old(self)@, sl0) && disjoint(sl0, to@) ==> bytes_of(
                        self@,
                        sl0,
                    ) == bytes_of(old(self)@, sl0),
                self@.alloc == (AllocModel { data: self@.alloc.data, ..old(self)@.alloc }),
                self@.side.len() == old(self)@.side.len(),
                self@.next_id == old(self)@.next_id,
            decreases n - i,
        {
            let b = self.read(from, i);
            self.write(to, i, b);
            proof {
                assert(bytes_of(self@, to@).subrange(0, i + 1 as int) =~= bytes_of(old(self)@, from@)
                    .subrange(0, i + 1 as int));
            }
            i = i + 1;
        }
    }

    /// Drain `src` into contiguous scratch on this arena, then hand the
    /// filled slice, together with the arena, to `f`; everything is
    /// released the moment `f` returns. The buffer starts at the small
    /// inline threshold outside the arena and, whenever the source yields
    /// more than fits, either extends in place (when the live allocation
    /// still ends with it) or moves to a freshly carved slice of twice the
    /// size.
    ///
    /// `f` receives exactly the bytes the source had left, in order.
    #[verifier::rlimit(80)]
    pub fn buffer<S: ByteSource, R, F: FnOnce(Stack, Slice) -> (Stack, R)>(
        self,
        src: S,
        f: F,
    ) -> (r: (Stack, R))
        requires
            self@.wf(),
            src.remaining().len() <= MAX_BUFFER,
            self@.next_id + MAX_ALLOC <= usize::MAX,
            forall|s: Stack, sl: Slice|
                s@.wf() && slice_live(s@, sl@) && sl@.size == 1 && sl@.len == src.remaining().len()
                    && bytes_of(s@, sl@) == src.remaining() ==> #[trigger] call_requires(
                    f,
                    (s, sl),
                ),
            forall|args: (Stack, Slice), out: (Stack, R)|
                #[trigger] call_ensures(f, args, out) ==> out.0@.wf(),
        ensures
            r.0@.wf(),
            exists|s1: Stack, sl: Slice, s2: Stack|
                {
                    &&& s1@.wf()
                    &&& slice_live(s1@, sl@)
                    &&& sl@.size == 1
                    &&& sl@.len == src.remaining().len()
                    &&& bytes_of(s1@, sl@) == src.remaining()
                    &&& #[trigger] call_ensures(f, (s1, sl), (s2, r.1))
                },
    {
        let ghost m0 = self@;
        let ghost total = src.remaining();
        let mut stack = self;
        let mut source = src;
        let (first, g0) = stack.acquire(SMALL_LEN, 1, 1);
        proof {
            lemma_acquire(m0, SMALL_LEN as int, 1, 1);
        }
        let mut sl = first;
        let mut g = g0;
        let mut cap: usize = SMALL_LEN;
        let mut written: usize = 0;
        loop
            invariant
                stack@.wf(),
                sl@.size == 1,
                sl@.len == cap as int,
                slice_live(stack@, sl@),
                written <= cap,
                SMALL_LEN <= cap,
                cap <= MAX_ALLOC,
                written as int <= total.len(),
                source.remaining() == total.skip(written as int),
                bytes_of(stack@, sl@).subrange(0, written as int) == total.subrange(
                    0,
                    written as int,
                ),
                32 * (stack@.next_id - m0.next_id) <= cap as int,
                m0.next_id <= stack@.next_id,
                total.len() <= MAX_BUFFER,
                m0.next_id + MAX_ALLOC <= usize::MAX,
                sl@.arena ==> sl@.id == stack@.alloc.id && sl@.end() == stack@.alloc.used,
                sl@.arena ==> 1 <= written,
                g@.arena == sl@.arena && g@.id == sl@.id,
            ensures
                source.remaining().len() == 0,
                written as int == total.len(),
                stack@.wf(),
                sl@.size == 1,
                sl@.len == cap as int,
                written <= cap,
                slice_live(stack@, sl@),
                bytes_of(stack@, sl@).subrange(0, written as int) == total.subrange(
                    0,
                    written as int,
                ),
                sl@.arena ==> 1 <= written,
            decreases total.len() - written,
        {
            let nxt = source.next();
            match nxt {
                None => {
                    proof {
                        assert(total.skip(written as int).len() == 0);
                        assert(written as int == total.len());
                    }
                    break ;
                },
                Some(b) => {
                    proof {
                        assert(total.skip(written as int).len() >= 1);
                        assert(written < total.len());
                        assert(b == total[written as int]);
                        assert(source.remaining() =~= total.skip(written as int + 1));
                    }
                    if written == cap {
                        // the buffer is full: double it, in place when the
                        // live allocation still ends with it
                        let can_extend = sl.in_arena && stack.alloc.id() == sl.id
                            && stack.alloc.remaining_bytes() >= cap;
                        if can_extend {
                            let ghost before = stack@;
                            let ghost old_sl = sl@;
                            stack.extend_tail(cap);
                            sl = Slice {
                                in_arena: sl.in_arena,
                                id: sl.id,
                                start: sl.start,
                                len: cap * 2,
                                size: 1,
                            };
                            proof {
                                assert(stack@.block_of(sl@.id) == stack@.alloc);
                                assert(sl@.bytes() == 2 * (cap as int));
                                assert(slice_live(stack@, sl@));
                                assert(bytes_of(stack@, sl@).subrange(0, written as int)
                                    =~= bytes_of(before, old_sl).subrange(0, written as int));
                            }
                        } else {
                            let ghost mpre = stack@;
                            proof {
                                lemma_get_slice(mpre, 2 * (cap as int), 1, 1);
                            }
                            let (sl2, g2) = stack.get_slice(cap * 2, 1, 1);
                            proof {
                                assert(sl2@.id == stack@.alloc.id && sl2@.end()
                                    == stack@.alloc.used);
                                assert(g2@.arena && g2@.id == sl2@.id);
                                assert(disjoint(sl@, sl2@));
                                assert(slice_live(stack@, sl@));
                                assert(bytes_of(stack@, sl@) == bytes_of(mpre, sl@));
                                if sl@.arena {
                                    // the old allocation could not serve the
                                    // doubled request, so growth replaced it
                                    assert(mpre.alloc.id == g@.id);
                                    assert(mpre.alloc.remaining() < cap as int);
                                    lemma_ensure_capacity(mpre, 2 * (cap as int));
                                    assert(stack@.alloc.id == mpre.next_id);
                                    assert(stack@.alloc.id != g@.id);
                                }
                            }
                            stack.copy_prefix(&sl, &sl2, written);
                            proof {
                                assert(bytes_of(stack@, sl2@).subrange(0, written as int)
                                    =~= total.subrange(0, written as int));
                                assert(sl2@.id == stack@.alloc.id && sl2@.end()
                                    == stack@.alloc.used);
                                assert(acquired_before(sl2@, g@));
                            }
                            let g_old = g;
                            g = g2;
                            let ghost mrel = stack@;
                            stack.release(g_old);
                            proof {
                                assert(slice_live(stack@, sl2@) && bytes_of(stack@, sl2@)
                                    == bytes_of(mrel, sl2@));
                                assert(stack@.alloc == mrel.alloc);
                                assert(spec_ensure_capacity(mpre, 2 * (cap as int)).next_id
                                    <= mpre.next_id + 1);
                                assert(stack@.next_id <= mpre.next_id + 1);
                            }
                            sl = sl2;
                        }
                        cap = cap * 2;
                    }
                    stack.write(&sl, written, b);
                    proof {
                        assert(bytes_of(stack@, sl@).subrange(0, written as int + 1) =~= total
                            .subrange(0, written as int + 1));
                    }
                    written = written + 1;
                },
            }
        }
        let out_sl = Slice { in_arena: sl.in_arena, id: sl.id, start: sl.start, len: written, size: 1 };
        proof {
            assert(out_sl@.bytes() == written as int) by (nonlinear_arith)
                requires
                    out_sl@.size == 1,
                    out_sl@.len == written as int,
            ;
            assert(sl@.bytes() == cap as int);
            assert(slice_live(stack@, out_sl@));
            assert(bytes_of(stack@, out_sl@) =~= bytes_of(stack@, sl@).subrange(0, written as int));
            assert(bytes_of(stack@, out_sl@) =~= total);
        }
        let ghost s1 = stack;
        let (mut after, out) = f(stack, out_sl);
        let ghost s2 = after;
        after.release(g);
        proof {
            assert(call_ensures(f, (s1, out_sl), (s2, out)));
            let rr = (after, out);
            assert(rr.1 == out && rr.0 == after);
            assert(exists|s1x: Stack, slx: Slice, s2x: Stack|
                {
                    &&& s1x@.wf()
                    &&& slice_live(s1x@, slx@)
                    &&& slx@.size == 1
                    &&& slx@.len == total.len()
                    &&& bytes_of(s1x@, slx@) == total
                    &&& #[trigger] call_ensures(f, (s1x, slx), (s2x, rr.1))
                });
        }
        (after, out)
    }

    /// Bump the live allocation's cursor by `n` bytes, extending whatever
    /// slice ends exactly at the cursor.
    fn extend_tail(&mut self, n: usize)
        requires
            old(self)@.wf(),
            old(self)@.alloc.used + n <= old(self)@.alloc.capacity(),
        ensures
            final(self)@ == (StackModel {
                alloc: AllocModel { used: old(self)@.alloc.used + n, ..old(self)@.alloc },
                ..old(self)@
            }),
            final(self)@.wf(),
            forall|sl0: SliceModel|
                #[trigger] slice_live(old(self)@, sl0) ==> slice_live(final(self)@, sl0)
                    && bytes_of(final(self)@, sl0) == bytes_of(old(self)@, sl0),
    {
        self.alloc.bump(n);
        proof {
            assert(self@ =~~= (StackModel {
                alloc: AllocModel { used: old(self)@.alloc.used + n, ..old(self)@.alloc },
                ..old(self)@
            }));
            assert forall|sl0: SliceModel| #[trigger] slice_live(old(self)@, sl0) implies slice_live(
                self@,
                sl0,
            ) && bytes_of(self@, sl0) == bytes_of(old(self)@, sl0) by {
                if sl0.arena {
                    if sl0.id == old(self)@.alloc.id {
                    } else {
                        model::lemma_orphan_block_same(old(self)@, self@, sl0.id);
                    }
                }
            }
        }
    }
}


/// Allocate an uninitialized scratch slice on an arena of the call's own
/// and hand it to `f`. A shared arena cannot be owned by verified code, so
/// this entry point serves each call from a fresh arena; a caller that
/// wants reuse across calls keeps a `Stack` of its own.
pub fn uninit_slice<R, F: FnOnce(Stack, Slice) -> (Stack, R)>(
    len: usize,
    size: usize,
    align: usize,
    f: F,
) -> (r: R)
    requires
        len * size <= MAX_ALLOC,
        1 <= align <= MAX_ALIGN,
        forall|s: Stack, sl: Slice|
            s@ == spec_acquire(StackModel::empty(), len as int, size as int, align as int).0 && sl@
                == spec_acquire(StackModel::empty(), len as int, size as int, align as int).1
                ==> #[trigger] call_requires(f, (s, sl)),
        forall|args: (Stack, Slice), out: (Stack, R)|
            #[trigger] call_ensures(f, args, out) ==> out.0@.wf(),
    ensures
        exists|s1: Stack, sl: Slice, s2: Stack|
            {
                &&& s1@ == spec_acquire(StackModel::empty(), len as int, size as int, align as int).0
                &&& sl@ == spec_acquire(StackModel::empty(), len as int, size as int, align as int).1
                &&& #[trigger] call_ensures(f, (s1, sl), (s2, r))
            },
{
    let stack = Stack::new();
    let (_after, out) = stack.uninit_slice(len, size, align, f);
    out
}

/// Scratch space for one value on an arena of the call's own.
pub fn uninit<R, F: FnOnce(Stack, Slice) -> (Stack, R)>(size: usize, align: usize, f: F) -> (r: R)
    requires
        size <= MAX_ALLOC,
        1 <= align <= MAX_ALIGN,
        forall|s: Stack, sl: Slice|
            s@ == spec_acquire(StackModel::empty(), 1, size as int, align as int).0 && sl@
                == spec_acquire(StackModel::empty(), 1, size as int, align as int).1
                ==> #[trigger] call_requires(f, (s, sl)),
        forall|args: (Stack, Slice), out: (Stack, R)|
            #[trigger] call_ensures(f, args, out) ==> out.0@.wf(),
    ensures
        exists|s1: Stack, sl: Slice, s2: Stack|
            {
                &&& s1@ == spec_acquire(StackModel::empty(), 1, size as int, align as int).0
                &&& sl@ == spec_acquire(StackModel::empty(), 1, size as int, align as int).1
                &&& #[trigger] call_ensures(f, (s1, sl), (s2, r))
            },
{
    uninit_slice(1, size, align, f)
}

/// Drain a byte source into contiguous scratch on an arena of the call's
/// own and hand the filled slice to `f`. A shared arena cannot be owned by
/// verified code, so this entry point serves each call from a fresh arena;
/// a caller that wants reuse across calls keeps a `Stack` of its own.
pub fn buffer<S: ByteSource, R, F: FnOnce(Stack, Slice) -> (Stack, R)>(src: S, f: F) -> (r: R)
    requires
        src.remaining().len() <= MAX_BUFFER,
        forall|s: Stack, sl: Slice|
            s@.wf() && slice_live(s@, sl@) && sl@.size == 1 && sl@.len == src.remaining().len()
                && bytes_of(s@, sl@) == src.remaining() ==> #[trigger] call_requires(f, (s, sl)),
        forall|args: (Stack, Slice), out: (Stack, R)|
            #[trigger] call_ensures(f, args, out) ==> out.0@.wf(),
    ensures
        exists|s1: Stack, sl: Slice, s2: Stack|
            {
                &&& s1@.wf()
                &&& slice_live(s1@, sl@)
                &&& sl@.size == 1
                &&& sl@.len == src.remaining().len()
                &&& bytes_of(s1@, sl@) == src.remaining()
                &&& #[trigger] call_ensures(f, (s1, sl), (s2, r))
            },
{
    let stack = Stack::new();
    let (_after, out) = stack.buffer(src, f);
    out
}

impl Stack {
    /// Capacity of the live backing allocation, in bytes.
    pub fn current_capacity(&self) -> (r: usize)
        ensures
            r == self@.alloc.capacity(),
    {
        self.alloc.capacity()
    }

    /// Bytes of the live backing allocation that are currently handed out.
    pub fn current_used(&self) -> (r: usize)
        ensures
            r == self@.alloc.used,
    {
        self.alloc.used()
    }

    /// Identity tag of the live backing allocation; zero when the arena
    /// owns no memory yet.
    pub fn current_id(&self) -> (r: usize)
        ensures
            r == self@.alloc.id,
    {
        self.alloc.id()
    }

    /// How many superseded allocations still await their chained teardown.
    pub fn orphan_count(&self) -> (r: usize)
        ensures
            r == self@.orphans.len(),
    {
        self.orphans.len()
    }

    /// How many degenerate-case buffers are currently held.
    pub fn side_count(&self) -> (r: usize)
        ensures
            r == self@.side.len(),
    {
        self.side.len()
    }

    /// The next identity tag the arena would give a fresh allocation. The
    /// entry points ask for headroom on this counter; it moves only when
    /// the arena grows.
    pub fn next_id(&self) -> (r: usize)
        ensures
            r == self@.next_id,
    {
        self.next_id
    }
}

/// Padding that moves offset `off` up to the next multiple of `align`.
fn align_pad_exec(off: usize, align: usize) -> (r: usize)
    requires
        1 <= align,
    ensures
        r as int == align_pad(off as int, align as int),
        r < align,
{
    let rem = off % align;
    if rem == 0 {
        0
    } else {
        align - rem
    }
}

/// Compute the replacement capacity of the growth policy: at least the
/// fixed minimum, at least double the superseded capacity, doubled until
/// `req` fits, capped at the largest allocation the policy makes.
fn grow_capacity(cap: usize, req: usize) -> (r: usize)
    requires
        cap <= MAX_BLOCK,
        req <= MAX_BLOCK,
    ensures
        r as int == new_capacity(cap as int, req as int),
        req <= r,
        MIN_BLOCK <= r <= MAX_BLOCK,
{
    proof {
        lemma_new_capacity(cap as int, req as int);
    }
    let mut v: usize = MIN_BLOCK;
    if cap * 2 > v {
        v = cap * 2;
    }
    let ghost start = v as int;
    proof {
        lemma_grow_from(start, req as int);
    }
    while v < req
        invariant
            1 <= v <= 2 * MAX_BLOCK,
            req <= MAX_BLOCK,
            grow_from(start, req as int) == grow_from(v as int, req as int),
        decreases 2 * (req as int) - v,
    {
        v = v * 2;
    }
    if v > MAX_BLOCK {
        MAX_BLOCK
    } else {
        v
    }
}

} // verus!
