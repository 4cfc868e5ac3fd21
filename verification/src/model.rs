//! Mathematical model of the arena: allocations, the arena state, the
//! transitions that the executable operations are proved to follow, and the
//! predicates (well-formedness, liveness, disjointness) the contracts use.

use vstd::prelude::*;

verus! {

/// Smallest backing allocation the growth policy will make, in bytes.
pub const MIN_BLOCK: usize = 64;

/// Largest backing allocation the growth policy will make, in bytes.
/// Requests that cannot be served under this cap are outside the
/// operations' preconditions.
pub const MAX_BLOCK: usize = 0x4000_0000;

/// Largest number of payload bytes (`len * size`) a single acquisition may ask for.
pub const MAX_ALLOC: usize = 0x1000_0000;

/// Largest alignment an acquisition may ask for.
pub const MAX_ALIGN: usize = 4096;

/// Largest number of bytes one `buffer` call may drain from its source:
/// the doubling of the in-progress buffer stays within one acquisition's
/// bounds.
pub const MAX_BUFFER: usize = 0x0800_0000;

/// Element counts at or below this threshold are served outside the arena,
/// from a buffer of their own, as are zero-sized elements.
pub const SMALL_LEN: usize = 32;

/// Model of one backing allocation: an identity tag, the bump cursor, and
/// the bytes it owns (its capacity is `data.len()`).
#[verifier::ext_equal]
pub ghost struct AllocModel {
    pub id: int,
    pub used: int,
    pub data: Seq<u8>,
}

impl AllocModel {
    /// The allocation that owns no memory.
    pub open spec fn null() -> AllocModel {
        AllocModel { id: 0, used: 0, data: Seq::empty() }
    }

    pub open spec fn capacity(self) -> int {
        self.data.len() as int
    }

    pub open spec fn remaining(self) -> int {
        self.capacity() - self.used
    }

    /// Well-formed allocation: the cursor stays inside the owned bytes, the
    /// capacity respects the growth policy's bounds, and the identity tag is
    /// zero exactly for the null allocation.
    pub open spec fn wf(self) -> bool {
        &&& 0 <= self.used <= self.capacity() <= MAX_BLOCK
        &&& (self.id == 0 <==> self.capacity() == 0)
        &&& self.id >= 0
        &&& (self.id != 0 ==> MIN_BLOCK <= self.capacity())
    }
}

/// `n` zero bytes: the contents of a fresh allocation.
pub open spec fn zeros(n: int) -> Seq<u8> {
    Seq::new(n as nat, |i: int| 0u8)
}

/// Model of an acquired slice: which storage it lives in (one identified
/// arena allocation, or one degenerate-case buffer of its own), where it
/// starts, and its element count and element size in bytes.
#[verifier::ext_equal]
pub ghost struct SliceModel {
    pub arena: bool,
    pub id: int,
    pub start: int,
    pub len: int,
    pub size: int,
}

impl SliceModel {
    /// Payload bytes covered by the slice.
    pub open spec fn bytes(self) -> int {
        self.len * self.size
    }

    pub open spec fn end(self) -> int {
        self.start + self.bytes()
    }
}

/// Model of a restore guard: the identity of the allocation it was snapshot
/// from and the cursor value immediately before its slice was carved out.
/// A guard for a degenerate-case buffer records the buffer's slot instead.
#[verifier::ext_equal]
pub ghost struct RestoreModel {
    pub arena: bool,
    pub id: int,
    pub saved: int,
}

/// Model of the whole arena: the live allocation, the orphaned allocations
/// that growth superseded while slices were still outstanding, the
/// degenerate-case buffers, and the identity counter.
#[verifier::ext_equal]
pub ghost struct StackModel {
    pub alloc: AllocModel,
    pub orphans: Seq<AllocModel>,
    pub side: Seq<Seq<u8>>,
    pub next_id: int,
}

impl StackModel {
    /// The state of a freshly created arena: nothing allocated.
    pub open spec fn empty() -> StackModel {
        StackModel { alloc: AllocModel::null(), orphans: Seq::empty(), side: Seq::empty(), next_id: 1 }
    }

    /// Arena well-formedness: the live allocation and every orphan are
    /// well-formed, orphans still carry outstanding bytes (that is why they
    /// were not freed), and identity tags are distinct and below the counter.
    pub open spec fn wf(self) -> bool {
        &&& self.alloc.wf()
        &&& 1 <= self.next_id
        &&& self.alloc.id < self.next_id
        &&& forall|j: int|
            0 <= j < self.orphans.len() ==> (#[trigger] self.orphans[j]).wf()
                && 1 <= self.orphans[j].used && 1 <= self.orphans[j].id < self.next_id
                && self.orphans[j].id != self.alloc.id
        &&& forall|j: int, k: int|
            0 <= j < self.orphans.len() && 0 <= k < self.orphans.len() && j != k
                ==> #[trigger] self.orphans[j].id != #[trigger] self.orphans[k].id
        &&& forall|j: int| 0 <= j < self.side.len() ==> (#[trigger] self.side[j]).len() <= MAX_ALLOC
    }

    /// Whether some owned allocation (live or orphaned) carries this tag.
    pub open spec fn has_block(self, id: int) -> bool {
        self.alloc.id == id || exists|j: int|
            0 <= j < self.orphans.len() && (#[trigger] self.orphans[j]).id == id
    }

    /// The index of the orphan carrying this tag.
    pub open spec fn orphan_index(self, id: int) -> int {
        choose|j: int| 0 <= j < self.orphans.len() && (#[trigger] self.orphans[j]).id == id
    }

    /// The owned allocation carrying this tag.
    pub open spec fn block_of(self, id: int) -> AllocModel {
        if self.alloc.id == id {
            self.alloc
        } else {
            self.orphans[self.orphan_index(id)]
        }
    }

    /// Bytes currently owned by the arena, across the live allocation and
    /// every orphan. Degenerate-case buffers live outside the arena and are
    /// not counted.
    pub open spec fn owned_bytes(self) -> int {
        self.alloc.capacity() + caps_sum(self.orphans)
    }
}

/// Sum of the capacities of a sequence of allocations.
pub open spec fn caps_sum(s: Seq<AllocModel>) -> int
    decreases s.len(),
{
    if s.len() == 0 {
        0
    } else {
        s[0].capacity() + caps_sum(s.drop_first())
    }
}

/// A slice is live when its whole byte range still lies under the cursor of
/// the allocation it was carved from (or when its own degenerate-case buffer
/// is still held). Everything a caller may still read or write is live.
pub open spec fn slice_live(m: StackModel, sl: SliceModel) -> bool {
    &&& sl.start >= 0 && sl.len >= 0 && sl.size >= 0
    &&& if sl.arena {
        &&& sl.size >= 1 && sl.len >= 1
        &&& m.has_block(sl.id)
        &&& sl.end() <= m.block_of(sl.id).used
    } else {
        &&& 0 <= sl.id < m.side.len()
        &&& sl.end() <= m.side[sl.id].len()
    }
}

/// The bytes a slice currently holds.
pub open spec fn bytes_of(m: StackModel, sl: SliceModel) -> Seq<u8> {
    if sl.arena {
        m.block_of(sl.id).data.subrange(sl.start, sl.end())
    } else {
        m.side[sl.id].subrange(sl.start, sl.end())
    }
}

/// Two slices that can never address a common byte.
pub open spec fn disjoint(a: SliceModel, b: SliceModel) -> bool {
    ||| a.arena != b.arena
    ||| a.id != b.id
    ||| a.end() <= b.start
    ||| b.end() <= a.start
}

/// Padding needed to move offset `off` up to a multiple of `align`.
pub open spec fn align_pad(off: int, align: int) -> int {
    if off % align == 0 {
        0
    } else {
        align - off % align
    }
}

/// The growth policy's doubling loop: double `v` until it covers `req`.
pub open spec fn grow_from(v: int, req: int) -> int
    decreases 2 * req - v when 1 <= v
{
    if v < 1 {
        1
    } else if v >= req {
        v
    } else {
        grow_from(2 * v, req)
    }
}

/// Capacity of the replacement allocation: at least the fixed minimum, at
/// least double the superseded allocation, doubled until the request fits,
/// and capped at the largest allocation the policy will make.
pub open spec fn new_capacity(cap: int, req: int) -> int {
    let start = if 2 * cap > MIN_BLOCK { 2 * cap } else { MIN_BLOCK as int };
    let grown = grow_from(start, req);
    if grown > MAX_BLOCK {
        MAX_BLOCK as int
    } else {
        grown
    }
}

/// Growth transition: when the live allocation cannot serve `req` more
/// bytes, replace it wholesale with a fresh one. The superseded allocation
/// is freed at once if nothing is carved out of it, and otherwise becomes an
/// orphan for a later restore guard to reclaim.
pub open spec fn spec_ensure_capacity(m: StackModel, req: int) -> StackModel {
    if m.alloc.remaining() >= req {
        m
    } else {
        let fresh = AllocModel {
            id: m.next_id,
            used: 0,
            data: zeros(new_capacity(m.alloc.capacity(), req)),
        };
        if m.alloc.used == 0 {
            StackModel { alloc: fresh, next_id: m.next_id + 1, ..m }
        } else {
            StackModel {
                alloc: fresh,
                orphans: m.orphans.push(m.alloc),
                next_id: m.next_id + 1,
                ..m
            }
        }
    }
}

/// Arena acquisition: grow if needed, snapshot the guard, align the cursor
/// forward, and carve the slice by bumping the cursor past it.
pub open spec fn spec_get_slice(m: StackModel, len: int, size: int, align: int) -> (
    StackModel,
    SliceModel,
    RestoreModel,
) {
    let bytes = len * size;
    let req = (align - 1) + bytes;
    let m1 = spec_ensure_capacity(m, req);
    let g = RestoreModel { arena: true, id: m1.alloc.id, saved: m1.alloc.used };
    let start = m1.alloc.used + align_pad(m1.alloc.used, align);
    let m2 = StackModel {
        alloc: AllocModel { used: start + bytes, ..m1.alloc },
        ..m1
    };
    (m2, SliceModel { arena: true, id: m1.alloc.id, start, len, size }, g)
}

/// Front-end acquisition: zero-sized elements and small element counts are
/// served from a buffer of their own, outside the arena; everything else
/// goes to the arena.
pub open spec fn spec_acquire(m: StackModel, len: int, size: int, align: int) -> (
    StackModel,
    SliceModel,
    RestoreModel,
) {
    if size == 0 || len <= SMALL_LEN {
        let m2 = StackModel { side: m.side.push(zeros(len * size)), ..m };
        (
            m2,
            SliceModel { arena: false, id: m.side.len() as int, start: 0, len, size },
            RestoreModel { arena: false, id: m.side.len() as int, saved: 0 },
        )
    } else {
        spec_get_slice(m, len, size, align)
    }
}

/// Guard release: rewind the live allocation when the guard still owns it;
/// otherwise the guard's allocation was superseded, and the guard frees it
/// exactly when its snapshot shows no earlier acquisition on that
/// allocation. A guard for a degenerate-case buffer returns that buffer.
/// States that honest, reverse-order release can never present are left
/// untouched.
pub open spec fn spec_release(m: StackModel, g: RestoreModel) -> StackModel {
    if !g.arena {
        if 0 <= g.id && g.id + 1 == m.side.len() {
            StackModel { side: m.side.drop_last(), ..m }
        } else {
            m
        }
    } else if m.alloc.id == g.id {
        if 0 <= g.saved <= m.alloc.used {
            StackModel { alloc: AllocModel { used: g.saved, ..m.alloc }, ..m }
        } else {
            m
        }
    } else if g.saved == 0 && m.has_block(g.id) {
        StackModel { orphans: m.orphans.remove(m.orphan_index(g.id)), ..m }
    } else {
        m
    }
}

/// What the doubling loop guarantees: it covers the request, never shrinks,
/// and overshoots the request by less than a factor of two.
pub proof fn lemma_grow_from(v: int, req: int)
    requires
        1 <= v,
    ensures
        grow_from(v, req) >= v,
        grow_from(v, req) >= req,
        v < req ==> grow_from(v, req) < 2 * req,
        v >= req ==> grow_from(v, req) == v,
    decreases 2 * req - v,
{
    if v >= req {
    } else {
        lemma_grow_from(2 * v, req);
    }
}

/// The replacement capacity serves the request and stays within the
/// policy's bounds.
pub proof fn lemma_new_capacity(cap: int, req: int)
    requires
        0 <= cap <= MAX_BLOCK,
        0 <= req <= MAX_BLOCK,
    ensures
        req <= new_capacity(cap, req) <= MAX_BLOCK,
        MIN_BLOCK <= new_capacity(cap, req),
{
    let start = if 2 * cap > MIN_BLOCK {
        2 * cap
    } else {
        MIN_BLOCK as int
    };
    lemma_grow_from(start, req);
}

/// Growth preserves well-formedness, serves the request, keeps every live
/// slice live with its bytes intact, and touches neither the
/// degenerate-case buffers nor the bytes of any allocation it keeps.
pub proof fn lemma_ensure_capacity(m: StackModel, req: int)
    requires
        m.wf(),
        0 <= req <= MAX_BLOCK,
    ensures
        spec_ensure_capacity(m, req).wf(),
        spec_ensure_capacity(m, req).alloc.remaining() >= req,
        spec_ensure_capacity(m, req).side == m.side,
        spec_ensure_capacity(m, req).next_id >= m.next_id,
        m.alloc.remaining() >= req ==> spec_ensure_capacity(m, req) == m,
        m.alloc.remaining() < req ==> spec_ensure_capacity(m, req).alloc.used == 0
            && spec_ensure_capacity(m, req).alloc.id == m.next_id,
        forall|sl0: SliceModel|
            #[trigger] slice_live(m, sl0) ==> slice_live(spec_ensure_capacity(m, req), sl0)
                && bytes_of(spec_ensure_capacity(m, req), sl0) == bytes_of(m, sl0) && (sl0.arena
                ==> sl0.id != spec_ensure_capacity(m, req).alloc.id || sl0.end()
                <= spec_ensure_capacity(m, req).alloc.used),
        m.owned_bytes() <= spec_ensure_capacity(m, req).owned_bytes() <= m.owned_bytes()
            + new_capacity(m.alloc.capacity(), req),
{
    let m2 = spec_ensure_capacity(m, req);
    if m.alloc.remaining() >= req {
        assert(m.owned_bytes() <= m2.owned_bytes()) by {
            lemma_new_capacity(m.alloc.capacity(), req);
        }
    } else {
        lemma_new_capacity(m.alloc.capacity(), req);
        assert(m2.alloc.wf());
        assert forall|j: int| 0 <= j < m2.orphans.len() implies (#[trigger] m2.orphans[j]).wf()
            && 1 <= m2.orphans[j].used && 1 <= m2.orphans[j].id < m2.next_id
            && m2.orphans[j].id != m2.alloc.id by {
            if m.alloc.used != 0 && j == m2.orphans.len() - 1 {
                assert(m2.orphans[j] == m.alloc);
                assert(m.alloc.used >= 1);
                assert(m.alloc.id >= 1) by {
                    assert(m.alloc.capacity() > 0);
                }
            }
        }
        assert(m2.wf());
        assert forall|sl0: SliceModel| #[trigger] slice_live(m, sl0) implies slice_live(m2, sl0)
            && bytes_of(m2, sl0) == bytes_of(m, sl0) && (sl0.arena ==> sl0.id != m2.alloc.id
            || sl0.end() <= m2.alloc.used) by {
            if sl0.arena {
                let b = m.block_of(sl0.id);
                assert(sl0.end() <= b.used);
                if sl0.id == m.alloc.id {
                    // the superseded allocation carries outstanding bytes,
                    // so it was kept as the newest orphan
                    assert(b == m.alloc);
                    assert(sl0.len * sl0.size >= 1) by (nonlinear_arith)
                        requires
                            sl0.len >= 1,
                            sl0.size >= 1,
                    ;
                    assert(m.alloc.used >= sl0.end() >= 1);
                    let k = m2.orphans.len() - 1;
                    assert(m2.orphans[k] == m.alloc);
                    assert(m2.has_block(sl0.id));
                    let j = m2.orphan_index(sl0.id);
                    assert(0 <= j < m2.orphans.len() && m2.orphans[j].id == sl0.id);
                    assert(j == k);
                    assert(m2.block_of(sl0.id) == m.alloc);
                } else {
                    let j = m.orphan_index(sl0.id);
                    assert(0 <= j < m.orphans.len() && m.orphans[j].id == sl0.id);
                    assert(m2.orphans[j] == m.orphans[j]);
                    assert(m2.has_block(sl0.id));
                    let j2 = m2.orphan_index(sl0.id);
                    assert(0 <= j2 < m2.orphans.len() && m2.orphans[j2].id == sl0.id);
                    assert(j2 == j || m2.orphans[j2].id != m2.orphans[j].id);
                    assert(m2.block_of(sl0.id) == m.orphans[j]);
                    assert(m.block_of(sl0.id) == m.orphans[j]);
                }
                assert(sl0.id < m.next_id);
            }
        }
        assert(m2.owned_bytes() <= m.owned_bytes() + new_capacity(m.alloc.capacity(), req)) by {
            if m.alloc.used != 0 {
                lemma_caps_sum_push(m.orphans, m.alloc);
            }
        }
        assert(m.owned_bytes() <= m2.owned_bytes()) by {
            if m.alloc.used != 0 {
                lemma_caps_sum_push(m.orphans, m.alloc);
            }
        }
    }
}

/// What one arena acquisition guarantees: the new slice is live, aligned,
/// and disjoint from every slice that was live before, every such slice
/// stays live with its bytes intact, and the arena grows only when the
/// request did not fit.
pub proof fn lemma_get_slice(m: StackModel, len: int, size: int, align: int)
    requires
        m.wf(),
        1 <= size,
        1 <= len,
        len * size <= MAX_ALLOC,
        1 <= align <= MAX_ALIGN,
    ensures
        ({
            let (m2, sl, g) = spec_get_slice(m, len, size, align);
            &&& m2.wf()
            &&& slice_live(m2, sl)
            &&& sl.arena && sl.len == len && sl.size == size
            &&& sl.start % align == 0
            &&& sl.id == m2.alloc.id && sl.end() == m2.alloc.used
            &&& g.arena && g.id == sl.id && 0 <= g.saved <= sl.start
            &&& m2.side == m.side
            &&& m2.orphans.len() >= m.orphans.len()
            &&& m2.next_id >= m.next_id
            &&& bytes_of(m2, sl).len() == len * size
            &&& forall|sl0: SliceModel|
                #[trigger] slice_live(m, sl0) ==> slice_live(m2, sl0)
                    && bytes_of(m2, sl0) == bytes_of(m, sl0) && disjoint(sl0, sl)
            &&& m.alloc.remaining() >= (align - 1) + len * size ==> (m2.alloc.id == m.alloc.id
                && m2.orphans == m.orphans && m2.next_id == m.next_id
                && m2.owned_bytes() == m.owned_bytes() && g.saved == m.alloc.used)
            &&& m.owned_bytes() <= m2.owned_bytes() <= m.owned_bytes()
                + new_capacity(m.alloc.capacity(), (align - 1) + len * size)
        }),
{
    assert(len * size >= 1) by (nonlinear_arith)
        requires
            len >= 1,
            size >= 1,
    ;
    let bytes = len * size;
    let req = (align - 1) + bytes;
    lemma_ensure_capacity(m, req);
    let m1 = spec_ensure_capacity(m, req);
    let used = m1.alloc.used;
    assert(0 <= used % align < align) by (nonlinear_arith)
        requires
            align >= 1,
            used >= 0,
    ;
    let pad = align_pad(used, align);
    let start = used + pad;
    let r0 = used % align;
    if r0 != 0 {
        vstd::arithmetic::div_mod::lemma_fundamental_div_mod(used, align);
        let q = used / align;
        assert(align * q + align == align * (q + 1)) by (nonlinear_arith);
        assert(start == align * (used / align + 1));
        vstd::arithmetic::div_mod::lemma_mod_multiples_basic(used / align + 1, align);
        assert(align * (q + 1) == (q + 1) * align) by (nonlinear_arith);
        assert(start % align == 0);
    }
    assert(start % align == 0);
    assert(pad + bytes <= req);
    let (m2, sl, g) = spec_get_slice(m, len, size, align);
    assert(m2.alloc.used == start + bytes <= m1.alloc.capacity());
    assert(m2.wf());
    assert(m2.has_block(sl.id));
    assert(m2.block_of(sl.id) == m2.alloc);
    assert(slice_live(m2, sl));
    assert forall|sl0: SliceModel| #[trigger] slice_live(m, sl0) implies slice_live(m2, sl0)
        && bytes_of(m2, sl0) == bytes_of(m, sl0) && disjoint(sl0, sl) by {
        assert(slice_live(m1, sl0));
        if sl0.arena {
            if sl0.id == m1.alloc.id {
                assert(sl0.end() <= m1.alloc.used);
                assert(m1.block_of(sl0.id) == m1.alloc);
                assert(m2.block_of(sl0.id) == m2.alloc);
                assert(bytes_of(m2, sl0) == bytes_of(m1, sl0));
            } else {
                assert(m1.alloc.id != sl0.id && m2.alloc.id != sl0.id);
                let j = m1.orphan_index(sl0.id);
                assert(0 <= j < m1.orphans.len() && m1.orphans[j].id == sl0.id);
                assert(m2.block_of(sl0.id) == m1.block_of(sl0.id));
            }
        }
    }
}

/// Two arena states of the same shape: same allocations, cursors and
/// capacities everywhere, differing at most in the bytes they hold.
pub open spec fn same_shape(m: StackModel, m2: StackModel) -> bool {
    &&& m2.next_id == m.next_id
    &&& m2.alloc.id == m.alloc.id && m2.alloc.used == m.alloc.used && m2.alloc.capacity()
        == m.alloc.capacity()
    &&& m2.orphans.len() == m.orphans.len()
    &&& forall|j: int|
        0 <= j < m.orphans.len() ==> (#[trigger] m2.orphans[j]).id == (#[trigger] m.orphans[j]).id
            && m2.orphans[j].used == m.orphans[j].used && m2.orphans[j].capacity()
            == m.orphans[j].capacity()
    &&& m2.side.len() == m.side.len()
    &&& forall|j: int|
        0 <= j < m.side.len() ==> (#[trigger] m2.side[j]).len() == (#[trigger] m.side[j]).len()
}

/// Writing one byte through a slice: the byte at offset `i` of the slice's
/// range changes, in whichever storage the slice lives in.
pub open spec fn spec_write(m: StackModel, sl: SliceModel, i: int, v: u8) -> StackModel {
    if !sl.arena {
        StackModel { side: m.side.update(sl.id, m.side[sl.id].update(sl.start + i, v)), ..m }
    } else if m.alloc.id == sl.id {
        StackModel {
            alloc: AllocModel { data: m.alloc.data.update(sl.start + i, v), ..m.alloc },
            ..m
        }
    } else {
        let j = m.orphan_index(sl.id);
        StackModel {
            orphans: m.orphans.update(
                j,
                AllocModel { data: m.orphans[j].data.update(sl.start + i, v), ..m.orphans[j] },
            ),
            ..m
        }
    }
}

/// What one byte write guarantees: the written slice sees exactly its `i`th
/// byte change, every live slice stays live, and every live slice disjoint
/// from the written one keeps its bytes. This, together with acquisition
/// and release never touching the bytes of live slices, is what makes
/// scratch contents survive arbitrary nested use.
pub proof fn lemma_write(m: StackModel, sl: SliceModel, i: int, v: u8)
    requires
        m.wf(),
        slice_live(m, sl),
        0 <= i < sl.bytes(),
    ensures
        ({
            let m2 = spec_write(m, sl, i, v);
            &&& m2.wf()
            &&& same_shape(m, m2)
            &&& m2.owned_bytes() == m.owned_bytes()
            &&& bytes_of(m2, sl) == bytes_of(m, sl).update(i, v)
            &&& forall|sl0: SliceModel|
                #[trigger] slice_live(m, sl0) ==> slice_live(m2, sl0)
            &&& forall|sl0: SliceModel|
                #[trigger] slice_live(m, sl0) && disjoint(sl0, sl) ==> bytes_of(m2, sl0)
                    == bytes_of(m, sl0)
        }),
{
    let m2 = spec_write(m, sl, i, v);
    if !sl.arena {
        assert(m2.wf());
        assert(m2.owned_bytes() == m.owned_bytes());
        assert(bytes_of(m2, sl) =~= bytes_of(m, sl).update(i, v));
        assert forall|sl0: SliceModel| #[trigger] slice_live(m, sl0) implies slice_live(m2, sl0) by {
            if sl0.arena {
                if sl0.id == m.alloc.id {
                } else {
                    lemma_orphan_block_same(m, m2, sl0.id);
                }
            }
        }
        assert forall|sl0: SliceModel|
            #[trigger] slice_live(m, sl0) && disjoint(sl0, sl) implies bytes_of(m2, sl0)
            == bytes_of(m, sl0) by {
            if sl0.arena {
                if sl0.id == m.alloc.id {
                } else {
                    lemma_orphan_block_same(m, m2, sl0.id);
                }
            } else {
                if sl0.id != sl.id {
                    assert(m2.side[sl0.id] == m.side[sl0.id]);
                } else {
                    assert(bytes_of(m2, sl0) =~= bytes_of(m, sl0));
                }
            }
        }
    } else if m.alloc.id == sl.id {
        assert(m.block_of(sl.id) == m.alloc);
        assert(m2.block_of(sl.id) == m2.alloc);
        assert(m2.wf());
        assert(m2.owned_bytes() == m.owned_bytes());
        assert(bytes_of(m2, sl) =~= bytes_of(m, sl).update(i, v));
        assert forall|sl0: SliceModel| #[trigger] slice_live(m, sl0) implies slice_live(m2, sl0) by {
            if sl0.arena && sl0.id != sl.id {
                lemma_orphan_block_same(m, m2, sl0.id);
            }
        }
        assert forall|sl0: SliceModel|
            #[trigger] slice_live(m, sl0) && disjoint(sl0, sl) implies bytes_of(m2, sl0)
            == bytes_of(m, sl0) by {
            if sl0.arena {
                if sl0.id == sl.id {
                    // disjoint ranges on the written allocation
                    assert(bytes_of(m2, sl0) =~= bytes_of(m, sl0));
                } else {
                    lemma_orphan_block_same(m, m2, sl0.id);
                }
            }
        }
    } else {
        let j = m.orphan_index(sl.id);
        assert(0 <= j < m.orphans.len() && m.orphans[j].id == sl.id);
        assert forall|k: int| 0 <= k < m2.orphans.len() implies (#[trigger] m2.orphans[k]).wf()
            && 1 <= m2.orphans[k].used && 1 <= m2.orphans[k].id < m2.next_id
            && m2.orphans[k].id != m2.alloc.id by {
            if k != j {
                assert(m2.orphans[k] == m.orphans[k]);
            }
        }
        assert(m2.wf());
        assert(m2.owned_bytes() == m.owned_bytes()) by {
            lemma_caps_sum_same_shape(m.orphans, m2.orphans);
        }
        assert(m2.orphans[j].id == sl.id);
        assert(m2.has_block(sl.id));
        let j2 = m2.orphan_index(sl.id);
        assert(0 <= j2 < m2.orphans.len() && m2.orphans[j2].id == sl.id);
        if j2 != j {
            assert(m2.orphans[j2].id != m2.orphans[j].id);
        }
        assert(m2.block_of(sl.id) == m2.orphans[j]);
        assert(bytes_of(m2, sl) =~= bytes_of(m, sl).update(i, v));
        assert forall|sl0: SliceModel| #[trigger] slice_live(m, sl0) implies slice_live(m2, sl0) by {
            if sl0.arena && sl0.id != sl.id && sl0.id != m.alloc.id {
                let k = m.orphan_index(sl0.id);
                assert(0 <= k < m.orphans.len() && m.orphans[k].id == sl0.id);
                assert(k != j);
                assert(m2.orphans[k] == m.orphans[k]);
                assert(m2.has_block(sl0.id));
                let k2 = m2.orphan_index(sl0.id);
                assert(0 <= k2 < m2.orphans.len() && m2.orphans[k2].id == sl0.id);
                if k2 != k {
                    assert(m2.orphans[k2].id != m2.orphans[k].id);
                }
                assert(m2.block_of(sl0.id) == m.block_of(sl0.id));
            } else if sl0.arena && sl0.id == sl.id {
                assert(m2.block_of(sl0.id) == m2.orphans[j]);
                assert(m2.orphans[j].used == m.orphans[j].used);
            }
        }
        assert forall|sl0: SliceModel|
            #[trigger] slice_live(m, sl0) && disjoint(sl0, sl) implies bytes_of(m2, sl0)
            == bytes_of(m, sl0) by {
            if sl0.arena {
                if sl0.id == sl.id {
                    assert(m2.block_of(sl0.id) == m2.orphans[j]);
                    assert(bytes_of(m2, sl0) =~= bytes_of(m, sl0));
                } else if sl0.id == m.alloc.id {
                } else {
                    let k = m.orphan_index(sl0.id);
                    assert(0 <= k < m.orphans.len() && m.orphans[k].id == sl0.id);
                    assert(k != j);
                    assert(m2.orphans[k] == m.orphans[k]);
                    assert(m2.has_block(sl0.id));
                    let k2 = m2.orphan_index(sl0.id);
                    assert(0 <= k2 < m2.orphans.len() && m2.orphans[k2].id == sl0.id);
                    if k2 != k {
                        assert(m2.orphans[k2].id != m2.orphans[k].id);
                    }
                    assert(m2.block_of(sl0.id) == m.block_of(sl0.id));
                }
            }
        }
    }
}

/// Allocation sequences of equal capacities element by element have equal
/// capacity sums.
pub proof fn lemma_caps_sum_same_shape(s: Seq<AllocModel>, s2: Seq<AllocModel>)
    requires
        s.len() == s2.len(),
        forall|j: int|
            0 <= j < s.len() ==> (#[trigger] s[j]).capacity() == (#[trigger] s2[j]).capacity(),
    ensures
        caps_sum(s) == caps_sum(s2),
    decreases s.len(),
{
    if s.len() > 0 {
        assert(s.drop_first().len() == s2.drop_first().len());
        assert forall|j: int|
            0 <= j < s.drop_first().len() implies (#[trigger] s.drop_first()[j]).capacity()
            == (#[trigger] s2.drop_first()[j]).capacity() by {
            assert(s.drop_first()[j] == s[j + 1]);
            assert(s2.drop_first()[j] == s2[j + 1]);
        }
        lemma_caps_sum_same_shape(s.drop_first(), s2.drop_first());
    }
}

/// Looking an allocation up by its tag is unchanged between two states
/// that hold the same orphans, as long as the tag does not name either
/// live allocation.
pub proof fn lemma_orphan_block_same(m: StackModel, m2: StackModel, id: int)
    requires
        m.wf(),
        m2.orphans == m.orphans,
        m.alloc.id != id,
        m2.alloc.id != id,
        m.has_block(id),
    ensures
        m2.has_block(id),
        m2.block_of(id) == m.block_of(id),
{
    let j = m.orphan_index(id);
    assert(0 <= j < m.orphans.len() && m.orphans[j].id == id);
    assert(m2.has_block(id));
    let j2 = m2.orphan_index(id);
    assert(0 <= j2 < m2.orphans.len() && m2.orphans[j2].id == id);
    if j2 != j {
        assert(m.orphans[j2].id != m.orphans[j].id);
    }
}

/// Whether a slice had already been carved out when a guard's snapshot was
/// taken. Releasing the guard never touches such a slice: under the
/// required reverse-of-acquisition discipline this holds of exactly the
/// slices that are still in use when the guard is given back.
pub open spec fn acquired_before(sl: SliceModel, g: RestoreModel) -> bool {
    if g.arena {
        (sl.arena && sl.id == g.id) ==> sl.end() <= g.saved
    } else {
        (!sl.arena) ==> sl.id != g.id
    }
}

/// What the front-end acquisition guarantees, on either path: the new
/// slice is live, aligned, and disjoint from every slice that was live
/// before; every such slice stays live with its bytes intact; degenerate
/// requests leave the arena untouched; and the arena's owned memory grows
/// only when the request did not fit in the live allocation.
pub proof fn lemma_acquire(m: StackModel, len: int, size: int, align: int)
    requires
        m.wf(),
        0 <= size,
        0 <= len,
        len * size <= MAX_ALLOC,
        1 <= align <= MAX_ALIGN,
    ensures
        ({
            let (m2, sl, g) = spec_acquire(m, len, size, align);
            &&& m2.wf()
            &&& slice_live(m2, sl)
            &&& sl.len == len && sl.size == size
            &&& sl.start % align == 0
            &&& bytes_of(m2, sl).len() == len * size
            &&& sl.arena <==> (size >= 1 && len > SMALL_LEN)
            &&& g.arena == sl.arena && g.id == sl.id
            &&& forall|sl0: SliceModel|
                #[trigger] slice_live(m, sl0) ==> slice_live(m2, sl0)
                    && bytes_of(m2, sl0) == bytes_of(m, sl0) && disjoint(sl0, sl)
                    && acquired_before(sl0, g)
            &&& !sl.arena ==> m2.alloc == m.alloc && m2.orphans == m.orphans && m2.next_id
                == m.next_id && m2.side == m.side.push(zeros(len * size))
            &&& sl.arena ==> m2.side == m.side
            &&& m.alloc.remaining() >= (align - 1) + len * size ==> m2.owned_bytes()
                == m.owned_bytes()
            &&& m.owned_bytes() <= m2.owned_bytes() <= m.owned_bytes()
                + new_capacity(m.alloc.capacity(), (align - 1) + len * size)
        }),
{
    let (m2, sl, g) = spec_acquire(m, len, size, align);
    if size == 0 || len <= SMALL_LEN {
        assert(m2.side.last() =~= zeros(len * size));
        assert(bytes_of(m2, sl) == zeros(len * size));
        assert(slice_live(m2, sl));
        assert(m2.wf());
        assert forall|sl0: SliceModel| #[trigger] slice_live(m, sl0) implies slice_live(m2, sl0)
            && bytes_of(m2, sl0) == bytes_of(m, sl0) && disjoint(sl0, sl)
            && acquired_before(sl0, g) by {
            if !sl0.arena {
                assert(sl0.id < m.side.len());
                assert(m2.side[sl0.id] == m.side[sl0.id]);
            } else {
                if sl0.id == m.alloc.id {
                    assert(m2.block_of(sl0.id) == m.alloc);
                } else {
                    lemma_orphan_block_same(m, m2, sl0.id);
                }
            }
        }
        assert(0int % align == 0) by (nonlinear_arith)
            requires
                align >= 1,
        ;
        assert(sl.start % align == 0);
        assert(len * size >= 0) by (nonlinear_arith)
            requires
                len >= 0,
                size >= 0,
        ;
        lemma_new_capacity(m.alloc.capacity(), (align - 1) + len * size);
    } else {
        lemma_get_slice(m, len, size, align);
        assert forall|sl0: SliceModel| #[trigger] slice_live(m, sl0) implies acquired_before(
            sl0,
            g,
        ) by {
            if sl0.arena && sl0.id == g.id {
                let m1 = spec_ensure_capacity(m, (align - 1) + len * size);
                lemma_ensure_capacity(m, (align - 1) + len * size);
            }
        }
    }
}

/// What a guard release guarantees: it preserves well-formedness, it never
/// touches a slice that was carved out before the guard's snapshot, it
/// rewinds the cursor exactly to the snapshot when the guard's allocation
/// is still the live one, and it never grows the arena's owned memory.
pub proof fn lemma_release(m: StackModel, g: RestoreModel)
    requires
        m.wf(),
    ensures
        spec_release(m, g).wf(),
        spec_release(m, g).owned_bytes() <= m.owned_bytes(),
        g.arena && m.alloc.id == g.id && 0 <= g.saved <= m.alloc.used ==> spec_release(m, g).alloc
            == (AllocModel { used: g.saved, ..m.alloc }) && spec_release(m, g).orphans == m.orphans
            && spec_release(m, g).side == m.side,
        forall|sl0: SliceModel|
            #[trigger] slice_live(m, sl0) && acquired_before(sl0, g) ==> slice_live(
                spec_release(m, g),
                sl0,
            ) && bytes_of(spec_release(m, g), sl0) == bytes_of(m, sl0),
{
    let m2 = spec_release(m, g);
    if !g.arena {
        assert(m2.wf());
        assert(m2.owned_bytes() == m.owned_bytes());
        assert forall|sl0: SliceModel|
            #[trigger] slice_live(m, sl0) && acquired_before(sl0, g) implies slice_live(m2, sl0)
            && bytes_of(m2, sl0) == bytes_of(m, sl0) by {
            if !sl0.arena {
                assert(sl0.id != g.id);
                assert(sl0.id < m2.side.len());
                assert(m2.side[sl0.id] == m.side[sl0.id]);
            } else {
                if sl0.id == m.alloc.id {
                    assert(m2.block_of(sl0.id) == m.alloc);
                } else {
                    lemma_orphan_block_same(m, m2, sl0.id);
                }
            }
        }
    } else if m.alloc.id == g.id {
        assert(m2.wf());
        assert(m2.owned_bytes() == m.owned_bytes());
        assert forall|sl0: SliceModel|
            #[trigger] slice_live(m, sl0) && acquired_before(sl0, g) implies slice_live(m2, sl0)
            && bytes_of(m2, sl0) == bytes_of(m, sl0) by {
            if sl0.arena {
                if sl0.id == g.id {
                    assert(sl0.end() <= g.saved);
                    assert(m.block_of(sl0.id) == m.alloc);
                    assert(m2.block_of(sl0.id) == m2.alloc);
                } else {
                    lemma_orphan_block_same(m, m2, sl0.id);
                }
            }
        }
    } else if g.saved == 0 && m.has_block(g.id) {
        let j = m.orphan_index(g.id);
        assert(0 <= j < m.orphans.len() && m.orphans[j].id == g.id);
        lemma_caps_sum_remove(m.orphans, j);
        assert(m2.owned_bytes() <= m.owned_bytes());
        assert forall|k: int| 0 <= k < m2.orphans.len() implies (#[trigger] m2.orphans[k]).wf()
            && 1 <= m2.orphans[k].used && 1 <= m2.orphans[k].id < m2.next_id
            && m2.orphans[k].id != m2.alloc.id by {
            if k < j {
                assert(m2.orphans[k] == m.orphans[k]);
            } else {
                assert(m2.orphans[k] == m.orphans[k + 1]);
            }
        }
        assert forall|k: int, l: int|
            0 <= k < m2.orphans.len() && 0 <= l < m2.orphans.len() && k != l implies #[trigger] m2
            .orphans[k].id != #[trigger] m2.orphans[l].id by {
            let k0 = if k < j { k } else { k + 1 };
            let l0 = if l < j { l } else { l + 1 };
            assert(m2.orphans[k] == m.orphans[k0]);
            assert(m2.orphans[l] == m.orphans[l0]);
        }
        assert(m2.wf());
        assert forall|sl0: SliceModel|
            #[trigger] slice_live(m, sl0) && acquired_before(sl0, g) implies slice_live(m2, sl0)
            && bytes_of(m2, sl0) == bytes_of(m, sl0) by {
            if sl0.arena {
                assert(sl0.id != g.id) by {
                    if sl0.id == g.id {
                        assert(sl0.end() <= 0);
                        assert(sl0.len * sl0.size >= 1) by (nonlinear_arith)
                            requires
                                sl0.len >= 1,
                                sl0.size >= 1,
                        ;
                    }
                }
                if sl0.id == m.alloc.id {
                    assert(m2.block_of(sl0.id) == m.block_of(sl0.id));
                } else {
                    let j0 = m.orphan_index(sl0.id);
                    assert(0 <= j0 < m.orphans.len() && m.orphans[j0].id == sl0.id);
                    assert(j0 != j);
                    let j1: int = if j0 < j {
                        j0
                    } else {
                        j0 - 1
                    };
                    assert(m2.orphans[j1] == m.orphans[j0]);
                    assert(m2.has_block(sl0.id));
                    let j2 = m2.orphan_index(sl0.id);
                    assert(0 <= j2 < m2.orphans.len() && m2.orphans[j2].id == sl0.id);
                    assert(j2 == j1) by {
                        if j2 != j1 {
                            assert(m2.orphans[j2].id != m2.orphans[j1].id);
                        }
                    }
                    assert(m2.block_of(sl0.id) == m.block_of(sl0.id));
                }
            }
        }
    } else {
        assert(m2 == m);
    }
}

/// Removing an allocation subtracts exactly its capacity from the sum.
pub proof fn lemma_caps_sum_remove(s: Seq<AllocModel>, j: int)
    requires
        0 <= j < s.len(),
    ensures
        caps_sum(s.remove(j)) == caps_sum(s) - s[j].capacity(),
    decreases s.len(),
{
    if j == 0 {
        assert(s.remove(0) =~= s.drop_first());
    } else {
        let r = s.remove(j);
        assert(r.drop_first() =~= s.drop_first().remove(j - 1));
        assert(r[0] == s[0]);
        lemma_caps_sum_remove(s.drop_first(), j - 1);
        assert(caps_sum(r) == r[0].capacity() + caps_sum(r.drop_first()));
        assert(caps_sum(s) == s[0].capacity() + caps_sum(s.drop_first()));
    }
}

/// Appending an allocation adds exactly its capacity to the sum.
pub proof fn lemma_caps_sum_push(s: Seq<AllocModel>, a: AllocModel)
    ensures
        caps_sum(s.push(a)) == caps_sum(s) + a.capacity(),
    decreases s.len(),
{
    let p = s.push(a);
    if s.len() == 0 {
        assert(p.drop_first() =~= Seq::<AllocModel>::empty());
        assert(p[0] == a);
        assert(caps_sum(p.drop_first()) == 0);
        assert(caps_sum(p) == p[0].capacity() + caps_sum(p.drop_first()));
    } else {
        assert(p.drop_first() =~= s.drop_first().push(a));
        assert(p[0] == s[0]);
        lemma_caps_sum_push(s.drop_first(), a);
        assert(caps_sum(p) == p[0].capacity() + caps_sum(p.drop_first()));
    }
}

} // verus!
