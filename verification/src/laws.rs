//! The arena's governing laws, stated over the model and proved once and
//! for all: no aliasing between live slices, exact memory reuse after a
//! balanced acquire/release pair, the growth policy's bounds, and the
//! survival of a slice's bytes under arbitrary well-nested use of the
//! arena around it.

use vstd::prelude::*;

use crate::model::acquired_before;
use crate::model::bytes_of;
use crate::model::disjoint;
use crate::model::grow_from;
use crate::model::lemma_acquire;
use crate::model::lemma_ensure_capacity;
use crate::model::lemma_grow_from;
use crate::model::lemma_release;
use crate::model::lemma_write;
use crate::model::new_capacity;
use crate::model::slice_live;
use crate::model::spec_acquire;
use crate::model::spec_release;
use crate::model::spec_write;
use crate::model::RestoreModel;
use crate::model::SliceModel;
use crate::model::StackModel;
use crate::model::MAX_ALIGN;
use crate::model::MAX_ALLOC;
use crate::model::MAX_BLOCK;
use crate::model::MIN_BLOCK;

verus! {

/// No aliasing: a slice handed out by an acquisition never overlaps any
/// slice that is still live from the same arena, whatever sizes and
/// alignments are involved.
pub proof fn lemma_no_aliasing(m: StackModel, len: int, size: int, align: int, sl0: SliceModel)
    requires
        m.wf(),
        slice_live(m, sl0),
        0 <= size,
        0 <= len,
        len * size <= MAX_ALLOC,
        1 <= align <= MAX_ALIGN,
    ensures
        disjoint(sl0, spec_acquire(m, len, size, align).1),
        slice_live(spec_acquire(m, len, size, align).0, sl0),
        slice_live(spec_acquire(m, len, size, align).0, spec_acquire(m, len, size, align).1),
{
    lemma_acquire(m, len, size, align);
}

/// Memory reuse: an acquisition, a release of its guard, and an identical
/// acquisition land on exactly the same slice — the same allocation, at
/// the same offset — and leave the arena in the same state as the first
/// acquisition did. Nothing new is allocated the second time.
pub proof fn lemma_memory_reuse(m: StackModel, len: int, size: int, align: int)
    requires
        m.wf(),
        0 <= size,
        0 <= len,
        len * size <= MAX_ALLOC,
        1 <= align <= MAX_ALIGN,
    ensures
        ({
            let (m1, sl1, g1) = spec_acquire(m, len, size, align);
            let m2 = spec_release(m1, g1);
            let (m3, sl2, g2) = spec_acquire(m2, len, size, align);
            &&& sl2 == sl1
            &&& g2 == g1
            &&& m3 == m1
            &&& m2.owned_bytes() == m1.owned_bytes()
        }),
{
    lemma_acquire(m, len, size, align);
    let (m1, sl1, g1) = spec_acquire(m, len, size, align);
    lemma_release(m1, g1);
    let m2 = spec_release(m1, g1);
    if size == 0 || len <= crate::model::SMALL_LEN {
        assert(m2 =~~= m);
        assert(spec_acquire(m2, len, size, align).0 =~~= m1);
    } else {
        let bytes = len * size;
        let req = (align - 1) + bytes;
        lemma_ensure_capacity(m, req);
        let ma = crate::model::spec_ensure_capacity(m, req);
        assert(g1.id == ma.alloc.id && g1.saved == ma.alloc.used);
        assert(m1.alloc.id == g1.id);
        assert(g1.saved <= sl1.start <= m1.alloc.used);
        assert(m2 =~~= ma);
        lemma_ensure_capacity(m2, req);
        assert(crate::model::spec_ensure_capacity(m2, req) == m2);
        lemma_acquire(m2, len, size, align);
        let (m3, sl2, g2) = spec_acquire(m2, len, size, align);
        assert(sl2 =~= sl1);
        assert(g2 =~= g1);
        assert(m3 =~~= m1);
    }
}

/// Growth accounting: growing to serve `req` more bytes at least doubles
/// the superseded capacity, never overshoots the request by a factor of
/// two or more (beyond the fixed minimum), and stays within the policy's
/// largest allocation.
pub proof fn lemma_growth_policy(cap: int, req: int)
    requires
        0 <= cap <= MAX_BLOCK,
        0 <= req <= MAX_BLOCK,
    ensures
        req <= new_capacity(cap, req) <= MAX_BLOCK,
        MIN_BLOCK <= new_capacity(cap, req),
        2 * cap >= MIN_BLOCK && 2 * cap >= req && 2 * cap <= MAX_BLOCK ==> new_capacity(cap, req)
            == 2 * cap,
        req > 2 * cap && req > MIN_BLOCK ==> new_capacity(cap, req) < 2 * req,
{
    let start = if 2 * cap > MIN_BLOCK {
        2 * cap
    } else {
        MIN_BLOCK as int
    };
    lemma_grow_from(start, req);
}

/// One step of well-nested use of the arena around a live slice: a further
/// acquisition, a release of a guard snapshot taken before the slice was
/// carved out, or a write through a slice disjoint from it.
pub ghost enum ArenaOp {
    Acquire { len: int, size: int, align: int },
    Release { g: RestoreModel },
    Write { sl: SliceModel, i: int, v: u8 },
}

/// The state after one operation. An operation whose arguments the
/// executable counterpart would refuse leaves the state unchanged.
pub open spec fn apply_op(m: StackModel, op: ArenaOp) -> StackModel {
    match op {
        ArenaOp::Acquire { len, size, align } => {
            if 0 <= size && 0 <= len && len * size <= MAX_ALLOC && 1 <= align <= MAX_ALIGN {
                spec_acquire(m, len, size, align).0
            } else {
                m
            }
        },
        ArenaOp::Release { g } => spec_release(m, g),
        ArenaOp::Write { sl, i, v } => {
            if slice_live(m, sl) && 0 <= i < sl.bytes() {
                spec_write(m, sl, i, v)
            } else {
                m
            }
        },
    }
}

/// The state after a sequence of operations, applied front to back.
pub open spec fn apply_ops(m: StackModel, ops: Seq<ArenaOp>) -> StackModel
    decreases ops.len(),
{
    if ops.len() == 0 {
        m
    } else {
        apply_ops(apply_op(m, ops[0]), ops.drop_first())
    }
}

/// Whether one operation leaves a given slice alone: every acquisition
/// does; a release does when its guard was snapshot before the slice was
/// carved out; a write does when it goes through a disjoint slice. Under
/// the required reverse-of-acquisition discipline, everything the arena is
/// asked to do while a slice is in use — except writes into the slice
/// itself — is of this kind.
pub open spec fn op_respects(op: ArenaOp, sl: SliceModel) -> bool {
    match op {
        ArenaOp::Acquire { .. } => true,
        ArenaOp::Release { g } => acquired_before(sl, g),
        ArenaOp::Write { sl: sl2, .. } => disjoint(sl2, sl),
    }
}

/// Round-trip integrity: whatever well-nested use is made of the arena
/// while a slice is live — nested acquisitions of any sizes, their
/// releases, writes through other slices — the slice stays live and
/// re-reading it reproduces exactly the bytes it held.
pub proof fn lemma_round_trip(m: StackModel, sl: SliceModel, ops: Seq<ArenaOp>)
    requires
        m.wf(),
        slice_live(m, sl),
        forall|k: int| 0 <= k < ops.len() ==> op_respects(#[trigger] ops[k], sl),
    ensures
        apply_ops(m, ops).wf(),
        slice_live(apply_ops(m, ops), sl),
        bytes_of(apply_ops(m, ops), sl) == bytes_of(m, sl),
    decreases ops.len(),
{
    if ops.len() > 0 {
        let op = ops[0];
        let m1 = apply_op(m, op);
        assert(op_respects(op, sl));
        match op {
            ArenaOp::Acquire { len, size, align } => {
                if 0 <= size && 0 <= len && len * size <= MAX_ALLOC && 1 <= align <= MAX_ALIGN {
                    lemma_acquire(m, len, size, align);
                }
            },
            ArenaOp::Release { g } => {
                lemma_release(m, g);
            },
            ArenaOp::Write { sl: sl2, i, v } => {
                if slice_live(m, sl2) && 0 <= i < sl2.bytes() {
                    lemma_write(m, sl2, i, v);
                }
            },
        }
        assert(m1.wf() && slice_live(m1, sl) && bytes_of(m1, sl) == bytes_of(m, sl));
        assert forall|k: int| 0 <= k < ops.drop_first().len() implies op_respects(
            #[trigger] ops.drop_first()[k],
            sl,
        ) by {
            assert(ops.drop_first()[k] == ops[k + 1]);
        }
        lemma_round_trip(m1, sl, ops.drop_first());
    }
}

} // verus!
