//! Tests of the arena's guard-based protocol: acquisition, release,
//! nesting, growth, reuse, and the degenerate cases.

use second_stack::Stack;

/// A small deterministic pseudo-random generator for test data.
struct Lcg(u64);

impl Lcg {
    fn new(seed: u64) -> Lcg {
        Lcg(seed)
    }

    fn next(&mut self) -> u64 {
        self.0 = self
            .0
            .wrapping_mul(6364136223846793005)
            .wrapping_add(1442695040888963407);
        self.0 >> 16
    }

    fn next_byte(&mut self) -> u8 {
        (self.next() & 0xff) as u8
    }
}

fn write_u32(s: &mut Stack, sl: &second_stack::Slice, i: usize, v: u32) {
    let b = v.to_le_bytes();
    for k in 0..4 {
        s.write(sl, 4 * i + k, b[k]);
    }
}

fn read_u32(s: &Stack, sl: &second_stack::Slice, i: usize) -> u32 {
    let mut b = [0u8; 4];
    for k in 0..4 {
        b[k] = s.read(sl, 4 * i + k);
    }
    u32::from_le_bytes(b)
}

#[test]
fn write_then_read_roundtrip() {
    let mut s = Stack::new();
    let (sl, g) = s.acquire(100, 1, 1);
    assert_eq!(sl.len, 100);
    for i in 0..100 {
        s.write(&sl, i, (i * 3) as u8);
    }
    for i in 0..100 {
        assert_eq!(s.read(&sl, i), (i * 3) as u8);
    }
    s.release(g);
}

#[test]
fn nested_slices_never_alias() {
    let mut s = Stack::new();
    let (a, ga) = s.acquire(64, 1, 1);
    for i in 0..64 {
        s.write(&a, i, 0xAA);
    }
    let (b, gb) = s.acquire(64, 1, 1);
    // the handles describe ranges that cannot overlap
    assert!(
        a.in_arena != b.in_arena
            || a.id != b.id
            || a.start + a.len * a.size <= b.start
            || b.start + b.len * b.size <= a.start
    );
    for i in 0..64 {
        s.write(&b, i, 0x55);
    }
    for i in 0..64 {
        assert_eq!(s.read(&a, i), 0xAA);
        assert_eq!(s.read(&b, i), 0x55);
    }
    s.release(gb);
    for i in 0..64 {
        assert_eq!(s.read(&a, i), 0xAA);
    }
    s.release(ga);
}

#[test]
fn memory_reuse_same_range() {
    let mut s = Stack::new();
    let (a, ga) = s.acquire(1000, 4, 4);
    let (a_id, a_start) = (a.id, a.start);
    let cap_after_first = s.current_capacity();
    s.release(ga);
    // same request: the very same address range comes back, nothing grows
    let (b, gb) = s.acquire(1000, 4, 4);
    assert_eq!(b.id, a_id);
    assert_eq!(b.start, a_start);
    assert_eq!(s.current_capacity(), cap_after_first);
    s.release(gb);
    // a smaller request reuses the same range as well
    let (c, gc) = s.acquire(40, 4, 4);
    assert_eq!(c.id, a_id);
    assert_eq!(c.start, a_start);
    assert_eq!(s.current_capacity(), cap_after_first);
    s.release(gc);
}

#[test]
fn growth_policy_exact_capacities() {
    let mut s = Stack::new();
    assert_eq!(s.current_capacity(), 0);
    // 33 bytes cannot be served inline (33 elements > threshold) nor by the
    // empty allocation: the first block is the minimum 64 bytes
    let (_a, ga) = s.acquire(33, 1, 1);
    assert_eq!(s.current_capacity(), 64);
    assert_eq!(s.current_used(), 33);
    s.release(ga);
    assert_eq!(s.current_used(), 0);
    // a request beyond the current 64 bytes doubles until it fits
    let (_b, gb) = s.acquire(1000, 1, 1);
    assert_eq!(s.current_capacity(), 1024);
    // the empty 64-byte block was freed outright, not orphaned
    assert_eq!(s.orphan_count(), 0);
    s.release(gb);
}

#[test]
fn growth_under_live_slice_orphans_and_chained_teardown_frees() {
    let mut s = Stack::new();
    let (a, ga) = s.acquire(100, 1, 1);
    let first_id = a.id;
    for i in 0..100 {
        s.write(&a, i, i as u8);
    }
    assert_eq!(s.orphan_count(), 0);
    // growing while `a` is outstanding must keep its block alive
    let (b, gb) = s.acquire(5000, 1, 1);
    assert_ne!(b.id, first_id);
    assert_eq!(s.orphan_count(), 1);
    // the old bytes are still there, in the orphaned block
    for i in 0..100 {
        assert_eq!(s.read(&a, i), i as u8);
    }
    s.release(gb);
    // `a`'s guard is the earliest on the orphaned block: releasing it frees
    // the orphan
    assert_eq!(s.orphan_count(), 1);
    s.release(ga);
    assert_eq!(s.orphan_count(), 0);
}

#[test]
fn zero_sized_and_small_requests_leave_arena_alone() {
    let mut s = Stack::new();
    // zero-sized elements: any count, no arena involvement
    let (z, gz) = s.acquire(1000000, 0, 1);
    assert_eq!(z.len, 1000000);
    assert!(!z.in_arena);
    assert_eq!(s.current_capacity(), 0);
    assert_eq!(s.side_count(), 1);
    // a small request is served outside the arena too
    let (small, gsmall) = s.acquire(32, 1, 1);
    assert!(!small.in_arena);
    assert_eq!(s.side_count(), 2);
    assert_eq!(s.current_capacity(), 0);
    for i in 0..32 {
        s.write(&small, i, i as u8);
    }
    // a nested arena acquisition is undisturbed by the degenerate ones
    let (big, gbig) = s.acquire(500, 1, 1);
    assert!(big.in_arena);
    for i in 0..500 {
        s.write(&big, i, (i % 251) as u8);
    }
    for i in 0..32 {
        assert_eq!(s.read(&small, i), i as u8);
    }
    for i in 0..500 {
        assert_eq!(s.read(&big, i), (i % 251) as u8);
    }
    s.release(gbig);
    s.release(gsmall);
    s.release(gz);
    assert_eq!(s.side_count(), 0);
}

#[test]
fn zero_length_request_is_served() {
    let mut s = Stack::new();
    let (z, gz) = s.acquire(0, 8, 8);
    assert_eq!(z.len, 0);
    assert!(!z.in_arena);
    s.release(gz);
}

/// The concrete end-to-end scenario: a thousand 32-bit values survive fifty
/// nested scratch acquisitions of pseudo-random sizes.
#[test]
fn thousand_values_survive_nested_scratch() {
    let mut s = Stack::new();
    let (sl, g) = s.acquire(1000, 4, 4);
    assert_eq!(sl.len, 1000);
    assert_eq!(sl.start % 4, 0);
    for i in 0..1000 {
        write_u32(&mut s, &sl, i, (i as u32) * 7);
    }
    let mut rng = Lcg::new(7);
    for _ in 0..50 {
        let len = (rng.next() % 2049) as usize;
        let (inner, gi) = s.acquire(len, 1, 1);
        for i in 0..len {
            s.write(&inner, i, rng.next_byte());
        }
        for i in 0..len {
            let _ = s.read(&inner, i);
        }
        s.release(gi);
    }
    for i in 0..1000 {
        assert_eq!(read_u32(&s, &sl, i), (i as u32) * 7);
    }
    s.release(g);
}

/// Round-trip integrity across element sizes and alignments, for lengths
/// around the small-inline threshold and beyond.
#[test]
fn roundtrip_across_sizes_and_threshold() {
    let cases: &[(usize, usize)] = &[(1, 1), (2, 2), (4, 4), (6, 2)];
    let lens: &[usize] = &[0, 1, 31, 32, 33, 1024, 5000];
    for &(size, align) in cases {
        for &len in lens {
            let mut s = Stack::new();
            let (sl, g) = s.acquire(len, size, align);
            assert_eq!(sl.len, len);
            let bytes = len * size;
            let mut rng = Lcg::new((size * 1000 + len) as u64);
            for i in 0..bytes {
                s.write(&sl, i, rng.next_byte());
            }
            // nested use of the same arena in between
            let (inner, gi) = s.acquire(100, 1, 1);
            for i in 0..100 {
                s.write(&inner, i, 0xEE);
            }
            s.release(gi);
            let mut check = Lcg::new((size * 1000 + len) as u64);
            for i in 0..bytes {
                assert_eq!(s.read(&sl, i), check.next_byte());
            }
            s.release(g);
        }
    }
}

#[test]
fn alignment_is_respected() {
    let mut s = Stack::new();
    // provoke a 1024-byte block, then release it again
    let (_big, gbig) = s.acquire(1000, 1, 1);
    s.release(gbig);
    assert_eq!(s.current_capacity(), 1024);
    // the cursor now sits at 33; an 8-aligned acquisition rounds it up
    let (_pad, gp) = s.acquire(33, 1, 1);
    let (b, gb) = s.acquire(100, 8, 8);
    assert_eq!(b.start, 40);
    s.release(gb);
    s.release(gp);
}

#[test]
fn release_out_of_order_is_ignored_for_unknown_guard() {
    // a guard from one arena presented to another names no allocation
    // there; the arena is left untouched
    let mut s1 = Stack::new();
    let mut s2 = Stack::new();
    let (_a, ga) = s1.acquire(100, 1, 1);
    let used_before = s2.current_used();
    let cap_before = s2.current_capacity();
    s2.release(ga);
    assert_eq!(s2.current_used(), used_before);
    assert_eq!(s2.current_capacity(), cap_before);
}
