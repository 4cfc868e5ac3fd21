//! Tests of the closure entry points, the iterator-buffering loop, and the
//! allocation layer underneath the arena.

use second_stack::source::VecSource;
use second_stack::stack;
use second_stack::Slice;
use second_stack::Stack;

#[test]
fn uninit_slice_runs_callback_once_with_right_length() {
    let mut calls = 0usize;
    let r = second_stack::uninit_slice(100, 1, 1, |mut s: Stack, sl: Slice| {
        calls += 1;
        assert_eq!(sl.len, 100);
        for i in 0..100 {
            s.write(&sl, i, (i * 2) as u8);
        }
        let mut sum = 0u32;
        for i in 0..100 {
            sum += s.read(&sl, i) as u32;
        }
        (s, sum)
    });
    assert_eq!(calls, 1);
    assert_eq!(r, (0..100u32).map(|i| i * 2).sum::<u32>());
}

#[test]
fn uninit_gives_one_element() {
    let r = second_stack::uninit(8, 8, |mut s: Stack, sl: Slice| {
        assert_eq!(sl.len, 1);
        assert_eq!(sl.size, 8);
        for i in 0..8 {
            s.write(&sl, i, 0x11 * (i as u8));
        }
        let v = s.read(&sl, 7);
        (s, v)
    });
    assert_eq!(r, 0x77);
}

#[test]
fn method_uninit_slice_releases_scratch() {
    let s = Stack::new();
    let (s, r) = s.uninit_slice(200, 1, 1, |mut s: Stack, sl: Slice| {
        for i in 0..200 {
            s.write(&sl, i, 9);
        }
        let last = s.read(&sl, 199);
        (s, last)
    });
    assert_eq!(r, 9);
    // the acquisition was fully released
    assert_eq!(s.current_used(), 0);
    assert_eq!(s.side_count(), 0);
}

#[test]
fn method_uninit_slice_nests() {
    let s = Stack::new();
    let (s, outer) = s.uninit_slice(64, 1, 1, |mut s: Stack, sl: Slice| {
        for i in 0..64 {
            s.write(&sl, i, 0xAB);
        }
        let (s, inner) = s.uninit_slice(64, 1, 1, |mut s: Stack, sl2: Slice| {
            for i in 0..64 {
                s.write(&sl2, i, 0xCD);
            }
            (s, 0xCDu8)
        });
        assert_eq!(inner, 0xCD);
        let mut ok = true;
        for i in 0..64 {
            ok = ok && s.read(&sl, i) == 0xAB;
        }
        (s, ok)
    });
    assert!(outer);
    assert_eq!(s.current_used(), 0);
}

#[test]
fn buffer_collects_source_in_order() {
    for n in [0usize, 5, 32, 33, 100, 1000] {
        let data: Vec<u8> = (0..n).map(|i| (i % 255) as u8).collect();
        let expected = data.clone();
        let src = VecSource::new(data);
        let got = second_stack::buffer(src, move |s: Stack, sl: Slice| {
            assert_eq!(sl.len, expected.len());
            let mut out = Vec::new();
            for i in 0..sl.len {
                out.push(s.read(&sl, i));
            }
            assert_eq!(out, expected);
            (s, out.len())
        });
        assert_eq!(got, n);
    }
}

#[test]
fn buffer_method_reuses_arena_afterwards() {
    let data: Vec<u8> = (0..500).map(|i| (i * 13 % 251) as u8).collect();
    let check = data.clone();
    let s = Stack::new();
    let (mut s, first) = s.buffer(VecSource::new(data), move |s: Stack, sl: Slice| {
        let mut v = Vec::new();
        for i in 0..sl.len {
            v.push(s.read(&sl, i));
        }
        assert_eq!(v, check);
        (s, sl.len)
    });
    assert_eq!(first, 500);
    // the buffering scratch was released; the arena serves new requests
    let (sl, g) = s.acquire(100, 1, 1);
    for i in 0..100 {
        s.write(&sl, i, 1);
    }
    assert_eq!(s.read(&sl, 99), 1);
    s.release(g);
    assert_eq!(s.current_used(), 0);
}

#[test]
fn buffer_empty_source_gives_empty_slice() {
    let src = VecSource::new(Vec::new());
    let len = second_stack::buffer(src, |s: Stack, sl: Slice| (s, sl.len));
    assert_eq!(len, 0);
}

#[test]
fn method_uninit_gives_one_element() {
    let s = Stack::new();
    let (s, v) = s.uninit(4, 4, |mut s: Stack, sl: Slice| {
        assert_eq!(sl.len, 1);
        assert_eq!(sl.size, 4);
        s.write(&sl, 3, 42);
        let v = s.read(&sl, 3);
        (s, v)
    });
    assert_eq!(v, 42);
    assert_eq!(s.side_count(), 0);
}

#[test]
fn slice_reports_lengths() {
    let mut s = Stack::new();
    let (sl, g) = s.acquire(50, 4, 4);
    assert_eq!(sl.length(), 50);
    assert_eq!(sl.byte_len(), 200);
    s.release(g);
}

#[test]
fn allocation_null_is_empty() {
    let a = stack::Stack::null();
    assert_eq!(a.id(), 0);
    assert_eq!(a.used(), 0);
    assert_eq!(a.capacity(), 0);
    assert_eq!(a.remaining_bytes(), 0);
}

#[test]
fn allocation_identity_and_accounting() {
    let a = stack::Stack::new(64, 1);
    let b = stack::Stack::new(64, 2);
    assert!(a.ref_eq(&a));
    assert!(!a.ref_eq(&b));
    assert_eq!(a.capacity(), 64);
    assert_eq!(a.remaining_bytes(), 64);
    let mut c = stack::Stack::new(128, 3);
    c.bump(100);
    assert_eq!(c.used(), 100);
    assert_eq!(c.remaining_bytes(), 28);
    c.set_used(10);
    assert_eq!(c.remaining_bytes(), 118);
}

#[test]
fn allocation_try_dealloc_only_when_unused() {
    let mut a = stack::Stack::new(64, 1);
    a.bump(1);
    a.try_dealloc();
    // still in use: nothing freed
    assert_eq!(a.capacity(), 64);
    assert_eq!(a.id(), 1);
    a.set_used(0);
    a.try_dealloc();
    assert_eq!(a.capacity(), 0);
    assert_eq!(a.id(), 0);
}

#[test]
fn allocation_force_dealloc_is_unconditional() {
    let mut a = stack::Stack::new(64, 5);
    a.bump(64);
    a.force_dealloc();
    assert_eq!(a.capacity(), 0);
    assert_eq!(a.used(), 0);
    assert_eq!(a.id(), 0);
}

#[test]
fn allocation_bytes_roundtrip() {
    let mut a = stack::Stack::new(64, 1);
    for i in 0..64 {
        a.write_byte(i, (255 - i) as u8);
    }
    for i in 0..64 {
        assert_eq!(a.read_byte(i), (255 - i) as u8);
    }
}
