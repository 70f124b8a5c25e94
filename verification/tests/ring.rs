use cbuffer::{BufferSize, CBuffer};

#[test]
fn cbuffer_raw_test_new() {
    let b = CBuffer::with_capacity(BufferSize::Buf128M).unwrap();
    assert_eq!(134217728usize, b.size());
    assert_eq!(0usize, b.used());
}

#[test]
fn cbuffer_raw_arc_test_new() {
    let b = CBuffer::with_capacity(BufferSize::Buf128M).unwrap();
    assert_eq!(134217728usize, b.size());
    assert_eq!(0usize, b.used());
}

#[test]
fn test_all_sizes_start_empty() {
    let sizes = [
        (BufferSize::Buf64M, 67108864usize),
        (BufferSize::Buf128M, 134217728usize),
        (BufferSize::Buf256M, 268435456usize),
        (BufferSize::Buf512M, 536870912usize),
    ];
    for (s, n) in sizes {
        let b = CBuffer::with_capacity(s).unwrap();
        assert_eq!(n, b.size());
        assert_eq!(0usize, b.used());
        assert_eq!(n, b.unused());
        assert!(b.is_empty());
    }
}

#[test]
fn test_push_pop_order() {
    let mut b = CBuffer::with_capacity(BufferSize::Buf128M).unwrap();
    assert!(b.push(b"12AB"));
    assert!(b.push(b"acefg"));
    assert_eq!(b.pop(), Some(b"12AB".to_vec()));
    assert_eq!(b.pop(), Some(b"acefg".to_vec()));
    assert!(b.is_empty());
}

#[test]
fn test_empty_payload() {
    let mut b = CBuffer::with_capacity(BufferSize::Buf128M).unwrap();
    assert!(b.push(b""));
    assert_eq!(4, b.used());
    assert_eq!(b.pop(), Some(Vec::new()));
    assert!(b.is_empty());
}

#[test]
fn test_pop_empty_after_construction() {
    let mut b = CBuffer::with_capacity(BufferSize::Buf128M).unwrap();
    assert_eq!(b.pop(), None);
    assert!(b.is_empty());
    assert_eq!(0, b.used());
}

#[test]
fn test_bulk_fifo() {
    let mut b = CBuffer::with_capacity(BufferSize::Buf128M).unwrap();
    let v = b"123";
    let n = 2_000_000usize;
    for _ in 0..n {
        assert!(b.push(v));
    }
    let mut count = 0usize;
    loop {
        match b.pop() {
            Some(bytes) => {
                assert_eq!(v.as_slice(), bytes.as_slice());
                count += 1;
            }
            None => break,
        }
    }
    assert_eq!(count, n);
    assert!(b.is_empty());
}

#[test]
fn test_full_reservation() {
    // Each b"x" frame costs 5 bytes. Pushes succeed while
    // 5 < 134217728 - used, so exactly 26843545 frames fit; the ring then
    // holds 134217725 bytes and 3 stay free, never the full capacity: one
    // byte is always reserved to tell full from empty.
    let mut b = CBuffer::with_capacity(BufferSize::Buf128M).unwrap();
    let mut count = 0usize;
    while b.push(b"x") {
        count += 1;
    }
    assert_eq!(count, 26843545);
    assert_eq!(b.used(), 134217725);
    assert_eq!(b.unused(), 3);
    // The rejected push changed nothing.
    assert_eq!(b.used(), 134217725);
    assert_eq!(b.pop(), Some(b"x".to_vec()));
}

#[test]
fn test_escalating_sizes() {
    let mut b = CBuffer::with_capacity(BufferSize::Buf128M).unwrap();
    let mut size = 1usize;
    let mut fills: Vec<u8> = Vec::new();
    let mut idx = 0u8;
    while size <= 1024 * 1024 {
        let payload = vec![idx; size];
        assert!(b.push(payload.as_slice()));
        fills.push(idx);
        size *= 2;
        idx += 1;
    }
    size = 1;
    for f in fills {
        let got = b.pop().unwrap();
        assert_eq!(got.len(), size);
        assert!(got.iter().all(|&x| x == f));
        size *= 2;
    }
    assert!(b.is_empty());
}

#[test]
fn test_wrap_straddle() {
    // Each round pushes and pops one 4 MiB frame, so the cursors advance by
    // 4194308 bytes per round; at round 31 the frame's write begins at
    // offset 130023548 and runs past the capacity 134217728, straddling the
    // wrap, and must still come back intact.
    let mut b = CBuffer::with_capacity(BufferSize::Buf128M).unwrap();
    let n = b.size();
    let size = 4 * 1024 * 1024usize;
    let mut advanced = 0usize;
    let mut straddled = false;
    for i in 0..33u32 {
        let fill = (i as u8).wrapping_mul(13).wrapping_add(7);
        let payload = vec![fill; size];
        let tail = advanced % n;
        if tail + 4 + size > n {
            straddled = true;
        }
        assert!(b.push(payload.as_slice()));
        let got = b.pop().unwrap();
        assert_eq!(got, payload);
        advanced += size + 4;
    }
    assert!(straddled);
    assert!(b.is_empty());
}

#[test]
fn test_full_then_drain() {
    let mut b = CBuffer::with_capacity(BufferSize::Buf128M).unwrap();
    let payload = vec![9u8; 8 * 1024 * 1024];
    let mut count = 0usize;
    while b.push(payload.as_slice()) {
        count += 1;
    }
    assert_eq!(count, 15);
    // Drain completely; the same payload then fits again.
    for _ in 0..count {
        let got = b.pop().unwrap();
        assert_eq!(got, payload);
    }
    assert!(b.is_empty());
    assert!(b.push(payload.as_slice()));
    assert_eq!(b.pop(), Some(payload));
}

#[test]
fn test_size_boundary_rejected() {
    // A payload of capacity - 4 bytes or larger never fits and the rejected
    // push leaves the ring untouched.
    let mut b = CBuffer::with_capacity(BufferSize::Buf128M).unwrap();
    let n = b.size();
    let too_big = vec![1u8; n - 4];
    assert!(!b.push(too_big.as_slice()));
    assert_eq!(0, b.used());
    assert_eq!(b.pop(), None);
    let way_too_big = vec![1u8; n];
    assert!(!b.push(way_too_big.as_slice()));
    assert_eq!(0, b.used());
}

#[test]
fn test_largest_payload_fits() {
    // capacity - 5 is the largest admissible payload: it occupies
    // capacity - 1 bytes and leaves the one reserved byte free.
    let mut b = CBuffer::with_capacity(BufferSize::Buf128M).unwrap();
    let n = b.size();
    let payload = vec![7u8; n - 5];
    assert!(b.push(payload.as_slice()));
    assert_eq!(b.used(), n - 1);
    assert_eq!(b.unused(), 1);
    let got = b.pop().unwrap();
    assert_eq!(got, payload);
    assert!(b.is_empty());
}
