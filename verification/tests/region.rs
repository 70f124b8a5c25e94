use cbuffer::region::Region;

#[test]
fn test_fresh_region_zeroed() {
    let r = Region::new(4096);
    for o in [0usize, 1, 100, 4095, 4096, 5000, 8191] {
        assert_eq!(0u8, r.byte_at(o));
    }
}

#[test]
fn test_mirror_low_writes_read_high() {
    let mut r = Region::new(4096);
    let probes = [(0usize, 0x11u8), (10, 0xAB), (999, 0x5C), (4095, 0xFE)];
    for (o, v) in probes {
        r.write_byte(o, v);
    }
    for (o, v) in probes {
        assert_eq!(v, r.byte_at(o));
        assert_eq!(v, r.byte_at(o + 4096));
    }
}

#[test]
fn test_mirror_high_writes_read_low() {
    let mut r = Region::new(4096);
    let probes = [(4096usize, 0x21u8), (4200, 0xCD), (8191, 0x42)];
    for (o, v) in probes {
        r.write_byte(o, v);
    }
    for (o, v) in probes {
        assert_eq!(v, r.byte_at(o));
        assert_eq!(v, r.byte_at(o - 4096));
    }
}

#[test]
fn test_write_wraps_linearly() {
    // A write that starts near the top of the capacity continues at the
    // bottom, and reading the same span returns it unsplit.
    let mut r = Region::new(64);
    let data: Vec<u8> = (1u8..=10).collect();
    r.write_at(60, &data);
    let got = r.read_at(60, 10);
    assert_eq!(got, data);
    // The wrapped part landed at the low offsets.
    assert_eq!(r.byte_at(0), 5);
    assert_eq!(r.byte_at(5), 10);
    assert_eq!(r.byte_at(63), 4);
    // And the mirror of the low offsets shows it too.
    assert_eq!(r.byte_at(64), 5);
}
