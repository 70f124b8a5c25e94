use cbuffer::index::{plan_pop, plan_push};

#[test]
fn test_plan_push_fits() {
    // Empty ring of 16 bytes: a 4-byte payload costs 8, leaving 8 free.
    assert_eq!(plan_push(16, 0, 0, 4), Some(8));
    // From a nonzero tail the new tail wraps past the capacity.
    assert_eq!(plan_push(16, 12, 12, 4), Some(4));
}

#[test]
fn test_plan_push_full() {
    // 8 bytes used out of 16: another 8-byte frame would fill the ring
    // completely, which is rejected.
    assert_eq!(plan_push(16, 0, 8, 4), None);
    // A payload of capacity - 4 or larger never fits.
    assert_eq!(plan_push(16, 0, 0, 12), None);
    assert_eq!(plan_push(16, 0, 0, 100), None);
}

#[test]
fn test_one_byte_reservation() {
    // Exactly 5 bytes free, a 1-byte payload costs 5: rejected, so one byte
    // always stays free.
    assert_eq!(plan_push(16, 0, 11, 1), None);
    // With 6 bytes free the same frame fits.
    assert_eq!(plan_push(16, 0, 10, 1), Some(15));
}

#[test]
fn test_plan_pop_wraps() {
    assert_eq!(plan_pop(16, 12, 8), 8);
    assert_eq!(plan_pop(16, 0, 8), 12);
}
