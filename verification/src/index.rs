//! Wrap arithmetic over ring offsets.
//!
//! Both cursors of the ring are byte offsets in `[0, capacity)`. Advancing a
//! cursor and measuring the occupied span are pure functions of the two
//! offsets, stated here once and shared by the framed operations.

use vstd::prelude::*;

verus! {

/// The offset `i` bytes past `o` on a ring of `cap` bytes, for `o` in
/// `[0, cap)` and `i` in `[0, cap]`.
pub open spec fn wrap_add(cap: int, o: int, i: int) -> int {
    if o + i < cap {
        o + i
    } else {
        o + i - cap
    }
}

/// The number of occupied bytes when the consumer stands at `head` and the
/// producer at `tail`, both in `[0, cap)`: `(tail - head) mod cap`.
pub open spec fn spec_used(cap: int, head: int, tail: int) -> int {
    if head <= tail {
        tail - head
    } else {
        cap - (head - tail)
    }
}

/// Whether a payload of `size` bytes fits when `used` bytes are occupied:
/// the frame takes `size + 4` bytes and one byte stays free, so that a full
/// ring is never mistaken for an empty one.
pub open spec fn spec_fits(cap: int, used: int, size: int) -> bool {
    size + 4 < cap - used
}

/// Advancing twice is advancing by the sum, as long as the sum stays short
/// of a full turn.
pub proof fn lemma_wrap_add_assoc(cap: int, o: int, a: int, b: int)
    requires
        0 < cap,
        0 <= o < cap,
        0 <= a,
        0 <= b,
        a + b < cap,
    ensures
        wrap_add(cap, wrap_add(cap, o, a), b) == wrap_add(cap, o, a + b),
{
}

/// Advancing twice by a combined distance of a full turn or more lands a
/// full turn short of the sum.
pub proof fn lemma_wrap_add_far(cap: int, o: int, a: int, b: int)
    requires
        0 < cap,
        0 <= o < cap,
        0 <= a < cap,
        0 <= b < cap,
        cap <= a + b,
    ensures
        wrap_add(cap, wrap_add(cap, o, a), b) == wrap_add(cap, o, a + b - cap),
{
}

/// Distinct distances below a full turn land on distinct offsets.
pub proof fn lemma_wrap_add_inj(cap: int, o: int, i: int, j: int)
    requires
        0 <= o < cap,
        0 <= i < cap,
        0 <= j < cap,
        i != j,
    ensures
        wrap_add(cap, o, i) != wrap_add(cap, o, j),
{
}

/// Advancing the producer by `u` bytes from the consumer's offset leaves
/// exactly `u` bytes occupied.
pub proof fn lemma_used_of_wrap(cap: int, head: int, u: int)
    requires
        0 <= head < cap,
        0 <= u < cap,
    ensures
        spec_used(cap, head, wrap_add(cap, head, u)) == u,
{
}

/// The producer's offset is the consumer's advanced by the occupied span.
pub proof fn lemma_wrap_of_used(cap: int, head: int, tail: int)
    requires
        0 <= head < cap,
        0 <= tail < cap,
    ensures
        tail == wrap_add(cap, head, spec_used(cap, head, tail)),
        0 <= spec_used(cap, head, tail) < cap,
{
}

/// The occupied span for cursors `head` and `tail`.
pub fn used_bytes(capacity: usize, head: u32, tail: u32) -> (r: usize)
    requires
        8 <= capacity <= 0x2000_0000,
        head < capacity,
        tail < capacity,
    ensures
        r == spec_used(capacity as int, head as int, tail as int),
{
    let h = head as usize;
    let t = tail as usize;
    if h <= t {
        t - h
    } else {
        capacity - (h - t)
    }
}

/// The offsets and the fit decision of a framed push: `Some(new_tail)` when
/// a frame of `size` payload bytes fits with the cursors as given, `None`
/// otherwise.
pub fn plan_push(capacity: usize, head: u32, tail: u32, size: usize) -> (r: Option<u32>)
    requires
        8 <= capacity <= 0x2000_0000,
        head < capacity,
        tail < capacity,
    ensures
        (r is Some) == spec_fits(
            capacity as int,
            spec_used(capacity as int, head as int, tail as int),
            size as int,
        ),
        r matches Some(nt) ==> nt == wrap_add(capacity as int, tail as int, 4 + size as int)
            && nt < capacity,
{
    let h = head as usize;
    let t = tail as usize;
    let used = if h <= t {
        t - h
    } else {
        capacity - (h - t)
    };
    if size >= capacity - 4 {
        return None;
    }
    if capacity - used <= size + 4 {
        return None;
    }
    let t2 = t + 4 + size;
    let new_tail = if t2 >= capacity {
        t2 - capacity
    } else {
        t2
    };
    Some(new_tail as u32)
}

/// The consumer's offset after a frame with `len` payload bytes is consumed
/// from `head`.
pub fn plan_pop(capacity: usize, head: u32, len: u32) -> (r: u32)
    requires
        8 <= capacity <= 0x2000_0000,
        head < capacity,
        len + 4 < capacity,
    ensures
        r == wrap_add(capacity as int, head as int, 4 + len as int),
        r < capacity,
{
    let h2 = head as usize + 4 + len as usize;
    let new_head = if h2 >= capacity {
        h2 - capacity
    } else {
        h2
    };
    new_head as u32
}

} // verus!
