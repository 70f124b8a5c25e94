//! The mirrored buffer: `capacity` logical bytes, each held at two offsets.
//!
//! The buffer keeps `2 * capacity` bytes and maintains the mirror invariant
//! `raw[i] == raw[i + capacity]` for every `i` below `capacity`. Reading a
//! span of up to `capacity` bytes that starts anywhere in the first copy can
//! therefore proceed linearly into the second copy instead of wrapping, which
//! is what lets a frame cross the wrap point without being split.

use vstd::prelude::*;
use crate::index::{wrap_add, lemma_wrap_add_inj};

verus! {

/// A ring of bytes whose content is stored twice, back to back.
pub struct Region {
    bytes: Vec<u8>,
    cap: usize,
}

impl View for Region {
    type V = Seq<u8>;

    /// The logical content: one byte per offset in `[0, capacity)`.
    closed spec fn view(&self) -> Seq<u8> {
        self.bytes@.take(self.cap as int)
    }
}

impl Region {
    /// The logical capacity in bytes.
    pub closed spec fn spec_cap(&self) -> int {
        self.cap as int
    }

    /// The byte stored at raw offset `o` in `[0, 2 * capacity)`.
    pub open spec fn spec_byte(&self, o: int) -> u8 {
        if o < self.spec_cap() {
            self@[o]
        } else {
            self@[o - self.spec_cap()]
        }
    }

    /// The stored bytes as they stand in memory: both copies, back to back.
    pub closed spec fn spec_raw(&self) -> Seq<u8> {
        self.bytes@
    }

    /// Well-formed: both copies present and equal, byte for byte.
    pub closed spec fn wf(&self) -> bool {
        &&& 1 <= self.cap <= 0x2000_0000
        &&& self.bytes@.len() == 2 * self.cap
        &&& forall|i: int|
            0 <= i < self.cap ==> #[trigger] self.bytes@[i] == self.bytes@[i + self.cap]
    }

    /// The mirror: the byte stored at any offset `o` of the first copy is
    /// the byte stored at the mirrored offset `o + capacity`, so a write
    /// through either offset is read back through both.
    pub proof fn lemma_mirror(&self, o: int)
        requires
            self.wf(),
            0 <= o < self.spec_cap(),
        ensures
            self.spec_raw()[o] == self.spec_raw()[o + self.spec_cap()],
            self.spec_raw()[o] == self@[o],
    {
    }

    /// A zeroed region of `cap` logical bytes.
    pub fn new(cap: usize) -> (r: Region)
        requires
            1 <= cap <= 0x2000_0000,
        ensures
            r.wf(),
            r.spec_cap() == cap,
            r@.len() == cap,
            forall|i: int| 0 <= i < cap ==> r@[i] == 0u8,
    {
        let bytes: Vec<u8> = vec![0u8; 2 * cap];
        let r = Region { bytes, cap };
        proof {
            assert forall|i: int| 0 <= i < cap implies r@[i] == 0u8 by {
                assert(r.bytes@[i] == 0u8);
            }
        }
        r
    }

    /// Stores `data` linearly from offset `o`, wrapping past the capacity;
    /// every other offset keeps its byte.
    pub fn write_at(&mut self, o: usize, data: &Vec<u8>)
        requires
            old(self).wf(),
            o < old(self).spec_cap(),
            data@.len() <= old(self).spec_cap(),
        ensures
            final(self).wf(),
            final(self).spec_cap() == old(self).spec_cap(),
            forall|j: int|
                0 <= j < data@.len() ==> final(self)@[wrap_add(
                    old(self).spec_cap(),
                    o as int,
                    j,
                )] == data@[j],
            forall|k: int|
                data@.len() <= k < old(self).spec_cap() ==> final(self)@[wrap_add(
                    old(self).spec_cap(),
                    o as int,
                    k,
                )] == old(self)@[wrap_add(old(self).spec_cap(), o as int, k)],
    {
        let cap = self.cap;
        let len = data.len();
        let mut i: usize = 0;
        let mut p: usize = o;
        while i < len
            invariant
                self.cap == cap,
                self.wf(),
                old(self).wf(),
                o < cap,
                len == data@.len() <= cap,
                0 <= i <= len,
                p < cap,
                p as int == wrap_add(cap as int, o as int, i as int),
                forall|j: int|
                    0 <= j < i ==> self@[wrap_add(cap as int, o as int, j)] == data@[j],
                forall|k: int|
                    i <= k < cap ==> self@[wrap_add(cap as int, o as int, k)] == old(self)@[
                        wrap_add(cap as int, o as int, k)
                    ],
            decreases len - i,
        {
            let b = data[i];
            let ghost pre = self.bytes@;
            self.bytes[p] = b;
            self.bytes[p + cap] = b;
            proof {
                assert(self.bytes@ =~= pre.update(p as int, b).update(p as int + cap, b));
                // Updating offset p and its mirror keeps the mirror invariant
                // and changes the logical content at p alone.
                assert forall|q: int| 0 <= q < cap && q != p implies self@[q] == pre.take(
                    cap as int,
                )[q] by {}
                assert forall|j: int|
                    0 <= j < i + 1 implies self@[wrap_add(cap as int, o as int, j)] == data@[j] by {
                    if j < i {
                        lemma_wrap_add_inj(cap as int, o as int, j, i as int);
                    }
                }
                assert forall|k: int|
                    i + 1 <= k < cap implies self@[wrap_add(cap as int, o as int, k)] == old(self)@[
                    wrap_add(cap as int, o as int, k)
                ] by {
                    lemma_wrap_add_inj(cap as int, o as int, k, i as int);
                }
            }
            i = i + 1;
            p = p + 1;
            if p == cap {
                p = 0;
            }
        }
    }

    /// Reads `len` bytes linearly from offset `o`, wrapping past the
    /// capacity. The read itself never wraps: it runs straight into the
    /// second copy, and the mirror invariant says the bytes there are the
    /// wrapped ones.
    pub fn read_at(&self, o: usize, len: usize) -> (r: Vec<u8>)
        requires
            self.wf(),
            o < self.spec_cap(),
            len <= self.spec_cap(),
        ensures
            r@.len() == len,
            forall|j: int| 0 <= j < len ==> r@[j] == self@[wrap_add(self.spec_cap(), o as int, j)],
    {
        let mut r: Vec<u8> = Vec::new();
        let mut i: usize = 0;
        while i < len
            invariant
                self.wf(),
                o < self.spec_cap(),
                len <= self.spec_cap(),
                0 <= i <= len,
                r@.len() == i,
                forall|j: int|
                    0 <= j < i ==> r@[j] == self@[wrap_add(self.spec_cap(), o as int, j)],
            decreases len - i,
        {
            let b = self.bytes[o + i];
            proof {
                if o + i >= self.cap {
                    assert(self.bytes@[o + i - self.cap] == self.bytes@[(o + i - self.cap)
                        + self.cap]);
                }
            }
            r.push(b);
            i = i + 1;
        }
        r
    }

    /// Stores one byte through a raw offset in `[0, 2 * capacity)`: the
    /// logical byte behind the offset changes, all others stay.
    pub fn write_byte(&mut self, o: usize, b: u8)
        requires
            old(self).wf(),
            o < 2 * old(self).spec_cap(),
        ensures
            final(self).wf(),
            final(self).spec_cap() == old(self).spec_cap(),
            final(self)@ == old(self)@.update(
                if o < old(self).spec_cap() {
                    o as int
                } else {
                    o - old(self).spec_cap()
                },
                b,
            ),
    {
        let li = if o >= self.cap {
            o - self.cap
        } else {
            o
        };
        let cap = self.cap;
        let ghost pre = self.bytes@;
        self.bytes[li] = b;
        self.bytes[li + cap] = b;
        proof {
            assert(self.bytes@ =~= pre.update(li as int, b).update(li as int + cap, b));
            assert(self@ =~= old(self)@.update(li as int, b));
        }
    }

    /// Reads one byte through a raw offset in `[0, 2 * capacity)`.
    pub fn byte_at(&self, o: usize) -> (r: u8)
        requires
            self.wf(),
            o < 2 * self.spec_cap(),
        ensures
            r == self.spec_byte(o as int),
            r == self.spec_raw()[o as int],
    {
        proof {
            if o >= self.cap {
                assert(self.bytes@[o - self.cap] == self.bytes@[(o - self.cap) + self.cap]);
            }
        }
        self.bytes[o]
    }
}

} // verus!
