//! The framed ring: a FIFO queue of byte messages over the mirrored buffer.
//!
//! A frame is a 4-byte little-endian length followed by the payload. The
//! consumer cursor `head` and the producer cursor `tail` are offsets in
//! `[0, capacity)`; the occupied span holds the pending frames, laid out one
//! after the other from `head`, and at most `capacity - 1` bytes are ever
//! occupied, so that a full ring is never mistaken for an empty one.
//!
//! The queue's model is the sequence of pending payloads, carried as a ghost
//! field and tied to the bytes of the region by `frames_at`.

use vstd::prelude::*;
use crate::codec::{spec_le_bytes, le_bytes_of_u32, u32_of_le_bytes, lemma_le_round_trip};
use crate::index::{
    wrap_add, spec_used, spec_fits, lemma_wrap_add_assoc, lemma_wrap_add_far, lemma_used_of_wrap,
    lemma_wrap_of_used,
};
use crate::region::Region;
use crate::BufferSize;

verus! {

/// What can go wrong outside the hot path. A full or an empty ring is not an
/// error: the framed operations report it in their result.
#[derive(Clone, Copy, Debug, PartialEq, Eq, Structural)]
pub enum Error {
    OS,
    Overflow,
    Underflow,
}

/// The bytes the frames of `fs` occupy on the ring: each costs its payload
/// plus the 4-byte length prefix.
pub open spec fn frames_bytes(fs: Seq<Seq<u8>>) -> int
    decreases fs.len(),
{
    if fs.len() == 0 {
        0
    } else {
        4 + fs[0].len() + frames_bytes(fs.subrange(1, fs.len() as int))
    }
}

/// The frames of `fs` are laid out one after the other on `content`,
/// starting at offset `o`: each as its length prefix followed by its
/// payload, wrapping past the capacity.
pub open spec fn frames_at(content: Seq<u8>, cap: int, o: int, fs: Seq<Seq<u8>>) -> bool
    decreases fs.len(),
{
    if fs.len() == 0 {
        true
    } else {
        let f = fs[0];
        &&& 0 <= o < cap
        &&& 4 + f.len() < cap
        &&& forall|j: int|
            0 <= j < 4 ==> #[trigger] content[wrap_add(cap, o, j)] == spec_le_bytes(
                f.len() as u32,
            )[j]
        &&& forall|j: int|
            4 <= j < 4 + f.len() ==> #[trigger] content[wrap_add(cap, o, j)] == f[j - 4]
        &&& frames_at(
            content,
            cap,
            wrap_add(cap, o, 4 + f.len() as int),
            fs.subrange(1, fs.len() as int),
        )
    }
}

/// Every layout costs at least 4 bytes per frame.
proof fn lemma_frames_bytes_pos(fs: Seq<Seq<u8>>)
    ensures
        frames_bytes(fs) >= 0,
        fs.len() > 0 ==> frames_bytes(fs) >= 4 + fs[0].len(),
    decreases fs.len(),
{
    if fs.len() > 0 {
        lemma_frames_bytes_pos(fs.subrange(1, fs.len() as int));
    }
}

/// Appending a frame costs its payload plus the prefix.
proof fn lemma_frames_bytes_snoc(fs: Seq<Seq<u8>>, g: Seq<u8>)
    ensures
        frames_bytes(fs.push(g)) == frames_bytes(fs) + 4 + g.len(),
    decreases fs.len(),
{
    if fs.len() == 0 {
        let gs = fs.push(g);
        assert(gs.len() == 1);
        assert(gs[0] == g);
        let ts = gs.subrange(1, gs.len() as int);
        assert(ts =~= Seq::<Seq<u8>>::empty());
        assert(frames_bytes(ts) == 0);
        assert(frames_bytes(gs) == 4 + gs[0].len() + frames_bytes(ts));
        assert(frames_bytes(fs) == 0);
    } else {
        assert(fs.push(g)[0] == fs[0]);
        assert(fs.push(g).subrange(1, fs.push(g).len() as int) =~= fs.subrange(
            1,
            fs.len() as int,
        ).push(g));
        lemma_frames_bytes_snoc(fs.subrange(1, fs.len() as int), g);
    }
}

/// A layout survives any change of the content outside the span it occupies.
proof fn lemma_frames_at_agree(c1: Seq<u8>, c2: Seq<u8>, cap: int, o: int, fs: Seq<Seq<u8>>)
    requires
        frames_at(c1, cap, o, fs),
        frames_bytes(fs) < cap,
        forall|k: int|
            0 <= k < frames_bytes(fs) ==> #[trigger] c2[wrap_add(cap, o, k)] == c1[wrap_add(
                cap,
                o,
                k,
            )],
    ensures
        frames_at(c2, cap, o, fs),
    decreases fs.len(),
{
    if fs.len() > 0 {
        let f = fs[0];
        let l = f.len() as int;
        let rest = fs.subrange(1, fs.len() as int);
        lemma_frames_bytes_pos(rest);
        assert forall|j: int| 0 <= j < 4 implies #[trigger] c2[wrap_add(cap, o, j)]
            == spec_le_bytes(f.len() as u32)[j] by {
            assert(c2[wrap_add(cap, o, j)] == c1[wrap_add(cap, o, j)]);
        }
        assert forall|j: int| 4 <= j < 4 + l implies #[trigger] c2[wrap_add(cap, o, j)] == f[j
            - 4] by {
            assert(c2[wrap_add(cap, o, j)] == c1[wrap_add(cap, o, j)]);
        }
        let o2 = wrap_add(cap, o, 4 + l);
        assert forall|k: int| 0 <= k < frames_bytes(rest) implies #[trigger] c2[wrap_add(
            cap,
            o2,
            k,
        )] == c1[wrap_add(cap, o2, k)] by {
            lemma_wrap_add_assoc(cap, o, 4 + l, k);
            assert(c2[wrap_add(cap, o, 4 + l + k)] == c1[wrap_add(cap, o, 4 + l + k)]);
        }
        lemma_frames_at_agree(c1, c2, cap, o2, rest);
    }
}

/// A frame encoded right behind a layout extends the layout.
proof fn lemma_frames_at_snoc(c: Seq<u8>, cap: int, o: int, fs: Seq<Seq<u8>>, g: Seq<u8>)
    requires
        frames_at(c, cap, o, fs),
        0 <= o < cap,
        frames_bytes(fs) + 4 + g.len() < cap,
        forall|j: int|
            0 <= j < 4 ==> #[trigger] c[wrap_add(cap, wrap_add(cap, o, frames_bytes(fs)), j)]
                == spec_le_bytes(g.len() as u32)[j],
        forall|j: int|
            4 <= j < 4 + g.len() ==> #[trigger] c[wrap_add(
                cap,
                wrap_add(cap, o, frames_bytes(fs)),
                j,
            )] == g[j - 4],
    ensures
        frames_at(c, cap, o, fs.push(g)),
    decreases fs.len(),
{
    lemma_frames_bytes_pos(fs);
    let gs = fs.push(g);
    if fs.len() == 0 {
        assert(frames_bytes(fs) == 0);
        assert(wrap_add(cap, o, 0) == o);
        assert(gs[0] == g);
        assert forall|j: int| 0 <= j < 4 implies #[trigger] c[wrap_add(cap, o, j)]
            == spec_le_bytes(g.len() as u32)[j] by {
            assert(c[wrap_add(cap, wrap_add(cap, o, frames_bytes(fs)), j)] == spec_le_bytes(
                g.len() as u32,
            )[j]);
        }
        assert forall|j: int| 4 <= j < 4 + g.len() implies #[trigger] c[wrap_add(cap, o, j)]
            == g[j - 4] by {
            assert(c[wrap_add(cap, wrap_add(cap, o, frames_bytes(fs)), j)] == g[j - 4]);
        }
        assert(gs.subrange(1, gs.len() as int) =~= Seq::<Seq<u8>>::empty());
        assert(frames_at(c, cap, wrap_add(cap, o, 4 + g.len() as int), Seq::<Seq<u8>>::empty()));
        assert(frames_at(c, cap, o, gs));
    } else {
        let f = fs[0];
        let l = f.len() as int;
        let rest = fs.subrange(1, fs.len() as int);
        lemma_frames_bytes_pos(rest);
        let o2 = wrap_add(cap, o, 4 + l);
        lemma_wrap_add_assoc(cap, o, 4 + l, frames_bytes(rest));
        assert(wrap_add(cap, o2, frames_bytes(rest)) == wrap_add(cap, o, frames_bytes(fs)));
        assert forall|j: int| 0 <= j < 4 implies #[trigger] c[wrap_add(
            cap,
            wrap_add(cap, o2, frames_bytes(rest)),
            j,
        )] == spec_le_bytes(g.len() as u32)[j] by {
            assert(c[wrap_add(cap, wrap_add(cap, o, frames_bytes(fs)), j)] == spec_le_bytes(
                g.len() as u32,
            )[j]);
        }
        assert forall|j: int| 4 <= j < 4 + g.len() implies #[trigger] c[wrap_add(
            cap,
            wrap_add(cap, o2, frames_bytes(rest)),
            j,
        )] == g[j - 4] by {
            assert(c[wrap_add(cap, wrap_add(cap, o, frames_bytes(fs)), j)] == g[j - 4]);
        }
        lemma_frames_at_snoc(c, cap, o2, rest, g);
        assert(gs.subrange(1, gs.len() as int) =~= rest.push(g));
        assert(gs[0] == f);
        assert(frames_at(c, cap, o, gs));
    }
}

/// The ring: a mirrored region, the two cursors, and the pending frames as
/// the ghost model.
pub struct CBuffer {
    capacity: usize,
    head: u32,
    tail: u32,
    region: Region,
    frames: Ghost<Seq<Seq<u8>>>,
}

impl CBuffer {
    /// The capacity in bytes.
    pub closed spec fn spec_capacity(&self) -> int {
        self.capacity as int
    }

    /// The pending frames, oldest first.
    pub closed spec fn spec_frames(&self) -> Seq<Seq<u8>> {
        self.frames@
    }

    /// The occupied bytes.
    pub open spec fn spec_used(&self) -> int {
        frames_bytes(self.spec_frames())
    }

    /// Well-formed: cursors in range, the occupied span is exactly the
    /// pending frames laid out from `head`, and the region is mirrored.
    pub closed spec fn wf(&self) -> bool {
        &&& self.region.wf()
        &&& self.region.spec_cap() == self.capacity
        &&& 8 <= self.capacity <= 0x2000_0000
        &&& (self.head as int) < self.capacity
        &&& (self.tail as int) < self.capacity
        &&& frames_bytes(self.frames@) == spec_used(
            self.capacity as int,
            self.head as int,
            self.tail as int,
        )
        &&& frames_at(self.region@, self.capacity as int, self.head as int, self.frames@)
    }

    /// An empty ring of the chosen capacity. The construction itself cannot
    /// fail; the error side of the result is the surface kept for callers.
    pub fn with_capacity(s: BufferSize) -> (r: Result<CBuffer, Error>)
        ensures
            r is Ok,
            r matches Ok(b) ==> b.wf() && b.spec_capacity() == s.spec_capacity()
                && b.spec_frames() == Seq::<Seq<u8>>::empty(),
    {
        let capacity = s.capacity();
        let region = Region::new(capacity);
        let b = CBuffer { capacity, head: 0, tail: 0, region, frames: Ghost(Seq::empty()) };
        Ok(b)
    }

    /// Appends one frame if it fits: `true` exactly when the frame's
    /// `data.len() + 4` bytes leave at least one byte of the capacity free,
    /// in which case `data` becomes the newest pending frame; a rejected
    /// push changes nothing.
    pub fn push(&mut self, data: &[u8]) -> (r: bool)
        requires
            old(self).wf(),
        ensures
            final(self).wf(),
            final(self).spec_capacity() == old(self).spec_capacity(),
            r == spec_fits(
                old(self).spec_capacity(),
                frames_bytes(old(self).spec_frames()),
                data@.len() as int,
            ),
            r ==> final(self).spec_frames() == old(self).spec_frames().push(data@),
            !r ==> *final(self) == *old(self),
    {
        let size = data.len();
        let cap = self.capacity;
        let h = self.head as usize;
        let t = self.tail as usize;
        let used = if h <= t {
            t - h
        } else {
            cap - (h - t)
        };
        if size >= cap - 4 {
            return false;
        }
        if cap - used <= size + 4 {
            return false;
        }
        let ghost oldfs = self.frames@;
        let ghost oldc = self.region@;
        let ghost capi = cap as int;
        let ghost hi = h as int;
        let ghost ti = t as int;
        let ghost u = frames_bytes(oldfs);
        let mut fb = le_bytes_of_u32(size as u32);
        fb.extend_from_slice(data);
        proof {
            assert(fb@.len() == 4 + size);
        }
        self.region.write_at(t, &fb);
        let t2 = t + 4 + size;
        let new_tail = if t2 >= cap {
            t2 - cap
        } else {
            t2
        };
        self.tail = new_tail as u32;
        self.frames = Ghost(oldfs.push(data@));
        proof {
            lemma_frames_bytes_pos(oldfs);
            lemma_wrap_of_used(capi, hi, ti);
            // Bytes of the already-pending frames were not written over: the
            // write starts where the occupied span ends.
            assert forall|k: int| 0 <= k < u implies #[trigger] self.region@[wrap_add(
                capi,
                hi,
                k,
            )] == oldc[wrap_add(capi, hi, k)] by {
                lemma_wrap_add_far(capi, hi, u, k + capi - u);
                assert(self.region@[wrap_add(capi, ti, k + capi - u)] == oldc[wrap_add(
                    capi,
                    ti,
                    k + capi - u,
                )]);
            }
            lemma_frames_at_agree(oldc, self.region@, capi, hi, oldfs);
            // The new frame sits encoded at the old tail.
            assert forall|j: int| 0 <= j < 4 implies #[trigger] self.region@[wrap_add(
                capi,
                wrap_add(capi, hi, u),
                j,
            )] == spec_le_bytes(data@.len() as u32)[j] by {
                assert(self.region@[wrap_add(capi, ti, j)] == fb@[j]);
            }
            assert forall|j: int| 4 <= j < 4 + data@.len() implies #[trigger] self.region@[
                wrap_add(capi, wrap_add(capi, hi, u), j)
            ] == data@[j - 4] by {
                assert(self.region@[wrap_add(capi, ti, j)] == fb@[j]);
                assert(cloned(data@[j - 4], fb@[j]));
            }
            lemma_frames_at_snoc(self.region@, capi, hi, oldfs, data@);
            lemma_frames_bytes_snoc(oldfs, data@);
            // The new tail stands the whole frame past the old occupied span.
            lemma_wrap_add_assoc(capi, hi, u, 4 + size as int);
            assert(new_tail as int == wrap_add(capi, ti, 4 + size as int));
            lemma_used_of_wrap(capi, hi, u + 4 + size);
        }
        true
    }

    /// Removes and returns the oldest pending frame, or `None` on an empty
    /// ring; an empty result changes nothing.
    pub fn pop(&mut self) -> (r: Option<Vec<u8>>)
        requires
            old(self).wf(),
        ensures
            final(self).wf(),
            final(self).spec_capacity() == old(self).spec_capacity(),
            (r is Some) == (old(self).spec_frames().len() > 0),
            r matches Some(v) ==> v@ == old(self).spec_frames()[0] && final(self).spec_frames()
                == old(self).spec_frames().subrange(1, old(self).spec_frames().len() as int),
            r is None ==> *final(self) == *old(self),
    {
        proof {
            lemma_frames_bytes_pos(self.frames@);
        }
        if self.head == self.tail {
            return None;
        }
        let cap = self.capacity;
        let h = self.head as usize;
        let ghost fs = self.frames@;
        let ghost f0 = fs[0];
        let ghost capi = cap as int;
        let ghost hi = h as int;
        let ghost rest = fs.subrange(1, fs.len() as int);
        proof {
            lemma_frames_bytes_pos(rest);
        }
        let lb = self.region.read_at(h, 4);
        proof {
            assert forall|j: int| 0 <= j < 4 implies lb@[j] == spec_le_bytes(
                f0.len() as u32,
            )[j] by {
                assert(lb@[j] == self.region@[wrap_add(capi, hi, j)]);
            }
            assert(lb@ =~= spec_le_bytes(f0.len() as u32));
            lemma_le_round_trip(f0.len() as u32);
        }
        let len = u32_of_le_bytes(&lb);
        let o2 = if h + 4 >= cap {
            h + 4 - cap
        } else {
            h + 4
        };
        let payload = self.region.read_at(o2, len as usize);
        proof {
            assert(o2 as int == wrap_add(capi, hi, 4));
            assert forall|j: int| 0 <= j < f0.len() implies payload@[j] == f0[j] by {
                lemma_wrap_add_assoc(capi, hi, 4, j);
                assert(payload@[j] == self.region@[wrap_add(capi, o2 as int, j)]);
                assert(self.region@[wrap_add(capi, hi, 4 + j)] == f0[4 + j - 4]);
            }
            assert(payload@ =~= f0);
        }
        let h2 = h + 4 + len as usize;
        let new_head = if h2 >= cap {
            h2 - cap
        } else {
            h2
        };
        self.head = new_head as u32;
        self.frames = Ghost(rest);
        proof {
            assert(new_head as int == wrap_add(capi, hi, 4 + f0.len() as int));
            lemma_wrap_of_used(capi, hi, self.tail as int);
            lemma_wrap_add_assoc(capi, hi, 4 + f0.len() as int, frames_bytes(rest));
            lemma_used_of_wrap(capi, new_head as int, frames_bytes(rest));
        }
        Some(payload)
    }

    /// Whether no frame is pending. Right after construction this holds, and
    /// `pop` then returns `None`.
    pub fn is_empty(&self) -> (r: bool)
        requires
            self.wf(),
        ensures
            r == (self.spec_frames().len() == 0),
    {
        proof {
            lemma_frames_bytes_pos(self.frames@);
        }
        self.head == self.tail
    }

    /// The capacity in bytes.
    pub fn size(&self) -> (r: usize)
        ensures
            r == self.spec_capacity(),
    {
        self.capacity
    }

    /// The occupied bytes: what the pending frames cost on the ring.
    pub fn used(&self) -> (r: usize)
        requires
            self.wf(),
        ensures
            r == self.spec_used(),
    {
        proof {
            lemma_frames_bytes_pos(self.frames@);
        }
        let h = self.head as usize;
        let t = self.tail as usize;
        if h <= t {
            t - h
        } else {
            self.capacity - (h - t)
        }
    }

    /// The free bytes: capacity less the occupied span.
    pub fn unused(&self) -> (r: usize)
        requires
            self.wf(),
        ensures
            r == self.spec_capacity() - self.spec_used(),
    {
        let u = self.used();
        self.capacity - u
    }
}

/// Full, then drain: once pops have emptied the ring, every payload that
/// can ever fit fits again, so a push that was rejected while the ring was
/// occupied succeeds after the drain — provided the payload is at most
/// `capacity - 5` bytes, since larger ones fit in no state at all.
pub proof fn lemma_full_then_drain(b: &CBuffer, size: int)
    requires
        b.wf(),
        b.spec_frames().len() == 0,
        0 <= size,
        size + 4 < b.spec_capacity(),
    ensures
        spec_fits(b.spec_capacity(), b.spec_used(), size),
{
}

/// Size boundary: a payload of `capacity - 4` bytes or more is rejected in
/// every state of the ring — one byte is always kept free to tell a full
/// ring from an empty one — and by `push`'s contract the rejected push
/// leaves the ring unchanged.
pub proof fn lemma_oversize_never_fits(b: &CBuffer, size: int)
    requires
        b.wf(),
        b.spec_capacity() - 4 <= size,
    ensures
        !spec_fits(b.spec_capacity(), b.spec_used(), size),
{
    lemma_frames_bytes_pos(b.spec_frames());
}

/// The payloads that repeated pops deliver from a ring whose pending frames
/// are `fs`: each pop returns the oldest pending frame and leaves the rest.
pub open spec fn drained(fs: Seq<Seq<u8>>) -> Seq<Seq<u8>>
    decreases fs.len(),
{
    if fs.len() == 0 {
        Seq::empty()
    } else {
        seq![fs[0]] + drained(fs.subrange(1, fs.len() as int))
    }
}

/// Round trip: pushing frames and then popping until empty delivers exactly
/// the pushed payloads, in push order — no loss, no duplication, no
/// reordering. (A push appends to the pending frames; each pop removes and
/// returns the first; so the drained sequence is the pushed one.)
pub proof fn lemma_round_trip(fs: Seq<Seq<u8>>)
    ensures
        drained(fs) == fs,
    decreases fs.len(),
{
    if fs.len() == 0 {
        assert(drained(fs) =~= fs);
    } else {
        lemma_round_trip(fs.subrange(1, fs.len() as int));
        assert(drained(fs) =~= fs);
    }
}

} // verus!
