//! A single-producer / single-consumer byte-message queue over a mirrored
//! ring buffer: frames (a 4-byte little-endian length followed by the
//! payload) are written linearly across the wrap point because every byte of
//! the ring is held at two offsets, `o` and `o + capacity`.

use vstd::prelude::*;

pub mod codec;
pub mod index;
pub mod region;
pub mod ring;

pub use ring::{CBuffer, Error};

verus! {

/// The sizes a ring may be constructed with, all multiples of the page size.
pub enum BufferSize {
    Buf64M,
    Buf128M,
    Buf256M,
    Buf512M,
}

impl BufferSize {
    /// The capacity in bytes that this size stands for.
    pub open spec fn spec_capacity(self) -> int {
        match self {
            BufferSize::Buf64M => 0x400_0000,
            BufferSize::Buf128M => 0x800_0000,
            BufferSize::Buf256M => 0x1000_0000,
            BufferSize::Buf512M => 0x2000_0000,
        }
    }

    /// The capacity in bytes that this size stands for.
    pub fn capacity(&self) -> (r: usize)
        ensures
            r == self.spec_capacity(),
    {
        match self {
            BufferSize::Buf64M => 64 * 1024 * 1024,
            BufferSize::Buf128M => 128 * 1024 * 1024,
            BufferSize::Buf256M => 256 * 1024 * 1024,
            BufferSize::Buf512M => 512 * 1024 * 1024,
        }
    }
}

} // verus!
