//! The kinematics record: four independently atomic 32-bit scalars, each on
//! its own cache line. A scalar holds the bit pattern of an IEEE-754 single;
//! callers convert with `f32::to_bits` and `f32::from_bits`.
use vstd::prelude::*;
use std::sync::atomic::{AtomicU32, Ordering};

verus! {

/// Words of padding after the stored word, so that the stored words of two
/// neighbouring scalars lie a full cache line (64 bytes) apart.
pub const PADDING_WORDS: usize = 15;

/// A 32-bit float stored as its bit pattern behind an atomic integer,
/// padded to the size of a cache line.
pub struct AtomicF32 {
    storage: AtomicU32,
    padding: [u32; PADDING_WORDS],
}

impl AtomicF32 {
    /// A scalar holding the bit pattern `bits`.
    pub fn new(bits: u32) -> (r: Self) {
        AtomicF32 { storage: AtomicU32::new(bits), padding: [0u32; PADDING_WORDS] }
    }

    /// The bit pattern stored last, with acquire ordering.
    pub fn load(&self) -> (r: u32) {
        self.storage.load(Ordering::Acquire)
    }

    /// Stores the bit pattern `bits` with release ordering.
    pub fn store(&self, bits: u32) {
        self.storage.store(bits, Ordering::Release);
    }
}

/// Position and velocity on two axes. There is no atomicity across fields:
/// a reader may see a new velocity with the position of the previous cycle.
pub struct Kinematics {
    pub px: AtomicF32,
    pub py: AtomicF32,
    pub vx: AtomicF32,
    pub vy: AtomicF32,
}

impl Kinematics {
    /// All four scalars at the bit pattern of `0.0`, which is all zero bits.
    pub fn new() -> (r: Self) {
        Kinematics { px: AtomicF32::new(0), py: AtomicF32::new(0), vx: AtomicF32::new(0), vy: AtomicF32::new(0) }
    }
}

} // verus!
