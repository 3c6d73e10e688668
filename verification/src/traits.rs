//! The consumed bit-stream capability: reading and writing at the bit level.
//!
//! Both traits view a stream as a ghost sequence of bits. A source's view
//! holds the bits still to be read, front first; a sink's view holds the bits
//! written so far. A method may fail with the stream's own error (a source
//! exhausted, a sink full); nothing is promised of the view in that case,
//! since a failing write may have flushed a prefix. On success the view moves
//! exactly by the code of the value read or written.

use crate::model::{binary_code, unary_code};
use vstd::arithmetic::power2::pow2;
use vstd::prelude::*;

verus! {

/// A source of single bits, read front to back.
pub trait BitRead {
    /// The error of the underlying stream.
    type Error;

    /// The bits still to be read, front first.
    spec fn bits(&self) -> Seq<bool>;

    /// Reads `w` bits and returns them as the binary value they spell,
    /// most significant bit first.
    fn read_bits(&mut self, w: usize) -> (r: Result<u64, Self::Error>)
        requires
            w <= 64,
        ensures
            r matches Ok(v) ==> (v as nat) < pow2(w as nat) && old(self).bits() == binary_code(
                v as nat,
                w as nat,
            ) + final(self).bits(),
    ;

    /// Reads a unary code: zero bits up to a terminating one bit.
    fn read_unary(&mut self) -> (r: Result<u64, Self::Error>)
        ensures
            r matches Ok(q) ==> old(self).bits() == unary_code(q as nat) + final(self).bits(),
    ;
}

/// A sink of single bits, written front to back.
pub trait BitWrite {
    /// The error of the underlying stream.
    type Error;

    /// The bits written so far.
    spec fn bits(&self) -> Seq<bool>;

    /// Writes the binary code of `v` in exactly `w` bits, most significant
    /// bit first, and returns the number of bits written.
    fn write_bits(&mut self, v: u64, w: usize) -> (r: Result<usize, Self::Error>)
        requires
            w <= 64,
            (v as nat) < pow2(w as nat),
        ensures
            r matches Ok(n) ==> n == w && final(self).bits() == old(self).bits() + binary_code(
                v as nat,
                w as nat,
            ),
    ;

    /// Writes the unary code of `q` and returns the number of bits written.
    fn write_unary(&mut self, q: u64) -> (r: Result<usize, Self::Error>)
        requires
            q + 1 <= usize::MAX,
        ensures
            r matches Ok(n) ==> n == q + 1 && final(self).bits() == old(self).bits() + unary_code(
                q as nat,
            ),
    ;
}

} // verus!
