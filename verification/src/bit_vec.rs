//! A vector-backed bit sink and bit source.
//!
//! `BitVecWriter` collects written bits in a vector; `BitVecReader` walks a
//! vector of bits front to back. They implement the bit-stream traits, so the
//! blanket impls give them the minimal binary and Golomb readers and writers,
//! and an encode followed by a decode can run entirely in memory.

use crate::model::{binary_code, lemma_binary_code_len, lemma_binary_code_split, unary_code};
use crate::traits::{BitRead, BitWrite};
use vstd::arithmetic::div_mod::{
    lemma_fundamental_div_mod_converse_div, lemma_fundamental_div_mod_converse_mod,
    lemma_multiply_divide_lt,
};
use vstd::arithmetic::power2::{
    lemma2_to64, lemma2_to64_rest, lemma_pow2_strictly_increases, lemma_pow2_unfold, pow2,
};
use vstd::prelude::*;

verus! {

/// The error of the vector-backed bit streams: the source held fewer bits
/// than a read asked for. The writer never fails.
#[derive(Debug, Clone, Copy, PartialEq, Eq)]
pub enum CodeError {
    EndOfStream,
}

/// A bit sink that collects the written bits in a vector.
pub struct BitVecWriter {
    data: Vec<bool>,
}

impl BitVecWriter {
    /// Creates an empty sink.
    pub fn new() -> (w: Self)
        ensures
            w.bits() == Seq::<bool>::empty(),
    {
        BitVecWriter { data: Vec::new() }
    }

    /// Returns the number of bits written so far.
    pub fn num_bits(&self) -> (n: usize)
        ensures
            n == self.bits().len(),
    {
        self.data.len()
    }

    /// Hands the written bits out, front first.
    pub fn into_bits(self) -> (v: Vec<bool>)
        ensures
            v@ == self.bits(),
    {
        self.data
    }

    /// Pushes the binary code of `v` in exactly `w` bits, most significant
    /// bit first.
    fn push_binary(&mut self, v: u64, w: usize)
        requires
            w <= 64,
            (v as nat) < pow2(w as nat),
        ensures
            final(self).data@ == old(self).data@ + binary_code(v as nat, w as nat),
        decreases w,
    {
        if w == 0 {
            proof {
                assert(self.data@ =~= self.data@ + binary_code(v as nat, 0));
            }
        } else {
            proof {
                lemma_pow2_unfold(w as nat);
                lemma_multiply_divide_lt(v as int, 2, pow2((w - 1) as nat) as int);
            }
            self.push_binary(v / 2, w - 1);
            self.data.push(v % 2 == 1);
            proof {
                lemma_binary_code_split(v as nat, w as nat);
                assert(self.data@ =~= old(self).data@ + binary_code(v as nat, w as nat));
            }
        }
    }
}

impl BitWrite for BitVecWriter {
    type Error = CodeError;

    closed spec fn bits(&self) -> Seq<bool> {
        self.data@
    }

    fn write_bits(&mut self, v: u64, w: usize) -> (r: Result<usize, CodeError>)
        ensures
            r is Ok,
    {
        self.push_binary(v, w);
        Ok(w)
    }

    fn write_unary(&mut self, q: u64) -> (r: Result<usize, CodeError>)
        ensures
            r is Ok,
    {
        let mut i: u64 = 0;
        while i < q
            invariant
                i <= q,
                self.data@ == old(self).data@ + Seq::new(i as nat, |j: int| false),
            decreases q - i,
        {
            self.data.push(false);
            i = i + 1;
            proof {
                assert(old(self).data@ + Seq::new(i as nat, |j: int| false) =~= (old(self).data@
                    + Seq::new((i - 1) as nat, |j: int| false)).push(false));
            }
        }
        self.data.push(true);
        proof {
            assert(self.data@ =~= old(self).data@ + unary_code(q as nat));
        }
        let n = q as usize;
        Ok(n + 1)
    }
}

/// A bit source that walks a vector of bits front to back.
pub struct BitVecReader {
    data: Vec<bool>,
    pos: usize,
}

impl BitVecReader {
    /// Creates a source that will read out `data`, front first.
    pub fn new(data: Vec<bool>) -> (r: Self)
        ensures
            r.bits() == data@,
    {
        BitVecReader { data, pos: 0 }
    }

    /// Returns the number of bits still to be read.
    pub fn remaining_bits(&self) -> (n: usize)
        ensures
            n == self.bits().len(),
    {
        if self.pos <= self.data.len() {
            self.data.len() - self.pos
        } else {
            0
        }
    }

    /// Takes the next bit off the front of the source.
    fn take_bit(&mut self) -> (res: Result<bool, CodeError>)
        ensures
            res matches Ok(b) ==> old(self).bits() == seq![b] + final(self).bits(),
            res is Ok <==> old(self).bits().len() >= 1,
    {
        if self.pos < self.data.len() {
            let b = self.data[self.pos];
            self.pos = self.pos + 1;
            proof {
                assert(old(self).bits() =~= seq![b] + self.bits());
            }
            Ok(b)
        } else {
            Err(CodeError::EndOfStream)
        }
    }

    /// Takes the next `w` bits off the front of the source and returns the
    /// binary value they spell, most significant bit first.
    fn take_binary(&mut self, w: usize) -> (res: Result<u64, CodeError>)
        requires
            w <= 64,
        ensures
            res matches Ok(v) ==> (v as nat) < pow2(w as nat) && old(self).bits() == binary_code(
                v as nat,
                w as nat,
            ) + final(self).bits(),
            res is Ok <==> w <= old(self).bits().len(),
        decreases w,
    {
        if w == 0 {
            proof {
                lemma2_to64();
                assert(old(self).bits() =~= binary_code(0, 0) + self.bits());
            }
            Ok(0)
        } else {
            let v = self.take_binary(w - 1)?;
            proof {
                lemma_binary_code_len(v as nat, (w - 1) as nat);
            }
            let bit = self.take_bit()?;
            proof {
                lemma2_to64();
                lemma2_to64_rest();
                if w - 1 < 63 {
                    lemma_pow2_strictly_increases((w - 1) as nat, 63);
                }
                lemma_pow2_unfold(w as nat);
            }
            let b01: u64 = if bit {
                1
            } else {
                0
            };
            let v2 = v * 2 + b01;
            proof {
                lemma_fundamental_div_mod_converse_div(v2 as int, 2, v as int, b01 as int);
                lemma_fundamental_div_mod_converse_mod(v2 as int, 2, v as int, b01 as int);
                lemma_binary_code_split(v2 as nat, w as nat);
                assert(binary_code(v as nat, (w - 1) as nat).push(v2 % 2 == 1) + self.bits()
                    =~= binary_code(v as nat, (w - 1) as nat) + (seq![v2 % 2 == 1] + self.bits()));
            }
            Ok(v2)
        }
    }
}

impl BitRead for BitVecReader {
    type Error = CodeError;

    closed spec fn bits(&self) -> Seq<bool> {
        if self.pos <= self.data@.len() {
            self.data@.skip(self.pos as int)
        } else {
            Seq::empty()
        }
    }

    fn read_bits(&mut self, w: usize) -> (r: Result<u64, CodeError>)
        ensures
            r is Ok <==> w <= old(self).bits().len(),
    {
        self.take_binary(w)
    }

    fn read_unary(&mut self) -> (r: Result<u64, CodeError>)
        ensures
            r is Ok <==> exists|i: int|
                0 <= i < old(self).bits().len() && old(self).bits()[i],
    {
        let n = self.data.len();
        if self.pos >= n {
            proof {
                assert(self.bits().len() == 0);
            }
            return Err(CodeError::EndOfStream);
        }
        let ghost p0 = self.pos as int;
        let mut count: u64 = 0;
        while self.pos < n && !self.data[self.pos]
            invariant
                n == self.data@.len(),
                self.data@ == old(self).data@,
                p0 == old(self).pos,
                p0 <= self.pos <= n,
                count == self.pos - p0,
                forall|j: int| p0 <= j < self.pos ==> !self.data@[j],
            decreases n - self.pos,
        {
            self.pos = self.pos + 1;
            count = count + 1;
        }
        if self.pos < n {
            self.pos = self.pos + 1;
            proof {
                assert(old(self).bits() =~= unary_code(count as nat) + self.bits()) by {
                    assert forall|i: int|
                        0 <= i < old(self).bits().len() implies old(self).bits()[i] == (unary_code(
                        count as nat,
                    ) + self.bits())[i] by {
                        if i < count {
                            assert(old(self).bits()[i] == self.data@[p0 + i]);
                        } else if i == count {
                            assert(old(self).bits()[i] == self.data@[p0 + count]);
                        } else {
                            assert(old(self).bits()[i] == self.data@[p0 + i]);
                            assert((unary_code(count as nat) + self.bits())[i] == self.bits()[i
                                - count - 1]);
                        }
                    }
                }
                assert(old(self).bits()[count as int]);
            }
            Ok(count)
        } else {
            proof {
                assert forall|i: int|
                    0 <= i < old(self).bits().len() implies !old(self).bits()[i] by {
                    assert(old(self).bits()[i] == self.data@[p0 + i]);
                }
            }
            Err(CodeError::EndOfStream)
        }
    }
}

} // verus!
