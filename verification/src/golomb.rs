//! Golomb codes.
//!
//! Given a modulus `b >= 1`, the Golomb code of `x` is the quotient `x / b`
//! in unary code followed by the remainder `x % b` in minimal binary code
//! under modulus `b`. Any bit source or sink gains the reader and writer
//! through the blanket impls at the end of the module.

use crate::minimal_binary::{len_minimal_binary, MinimalBinaryRead, MinimalBinaryWrite};
use crate::model::{
    golomb_code, lemma_concat_assoc, lemma_minimal_binary_concat_cancel, lemma_unary_concat_cancel,
    minimal_binary_code, spec_len_golomb, spec_len_minimal_binary, unary_code,
};
use crate::traits::{BitRead, BitWrite};
use vstd::arithmetic::div_mod::{
    lemma_fundamental_div_mod, lemma_fundamental_div_mod_converse_div,
    lemma_fundamental_div_mod_converse_mod,
};
use vstd::prelude::*;

verus! {

/// Returns the length, in bits, of the Golomb code for `n` with modulus `b`,
/// without performing any I/O: the unary code of the quotient takes
/// `n / b + 1` bits and the remainder takes its minimal binary length.
pub fn len_golomb(n: u64, b: u64) -> (len: usize)
    requires
        b >= 1,
        spec_len_golomb(n as nat, b as nat) <= usize::MAX,
    ensures
        len == spec_len_golomb(n as nat, b as nat),
        len == n as nat / b as nat + 1 + spec_len_minimal_binary((n % b) as nat, b as nat),
{
    let q = n / b;
    let lm = len_minimal_binary(n % b, b);
    (q as usize) + 1 + lm
}

/// Holds when no prefix of `bits` spells a quotient and a remainder whose
/// recombination under modulus `b` overflows a machine word. A stream that
/// starts with the Golomb code of some value satisfies it; see
/// [`lemma_golomb_fits`].
pub open spec fn golomb_fits(bits: Seq<bool>, b: nat) -> bool {
    forall|q: nat, r: nat, s: Seq<bool>|
        r < b && bits == #[trigger] (unary_code(q) + (minimal_binary_code(r, b) + s)) ==> q * b + r
            <= u64::MAX
}

/// Any stream that starts with the Golomb code of a machine word decodes
/// without overflow: the code determines the quotient and the remainder, and
/// they recombine to the encoded value.
pub proof fn lemma_golomb_fits(x: u64, b: u64, rest: Seq<bool>)
    requires
        b >= 1,
    ensures
        golomb_fits(golomb_code(x as nat, b as nat) + rest, b as nat),
{
    let bn = b as nat;
    let xn = x as nat;
    assert forall|q: nat, r: nat, s: Seq<bool>|
        r < bn && golomb_code(xn, bn) + rest == #[trigger] (unary_code(q) + (minimal_binary_code(
            r,
            bn,
        ) + s)) implies q * bn + r <= u64::MAX by {
        lemma_concat_assoc(unary_code(xn / bn), minimal_binary_code(xn % bn, bn), rest);
        lemma_golomb_concat_cancel_parts(xn, q, r, bn, rest, s);
        lemma_fundamental_div_mod(xn as int, bn as int);
    }
}

/// Helper: reading a stream that starts with the Golomb code of `x` as a
/// unary quotient `q` and a minimal binary remainder `r` recovers the parts
/// of `x`.
proof fn lemma_golomb_concat_cancel_parts(x: nat, q: nat, r: nat, b: nat, rest: Seq<bool>, s: Seq<bool>)
    requires
        b >= 1,
        r < b,
        unary_code(x / b) + (minimal_binary_code(x % b, b) + rest) == unary_code(q) + (
        minimal_binary_code(r, b) + s),
    ensures
        q == x / b,
        r == x % b,
        s == rest,
{
    lemma_unary_concat_cancel(
        x / b,
        q,
        minimal_binary_code(x % b, b) + rest,
        minimal_binary_code(r, b) + s,
    );
    lemma_minimal_binary_concat_cancel(x % b, r, b, rest, s);
}

/// Trait for reading Golomb codes, provided for every bit source.
pub trait GolombRead: BitRead + MinimalBinaryRead {
    /// Reads a unary quotient, then a minimal binary remainder under modulus
    /// `b`, and returns their recombination. The caller keeps the stream free
    /// of overflowing codes; a stream an encoder filled does that, see
    /// [`lemma_golomb_fits`].
    fn read_golomb(&mut self, b: u64) -> (r: Result<u64, Self::Error>)
        requires
            b >= 1,
            golomb_fits(old(self).bits(), b as nat),
        ensures
            r matches Ok(x) ==> old(self).bits() == golomb_code(x as nat, b as nat)
                + final(self).bits(),
    {
        let q = self.read_unary()?;
        let rem = self.read_minimal_binary(b)?;
        proof {
            assert(old(self).bits() == unary_code(q as nat) + (minimal_binary_code(
                rem as nat,
                b as nat,
            ) + self.bits()));
        }
        let x = q * b + rem;
        proof {
            lemma_fundamental_div_mod_converse_div(x as int, b as int, q as int, rem as int);
            lemma_fundamental_div_mod_converse_mod(x as int, b as int, q as int, rem as int);
            lemma_concat_assoc(
                unary_code(q as nat),
                minimal_binary_code(rem as nat, b as nat),
                self.bits(),
            );
        }
        Ok(x)
    }
}

/// Trait for writing Golomb codes, provided for every bit sink.
pub trait GolombWrite: BitWrite + MinimalBinaryWrite {
    /// Writes the unary code of `n / b`, then the minimal binary code of
    /// `n % b` under modulus `b`, back to back, and returns the total number
    /// of bits written, which equals `len_golomb(n, b)`.
    fn write_golomb(&mut self, n: u64, b: u64) -> (r: Result<usize, Self::Error>)
        requires
            b >= 1,
            spec_len_golomb(n as nat, b as nat) <= usize::MAX,
        ensures
            r matches Ok(k) ==> k == spec_len_golomb(n as nat, b as nat) && final(self).bits()
                == old(self).bits() + golomb_code(n as nat, b as nat),
    {
        let q = n / b;
        let rem = n % b;
        let k1 = self.write_unary(q)?;
        let k2 = self.write_minimal_binary(rem, b)?;
        proof {
            lemma_concat_assoc(
                old(self).bits(),
                unary_code(q as nat),
                minimal_binary_code(rem as nat, b as nat),
            );
        }
        Ok(k1 + k2)
    }
}

impl<B: BitRead> GolombRead for B {

}

impl<B: BitWrite> GolombWrite for B {

}

} // verus!
