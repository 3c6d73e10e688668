//! Minimal binary (truncated binary) codes.
//!
//! A value `r` in `[0, m)` is coded in `floor_log2(m)` bits when it lies in
//! the short range `[0, mb_limit(m))`, and otherwise shifted up by
//! `mb_limit(m)` and coded in one bit more. Any bit source or sink gains the
//! reader and writer through the blanket impls at the end of the module.

use crate::model::{
    binary_code, floor_log2, lemma_binary_code_one, lemma_binary_code_split, lemma_concat_assoc,
    lemma_floor_log2_bounds, lemma_mb_limit_bounds, lemma_push_concat, minimal_binary_code,
    spec_len_minimal_binary,
};
use crate::traits::{BitRead, BitWrite};
use vstd::arithmetic::div_mod::{
    lemma_div_denominator, lemma_fundamental_div_mod, lemma_fundamental_div_mod_converse_div,
    lemma_fundamental_div_mod_converse_mod, lemma_multiply_divide_lt,
};
use vstd::arithmetic::mul::lemma_mul_inequality;
use vstd::arithmetic::power2::{
    lemma2_to64, lemma2_to64_rest, lemma_pow2_pos, lemma_pow2_strictly_increases,
    lemma_pow2_unfold, pow2,
};
use vstd::prelude::*;

verus! {

/// Returns the floor of the base-two logarithm of `m`.
pub fn floor_log2_u64(m: u64) -> (l: u64)
    requires
        m >= 1,
    ensures
        l == floor_log2(m as nat),
        l <= 63,
{
    let mut v: u64 = m;
    let mut l: u64 = 0;
    proof {
        lemma2_to64();
    }
    while v >= 2
        invariant
            1 <= v <= m,
            l <= 63,
            floor_log2(m as nat) == l + floor_log2(v as nat),
            v == m as int / pow2(l as nat) as int,
        decreases v,
    {
        proof {
            lemma_pow2_pos(l as nat);
            lemma_pow2_unfold((l + 1) as nat);
            // with two bits still in v, m is at least 2 * pow2(l), so l + 1
            // stays below 64
            lemma_fundamental_div_mod(m as int, pow2(l as nat) as int);
            lemma_mul_inequality(2, v as int, pow2(l as nat) as int);
            if l == 63 {
                lemma2_to64();
            }
            // halving v is dividing m by the next power of two
            lemma_div_denominator(m as int, pow2(l as nat) as int, 2);
        }
        v = v / 2;
        l = l + 1;
    }
    l
}

/// Returns `pow2(e)` as a machine word.
pub fn pow2_u64(e: u64) -> (r: u64)
    requires
        e <= 63,
    ensures
        r == pow2(e as nat),
{
    let mut i: u64 = 0;
    let mut r: u64 = 1;
    proof {
        lemma2_to64();
    }
    while i < e
        invariant
            i <= e,
            e <= 63,
            r == pow2(i as nat),
        decreases e - i,
    {
        proof {
            lemma_pow2_unfold((i + 1) as nat);
            if i + 1 < 63 {
                lemma_pow2_strictly_increases((i + 1) as nat, 63);
            }
            lemma2_to64();
            lemma2_to64_rest();
        }
        r = r * 2;
        i = i + 1;
    }
    r
}

/// Returns the length, in bits, of the minimal binary code of `r` under
/// modulus `m`, without performing any I/O.
pub fn len_minimal_binary(r: u64, m: u64) -> (len: usize)
    requires
        m >= 1,
        r < m,
    ensures
        len == spec_len_minimal_binary(r as nat, m as nat),
        len <= 64,
{
    let l2 = floor_log2_u64(m);
    let half = pow2_u64(l2);
    proof {
        lemma_floor_log2_bounds(m as nat);
        lemma_mb_limit_bounds(m as nat);
        lemma_pow2_unfold((l2 + 1) as nat);
    }
    let limit = half - (m - half);
    if r < limit {
        l2 as usize
    } else {
        (l2 + 1) as usize
    }
}

/// Trait for reading minimal binary codes, provided for every bit source.
pub trait MinimalBinaryRead: BitRead {
    /// Reads a minimal binary code under modulus `m` and returns the coded
    /// value, which is below `m`.
    fn read_minimal_binary(&mut self, m: u64) -> (r: Result<u64, Self::Error>)
        requires
            m >= 1,
        ensures
            r matches Ok(v) ==> v < m && old(self).bits() == minimal_binary_code(
                v as nat,
                m as nat,
            ) + final(self).bits(),
    {
        let l2 = floor_log2_u64(m);
        let half = pow2_u64(l2);
        proof {
            lemma_floor_log2_bounds(m as nat);
            lemma_mb_limit_bounds(m as nat);
            lemma_pow2_unfold((l2 + 1) as nat);
        }
        let limit = half - (m - half);
        let v = self.read_bits(l2 as usize)?;
        if v < limit {
            Ok(v)
        } else {
            let bit = self.read_bits(1)?;
            proof {
                lemma2_to64();
                if l2 < 63 {
                    lemma_pow2_strictly_increases(l2 as nat, 63);
                }
                lemma2_to64_rest();
                lemma_binary_code_one(bit as nat);
            }
            let w = v * 2 + bit;
            proof {
                lemma_fundamental_div_mod_converse_div(w as int, 2, v as int, bit as int);
                lemma_fundamental_div_mod_converse_mod(w as int, 2, v as int, bit as int);
                lemma_binary_code_split(w as nat, (l2 + 1) as nat);
                lemma_push_concat(binary_code(v as nat, l2 as nat), w % 2 == 1, self.bits());
            }
            Ok(w - limit)
        }
    }
}

/// Trait for writing minimal binary codes, provided for every bit sink.
pub trait MinimalBinaryWrite: BitWrite {
    /// Writes the minimal binary code of `v` under modulus `m` and returns
    /// the number of bits written.
    fn write_minimal_binary(&mut self, v: u64, m: u64) -> (r: Result<usize, Self::Error>)
        requires
            m >= 1,
            v < m,
        ensures
            r matches Ok(n) ==> n == spec_len_minimal_binary(v as nat, m as nat) && final(self).bits()
                == old(self).bits() + minimal_binary_code(v as nat, m as nat),
    {
        let l2 = floor_log2_u64(m);
        let half = pow2_u64(l2);
        proof {
            lemma_floor_log2_bounds(m as nat);
            lemma_mb_limit_bounds(m as nat);
            lemma_pow2_unfold((l2 + 1) as nat);
        }
        let limit = half - (m - half);
        if v < limit {
            let n = self.write_bits(v, l2 as usize)?;
            Ok(n)
        } else {
            proof {
                lemma2_to64();
                if l2 + 1 < 64 {
                    lemma_pow2_strictly_increases((l2 + 1) as nat, 64);
                }
            }
            let w = v + limit;
            proof {
                lemma_multiply_divide_lt(w as int, 2, pow2(l2 as nat) as int);
                lemma_fundamental_div_mod(w as int, 2);
                lemma_binary_code_one((w % 2) as nat);
            }
            let n1 = self.write_bits(w / 2, l2 as usize)?;
            let n2 = self.write_bits(w % 2, 1)?;
            proof {
                lemma_binary_code_split(w as nat, (l2 + 1) as nat);
                lemma_concat_assoc(
                    old(self).bits(),
                    binary_code((w / 2) as nat, l2 as nat),
                    seq![w % 2 == 1],
                );
                assert(binary_code((w / 2) as nat, l2 as nat) + seq![w % 2 == 1]
                    =~= binary_code((w / 2) as nat, l2 as nat).push(w % 2 == 1));
            }
            Ok(n1 + n2)
        }
    }
}

impl<B: BitRead> MinimalBinaryRead for B {

}

impl<B: BitWrite> MinimalBinaryWrite for B {

}

} // verus!
