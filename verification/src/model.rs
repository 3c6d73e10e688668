//! Mathematical model of the three bit-level codes.
//!
//! Each code is a `Seq<bool>`: `true` is a one bit, `false` a zero bit, and
//! codes are concatenated front to back. The lemmas at the end of the module
//! state the two facts the rest of the crate rests on: every code has the
//! length the length calculators report, and a Golomb code followed by
//! arbitrary bits determines its value and the leftover bits uniquely.

use vstd::arithmetic::div_mod::{lemma_fundamental_div_mod, lemma_multiply_divide_lt};
use vstd::arithmetic::power2::{lemma2_to64, lemma_pow2_unfold, pow2};
use vstd::prelude::*;

verus! {

/// The unary code of `q`: `q` zero bits followed by a terminating one bit.
pub open spec fn unary_code(q: nat) -> Seq<bool> {
    Seq::new(q, |i: int| false).push(true)
}

/// The binary code of `v` in exactly `w` bits, most significant bit first.
/// Meaningful for `v < pow2(w)`.
pub open spec fn binary_code(v: nat, w: nat) -> Seq<bool>
    decreases w,
{
    if w == 0 {
        Seq::empty()
    } else {
        binary_code(v / 2, (w - 1) as nat).push(v % 2 == 1)
    }
}

/// The floor of the base-two logarithm, with `floor_log2(m) == 0` for `m <= 1`.
pub open spec fn floor_log2(m: nat) -> nat
    decreases m,
{
    if m <= 1 {
        0
    } else {
        1 + floor_log2(m / 2)
    }
}

/// How many of the values in `[0, m)` receive the shorter of the two widths
/// that the minimal binary code under modulus `m` uses.
pub open spec fn mb_limit(m: nat) -> nat {
    (pow2(floor_log2(m) + 1) - m) as nat
}

/// The minimal binary (truncated binary) code of `r` under modulus `m`:
/// values below `mb_limit(m)` use `floor_log2(m)` bits, the rest are shifted
/// up by `mb_limit(m)` and use one bit more. Meaningful for `r < m`, `m >= 1`.
pub open spec fn minimal_binary_code(r: nat, m: nat) -> Seq<bool> {
    if r < mb_limit(m) {
        binary_code(r, floor_log2(m))
    } else {
        binary_code(r + mb_limit(m), floor_log2(m) + 1)
    }
}

/// The length, in bits, of the minimal binary code of `r` under modulus `m`.
pub open spec fn spec_len_minimal_binary(r: nat, m: nat) -> nat {
    if r < mb_limit(m) {
        floor_log2(m)
    } else {
        floor_log2(m) + 1
    }
}

/// The Golomb code of `x` with modulus `b`: the unary code of the quotient
/// followed by the minimal binary code of the remainder.
pub open spec fn golomb_code(x: nat, b: nat) -> Seq<bool>
    recommends
        b >= 1,
{
    unary_code(x / b) + minimal_binary_code(x % b, b)
}

/// The length, in bits, of the Golomb code of `x` with modulus `b`.
pub open spec fn spec_len_golomb(x: nat, b: nat) -> nat
    recommends
        b >= 1,
{
    x / b + 1 + spec_len_minimal_binary(x % b, b)
}

/// `floor_log2` is exact: `m` lies between the two neighbouring powers of two.
pub proof fn lemma_floor_log2_bounds(m: nat)
    requires
        m >= 1,
    ensures
        pow2(floor_log2(m)) <= m < pow2(floor_log2(m) + 1),
    decreases m,
{
    if m <= 1 {
        lemma2_to64();
    } else {
        lemma_floor_log2_bounds(m / 2);
        let l = floor_log2(m / 2);
        lemma_fundamental_div_mod(m as int, 2);
        lemma_pow2_unfold(l + 1);
        lemma_pow2_unfold(l + 2);
    }
}

/// The short range of the minimal binary code is non-empty and no wider than
/// `pow2(floor_log2(m))`.
pub proof fn lemma_mb_limit_bounds(m: nat)
    requires
        m >= 1,
    ensures
        1 <= mb_limit(m) <= pow2(floor_log2(m)),
        m + mb_limit(m) == pow2(floor_log2(m) + 1),
{
    lemma_floor_log2_bounds(m);
    lemma_pow2_unfold(floor_log2(m) + 1);
}

/// A binary code occupies exactly its width.
pub proof fn lemma_binary_code_len(v: nat, w: nat)
    ensures
        binary_code(v, w).len() == w,
    decreases w,
{
    if w > 0 {
        lemma_binary_code_len(v / 2, (w - 1) as nat);
    }
}

/// A unary code occupies one bit more than its value.
pub proof fn lemma_unary_code_len(q: nat)
    ensures
        unary_code(q).len() == q + 1,
{
}

/// A minimal binary code occupies exactly the length the model reports.
pub proof fn lemma_minimal_binary_code_len(r: nat, m: nat)
    requires
        m >= 1,
        r < m,
    ensures
        minimal_binary_code(r, m).len() == spec_len_minimal_binary(r, m),
{
    if r < mb_limit(m) {
        lemma_binary_code_len(r, floor_log2(m));
    } else {
        lemma_binary_code_len(r + mb_limit(m), floor_log2(m) + 1);
    }
}

/// LAW (length agreement, model side): a Golomb code occupies exactly
/// `spec_len_golomb(x, b)` bits.
pub proof fn lemma_golomb_code_len(x: nat, b: nat)
    requires
        b >= 1,
    ensures
        golomb_code(x, b).len() == spec_len_golomb(x, b),
{
    lemma_unary_code_len(x / b);
    lemma_minimal_binary_code_len(x % b, b);
}

/// Two equal concatenations with equally long heads have equal heads and
/// equal tails.
pub proof fn lemma_concat_cancel(a: Seq<bool>, b: Seq<bool>, s: Seq<bool>, t: Seq<bool>)
    requires
        a.len() == b.len(),
        a + s == b + t,
    ensures
        a == b,
        s == t,
{
    assert((a + s).len() == a.len() + s.len());
    assert((b + t).len() == b.len() + t.len());
    assert(s.len() == t.len());
    assert(a =~= b) by {
        assert forall|i: int| 0 <= i < a.len() implies a[i] == b[i] by {
            assert((a + s)[i] == a[i]);
            assert((b + t)[i] == b[i]);
        }
    }
    assert(s =~= t) by {
        assert forall|i: int| 0 <= i < s.len() implies s[i] == t[i] by {
            assert((a + s)[a.len() + i] == s[i]);
            assert((b + t)[b.len() + i] == t[i]);
        }
    }
}

/// Appending to a pushed sequence is the same as pushing into the middle of
/// a concatenation.
pub proof fn lemma_push_concat(a: Seq<bool>, x: bool, t: Seq<bool>)
    ensures
        a.push(x) + t == a + (seq![x] + t),
{
    assert(a.push(x) + t =~= a + (seq![x] + t));
}

/// Concatenation of bit sequences is associative.
pub proof fn lemma_concat_assoc(a: Seq<bool>, b: Seq<bool>, c: Seq<bool>)
    ensures
        (a + b) + c == a + (b + c),
{
    assert((a + b) + c =~= a + (b + c));
}

/// Fixed-width binary codes are injective on the values that fit the width.
pub proof fn lemma_binary_code_injective(v: nat, u: nat, w: nat)
    requires
        v < pow2(w),
        u < pow2(w),
        binary_code(v, w) == binary_code(u, w),
    ensures
        v == u,
    decreases w,
{
    lemma2_to64();
    if w > 0 {
        let w1 = (w - 1) as nat;
        let sv = binary_code(v / 2, w1);
        let su = binary_code(u / 2, w1);
        lemma_binary_code_len(v / 2, w1);
        lemma_binary_code_len(u / 2, w1);
        assert(sv.push(v % 2 == 1) == su.push(u % 2 == 1));
        assert(sv.push(v % 2 == 1)[w1 as int] == (v % 2 == 1));
        assert(su.push(u % 2 == 1)[w1 as int] == (u % 2 == 1));
        assert(sv =~= su) by {
            assert forall|i: int| 0 <= i < w1 implies sv[i] == su[i] by {
                assert(sv.push(v % 2 == 1)[i] == sv[i]);
                assert(su.push(u % 2 == 1)[i] == su[i]);
            }
        }
        lemma_pow2_unfold(w);
        lemma_multiply_divide_lt(v as int, 2, pow2(w1) as int);
        lemma_multiply_divide_lt(u as int, 2, pow2(w1) as int);
        lemma_binary_code_injective(v / 2, u / 2, w1);
        lemma_fundamental_div_mod(v as int, 2);
        lemma_fundamental_div_mod(u as int, 2);
    }
}

/// A one-bit binary code is the single bit of its value.
pub proof fn lemma_binary_code_one(v: nat)
    requires
        v < 2,
    ensures
        binary_code(v, 1) == seq![v == 1],
{
    assert(binary_code(v, 1) =~= binary_code(v / 2, 0).push(v % 2 == 1));
    assert(binary_code(v / 2, 0) =~= Seq::<bool>::empty());
    assert(Seq::<bool>::empty().push(v == 1) =~= seq![v == 1]);
}

/// Dropping the last bit of a binary code drops the least significant bit of
/// the value.
pub proof fn lemma_binary_code_split(v: nat, w: nat)
    requires
        w >= 1,
    ensures
        binary_code(v, w) == binary_code(v / 2, (w - 1) as nat).push(v % 2 == 1),
{
}

/// A unary code followed by arbitrary bits determines its value and the
/// leftover bits uniquely.
pub proof fn lemma_unary_concat_cancel(q1: nat, q2: nat, s: Seq<bool>, t: Seq<bool>)
    requires
        unary_code(q1) + s == unary_code(q2) + t,
    ensures
        q1 == q2,
        s == t,
{
    lemma_unary_code_len(q1);
    lemma_unary_code_len(q2);
    if q1 < q2 {
        assert((unary_code(q1) + s)[q1 as int] == true);
        assert((unary_code(q2) + t)[q1 as int] == unary_code(q2)[q1 as int]);
        assert(unary_code(q2)[q1 as int] == false);
    }
    if q2 < q1 {
        assert((unary_code(q2) + t)[q2 as int] == true);
        assert((unary_code(q1) + s)[q2 as int] == unary_code(q1)[q2 as int]);
        assert(unary_code(q1)[q2 as int] == false);
    }
    lemma_concat_cancel(unary_code(q1), unary_code(q2), s, t);
}

/// A minimal binary code followed by arbitrary bits determines its value and
/// the leftover bits uniquely: the code is prefix-free within its modulus.
pub proof fn lemma_minimal_binary_concat_cancel(r1: nat, r2: nat, m: nat, s: Seq<bool>, t: Seq<bool>)
    requires
        m >= 1,
        r1 < m,
        r2 < m,
        minimal_binary_code(r1, m) + s == minimal_binary_code(r2, m) + t,
    ensures
        r1 == r2,
        s == t,
{
    let l = floor_log2(m);
    let lim = mb_limit(m);
    lemma_floor_log2_bounds(m);
    lemma_mb_limit_bounds(m);
    lemma_pow2_unfold(l + 1);
    lemma_binary_code_len(r1, l);
    lemma_binary_code_len(r2, l);
    lemma_binary_code_len(r1 + lim, l + 1);
    lemma_binary_code_len(r2 + lim, l + 1);
    if r1 < lim && r2 < lim {
        lemma_concat_cancel(binary_code(r1, l), binary_code(r2, l), s, t);
        lemma_binary_code_injective(r1, r2, l);
    } else if r1 >= lim && r2 >= lim {
        lemma_concat_cancel(binary_code(r1 + lim, l + 1), binary_code(r2 + lim, l + 1), s, t);
        lemma_binary_code_injective(r1 + lim, r2 + lim, l + 1);
    } else if r1 < lim {
        lemma_long_code_head(r2, m, t);
        let n = r2 + lim;
        lemma_binary_code_len(n / 2, l);
        lemma_concat_cancel(binary_code(r1, l), binary_code(n / 2, l), s, seq![n % 2 == 1] + t);
        // The head of a long code names a value at or above the limit, so it
        // can never equal the code of a short value: the premise closes here.
        lemma_binary_code_injective(r1, n / 2, l);
    } else {
        lemma_long_code_head(r1, m, s);
        let n = r1 + lim;
        lemma_binary_code_len(n / 2, l);
        lemma_concat_cancel(binary_code(n / 2, l), binary_code(r2, l), seq![n % 2 == 1] + s, t);
        lemma_binary_code_injective(n / 2, r2, l);
    }
}

/// Helper: a long minimal binary code splits into a head of `floor_log2(m)`
/// bits naming a value at or above `mb_limit(m)` and one trailing bit.
proof fn lemma_long_code_head(r: nat, m: nat, t: Seq<bool>)
    requires
        m >= 1,
        mb_limit(m) <= r < m,
    ensures
        minimal_binary_code(r, m) + t == binary_code((r + mb_limit(m)) / 2, floor_log2(m)) + (
        seq![(r + mb_limit(m)) % 2 == 1] + t),
        mb_limit(m) <= (r + mb_limit(m)) / 2 < pow2(floor_log2(m)),
{
    let l = floor_log2(m);
    let lim = mb_limit(m);
    lemma_floor_log2_bounds(m);
    lemma_mb_limit_bounds(m);
    lemma_pow2_unfold(l + 1);
    let n = r + lim;
    lemma_binary_code_split(n, l + 1);
    lemma_push_concat(binary_code(n / 2, l), n % 2 == 1, t);
    lemma_multiply_divide_lt(n as int, 2, pow2(l) as int);
    lemma_fundamental_div_mod(n as int, 2);
}

/// LAW (round trip, model side): a Golomb code followed by arbitrary bits
/// determines the encoded value and the leftover bits uniquely, so decoding
/// what the encoder wrote can only return the value that was encoded.
pub proof fn lemma_golomb_concat_cancel(x: nat, y: nat, b: nat, s: Seq<bool>, t: Seq<bool>)
    requires
        b >= 1,
        golomb_code(x, b) + s == golomb_code(y, b) + t,
    ensures
        x == y,
        s == t,
{
    lemma_concat_assoc(unary_code(x / b), minimal_binary_code(x % b, b), s);
    lemma_concat_assoc(unary_code(y / b), minimal_binary_code(y % b, b), t);
    lemma_unary_concat_cancel(
        x / b,
        y / b,
        minimal_binary_code(x % b, b) + s,
        minimal_binary_code(y % b, b) + t,
    );
    lemma_minimal_binary_concat_cancel(x % b, y % b, b, s, t);
    lemma_fundamental_div_mod(x as int, b as int);
    lemma_fundamental_div_mod(y as int, b as int);
}

} // verus!
