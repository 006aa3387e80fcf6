//! Bit- and chunk-level index arithmetic: splitting a table row index into
//! its two sub-operands, splitting a machine word into equal-width chunks,
//! and the digit-sequence view that relates chunked words to their values.
use vstd::prelude::*;

verus! {

use vstd::arithmetic::power2::{pow2, lemma_pow2_pos, lemma_pow2_adds, lemma_pow2_strictly_increases, lemma2_to64, lemma2_to64_rest};
use vstd::arithmetic::div_mod::{lemma_fundamental_div_mod, lemma_div_denominator, lemma_basic_div, lemma_mod_bound, lemma_small_mod};
use vstd::arithmetic::mul::{lemma_mul_inequality, lemma_mul_is_commutative};

/// 2 to the power `e`, as a machine word.
pub fn pow2_u64(e: u64) -> (r: u64)
    requires
        e < 64,
    ensures
        r as nat == pow2(e as nat),
{
    let mut r: u64 = 1;
    let mut i: u64 = 0;
    proof {
        lemma2_to64();
        lemma2_to64_rest();
    }
    while i < e
        invariant
            i <= e < 64,
            r as nat == pow2(i as nat),
            pow2(63) == 0x8000000000000000,
        decreases e - i,
    {
        proof {
            lemma_pow2_double(i as nat);
            if i + 1 < 63 {
                lemma_pow2_strictly_increases((i + 1) as nat, 63nat);
            }
        }
        r = r * 2;
        i = i + 1;
    }
    r
}

/// Doubling steps one power of two up.
pub proof fn lemma_pow2_double(e: nat)
    ensures
        pow2(e + 1) == 2 * pow2(e),
{
    lemma_pow2_adds(e, 1nat);
    lemma2_to64();
}

/// The high sub-operand of a table row index: its bits above position `b`.
pub open spec fn split_lhs(idx: int, b: nat) -> int {
    idx / pow2(b) as int
}

/// The low sub-operand of a table row index: its `b` least significant bits.
pub open spec fn split_rhs(idx: int, b: nat) -> int {
    idx % pow2(b) as int
}

/// Splits a table row index into its two equal-width sub-operands: the bits
/// above position `b` and the `b` bits below.
pub fn split_bits(idx: usize, b: usize) -> (r: (usize, usize))
    requires
        b < 64,
        pow2(b as nat) <= usize::MAX,
    ensures
        r.0 == split_lhs(idx as int, b as nat),
        r.1 == split_rhs(idx as int, b as nat),
{
    proof {
        lemma_pow2_pos(b as nat);
    }
    let p: usize = pow2_u64(b as u64) as usize;
    (idx / p, idx % p)
}

/// Chunk `i` of `c` big-endian chunks of `l` bits each, taken from `x`.
pub open spec fn chunk_of(x: int, c: int, l: nat, i: int) -> int {
    (x / pow2(((c - 1 - i) * l) as nat) as int) % pow2(l) as int
}

/// Splits a 64-bit operand into `c` big-endian chunks of `l` bits each;
/// chunks above bit 63 are zero.
pub fn chunk_operand(x: u64, c: usize, l: usize) -> (r: Vec<u64>)
    requires
        1 <= c,
        l < 64,
        c * l <= u64::MAX,
    ensures
        r@.len() == c,
        forall|i: int|
            0 <= i < c ==> #[trigger] r@[i] as int == chunk_of(x as int, c as int, l as nat, i),
        forall|i: int| 0 <= i < c ==> #[trigger] r@[i] < pow2(l as nat),
{
    let mut r: Vec<u64> = Vec::new();
    let mut i: usize = 0;
    proof {
        lemma_pow2_pos(l as nat);
    }
    let pl: u64 = pow2_u64(l as u64);
    while i < c
        invariant
            i <= c,
            1 <= c,
            l < 64,
            c * l <= u64::MAX,
            pl as nat == pow2(l as nat),
            pl >= 1,
            r@.len() == i,
            forall|k: int|
                0 <= k < i ==> #[trigger] r@[k] as int == chunk_of(x as int, c as int, l as nat, k),
            forall|k: int| 0 <= k < i ==> #[trigger] r@[k] < pow2(l as nat),
        decreases c - i,
    {
        proof {
            lemma_mul_inequality((c - 1 - i) as int, c as int, l as int);
        }
        let shift: u64 = ((c - 1 - i) as u64) * (l as u64);
        let chunk: u64 = if shift >= 64 {
            proof {
                lemma2_to64_rest();
                assert(pow2(64) == 0x10000000000000000);
                if shift > 64 {
                    lemma_pow2_strictly_increases(64nat, shift as nat);
                }
                assert(x < pow2(shift as nat));
                lemma_basic_div(x as int, pow2(shift as nat) as int);
                lemma_small_mod(0nat, pow2(l as nat));
            }
            0
        } else {
            proof {
                lemma_pow2_pos(shift as nat);
                lemma_mod_bound(x as int / pow2(shift as nat) as int, pow2(l as nat) as int);
            }
            let ps: u64 = pow2_u64(shift);
            (x / ps) % pl
        };
        r.push(chunk);
        i = i + 1;
    }
    r
}

/// The value of a big-endian digit sequence in the given base.
pub open spec fn digits_val(s: Seq<int>, base: int) -> int
    decreases s.len(),
{
    if s.len() == 0 {
        0
    } else {
        digits_val(s.drop_last(), base) * base + s.last()
    }
}

/// Whether every entry of `s` is a digit for `base`.
pub open spec fn all_digits(s: Seq<int>, base: int) -> bool {
    forall|i: int| 0 <= i < s.len() ==> 0 <= #[trigger] s[i] < base
}

/// The first `i` digits of `a` and `b` are pointwise equal.
pub open spec fn pref_eq(a: Seq<int>, b: Seq<int>, i: int) -> bool
    decreases i,
{
    if i <= 0 {
        true
    } else {
        pref_eq(a, b, i - 1) && a[i - 1] == b[i - 1]
    }
}

/// The first `i` digits of `a` precede those of `b` lexicographically.
pub open spec fn pref_lt(a: Seq<int>, b: Seq<int>, i: int) -> bool
    decreases i,
{
    if i <= 0 {
        false
    } else {
        pref_lt(a, b, i - 1) || (pref_eq(a, b, i - 1) && a[i - 1] < b[i - 1])
    }
}

/// A digit sequence's value is bounded by `base` to its length.
pub proof fn lemma_digits_val_bound(s: Seq<int>, base: int)
    requires
        base >= 1,
        all_digits(s, base),
    ensures
        0 <= digits_val(s, base),
        digits_val(s, base) < vstd::arithmetic::power::pow(base, s.len()),
    decreases s.len(),
{
    vstd::arithmetic::power::lemma_pow_positive(base, s.len());
    if s.len() == 0 {
    } else {
        let pre = s.drop_last();
        assert(all_digits(pre, base));
        lemma_digits_val_bound(pre, base);
        let pp = vstd::arithmetic::power::pow(base, pre.len());
        assert(digits_val(pre, base) <= pp - 1);
        lemma_mul_inequality(digits_val(pre, base), pp - 1, base);
        assert(vstd::arithmetic::power::pow(base, s.len()) == pp * base) by {
            vstd::arithmetic::power::lemma_pow1(base);
            vstd::arithmetic::power::lemma_pow_adds(base, pre.len(), 1nat);
        }
        assert((pp - 1) * base == pp * base - base) by (nonlinear_arith);
    }
}

/// Extending a prefix by one digit multiplies its value by the base and
/// adds the new digit.
pub proof fn lemma_digits_val_take_step(s: Seq<int>, base: int, i: int)
    requires
        0 <= i < s.len(),
    ensures
        digits_val(s.take(i + 1), base) == digits_val(s.take(i), base) * base + s[i],
{
    assert(s.take(i + 1).drop_last() =~= s.take(i));
    assert(s.take(i + 1).last() == s[i]);
}

/// Lexicographic order on equal-length digit prefixes coincides with the
/// numeric order of their values, and prefix equality with value equality.
pub proof fn lemma_pref_order_is_val_order(a: Seq<int>, b: Seq<int>, base: int, i: int)
    requires
        base >= 1,
        all_digits(a, base),
        all_digits(b, base),
        a.len() == b.len(),
        0 <= i <= a.len(),
    ensures
        pref_eq(a, b, i) <==> digits_val(a.take(i), base) == digits_val(b.take(i), base),
        pref_lt(a, b, i) <==> digits_val(a.take(i), base) < digits_val(b.take(i), base),
    decreases i,
{
    if i <= 0 {
        assert(a.take(0) =~= Seq::<int>::empty());
        assert(b.take(0) =~= Seq::<int>::empty());
    } else {
        lemma_pref_order_is_val_order(a, b, base, i - 1);
        lemma_digits_val_take_step(a, base, i - 1);
        lemma_digits_val_take_step(b, base, i - 1);
        let va = digits_val(a.take(i - 1), base);
        let vb = digits_val(b.take(i - 1), base);
        assert(all_digits(a.take(i - 1), base));
        assert(all_digits(b.take(i - 1), base));
        lemma_digits_val_bound(a.take(i - 1), base);
        lemma_digits_val_bound(b.take(i - 1), base);
        let da = a[i - 1];
        let db = b[i - 1];
        assert(0 <= da < base && 0 <= db < base);
        assert(va < vb ==> va * base + da < vb * base + db) by (nonlinear_arith)
            requires
                0 <= da < base,
                0 <= db < base,
        ;
        assert(vb < va ==> vb * base + db < va * base + da) by (nonlinear_arith)
            requires
                0 <= da < base,
                0 <= db < base,
        ;
    }
}

/// The big-endian chunks of a word reconstruct the word, provided the
/// chunks jointly cover all of its bits.
pub proof fn lemma_chunks_reconstruct(x: u64, c: int, l: nat, chunks: Seq<int>)
    requires
        1 <= c,
        c * l >= 64,
        chunks.len() == c,
        forall|i: int| 0 <= i < c ==> #[trigger] chunks[i] == chunk_of(x as int, c, l, i),
    ensures
        digits_val(chunks, pow2(l) as int) == x as int,
{
    lemma_pow2_pos(l);
    lemma_chunk_prefix(x, c, l, chunks, c);
    assert(chunks.take(c) =~= chunks);
    assert((c - c) * l == 0) by (nonlinear_arith);
    assert(pow2(0) == 1) by {
        lemma2_to64();
    }
    vstd::arithmetic::div_mod::lemma_div_basics(x as int);
}

/// The value of the first `i` chunks of `x` is `x` shifted down by the
/// bits that the remaining chunks cover.
proof fn lemma_chunk_prefix(x: u64, c: int, l: nat, chunks: Seq<int>, i: int)
    requires
        1 <= c,
        c * l >= 64,
        chunks.len() == c,
        forall|k: int| 0 <= k < c ==> #[trigger] chunks[k] == chunk_of(x as int, c, l, k),
        0 <= i <= c,
    ensures
        digits_val(chunks.take(i), pow2(l) as int) == x as int / pow2(((c - i) * l) as nat) as int,
    decreases i,
{
    lemma_pow2_pos(l);
    if i == 0 {
        assert(chunks.take(0) =~= Seq::<int>::empty());
        // all chunks remain: the shift clears every bit of x
        assert(c * l >= 64);
        assert(x < pow2((c * l) as nat)) by {
            if c * l > 64 {
                lemma_pow2_strictly_increases(64nat, (c * l) as nat);
            }
            lemma2_to64();
            lemma2_to64_rest();
            assert(pow2(64) == 0x10000000000000000);
        }
        lemma_basic_div(x as int, pow2((c * l) as nat) as int);
    } else {
        lemma_chunk_prefix(x, c, l, chunks, i - 1);
        lemma_digits_val_take_step(chunks, pow2(l) as int, i - 1);
        let s_hi = ((c - i + 1) * l) as nat;
        let s_lo = ((c - i) * l) as nat;
        assert(s_hi == s_lo + l) by (nonlinear_arith)
            requires
                1 <= i <= c,
                s_hi == ((c - i + 1) * l) as nat,
                s_lo == ((c - i) * l) as nat,
        ;
        let q = x as int / pow2(s_lo) as int;
        // the chunk at position i - 1 is the low l bits of q
        assert(chunks[i - 1] == q % pow2(l) as int);
        // shifting q down by l more bits gives the previous prefix value
        assert(x as int / pow2(s_hi) as int == q / pow2(l) as int) by {
            lemma_pow2_adds(s_lo, l);
            lemma_pow2_pos(s_lo);
            lemma_div_denominator(x as int, pow2(s_lo) as int, pow2(l) as int);
        }
        lemma_fundamental_div_mod(q, pow2(l) as int);
        assert(digits_val(chunks.take(i), pow2(l) as int) == (q / pow2(l) as int) * pow2(l) as int
            + q % pow2(l) as int) by {
            lemma_mul_is_commutative(q / pow2(l) as int, pow2(l) as int);
        }
    }
}

/// The smallest power of two that is at least `n`.
pub open spec fn next_pow2_spec(n: int) -> nat
    decreases n,
{
    if n <= 1 {
        1
    } else {
        2 * next_pow2_spec((n + 1) / 2)
    }
}

/// Rounds a positive count up to the next power of two.
pub fn next_pow2(n: usize) -> (r: usize)
    requires
        1 <= n,
        n <= usize::MAX / 2 + 1,
    ensures
        is_pow2_u(r as nat),
        n <= r,
        r < 2 * n,
{
    let mut r: usize = 1;
    proof {
        lemma2_to64();
        assert(r as nat == pow2(0));
    }
    while r < n
        invariant
            1 <= r,
            1 <= n <= usize::MAX / 2 + 1,
            is_pow2_u(r as nat),
            r < 2 * n,
        decreases 2 * n - r,
    {
        proof {
            let e = choose|e: nat| r as nat == pow2(e);
            lemma_pow2_double(e);
            assert((2 * r) as nat == pow2(e + 1));
        }
        r = r * 2;
    }
    r
}

/// Whether `n` is a power of two.
pub open spec fn is_pow2_u(n: nat) -> bool {
    exists|e: nat| n == pow2(e)
}

} // verus!
