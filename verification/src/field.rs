//! A prime field of scalar values, the coefficient domain of every table,
//! polynomial and proof message in this crate.
//!
//! Elements are residues modulo `FIELD_MODULUS`, a Mersenne prime small
//! enough that every product of two reduced elements fits in a `u128`.
use vstd::prelude::*;

verus! {

use vstd::arithmetic::div_mod::{lemma_small_mod, lemma_mod_bound};

/// The field modulus: the Mersenne prime 2^61 - 1.
pub const FIELD_MODULUS: u64 = 2305843009213693951;

/// The modulus as a mathematical integer.
pub open spec fn modulus() -> int {
    FIELD_MODULUS as int
}

/// Field addition on reduced representatives.
pub open spec fn f_add(a: int, b: int) -> int {
    (a + b) % modulus()
}

/// Field subtraction on reduced representatives.
pub open spec fn f_sub(a: int, b: int) -> int {
    (a - b) % modulus()
}

/// Field multiplication on reduced representatives.
pub open spec fn f_mul(a: int, b: int) -> int {
    (a * b) % modulus()
}

/// One scalar of the field, kept reduced: `v < FIELD_MODULUS`.
#[derive(Clone, Copy, Debug, PartialEq, Eq, Structural)]
pub struct Fe {
    pub v: u64,
}

impl Fe {
    /// The reduced representative as a mathematical integer.
    pub open spec fn val(self) -> int {
        self.v as int
    }

    /// Well-formedness: the representative is reduced.
    pub open spec fn inv(self) -> bool {
        self.v < FIELD_MODULUS
    }

    /// The additive identity.
    pub fn zero() -> (r: Fe)
        ensures
            r.inv(),
            r.val() == 0,
    {
        Fe { v: 0 }
    }

    /// The multiplicative identity.
    pub fn one() -> (r: Fe)
        ensures
            r.inv(),
            r.val() == 1,
    {
        Fe { v: 1 }
    }

    /// Embeds a machine word into the field by reduction.
    pub fn from_u64(x: u64) -> (r: Fe)
        ensures
            r.inv(),
            r.val() == x as int % modulus(),
    {
        Fe { v: x % FIELD_MODULUS }
    }

    /// The raw reduced representative.
    pub fn as_u64(self) -> (r: u64)
        ensures
            r as int == self.val(),
    {
        self.v
    }

    /// Whether the representative is reduced.
    pub fn is_reduced(self) -> (r: bool)
        ensures
            r == self.inv(),
    {
        self.v < FIELD_MODULUS
    }

    /// Field addition.
    pub fn add(self, other: Fe) -> (r: Fe)
        requires
            self.inv(),
            other.inv(),
        ensures
            r.inv(),
            r.val() == f_add(self.val(), other.val()),
    {
        let s: u128 = (self.v as u128 + other.v as u128) % (FIELD_MODULUS as u128);
        proof {
            lemma_mod_bound((self.v + other.v) as int, modulus());
        }
        Fe { v: s as u64 }
    }

    /// Field subtraction.
    pub fn sub(self, other: Fe) -> (r: Fe)
        requires
            self.inv(),
            other.inv(),
        ensures
            r.inv(),
            r.val() == f_sub(self.val(), other.val()),
    {
        let s: u128 = (self.v as u128 + FIELD_MODULUS as u128 - other.v as u128) % (
        FIELD_MODULUS as u128);
        proof {
            lemma_mod_bound((self.v + FIELD_MODULUS - other.v) as int, modulus());
            lemma_mod_add_multiple(self.v as int - other.v as int, modulus());
        }
        Fe { v: s as u64 }
    }

    /// Field multiplication.
    pub fn mul(self, other: Fe) -> (r: Fe)
        requires
            self.inv(),
            other.inv(),
        ensures
            r.inv(),
            r.val() == f_mul(self.val(), other.val()),
    {
        proof {
            vstd::arithmetic::mul::lemma_mul_upper_bound(
                self.v as int,
                modulus() - 1,
                other.v as int,
                modulus() - 1,
            );
            assert((modulus() - 1) * (modulus() - 1) < u128::MAX as int) by (nonlinear_arith);
        }
        let s: u128 = (self.v as u128 * other.v as u128) % (FIELD_MODULUS as u128);
        proof {
            lemma_mod_bound((self.v * other.v) as int, modulus());
        }
        Fe { v: s as u64 }
    }
}

/// Adding one multiple of the modulus does not change a residue.
pub proof fn lemma_mod_add_multiple(a: int, m: int)
    requires
        m > 0,
    ensures
        (a + m) % m == a % m,
{
    vstd::arithmetic::div_mod::lemma_mod_add_multiples_vanish(a, m);
}

/// Adding zero to a reduced value changes nothing.
pub proof fn lemma_f_add_zero(x: int)
    requires
        0 <= x < modulus(),
    ensures
        f_add(x, 0) == x,
        f_add(0, x) == x,
{
    lemma_small_mod(x as nat, modulus() as nat);
}

/// Field addition is associative.
pub proof fn lemma_f_add_assoc(x: int, y: int, z: int)
    ensures
        f_add(f_add(x, y), z) == f_add(x, f_add(y, z)),
{
    vstd::arithmetic::div_mod::lemma_add_mod_noop_right(z, x + y, modulus());
    vstd::arithmetic::div_mod::lemma_add_mod_noop_right(x, y + z, modulus());
    assert(((x + y) % modulus() + z) % modulus() == (z + (x + y) % modulus()) % modulus());
}

/// One step of an affine fold distributes over a two-term sum: folding two
/// pairs and adding equals folding the pairs' sums.
pub proof fn lemma_f_fold_linear(x1: int, y1: int, x2: int, y2: int, ch: int)
    ensures
        f_add(
            f_add(x1, f_mul(ch, f_sub(y1, x1))),
            f_add(x2, f_mul(ch, f_sub(y2, x2))),
        ) == f_add(f_add(x1, x2), f_mul(ch, f_sub(f_add(y1, y2), f_add(x1, x2)))),
{
    let m = modulus();
    // left side: flatten each folded pair, then the outer sum
    vstd::arithmetic::div_mod::lemma_mul_mod_noop_right(ch, y1 - x1, m);
    vstd::arithmetic::div_mod::lemma_add_mod_noop_right(x1, ch * (y1 - x1), m);
    vstd::arithmetic::div_mod::lemma_mul_mod_noop_right(ch, y2 - x2, m);
    vstd::arithmetic::div_mod::lemma_add_mod_noop_right(x2, ch * (y2 - x2), m);
    vstd::arithmetic::div_mod::lemma_add_mod_noop(
        x1 + ch * (y1 - x1),
        x2 + ch * (y2 - x2),
        m,
    );
    // right side: flatten the folded sum of sums
    vstd::arithmetic::div_mod::lemma_sub_mod_noop(y1 + y2, x1 + x2, m);
    vstd::arithmetic::div_mod::lemma_mul_mod_noop_right(ch, (y1 + y2) - (x1 + x2), m);
    vstd::arithmetic::div_mod::lemma_add_mod_noop_right(
        (x1 + x2) % m,
        ch * ((y1 + y2) - (x1 + x2)),
        m,
    );
    vstd::arithmetic::div_mod::lemma_add_mod_noop(x1 + x2, ch * ((y1 + y2) - (x1 + x2)), m);
    assert(ch * (y1 - x1) + ch * (y2 - x2) == ch * ((y1 + y2) - (x1 + x2))) by (nonlinear_arith);
}

/// The field operation tables on the values 0 and 1.
pub proof fn lemma_f01()
    ensures
        f_add(0, 0) == 0,
        f_add(0, 1) == 1,
        f_add(1, 0) == 1,
        f_sub(1, 0) == 1,
        f_sub(1, 1) == 0,
        f_mul(0, 0) == 0,
        f_mul(0, 1) == 0,
        f_mul(1, 0) == 0,
        f_mul(1, 1) == 1,
{
    assert(modulus() == 2305843009213693951);
}

/// Every field operation yields a reduced value.
pub proof fn lemma_f_range(a: int, b: int)
    ensures
        0 <= f_add(a, b) < modulus(),
        0 <= f_sub(a, b) < modulus(),
        0 <= f_mul(a, b) < modulus(),
{
    lemma_mod_bound(a + b, modulus());
    lemma_mod_bound(a - b, modulus());
    lemma_mod_bound(a * b, modulus());
}

} // verus!
