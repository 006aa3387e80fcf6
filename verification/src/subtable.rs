//! The two lookup subtables of the worked instruction catalog: a strict
//! less-than table and an equality table over pairs of sub-operands.
//!
//! Each table offers two views of the same content: an explicit
//! materialization over all row indices, and a closed-form multilinear
//! extension usable at arbitrary field points. The proof functions at the
//! bottom state that the two views agree on every Boolean point.
use vstd::prelude::*;

verus! {

use vstd::arithmetic::power2::{pow2, lemma_pow2, lemma2_to64};
use vstd::arithmetic::div_mod::lemma_fundamental_div_mod_converse;
use crate::field::{Fe, f_add, f_sub, f_mul, modulus};
use crate::bits::{split_lhs, split_rhs, split_bits, digits_val, all_digits, pref_eq, pref_lt,
    lemma_pref_order_is_val_order, lemma_digits_val_bound};

/// Number of lookup dimensions that share each of these tables.
pub const SUBTABLE_DIMENSIONS: usize = 8;

/// Row count of each of these tables.
pub const SUBTABLE_MEMORY_SIZE: usize = 65536;

/// Bits per sub-operand: each 16-bit row index packs two 8-bit sub-operands.
pub const SUBTABLE_OPERAND_BITS: usize = 8;

/// The less-than table's row value: 1 when the high sub-operand is strictly
/// below the low one, else 0.
pub open spec fn lt_entry(idx: int, b: nat) -> int {
    if split_lhs(idx, b) < split_rhs(idx, b) {
        1
    } else {
        0
    }
}

/// The equality table's row value: 1 when the two sub-operands coincide,
/// else 0.
pub open spec fn eq_entry(idx: int, b: nat) -> int {
    if split_lhs(idx, b) == split_rhs(idx, b) {
        1
    } else {
        0
    }
}

/// The per-bit equality kernel `1 - x - y + 2xy`, in the field.
pub open spec fn eqk(x: int, y: int) -> int {
    f_add(f_sub(f_sub(1, x), y), f_mul(f_mul(2, x), y))
}

/// Product of the equality kernel over the first `i` coordinate pairs.
pub open spec fn eq_prefix_prod(xs: Seq<int>, ys: Seq<int>, i: int) -> int
    decreases i,
{
    if i <= 0 {
        1
    } else {
        f_mul(eq_prefix_prod(xs, ys, i - 1), eqk(xs[i - 1], ys[i - 1]))
    }
}

/// The bit-serial less-than form over the first `i` coordinate pairs:
/// the sum of `(1 - x_j) y_j` times the equality kernel of all more
/// significant pairs.
pub open spec fn lt_sum(xs: Seq<int>, ys: Seq<int>, i: int) -> int
    decreases i,
{
    if i <= 0 {
        0
    } else {
        f_add(
            lt_sum(xs, ys, i - 1),
            f_mul(f_mul(f_sub(1, xs[i - 1]), ys[i - 1]), eq_prefix_prod(xs, ys, i - 1)),
        )
    }
}

/// The reduced field values of a sequence of elements.
pub open spec fn vals_of(s: Seq<Fe>) -> Seq<int> {
    s.map(|i: int, f: Fe| f.val())
}

/// All elements of a sequence are reduced.
pub open spec fn all_inv(s: Seq<Fe>) -> bool {
    forall|i: int| 0 <= i < s.len() ==> #[trigger] s[i].inv()
}

/// Every entry of the sequence is 0 or 1.
pub open spec fn all_bool(s: Seq<int>) -> bool {
    forall|i: int| 0 <= i < s.len() ==> #[trigger] s[i] == 0 || s[i] == 1
}

/// The table row index that a Boolean point denotes: the first half of the
/// point spells the high sub-operand big-endian, the second half the low one.
pub open spec fn bits_index(p: Seq<int>) -> int {
    digits_val(p.take(p.len() as int / 2), 2) * pow2((p.len() / 2) as nat) as int + digits_val(
        p.skip(p.len() as int / 2),
        2,
    )
}

/// A closed catalog of the subtable kinds, for dispatch where table
/// objects are carried as values.
#[derive(Clone, Copy, Debug, PartialEq, Eq, Structural)]
pub enum SubtableId {
    Lt,
    Eq,
}

/// The row value of the identified table.
pub open spec fn subtable_entry(id: SubtableId, idx: int) -> int {
    match id {
        SubtableId::Lt => lt_entry(idx, SUBTABLE_OPERAND_BITS as nat),
        SubtableId::Eq => eq_entry(idx, SUBTABLE_OPERAND_BITS as nat),
    }
}

/// The multilinear extension of the identified table at a point with the
/// given coordinate values.
pub open spec fn subtable_mle(id: SubtableId, p: Seq<int>) -> int {
    match id {
        SubtableId::Lt => lt_sum(p.take(p.len() as int / 2), p.skip(p.len() as int / 2), p.len() as int / 2),
        SubtableId::Eq => eq_prefix_prod(p.take(p.len() as int / 2), p.skip(p.len() as int / 2), p.len() as int / 2),
    }
}

impl SubtableId {
    /// Materializes the identified table.
    pub fn materialize(&self) -> (r: Vec<Fe>)
        ensures
            r@.len() == SUBTABLE_MEMORY_SIZE,
            all_inv(r@),
            forall|k: int|
                0 <= k < SUBTABLE_MEMORY_SIZE ==> #[trigger] r@[k].val() == subtable_entry(
                    *self,
                    k,
                ),
    {
        match self {
            SubtableId::Lt => (LTSubtable {}).materialize(),
            SubtableId::Eq => (EQSubtable {}).materialize(),
        }
    }

    /// Evaluates the identified table's multilinear extension.
    pub fn evaluate_mle(&self, point: &[Fe]) -> (r: Fe)
        requires
            point@.len() % 2 == 0,
            all_inv(point@),
        ensures
            r.inv(),
            r.val() == subtable_mle(*self, vals_of(point@)),
    {
        match self {
            SubtableId::Lt => (LTSubtable {}).evaluate_mle(point),
            SubtableId::Eq => (EQSubtable {}).evaluate_mle(point),
        }
    }
}

/// The strict less-than subtable.
pub struct LTSubtable {}

/// The equality subtable.
pub struct EQSubtable {}

impl LTSubtable {
    /// How many lookup dimensions share this table.
    pub fn dimensions(&self) -> (r: usize)
        ensures
            r == SUBTABLE_DIMENSIONS,
    {
        SUBTABLE_DIMENSIONS
    }

    /// The table's row count.
    pub fn memory_size(&self) -> (r: usize)
        ensures
            r == SUBTABLE_MEMORY_SIZE,
    {
        SUBTABLE_MEMORY_SIZE
    }

    /// Materializes the table in counting order: row `idx` holds 1 exactly
    /// when the high sub-operand of `idx` is strictly below the low one.
    pub fn materialize(&self) -> (r: Vec<Fe>)
        ensures
            r@.len() == SUBTABLE_MEMORY_SIZE,
            all_inv(r@),
            forall|k: int|
                0 <= k < SUBTABLE_MEMORY_SIZE ==> #[trigger] r@[k].val() == lt_entry(
                    k,
                    SUBTABLE_OPERAND_BITS as nat,
                ),
    {
        let mut r: Vec<Fe> = Vec::new();
        let mut idx: usize = 0;
        proof {
            lemma2_to64();
        }
        while idx < SUBTABLE_MEMORY_SIZE
            invariant
                idx <= SUBTABLE_MEMORY_SIZE,
                r@.len() == idx,
                all_inv(r@),
                pow2(SUBTABLE_OPERAND_BITS as nat) == 256,
                forall|k: int|
                    0 <= k < idx ==> #[trigger] r@[k].val() == lt_entry(
                        k,
                        SUBTABLE_OPERAND_BITS as nat,
                    ),
            decreases SUBTABLE_MEMORY_SIZE - idx,
        {
            let (lhs, rhs) = split_bits(idx, SUBTABLE_OPERAND_BITS);
            let entry = if lhs < rhs {
                Fe::one()
            } else {
                Fe::zero()
            };
            r.push(entry);
            idx = idx + 1;
        }
        r
    }

    /// Evaluates the table's multilinear extension at an arbitrary field
    /// point whose first half encodes the high sub-operand's bits and whose
    /// second half encodes the low one's.
    pub fn evaluate_mle(&self, point: &[Fe]) -> (r: Fe)
        requires
            point@.len() % 2 == 0,
            all_inv(point@),
        ensures
            r.inv(),
            r.val() == lt_sum(
                vals_of(point@).take(point@.len() as int / 2),
                vals_of(point@).skip(point@.len() as int / 2),
                point@.len() as int / 2,
            ),
    {
        let b = point.len() / 2;
        let ghost xs = vals_of(point@).take(b as int);
        let ghost ys = vals_of(point@).skip(b as int);
        let mut result = Fe::zero();
        let mut eq_term = Fe::one();
        let mut i: usize = 0;
        while i < b
            invariant
                i <= b,
                b == point@.len() / 2,
                point@.len() % 2 == 0,
                all_inv(point@),
                xs == vals_of(point@).take(b as int),
                ys == vals_of(point@).skip(b as int),
                result.inv(),
                eq_term.inv(),
                result.val() == lt_sum(xs, ys, i as int),
                eq_term.val() == eq_prefix_prod(xs, ys, i as int),
            decreases b - i,
        {
            let x = point[i];
            let y = point[b + i];
            proof {
                assert(xs[i as int] == x.val());
                assert(ys[i as int] == y.val());
            }
            result = result.add(Fe::one().sub(x).mul(y).mul(eq_term));
            eq_term = eq_term.mul(Fe::one().sub(x).sub(y).add(Fe::from_u64(2).mul(x).mul(y)));
            i = i + 1;
        }
        result
    }
}

impl EQSubtable {
    /// How many lookup dimensions share this table.
    pub fn dimensions(&self) -> (r: usize)
        ensures
            r == SUBTABLE_DIMENSIONS,
    {
        SUBTABLE_DIMENSIONS
    }

    /// The table's row count.
    pub fn memory_size(&self) -> (r: usize)
        ensures
            r == SUBTABLE_MEMORY_SIZE,
    {
        SUBTABLE_MEMORY_SIZE
    }

    /// Materializes the table in counting order: row `idx` holds 1 exactly
    /// when the two sub-operands of `idx` coincide.
    pub fn materialize(&self) -> (r: Vec<Fe>)
        ensures
            r@.len() == SUBTABLE_MEMORY_SIZE,
            all_inv(r@),
            forall|k: int|
                0 <= k < SUBTABLE_MEMORY_SIZE ==> #[trigger] r@[k].val() == eq_entry(
                    k,
                    SUBTABLE_OPERAND_BITS as nat,
                ),
    {
        let mut r: Vec<Fe> = Vec::new();
        let mut idx: usize = 0;
        proof {
            lemma2_to64();
        }
        while idx < SUBTABLE_MEMORY_SIZE
            invariant
                idx <= SUBTABLE_MEMORY_SIZE,
                r@.len() == idx,
                all_inv(r@),
                pow2(SUBTABLE_OPERAND_BITS as nat) == 256,
                forall|k: int|
                    0 <= k < idx ==> #[trigger] r@[k].val() == eq_entry(
                        k,
                        SUBTABLE_OPERAND_BITS as nat,
                    ),
            decreases SUBTABLE_MEMORY_SIZE - idx,
        {
            let (lhs, rhs) = split_bits(idx, SUBTABLE_OPERAND_BITS);
            let entry = if lhs == rhs {
                Fe::one()
            } else {
                Fe::zero()
            };
            r.push(entry);
            idx = idx + 1;
        }
        r
    }

    /// Evaluates the table's multilinear extension at an arbitrary field
    /// point: the product of the per-bit equality kernel over all pairs.
    pub fn evaluate_mle(&self, point: &[Fe]) -> (r: Fe)
        requires
            point@.len() % 2 == 0,
            all_inv(point@),
        ensures
            r.inv(),
            r.val() == eq_prefix_prod(
                vals_of(point@).take(point@.len() as int / 2),
                vals_of(point@).skip(point@.len() as int / 2),
                point@.len() as int / 2,
            ),
    {
        let b = point.len() / 2;
        let ghost xs = vals_of(point@).take(b as int);
        let ghost ys = vals_of(point@).skip(b as int);
        let mut eq_term = Fe::one();
        let mut i: usize = 0;
        while i < b
            invariant
                i <= b,
                b == point@.len() / 2,
                point@.len() % 2 == 0,
                all_inv(point@),
                xs == vals_of(point@).take(b as int),
                ys == vals_of(point@).skip(b as int),
                eq_term.inv(),
                eq_term.val() == eq_prefix_prod(xs, ys, i as int),
            decreases b - i,
        {
            let x = point[i];
            let y = point[b + i];
            proof {
                assert(xs[i as int] == x.val());
                assert(ys[i as int] == y.val());
            }
            eq_term = eq_term.mul(Fe::one().sub(x).sub(y).add(Fe::from_u64(2).mul(x).mul(y)));
            i = i + 1;
        }
        eq_term
    }
}

/// On 0/1 inputs the equality kernel is the equality indicator.
pub proof fn lemma_eqk_bool(x: int, y: int)
    requires
        x == 0 || x == 1,
        y == 0 || y == 1,
    ensures
        eqk(x, y) == if x == y {
            1int
        } else {
            0int
        },
{
    assert(modulus() > 3);
}

/// On Boolean coordinate sequences the two accumulated forms are the
/// lexicographic prefix indicators: the kernel product flags prefix
/// equality, the less-than sum flags strict prefix precedence.
pub proof fn lemma_prefix_indicators_boolean(xs: Seq<int>, ys: Seq<int>, i: int)
    requires
        xs.len() == ys.len(),
        all_bool(xs),
        all_bool(ys),
        0 <= i <= xs.len(),
    ensures
        eq_prefix_prod(xs, ys, i) == if pref_eq(xs, ys, i) {
            1int
        } else {
            0int
        },
        lt_sum(xs, ys, i) == if pref_lt(xs, ys, i) {
            1int
        } else {
            0int
        },
        !(pref_eq(xs, ys, i) && pref_lt(xs, ys, i)),
    decreases i,
{
    lemma_pref_order_is_val_order(xs, ys, 2, i);
    if i > 0 {
        lemma_prefix_indicators_boolean(xs, ys, i - 1);
        lemma_eqk_bool(xs[i - 1], ys[i - 1]);
        crate::field::lemma_f01();
        let x = xs[i - 1];
        let y = ys[i - 1];
        let s = lt_sum(xs, ys, i - 1);
        let e = eq_prefix_prod(xs, ys, i - 1);
        assert(lt_sum(xs, ys, i) == f_add(s, f_mul(f_mul(f_sub(1, x), y), e)));
        assert(eq_prefix_prod(xs, ys, i) == f_mul(e, eqk(x, y)));
        assert(s == 0 || s == 1);
        assert(e == 0 || e == 1);
        assert(f_sub(1, x) == 1 - x);
    }
}

/// Boolean agreement for the less-than table: at a Boolean point the
/// multilinear extension takes the materialized row value of the row index
/// that the point denotes.
pub proof fn lemma_lt_mle_matches_entry(p: Seq<int>)
    requires
        p.len() % 2 == 0,
        all_bool(p),
    ensures
        0 <= bits_index(p) < pow2(p.len() as nat),
        lt_sum(p.take(p.len() as int / 2), p.skip(p.len() as int / 2), p.len() as int / 2)
            == lt_entry(bits_index(p), (p.len() / 2) as nat),
{
    let b = p.len() as int / 2;
    let xs = p.take(b);
    let ys = p.skip(b);
    lemma_index_halves(p);
    lemma_prefix_indicators_boolean(xs, ys, b);
    assert(xs.take(b) =~= xs);
    assert(ys.take(b) =~= ys);
    lemma_pref_order_is_val_order(xs, ys, 2, b);
}

/// Boolean agreement for the equality table.
pub proof fn lemma_eq_mle_matches_entry(p: Seq<int>)
    requires
        p.len() % 2 == 0,
        all_bool(p),
    ensures
        0 <= bits_index(p) < pow2(p.len() as nat),
        eq_prefix_prod(p.take(p.len() as int / 2), p.skip(p.len() as int / 2), p.len() as int / 2)
            == eq_entry(bits_index(p), (p.len() / 2) as nat),
{
    let b = p.len() as int / 2;
    let xs = p.take(b);
    let ys = p.skip(b);
    lemma_index_halves(p);
    lemma_prefix_indicators_boolean(xs, ys, b);
    assert(xs.take(b) =~= xs);
    assert(ys.take(b) =~= ys);
    lemma_pref_order_is_val_order(xs, ys, 2, b);
}

/// The row index a Boolean point denotes splits back into the values of
/// the point's two halves.
proof fn lemma_index_halves(p: Seq<int>)
    requires
        p.len() % 2 == 0,
        all_bool(p),
    ensures
        0 <= bits_index(p) < pow2(p.len() as nat),
        split_lhs(bits_index(p), (p.len() / 2) as nat) == digits_val(p.take(p.len() as int / 2), 2),
        split_rhs(bits_index(p), (p.len() / 2) as nat) == digits_val(p.skip(p.len() as int / 2), 2),
{
    let b = p.len() as int / 2;
    let bn = (p.len() / 2) as nat;
    let xs = p.take(b);
    let ys = p.skip(b);
    assert(all_digits(xs, 2));
    assert(all_digits(ys, 2));
    lemma_digits_val_bound(xs, 2);
    lemma_digits_val_bound(ys, 2);
    lemma_pow2(bn);
    let x = digits_val(xs, 2);
    let y = digits_val(ys, 2);
    assert(0 <= x < pow2(bn) as int);
    assert(0 <= y < pow2(bn) as int);
    lemma_fundamental_div_mod_converse(x * pow2(bn) as int + y, pow2(bn) as int, x, y);
    vstd::arithmetic::power2::lemma_pow2_adds(bn, bn);
    vstd::arithmetic::mul::lemma_mul_upper_bound(x, pow2(bn) as int - 1, pow2(bn) as int, pow2(
        bn,
    ) as int);
    vstd::arithmetic::mul::lemma_mul_nonnegative(x, pow2(bn) as int);
    assert((pow2(bn) as int - 1) * pow2(bn) as int == pow2(bn) as int * pow2(bn) as int - pow2(
        bn,
    ) as int) by (nonlinear_arith);
    assert(bn + bn == p.len() as nat);
}

} // verus!
