//! The worked instruction catalog: a virtual machine whose single
//! instruction compares its two operand words by strict unsigned less-than,
//! decomposed into per-chunk lookups in the less-than and equality
//! subtables.
use vstd::prelude::*;

verus! {

use vstd::arithmetic::power2::pow2;
use vstd::arithmetic::div_mod::{lemma_mod_bound, lemma_fundamental_div_mod_converse};
use vstd::set_lib::set_int_range;
use crate::field::{Fe, f_add, f_sub, f_mul, modulus};
use crate::bits::{chunk_of, chunk_operand, pow2_u64, pref_eq, pref_lt,
    lemma_pref_order_is_val_order, lemma_chunks_reconstruct};
use crate::subtable::{SubtableId, lt_entry, eq_entry, all_inv, vals_of, SUBTABLE_DIMENSIONS};
use crate::instruction::{SubtableIndices, LassoError};

#[verifier::external_type_specification]
#[verifier::external_body]
pub struct ExStdRng(rand::rngs::StdRng);

/// Relies on rand_core::Rng::next_u64 for rand::rngs::StdRng: the next
/// word of the generator's stream; nothing is promised of its value.
#[verifier::external_body]
fn rng_next_u64(rng: &mut rand::rngs::StdRng) -> (r: u64)
    ensures
        r <= u64::MAX,
{
    rand::Rng::next_u64(rng)
}

/// The virtual machine's closed instruction set: one variant per opcode
/// family, each carrying its two operand words.
#[derive(Clone, Copy, Debug, PartialEq, Eq, Structural)]
pub enum LTVMInstruction {
    LT(u64, u64),
}

/// The table row index that chunk `i` of a less-than instruction reads:
/// the operands' chunks `i`, concatenated high then low.
pub open spec fn lt_chunk_index(x: u64, y: u64, c: int, l: nat, i: int) -> int {
    chunk_of(x as int, c, l, i) * pow2(l) as int + chunk_of(y as int, c, l, i)
}

/// Product of the equality-table values among `v` over the first `i`
/// chunks: entries `v[c..]` hold the equality values.
pub open spec fn g_prefix_prod(v: Seq<int>, c: int, i: int) -> int
    decreases i,
{
    if i <= 0 {
        1
    } else {
        f_mul(g_prefix_prod(v, c, i - 1), v[c + i - 1])
    }
}

/// The instruction's collation polynomial `g` over the first `i` chunks:
/// the sum of each chunk's less-than value times the equality values of
/// all more significant chunks.
pub open spec fn g_sum(v: Seq<int>, c: int, i: int) -> int
    decreases i,
{
    if i <= 0 {
        0
    } else {
        f_add(g_sum(v, c, i - 1), f_mul(v[i - 1], g_prefix_prod(v, c, i - 1)))
    }
}

impl LTVMInstruction {
    /// The two operand words.
    pub open spec fn spec_operands(self) -> (u64, u64) {
        match self {
            LTVMInstruction::LT(x, y) => (x, y),
        }
    }

    /// The instruction's native result: 1 when the first operand is
    /// strictly below the second, else 0.
    pub open spec fn spec_lookup_entry(self) -> u64 {
        if self.spec_operands().0 < self.spec_operands().1 {
            1
        } else {
            0
        }
    }

    /// The two operand words.
    pub fn operands(&self) -> (r: (u64, u64))
        ensures
            r == self.spec_operands(),
    {
        match self {
            LTVMInstruction::LT(x, y) => (*x, *y),
        }
    }

    /// The variant's dense, stable ordinal.
    pub fn enum_index(&self) -> (r: usize)
        ensures
            r == 0,
    {
        match self {
            LTVMInstruction::LT(_, _) => 0,
        }
    }

    /// Ground truth, computed from the operands' native semantics,
    /// independently of the table decomposition.
    pub fn lookup_entry(&self) -> (r: u64)
        ensures
            r == self.spec_lookup_entry(),
    {
        let (x, y) = self.operands();
        if x < y {
            1
        } else {
            0
        }
    }

    /// The same variant with fresh uniformly random operands.
    pub fn random(&self, rng: &mut rand::rngs::StdRng) -> (r: Self)
        ensures
            r is LT,
    {
        match self {
            LTVMInstruction::LT(_, _) => {
                let x = rng_next_u64(rng);
                let y = rng_next_u64(rng);
                LTVMInstruction::LT(x, y)
            },
        }
    }

    /// The exact total degree of `combine_lookups` as a polynomial in the
    /// subtable values: its largest term multiplies one less-than value
    /// with `c - 1` equality values.
    pub fn g_poly_degree(&self, c: usize) -> (r: usize)
        ensures
            r == c,
    {
        c
    }

    /// Splits each operand word independently into `c` big-endian chunks
    /// of `log_m / 2` bits; an odd `log_m` is a caller error.
    pub fn operand_chunks(&self, c: usize, log_m: usize) -> (r: Result<
        (Vec<u64>, Vec<u64>),
        LassoError,
    >)
        requires
            1 <= c,
            log_m < 64,
            c * log_m <= u64::MAX,
        ensures
            r is Err <==> log_m % 2 != 0,
            r is Err ==> r->Err_0 == LassoError::InvalidParameter,
            r is Ok ==> ({
                let (a, b) = r->Ok_0;
                let l = (log_m / 2) as nat;
                let (x, y) = self.spec_operands();
                &&& a@.len() == c
                &&& b@.len() == c
                &&& forall|i: int|
                    0 <= i < c ==> #[trigger] a@[i] as int == chunk_of(x as int, c as int, l, i)
                &&& forall|i: int|
                    0 <= i < c ==> #[trigger] b@[i] as int == chunk_of(y as int, c as int, l, i)
            }),
    {
        if log_m % 2 != 0 {
            return Err(LassoError::InvalidParameter);
        }
        let (x, y) = self.operands();
        let l = log_m / 2;
        proof {
            vstd::arithmetic::mul::lemma_mul_inequality(l as int, log_m as int, c as int);
            vstd::arithmetic::mul::lemma_mul_is_commutative(l as int, c as int);
        }
        let a = chunk_operand(x, c, l);
        let b = chunk_operand(y, c, l);
        Ok((a, b))
    }

    /// Converts the operand pair into the `c` table row indices the
    /// instruction reads, each below `2^log_m`; an odd `log_m` is a caller
    /// error.
    pub fn to_indices(&self, c: usize, log_m: usize) -> (r: Result<Vec<usize>, LassoError>)
        requires
            1 <= c,
            log_m < 64,
            c * log_m <= u64::MAX,
            pow2(log_m as nat) <= usize::MAX,
        ensures
            r is Err <==> log_m % 2 != 0,
            r is Err ==> r->Err_0 == LassoError::InvalidParameter,
            r is Ok ==> ({
                let v = r->Ok_0;
                let l = (log_m / 2) as nat;
                let (x, y) = self.spec_operands();
                &&& v@.len() == c
                &&& forall|i: int|
                    0 <= i < c ==> #[trigger] v@[i] as int == lt_chunk_index(x, y, c as int, l, i)
                &&& forall|i: int| 0 <= i < c ==> #[trigger] v@[i] < pow2(log_m as nat)
            }),
    {
        let chunks = match self.operand_chunks(c, log_m) {
            Ok(ab) => ab,
            Err(e) => {
                return Err(e);
            },
        };
        let (a, b) = chunks;
        let l = log_m / 2;
        let pl: u64 = pow2_u64(l as u64);
        let ghost ln = (log_m / 2) as nat;
        proof {
            vstd::arithmetic::power2::lemma_pow2_adds(ln, ln);
            vstd::arithmetic::power2::lemma_pow2_pos(ln);
        }
        let mut v: Vec<usize> = Vec::new();
        let mut i: usize = 0;
        while i < c
            invariant
                i <= c,
                1 <= c,
                log_m < 64,
                log_m % 2 == 0,
                l == log_m / 2,
                pl as nat == pow2(ln),
                ln == (log_m / 2) as nat,
                pl >= 1,
                pow2(log_m as nat) <= usize::MAX,
                pow2(log_m as nat) == pow2(ln) * pow2(ln),
                a@.len() == c,
                b@.len() == c,
                forall|k: int|
                    0 <= k < c ==> #[trigger] a@[k] as int == chunk_of(
                        self.spec_operands().0 as int,
                        c as int,
                        ln,
                        k,
                    ),
                forall|k: int|
                    0 <= k < c ==> #[trigger] b@[k] as int == chunk_of(
                        self.spec_operands().1 as int,
                        c as int,
                        ln,
                        k,
                    ),
                forall|k: int| 0 <= k < c ==> #[trigger] a@[k] < pow2(ln),
                forall|k: int| 0 <= k < c ==> #[trigger] b@[k] < pow2(ln),
                v@.len() == i,
                forall|k: int|
                    0 <= k < i ==> #[trigger] v@[k] as int == lt_chunk_index(
                        self.spec_operands().0,
                        self.spec_operands().1,
                        c as int,
                        ln,
                        k,
                    ),
                forall|k: int| 0 <= k < i ==> #[trigger] v@[k] < pow2(log_m as nat),
            decreases c - i,
        {
            proof {
                vstd::arithmetic::mul::lemma_mul_upper_bound(
                    a@[i as int] as int,
                    pow2(ln) as int - 1,
                    pl as int,
                    pow2(ln) as int,
                );
                assert((pow2(ln) as int - 1) * pow2(ln) as int == pow2(ln) as int * pow2(ln) as int
                    - pow2(ln) as int) by (nonlinear_arith);
                vstd::arithmetic::mul::lemma_mul_nonnegative(a@[i as int] as int, pl as int);
            }
            let idx: u64 = a[i] * pl + b[i];
            v.push(idx as usize);
            i = i + 1;
        }
        Ok(v)
    }

    /// The subtable kinds this instruction reads and, for each, the chunk
    /// positions that read from it: every chunk reads the less-than table,
    /// every chunk but the least significant also reads the equality table.
    pub fn subtables(&self, c: usize, m: usize) -> (r: Vec<(SubtableId, SubtableIndices)>)
        requires
            1 <= c,
        ensures
            r@.len() == 2,
            r@[0].0 == SubtableId::Lt,
            r@[1].0 == SubtableId::Eq,
            r@[0].1.wf(),
            r@[1].1.wf(),
            r@[0].1.view() == set_int_range(0, c as int),
            r@[1].1.view() == set_int_range(0, c as int - 1),
            r@[0].1.view().len() + r@[1].1.view().len() == 2 * c - 1,
    {
        let lt_chunks = SubtableIndices::from_range(0, c);
        let eq_chunks = SubtableIndices::from_range(0, c - 1);
        let mut r: Vec<(SubtableId, SubtableIndices)> = Vec::new();
        r.push((SubtableId::Lt, lt_chunks));
        r.push((SubtableId::Eq, eq_chunks));
        r
    }

    /// Combines per-chunk subtable values into the instruction's value by
    /// the collation polynomial `g`. `vals` holds the `c` less-than values
    /// and then the `c - 1` equality values, in the order `subtables`
    /// returns the groups; any other length is an internal consistency
    /// error.
    pub fn combine_lookups(&self, vals: &[Fe], c: usize, m: usize) -> (r: Result<Fe, LassoError>)
        requires
            1 <= c,
            c < usize::MAX / 2,
            all_inv(vals@),
        ensures
            r is Err <==> vals@.len() != 2 * c - 1,
            r is Err ==> r->Err_0 == LassoError::InvalidState,
            r is Ok ==> r->Ok_0.inv() && r->Ok_0.val() == g_sum(
                vals_of(vals@),
                c as int,
                c as int,
            ),
    {
        if vals.len() != 2 * c - 1 {
            return Err(LassoError::InvalidState);
        }
        let ghost v = vals_of(vals@);
        let mut sum = Fe::zero();
        let mut eq_prod = Fe::one();
        let mut i: usize = 0;
        while i < c
            invariant
                i <= c,
                1 <= c,
                vals@.len() == 2 * c - 1,
                all_inv(vals@),
                v == vals_of(vals@),
                sum.inv(),
                eq_prod.inv(),
                sum.val() == g_sum(v, c as int, i as int),
                eq_prod.val() == g_prefix_prod(v, c as int, if i < c { i as int } else { c - 1 }),
            decreases c - i,
        {
            proof {
                assert(v[i as int] == vals@[i as int].val());
            }
            sum = sum.add(vals[i].mul(eq_prod));
            if i + 1 < c {
                proof {
                    assert(v[c + i] == vals@[c + i].val());
                }
                eq_prod = eq_prod.mul(vals[c + i]);
            }
            i = i + 1;
        }
        Ok(sum)
    }

    /// Partitions a flat value vector into one slice per subtable group,
    /// sized by that group's chunk count; a remainder or shortfall is an
    /// internal consistency error. The slices concatenate back to the
    /// input.
    pub fn slice_values<'a>(&self, vals: &'a [Fe], c: usize, m: usize) -> (r: Result<
        Vec<&'a [Fe]>,
        LassoError,
    >)
        requires
            1 <= c,
            c < usize::MAX / 2,
        ensures
            r is Err <==> vals@.len() != 2 * c - 1,
            r is Err ==> r->Err_0 == LassoError::InvalidState,
            r is Ok ==> ({
                let s = r->Ok_0;
                &&& s@.len() == 2
                &&& s@[0]@ == vals@.subrange(0, c as int)
                &&& s@[1]@ == vals@.subrange(c as int, 2 * c - 1)
                &&& s@[0]@ + s@[1]@ == vals@
            }),
    {
        if vals.len() != 2 * c - 1 {
            return Err(LassoError::InvalidState);
        }
        let head = vstd::slice::slice_subrange(vals, 0, c);
        let tail = vstd::slice::slice_subrange(vals, c, 2 * c - 1);
        let mut r: Vec<&'a [Fe]> = Vec::new();
        r.push(head);
        r.push(tail);
        proof {
            assert(vals@.subrange(0, c as int) + vals@.subrange(c as int, 2 * c - 1) =~= vals@);
        }
        Ok(r)
    }
}

/// The virtual machine built from this catalog.
pub struct LTVM {}

impl LTVM {
    /// One representative of each instruction variant, in ordinal order.
    pub fn instructions() -> (r: Vec<LTVMInstruction>)
        ensures
            r@.len() == 1,
            r@[0] == LTVMInstruction::LT(0, 0),
    {
        let mut r: Vec<LTVMInstruction> = Vec::new();
        r.push(LTVMInstruction::LT(0, 0));
        r
    }

    /// The degree bound for the evaluation proof's primary sumcheck: the
    /// collation polynomial's degree over the catalog's dimension count,
    /// plus one for the equality-kernel factor.
    pub fn primary_poly_degree() -> (r: usize)
        ensures
            r == SUBTABLE_DIMENSIONS + 1,
    {
        SUBTABLE_DIMENSIONS + 1
    }
}

/// The collation polynomial applied to the materialized subtable entries
/// at the instruction's own row indices yields the instruction's native
/// result: the table decomposition is faithful.
pub proof fn lemma_combine_matches_lookup_entry(
    instr: LTVMInstruction,
    c: int,
    l: nat,
    v: Seq<int>,
)
    requires
        1 <= c,
        c * l >= 64,
        v.len() == 2 * c - 1,
        forall|i: int|
            0 <= i < c ==> #[trigger] v[i] == lt_entry(
                lt_chunk_index(instr.spec_operands().0, instr.spec_operands().1, c, l, i),
                l,
            ),
        forall|i: int|
            0 <= i < c - 1 ==> #[trigger] v[c + i] == eq_entry(
                lt_chunk_index(instr.spec_operands().0, instr.spec_operands().1, c, l, i),
                l,
            ),
    ensures
        g_sum(v, c, c) == instr.spec_lookup_entry() as int,
{
    let x = instr.spec_operands().0;
    let y = instr.spec_operands().1;
    let a = Seq::new(c as nat, |i: int| chunk_of(x as int, c, l, i));
    let b = Seq::new(c as nat, |i: int| chunk_of(y as int, c, l, i));
    vstd::arithmetic::power2::lemma_pow2_pos(l);
    assert forall|i: int| 0 <= i < c implies 0 <= #[trigger] a[i] < pow2(l) as int && 0 <= b[i]
        < pow2(l) as int by {
        lemma_mod_bound(x as int / pow2(((c - 1 - i) * l) as nat) as int, pow2(l) as int);
        lemma_mod_bound(y as int / pow2(((c - 1 - i) * l) as nat) as int, pow2(l) as int);
    }
    assert forall|i: int| 0 <= i < c implies #[trigger] v[i] == (if a[i] < b[i] {
        1int
    } else {
        0int
    }) by {
        lemma_split_concatenated(a[i], b[i], l);
    }
    assert forall|i: int| 0 <= i < c - 1 implies #[trigger] v[c + i] == (if a[i] == b[i] {
        1int
    } else {
        0int
    }) by {
        lemma_split_concatenated(a[i], b[i], l);
    }
    lemma_g_indicators_wide(a, b, v, c);
    lemma_pref_order_is_val_order(a, b, pow2(l) as int, c);
    assert(a.take(c) =~= a);
    assert(b.take(c) =~= b);
    lemma_chunks_reconstruct(x, c, l, a);
    lemma_chunks_reconstruct(y, c, l, b);
}

/// The collation accumulators over 0/1 chunk indicators are the
/// lexicographic prefix indicators of the operands' chunk sequences.
proof fn lemma_g_indicators_wide(a: Seq<int>, b: Seq<int>, v: Seq<int>, c: int)
    requires
        1 <= c,
        a.len() == c,
        b.len() == c,
        v.len() == 2 * c - 1,
        forall|k: int| 0 <= k < c ==> #[trigger] v[k] == if a[k] < b[k] {
            1int
        } else {
            0int
        },
        forall|k: int| 0 <= k < c - 1 ==> #[trigger] v[c + k] == if a[k] == b[k] {
            1int
        } else {
            0int
        },
    ensures
        g_sum(v, c, c) == if pref_lt(a, b, c) {
            1int
        } else {
            0int
        },
{
    lemma_g_indicators_any(a, b, v, c, c);
}

/// The indicator induction itself, over any digit sequences.
proof fn lemma_g_indicators_any(a: Seq<int>, b: Seq<int>, v: Seq<int>, c: int, i: int)
    requires
        1 <= c,
        a.len() == c,
        b.len() == c,
        v.len() == 2 * c - 1,
        forall|k: int| 0 <= k < c ==> #[trigger] v[k] == if a[k] < b[k] {
            1int
        } else {
            0int
        },
        forall|k: int| 0 <= k < c - 1 ==> #[trigger] v[c + k] == if a[k] == b[k] {
            1int
        } else {
            0int
        },
        0 <= i <= c,
    ensures
        i < c ==> (g_prefix_prod(v, c, i) == if pref_eq(a, b, i) {
            1int
        } else {
            0int
        }),
        g_sum(v, c, i) == if pref_lt(a, b, i) {
            1int
        } else {
            0int
        },
        !(pref_eq(a, b, i) && pref_lt(a, b, i)),
    decreases i,
{
    if i > 0 {
        lemma_g_indicators_any(a, b, v, c, i - 1);
        crate::field::lemma_f01();
        let s = g_sum(v, c, i - 1);
        let e = g_prefix_prod(v, c, i - 1);
        assert(g_sum(v, c, i) == f_add(s, f_mul(v[i - 1], e)));
        assert(s == 0 || s == 1);
        assert(e == 0 || e == 1);
        if i < c {
            assert(g_prefix_prod(v, c, i) == f_mul(e, v[c + i - 1]));
        }
    }
}

/// Splitting a row index built from two sub-operand chunks returns those
/// chunks: the table entry at the built index compares or equates the
/// chunks themselves.
proof fn lemma_split_concatenated(ca: int, cb: int, l: nat)
    requires
        0 <= ca < pow2(l) as int,
        0 <= cb < pow2(l) as int,
    ensures
        lt_entry(ca * pow2(l) as int + cb, l) == if ca < cb {
            1int
        } else {
            0int
        },
        eq_entry(ca * pow2(l) as int + cb, l) == if ca == cb {
            1int
        } else {
            0int
        },
{
    vstd::arithmetic::power2::lemma_pow2_pos(l);
    lemma_fundamental_div_mod_converse(ca * pow2(l) as int + cb, pow2(l) as int, ca, cb);
}

} // verus!
