//! The sparse-polynomial commitment and evaluation proof: densified lookup
//! columns are committed under deterministic generators, and a sumcheck-
//! style proof shows that the committed lookups, combined row by row
//! through the instruction's collation polynomial and weighted by the
//! equality kernel against a challenge point, sum to a claimed scalar.
//!
//! The proof opens the committed index columns in full: the verifier
//! re-derives every challenge from its own transcript, checks the sumcheck
//! round-polynomial chain, rebinds the opened columns against the
//! commitment, recomputes every subtable value from the true tables (the
//! memory-consistency check), and compares the chain's final claim with the
//! folded table. Any single failing check rejects the proof.
use vstd::prelude::*;

verus! {

use vstd::arithmetic::power2::{pow2, lemma_pow2_pos, lemma2_to64, lemma2_to64_rest};
use crate::field::{Fe, f_add, f_sub, f_mul, modulus};
use crate::subtable::{EQSubtable, LTSubtable, lt_entry, eq_entry, all_inv, vals_of,
    SUBTABLE_MEMORY_SIZE, SUBTABLE_OPERAND_BITS};
use crate::lt::{LTVMInstruction, g_sum};
use crate::bits::{chunk_of, chunk_operand, pow2_u64};
use crate::transcript::{Transcript, mix, mix_all, challenge_state};
use crate::densified::DensifiedRepresentation;

/// A proof rejection: the first protocol check that failed.
#[derive(Clone, Copy, Debug, PartialEq, Eq, Structural)]
pub enum VerificationError {
    /// The proof's shape does not match the commitment and challenge point.
    MalformedProof,
    /// The opened columns do not rebind to the commitment.
    CommitmentMismatch,
    /// A sumcheck round polynomial breaks the claim chain.
    SumcheckRoundMismatch,
    /// The chain's final claim disagrees with the opened evaluations.
    FinalEvaluationMismatch,
}

/// Deterministic public parameters for the column commitment, sized by the
/// batch shape.
pub struct SparsePolyCommitmentGens {
    /// The Horner base every column digest is folded with.
    pub base: Fe,
    /// Lookup dimensions per instruction.
    pub c: usize,
    /// Number of real lookups the batch holds.
    pub s: usize,
    /// Number of subtable-value columns the proof combines.
    pub num_memories: usize,
    /// Bit width of a table row index.
    pub log_m: usize,
}

impl SparsePolyCommitmentGens {
    /// Derives generators from a domain label and the batch shape.
    pub fn new(label: &[u8], c: usize, s: usize, num_memories: usize, log_m: usize) -> (r: Self)
        ensures
            r.base.inv(),
            r.base.val() == crate::transcript::mix_bytes(0, label@),
            r.c == c,
            r.s == s,
            r.num_memories == num_memories,
            r.log_m == log_m,
    {
        let t = Transcript::new(label);
        SparsePolyCommitmentGens { base: t.state, c, s, num_memories, log_m }
    }
}

/// A binding digest over the densified columns.
pub struct Commitment {
    /// One Horner digest per index column.
    pub digests: Vec<Fe>,
    /// Lookup dimensions per instruction.
    pub c: usize,
    /// Number of real lookups committed.
    pub s: usize,
    /// Padded row count of each column.
    pub s_padded: usize,
    /// Bit width of a table row index.
    pub log_m: usize,
}

/// The evaluation proof: the claimed evaluation, one degree-one round
/// polynomial per sumcheck round given by its values at 0 and 1, and the
/// committed index columns opened in full.
pub struct SparsePolynomialEvaluationProof {
    /// The claimed value of the weighted lookup sum at the challenge point.
    pub claimed_eval: Fe,
    /// Per round, the round polynomial's values at 0 and at 1.
    pub round_polys: Vec<(Fe, Fe)>,
    /// The opened index columns.
    pub opened_dim: Vec<Vec<usize>>,
}

/// A column of row indices as mathematical integers.
pub open spec fn col_ints(col: Seq<usize>) -> Seq<int> {
    col.map(|i: int, v: usize| v as int)
}

/// The views of a vector of columns.
pub open spec fn dim_views(d: Seq<Vec<usize>>) -> Seq<Seq<usize>> {
    d.map(|i: int, col: Vec<usize>| col@)
}

/// The reduced values of a vector of round polynomials.
pub open spec fn polys_ints(ps: Seq<(Fe, Fe)>) -> Seq<(int, int)> {
    ps.map(|i: int, p: (Fe, Fe)| (p.0.val(), p.1.val()))
}

/// Every round polynomial's two values are reduced.
pub open spec fn polys_inv(ps: Seq<(Fe, Fe)>) -> bool {
    forall|i: int| 0 <= i < ps.len() ==> (#[trigger] ps[i]).0.inv() && ps[i].1.inv()
}

/// The Horner digest of one column under the given base.
pub open spec fn column_digest(col: Seq<int>, base: int) -> int
    decreases col.len(),
{
    if col.len() == 0 {
        0
    } else {
        f_add(f_mul(column_digest(col.drop_last(), base), base), col.last())
    }
}

/// The digests of all columns under the given base.
pub open spec fn commit_digests(dimv: Seq<Seq<usize>>, base: int) -> Seq<int> {
    Seq::new(dimv.len(), |j: int| column_digest(col_ints(dimv[j]), base))
}

/// The field sum of a value sequence, reduced at every step.
pub open spec fn fsum(s: Seq<int>) -> int
    decreases s.len(),
{
    if s.len() == 0 {
        0
    } else {
        f_add(fsum(s.drop_last()), s.last())
    }
}

/// Every value of the sequence is a reduced field value.
pub open spec fn all_fe(s: Seq<int>) -> bool {
    forall|i: int| 0 <= i < s.len() ==> 0 <= #[trigger] s[i] < modulus()
}

/// Bit `j` of row index `k`, big-endian over `n` bits.
pub open spec fn row_bit(k: int, n: int, j: int) -> int {
    chunk_of(k, n, 1, j)
}

/// The equality kernel between a challenge coordinate and a known Boolean
/// row-index bit.
pub open spec fn eq_factor(r: int, bit: int) -> int {
    if bit == 1 {
        r
    } else {
        f_sub(1, r)
    }
}

/// The equality weight of row `k` against the challenge point, over its
/// first `i` coordinates.
pub open spec fn eq_weight_pref(rv: Seq<int>, k: int, i: int) -> int
    decreases i,
{
    if i <= 0 {
        1
    } else {
        f_mul(eq_weight_pref(rv, k, i - 1), eq_factor(rv[i - 1], row_bit(k, rv.len() as int, i - 1)))
    }
}

/// The full equality weight of row `k` against the challenge point.
pub open spec fn eq_weight(rv: Seq<int>, k: int) -> int {
    eq_weight_pref(rv, k, rv.len() as int)
}

/// The subtable values row `k` reads: the `c` less-than entries, then the
/// `c - 1` equality entries, at the row's index in each dimension.
pub open spec fn row_vals(dimv: Seq<Seq<usize>>, c: int, k: int) -> Seq<int> {
    Seq::new(
        (2 * c - 1) as nat,
        |t: int|
            if t < c {
                lt_entry(dimv[t][k] as int, SUBTABLE_OPERAND_BITS as nat)
            } else {
                eq_entry(dimv[t - c][k] as int, SUBTABLE_OPERAND_BITS as nat)
            },
    )
}

/// One entry of the weighted lookup table: a real row contributes its
/// equality weight times its combined lookup value; a padding row
/// contributes nothing.
pub open spec fn t_entry(dimv: Seq<Seq<usize>>, c: int, s: int, rv: Seq<int>, k: int) -> int {
    if k < s {
        f_mul(eq_weight(rv, k), g_sum(row_vals(dimv, c, k), c, c))
    } else {
        0
    }
}

/// The weighted lookup table over all padded rows.
pub open spec fn t_table(dimv: Seq<Seq<usize>>, c: int, s: int, s_padded: int, rv: Seq<int>)
    -> Seq<int> {
    Seq::new(s_padded as nat, |k: int| t_entry(dimv, c, s, rv, k))
}

/// Folds the two halves of a table affinely by a challenge.
pub open spec fn fold_pair(a: Seq<int>, b: Seq<int>, ch: int) -> Seq<int> {
    Seq::new(a.len(), |j: int| f_add(a[j], f_mul(ch, f_sub(b[j], a[j]))))
}

/// One sumcheck binding step on a table of even length.
pub open spec fn fold_half(t: Seq<int>, ch: int) -> Seq<int> {
    fold_pair(t.take(t.len() as int / 2), t.skip(t.len() as int / 2), ch)
}

/// Folding a table by a sequence of challenges, first challenge first.
pub open spec fn fold_all(t: Seq<int>, chals: Seq<int>) -> Seq<int>
    decreases chals.len(),
{
    if chals.len() == 0 {
        t
    } else {
        fold_all(fold_half(t, chals[0]), chals.skip(1))
    }
}

/// The honest prover's sumcheck run: its round polynomials, the challenges
/// the transcript yields, and the transcript's final state.
pub struct SumcheckTrace {
    /// Each round polynomial's values at 0 and 1.
    pub polys: Seq<(int, int)>,
    /// The challenge derived after each round.
    pub chals: Seq<int>,
    /// The transcript state when the rounds are done.
    pub state: int,
}

/// Runs the honest sumcheck prover over a table, absorbing each round
/// polynomial and folding by the resulting challenge, down to one entry.
pub open spec fn sumcheck_run(t: Seq<int>, st: int) -> SumcheckTrace
    decreases t.len(),
{
    if t.len() <= 1 {
        SumcheckTrace { polys: Seq::empty(), chals: Seq::empty(), state: st }
    } else {
        let h = t.len() as int / 2;
        let p0 = fsum(t.take(h));
        let p1 = fsum(t.skip(h));
        let st1 = mix(mix(st, p0), p1);
        let ch = challenge_state(st1);
        let rest = sumcheck_run(fold_half(t, ch), ch);
        SumcheckTrace {
            polys: seq![(p0, p1)] + rest.polys,
            chals: seq![ch] + rest.chals,
            state: rest.state,
        }
    }
}

/// The verifier's pass over the claimed round polynomials: whether every
/// round satisfies the claim chain, the challenges derived, the final
/// claim, and the final transcript state.
pub struct ChainTrace {
    /// All round checks passed.
    pub ok: bool,
    /// The challenge derived after each round.
    pub chals: Seq<int>,
    /// The claim left after the last round.
    pub claim: int,
    /// The transcript state when the rounds are done.
    pub state: int,
}

/// Replays the claim chain: each round polynomial must take the current
/// claim as its value sum over {0, 1}, and leaves its value at the derived
/// challenge as the next claim.
#[verifier::opaque]
pub open spec fn run_chain(polys: Seq<(int, int)>, st: int, claim: int) -> ChainTrace
    decreases polys.len(),
{
    if polys.len() == 0 {
        ChainTrace { ok: true, chals: Seq::empty(), claim, state: st }
    } else {
        let (p0, p1) = polys[0];
        let ok0 = f_add(p0, p1) == claim;
        let st1 = mix(mix(st, p0), p1);
        let ch = challenge_state(st1);
        let rest = run_chain(polys.skip(1), ch, f_add(p0, f_mul(ch, f_sub(p1, p0))));
        ChainTrace {
            ok: ok0 && rest.ok,
            chals: seq![ch] + rest.chals,
            claim: rest.claim,
            state: rest.state,
        }
    }
}

/// The transcript state after absorbing the public inputs: the commitment
/// digests, the challenge point, and the claimed evaluation.
pub open spec fn bind_public(st: int, digests: Seq<int>, rv: Seq<int>, claim: int) -> int {
    mix(mix_all(mix_all(st, digests), rv), claim)
}

/// The proof and commitment have the shape the challenge point demands:
/// matching counts, power-of-two padded length, the catalog's table width,
/// in-range indices and reduced scalars.
pub open spec fn shape_ok(
    pf: SparsePolynomialEvaluationProof,
    cm: Commitment,
    rv: Seq<int>,
) -> bool {
    &&& 1 <= cm.c
    &&& cm.c < usize::MAX as int / 2
    &&& pf.opened_dim@.len() == cm.c
    &&& cm.digests@.len() == cm.c
    &&& 1 <= cm.s <= cm.s_padded
    &&& cm.s_padded == pow2(rv.len() as nat)
    &&& cm.log_m == 2 * SUBTABLE_OPERAND_BITS
    &&& pf.round_polys@.len() == rv.len()
    &&& forall|j: int| 0 <= j < cm.c ==> #[trigger] pf.opened_dim@[j]@.len() == cm.s_padded
    &&& forall|j: int, k: int|
        0 <= j < cm.c && 0 <= k < cm.s_padded ==> #[trigger] pf.opened_dim@[j]@[k]
            < SUBTABLE_MEMORY_SIZE
    &&& pf.claimed_eval.inv()
    &&& all_inv(cm.digests@)
    &&& polys_inv(pf.round_polys@)
}

/// The opened columns rebind to the commitment under the generators.
pub open spec fn digests_ok(
    pf: SparsePolynomialEvaluationProof,
    cm: Commitment,
    base: int,
) -> bool {
    forall|j: int|
        0 <= j < cm.c ==> (#[trigger] cm.digests@[j].val()) == column_digest(
            col_ints(pf.opened_dim@[j]@),
            base,
        )
}

/// The verifier's full decision, check by check, first failure first.
pub open spec fn verify_decision(
    pf: SparsePolynomialEvaluationProof,
    cm: Commitment,
    rv: Seq<int>,
    st: int,
    base: int,
) -> Result<(), VerificationError> {
    if !shape_ok(pf, cm, rv) {
        Err(VerificationError::MalformedProof)
    } else if !digests_ok(pf, cm, base) {
        Err(VerificationError::CommitmentMismatch)
    } else {
        let st_pub = bind_public(st, vals_of(cm.digests@), rv, pf.claimed_eval.val());
        let ct = run_chain(polys_ints(pf.round_polys@), st_pub, pf.claimed_eval.val());
        if !ct.ok {
            Err(VerificationError::SumcheckRoundMismatch)
        } else if fold_all(
            t_table(dim_views(pf.opened_dim@), cm.c as int, cm.s as int, cm.s_padded as int, rv),
            ct.chals,
        )[0] != ct.claim {
            Err(VerificationError::FinalEvaluationMismatch)
        } else {
            Ok(())
        }
    }
}

/// Horner digests of a set of index columns. Shared by committing and by
/// the verifier's rebinding check.
fn commit_columns(dim: &Vec<Vec<usize>>, base: Fe) -> (r: Vec<Fe>)
    requires
        base.inv(),
        forall|j: int, k: int|
            0 <= j < dim@.len() && 0 <= k < dim@[j]@.len() ==> #[trigger] dim@[j]@[k]
                < SUBTABLE_MEMORY_SIZE,
    ensures
        r@.len() == dim@.len(),
        all_inv(r@),
        forall|j: int|
            0 <= j < dim@.len() ==> #[trigger] r@[j].val() == column_digest(
                col_ints(dim@[j]@),
                base.val(),
            ),
{
    let mut r: Vec<Fe> = Vec::new();
    let mut j: usize = 0;
    proof {
        lemma2_to64();
        lemma2_to64_rest();
    }
    while j < dim.len()
        invariant
            j <= dim@.len(),
            base.inv(),
            forall|t: int, k: int|
                0 <= t < dim@.len() && 0 <= k < dim@[t]@.len() ==> #[trigger] dim@[t]@[k]
                    < SUBTABLE_MEMORY_SIZE,
            r@.len() == j,
            all_inv(r@),
            forall|t: int|
                0 <= t < j ==> #[trigger] r@[t].val() == column_digest(
                    col_ints(dim@[t]@),
                    base.val(),
                ),
        decreases dim@.len() - j,
    {
        let col = &dim[j];
        let ghost ci = col_ints(col@);
        let mut acc = Fe::zero();
        let mut k: usize = 0;
        proof {
            assert(ci.take(0) =~= Seq::<int>::empty());
        }
        while k < col.len()
            invariant
                k <= col@.len(),
                base.inv(),
                acc.inv(),
                ci == col_ints(col@),
                forall|t: int| 0 <= t < col@.len() ==> #[trigger] col@[t] < SUBTABLE_MEMORY_SIZE,
                acc.val() == column_digest(ci.take(k as int), base.val()),
            decreases col@.len() - k,
        {
            let e = Fe::from_u64(col[k] as u64);
            proof {
                vstd::arithmetic::div_mod::lemma_small_mod(col@[k as int] as nat, modulus() as nat);
                assert(ci.take(k as int + 1).drop_last() =~= ci.take(k as int));
                assert(ci.take(k as int + 1).last() == col@[k as int] as int);
            }
            acc = acc.mul(base).add(e);
            k = k + 1;
        }
        proof {
            assert(ci.take(col@.len() as int) =~= ci);
        }
        r.push(acc);
        j = j + 1;
    }
    r
}

impl DensifiedRepresentation {
    /// Commits to the densified columns: one Horner digest per column,
    /// deterministic given the same generators and columns.
    pub fn commit(&self, gens: &SparsePolyCommitmentGens) -> (cm: Commitment)
        requires
            self.wf(),
            self.log_m == 2 * SUBTABLE_OPERAND_BITS,
            gens.base.inv(),
        ensures
            cm.c == self.c,
            cm.s == self.s,
            cm.s_padded == self.s_padded,
            cm.log_m == self.log_m,
            cm.digests@.len() == self.c,
            all_inv(cm.digests@),
            vals_of(cm.digests@) == commit_digests(dim_views(self.dim@), gens.base.val()),
    {
        proof {
            lemma2_to64();
            lemma2_to64_rest();
            assert(pow2(16) == 65536);
        }
        let digests = commit_columns(&self.dim, gens.base);
        proof {
            assert(vals_of(digests@) =~= commit_digests(dim_views(self.dim@), gens.base.val()));
        }
        Commitment {
            digests,
            c: self.c,
            s: self.s,
            s_padded: self.s_padded,
            log_m: self.log_m,
        }
    }
}

/// The field sum of a contiguous range of a scalar vector.
fn fe_sum_range(t: &Vec<Fe>, lo: usize, hi: usize) -> (r: Fe)
    requires
        lo <= hi <= t@.len(),
        all_inv(t@),
    ensures
        r.inv(),
        r.val() == fsum(vals_of(t@).subrange(lo as int, hi as int)),
{
    let ghost tv = vals_of(t@);
    let mut acc = Fe::zero();
    let mut i: usize = lo;
    proof {
        assert(tv.subrange(lo as int, lo as int) =~= Seq::<int>::empty());
    }
    while i < hi
        invariant
            lo <= i <= hi <= t@.len(),
            all_inv(t@),
            tv == vals_of(t@),
            acc.inv(),
            acc.val() == fsum(tv.subrange(lo as int, i as int)),
        decreases hi - i,
    {
        proof {
            assert(tv.subrange(lo as int, i as int + 1).drop_last() =~= tv.subrange(
                lo as int,
                i as int,
            ));
            assert(tv.subrange(lo as int, i as int + 1).last() == t@[i as int].val());
        }
        acc = acc.add(t[i]);
        i = i + 1;
    }
    acc
}

/// One sumcheck binding step on a scalar vector of even length.
fn fold_vec(t: &Vec<Fe>, ch: Fe) -> (r: Vec<Fe>)
    requires
        t@.len() % 2 == 0,
        all_inv(t@),
        ch.inv(),
    ensures
        r@.len() == t@.len() / 2,
        all_inv(r@),
        vals_of(r@) == fold_half(vals_of(t@), ch.val()),
{
    let full = t.len();
    let h = full / 2;
    proof {
        vstd::arithmetic::div_mod::lemma_fundamental_div_mod(t@.len() as int, 2);
    }
    let mut r: Vec<Fe> = Vec::new();
    let mut j: usize = 0;
    while j < h
        invariant
            j <= h,
            full == t@.len(),
            h == t@.len() / 2,
            full == 2 * h,
            t@.len() % 2 == 0,
            all_inv(t@),
            ch.inv(),
            r@.len() == j,
            all_inv(r@),
            forall|u: int|
                0 <= u < j ==> #[trigger] r@[u].val() == f_add(
                    t@[u].val(),
                    f_mul(ch.val(), f_sub(t@[u + h].val(), t@[u].val())),
                ),
        decreases h - j,
    {
        r.push(t[j].add(ch.mul(t[j + h].sub(t[j]))));
        j = j + 1;
    }
    proof {
        assert(vals_of(r@) =~= fold_half(vals_of(t@), ch.val()));
    }
    r
}

/// Builds the weighted lookup table: for each real row, the equality
/// weight against the challenge point times the row's combined subtable
/// values, recomputed from the true tables; zero for each padding row.
fn compute_t(dim: &Vec<Vec<usize>>, c: usize, s: usize, s_padded: usize, r: &Vec<Fe>) -> (t: Vec<
    Fe,
>)
    requires
        1 <= c,
        c < usize::MAX / 2,
        dim@.len() == c,
        forall|j: int| 0 <= j < c ==> #[trigger] dim@[j]@.len() == s_padded,
        forall|j: int, k: int|
            0 <= j < c && 0 <= k < s_padded ==> #[trigger] dim@[j]@[k] < SUBTABLE_MEMORY_SIZE,
        1 <= s <= s_padded,
        s_padded == pow2(r@.len() as nat),
        r@.len() < 64,
        all_inv(r@),
    ensures
        t@.len() == s_padded,
        all_inv(t@),
        vals_of(t@) == t_table(dim_views(dim@), c as int, s as int, s_padded as int, vals_of(r@)),
{
    let lt_table = (LTSubtable {}).materialize();
    let eq_table = (EQSubtable {}).materialize();
    let ghost dimv = dim_views(dim@);
    let ghost rv = vals_of(r@);
    let n = r.len();
    let mut t: Vec<Fe> = Vec::new();
    let mut k: usize = 0;
    while k < s_padded
        invariant
            k <= s_padded,
            1 <= c,
            c < usize::MAX / 2,
            dim@.len() == c,
            forall|j: int| 0 <= j < c ==> #[trigger] dim@[j]@.len() == s_padded,
            forall|j: int, u: int|
                0 <= j < c && 0 <= u < s_padded ==> #[trigger] dim@[j]@[u] < SUBTABLE_MEMORY_SIZE,
            1 <= s <= s_padded,
            s_padded == pow2(n as nat),
            n == r@.len() < 64,
            all_inv(r@),
            dimv == dim_views(dim@),
            rv == vals_of(r@),
            lt_table@.len() == SUBTABLE_MEMORY_SIZE,
            all_inv(lt_table@),
            forall|u: int|
                0 <= u < SUBTABLE_MEMORY_SIZE ==> #[trigger] lt_table@[u].val() == lt_entry(
                    u,
                    SUBTABLE_OPERAND_BITS as nat,
                ),
            eq_table@.len() == SUBTABLE_MEMORY_SIZE,
            all_inv(eq_table@),
            forall|u: int|
                0 <= u < SUBTABLE_MEMORY_SIZE ==> #[trigger] eq_table@[u].val() == eq_entry(
                    u,
                    SUBTABLE_OPERAND_BITS as nat,
                ),
            t@.len() == k,
            all_inv(t@),
            forall|u: int|
                0 <= u < k ==> #[trigger] t@[u].val() == t_entry(dimv, c as int, s as int, rv, u),
        decreases s_padded - k,
    {
        if k < s {
            // gather the row's subtable values in the order the
            // instruction's subtable groups dictate
            let mut vals: Vec<Fe> = Vec::new();
            let mut u: usize = 0;
            while u < c
                invariant
                    u <= c,
                    k < s <= s_padded,
                    dim@.len() == c,
                    forall|j: int| 0 <= j < c ==> #[trigger] dim@[j]@.len() == s_padded,
                    forall|j: int, w: int|
                        0 <= j < c && 0 <= w < s_padded ==> #[trigger] dim@[j]@[w]
                            < SUBTABLE_MEMORY_SIZE,
                    lt_table@.len() == SUBTABLE_MEMORY_SIZE,
                    all_inv(lt_table@),
                    forall|w: int|
                        0 <= w < SUBTABLE_MEMORY_SIZE ==> #[trigger] lt_table@[w].val()
                            == lt_entry(w, SUBTABLE_OPERAND_BITS as nat),
                    dimv == dim_views(dim@),
                    vals@.len() == u,
                    all_inv(vals@),
                    forall|w: int|
                        0 <= w < u ==> #[trigger] vals@[w].val() == lt_entry(
                            dimv[w][k as int] as int,
                            SUBTABLE_OPERAND_BITS as nat,
                        ),
                decreases c - u,
            {
                vals.push(lt_table[dim[u][k]]);
                u = u + 1;
            }
            let mut w: usize = 0;
            while w < c - 1
                invariant
                    w <= c - 1,
                    1 <= c,
                    k < s <= s_padded,
                    dim@.len() == c,
                    forall|j: int| 0 <= j < c ==> #[trigger] dim@[j]@.len() == s_padded,
                    forall|j: int, y: int|
                        0 <= j < c && 0 <= y < s_padded ==> #[trigger] dim@[j]@[y]
                            < SUBTABLE_MEMORY_SIZE,
                    eq_table@.len() == SUBTABLE_MEMORY_SIZE,
                    all_inv(eq_table@),
                    forall|y: int|
                        0 <= y < SUBTABLE_MEMORY_SIZE ==> #[trigger] eq_table@[y].val()
                            == eq_entry(y, SUBTABLE_OPERAND_BITS as nat),
                    dimv == dim_views(dim@),
                    vals@.len() == c + w,
                    all_inv(vals@),
                    forall|y: int|
                        0 <= y < c ==> #[trigger] vals@[y].val() == lt_entry(
                            dimv[y][k as int] as int,
                            SUBTABLE_OPERAND_BITS as nat,
                        ),
                    forall|y: int|
                        0 <= y < w ==> #[trigger] vals@[c + y].val() == eq_entry(
                            dimv[y][k as int] as int,
                            SUBTABLE_OPERAND_BITS as nat,
                        ),
                decreases c - 1 - w,
            {
                vals.push(eq_table[dim[w][k]]);
                w = w + 1;
            }
            proof {
                assert forall|y: int| 0 <= y < vals@.len() implies vals_of(vals@)[y] == row_vals(
                    dimv,
                    c as int,
                    k as int,
                )[y] by {
                    if y >= c {
                        assert(vals@[c + (y - c)].val() == eq_entry(
                            dimv[y - c][k as int] as int,
                            SUBTABLE_OPERAND_BITS as nat,
                        ));
                    }
                }
                assert(vals_of(vals@) =~= row_vals(dimv, c as int, k as int));
            }
            let instr = LTVMInstruction::LT(0, 0);
            let g = match instr.combine_lookups(vals.as_slice(), c, SUBTABLE_MEMORY_SIZE) {
                Ok(g) => g,
                Err(_) => {
                    proof {
                        assert(false);
                    }
                    Fe::zero()
                },
            };
            // the equality weight of this row against the challenge point
            let mut weight = Fe::one();
            if n > 0 {
                let bits = chunk_operand(k as u64, n, 1);
                let mut j: usize = 0;
                while j < n
                    invariant
                        j <= n,
                        1 <= n == r@.len() < 64,
                        k < s_padded,
                        all_inv(r@),
                        rv == vals_of(r@),
                        bits@.len() == n,
                        forall|y: int|
                            0 <= y < n ==> #[trigger] bits@[y] as int == chunk_of(
                                k as int,
                                n as int,
                                1,
                                y,
                            ),
                        weight.inv(),
                        weight.val() == eq_weight_pref(rv, k as int, j as int),
                    decreases n - j,
                {
                    proof {
                        assert(rv[j as int] == r@[j as int].val());
                    }
                    let factor = if bits[j] == 1 {
                        r[j]
                    } else {
                        Fe::one().sub(r[j])
                    };
                    weight = weight.mul(factor);
                    j = j + 1;
                }
            }
            t.push(weight.mul(g));
        } else {
            t.push(Fe::zero());
        }
        k = k + 1;
    }
    proof {
        assert(vals_of(t@) =~= t_table(dimv, c as int, s as int, s_padded as int, rv));
    }
    t
}

/// An element-for-element copy of a set of index columns.
fn copy_columns(dim: &Vec<Vec<usize>>) -> (r: Vec<Vec<usize>>)
    ensures
        r@.len() == dim@.len(),
        forall|j: int| 0 <= j < dim@.len() ==> #[trigger] r@[j]@ == dim@[j]@,
        dim_views(r@) == dim_views(dim@),
{
    let mut r: Vec<Vec<usize>> = Vec::new();
    let mut j: usize = 0;
    while j < dim.len()
        invariant
            j <= dim@.len(),
            r@.len() == j,
            forall|t: int| 0 <= t < j ==> #[trigger] r@[t]@ == dim@[t]@,
        decreases dim@.len() - j,
    {
        let col = &dim[j];
        let mut copy: Vec<usize> = Vec::new();
        let mut k: usize = 0;
        while k < col.len()
            invariant
                k <= col@.len(),
                copy@.len() == k,
                forall|t: int| 0 <= t < k ==> #[trigger] copy@[t] == col@[t],
            decreases col@.len() - k,
        {
            copy.push(col[k]);
            k = k + 1;
        }
        proof {
            assert(copy@ =~= col@);
        }
        r.push(copy);
        j = j + 1;
    }
    proof {
        assert(dim_views(r@) =~= dim_views(dim@));
    }
    r
}

/// One unfolding of the claim chain: a passing round hands its challenge
/// and its claim at that challenge to the rest of the chain.
proof fn lemma_chain_step(pi: Seq<(int, int)>, i: int, st_old: int, claim_old: int)
    requires
        0 <= i < pi.len(),
        f_add(pi[i].0, pi[i].1) == claim_old,
    ensures
        ({
            let p0 = pi[i].0;
            let p1 = pi[i].1;
            let ch = challenge_state(mix(mix(st_old, p0), p1));
            let rest = run_chain(pi.skip(i + 1), ch, f_add(p0, f_mul(ch, f_sub(p1, p0))));
            let cur = run_chain(pi.skip(i), st_old, claim_old);
            &&& cur.ok == rest.ok
            &&& cur.chals == seq![ch] + rest.chals
            &&& cur.claim == rest.claim
        }),
{
    reveal_with_fuel(run_chain, 2);
    assert(pi.skip(i)[0] == pi[i]);
    assert(pi.skip(i).skip(1) =~= pi.skip(i + 1));
}

/// A round whose polynomial does not sum to the claim fails the chain.
proof fn lemma_chain_fail(pi: Seq<(int, int)>, i: int, st_old: int, claim_old: int)
    requires
        0 <= i < pi.len(),
        f_add(pi[i].0, pi[i].1) != claim_old,
    ensures
        !run_chain(pi.skip(i), st_old, claim_old).ok,
{
    reveal_with_fuel(run_chain, 2);
    assert(pi.skip(i)[0] == pi[i]);
}

/// The empty chain passes and keeps its claim.
proof fn lemma_chain_base(pi: Seq<(int, int)>, st: int, claim: int)
    requires
        pi.len() == 0,
    ensures
        run_chain(pi, st, claim).ok,
        run_chain(pi, st, claim).chals == Seq::<int>::empty(),
        run_chain(pi, st, claim).claim == claim,
{
    reveal_with_fuel(run_chain, 1);
}

/// Replays the sumcheck claim chain against a transcript: checks each
/// round polynomial's value sum against the running claim, absorbs it, and
/// derives the next challenge. Yields the challenges and the final claim,
/// or nothing if a round check fails.
fn replay_chain(polys: &Vec<(Fe, Fe)>, claim0: Fe, transcript: &mut Transcript) -> (out: Option<
    (Vec<Fe>, Fe),
>)
    requires
        old(transcript).wf(),
        claim0.inv(),
        polys_inv(polys@),
    ensures
        final(transcript).wf(),
        ({
            let ct = run_chain(polys_ints(polys@), old(transcript).st(), claim0.val());
            match out {
                Option::None => !ct.ok,
                Option::Some(pair) => {
                    &&& ct.ok
                    &&& pair.0@.len() == polys@.len()
                    &&& all_inv(pair.0@)
                    &&& vals_of(pair.0@) == ct.chals
                    &&& pair.1.inv()
                    &&& pair.1.val() == ct.claim
                },
            }
        }),
{
    let ghost pi = polys_ints(polys@);
    let ghost st_pub = old(transcript).st();
    let n = polys.len();
    let mut claim = claim0;
    let mut chals: Vec<Fe> = Vec::new();
    let mut i: usize = 0;
    proof {
        assert(vals_of(chals@) + run_chain(pi, st_pub, claim0.val()).chals =~= run_chain(
            pi,
            st_pub,
            claim0.val(),
        ).chals);
        assert(pi.skip(0) =~= pi);
    }
    while i < n
        invariant
            i <= n,
            n == polys@.len(),
            polys_inv(polys@),
            transcript.wf(),
            claim.inv(),
            chals@.len() == i,
            all_inv(chals@),
            pi == polys_ints(polys@),
            st_pub == old(transcript).st(),
            run_chain(pi, st_pub, claim0.val()).ok == run_chain(
                pi.skip(i as int),
                transcript.st(),
                claim.val(),
            ).ok,
            run_chain(pi, st_pub, claim0.val()).chals == vals_of(chals@) + run_chain(
                pi.skip(i as int),
                transcript.st(),
                claim.val(),
            ).chals,
            run_chain(pi, st_pub, claim0.val()).claim == run_chain(
                pi.skip(i as int),
                transcript.st(),
                claim.val(),
            ).claim,
        decreases n - i,
    {
        let ghost st_old = transcript.st();
        let ghost claim_old = claim.val();
        let ghost chals_old = chals@;
        let p = polys[i];
        let (p0, p1) = p;
        proof {
            assert(pi[i as int] == (p0.val(), p1.val()));
        }
        if !(p0.add(p1) == claim) {
            proof {
                lemma_chain_fail(pi, i as int, st_old, claim_old);
            }
            return None;
        }
        transcript.absorb_scalar(&p0);
        transcript.absorb_scalar(&p1);
        let ch = transcript.challenge();
        claim = p0.add(ch.mul(p1.sub(p0)));
        chals.push(ch);
        proof {
            lemma_chain_step(pi, i as int, st_old, claim_old);
            let rest = run_chain(pi.skip(i as int + 1), transcript.st(), claim.val());
            assert(vals_of(chals@) =~= vals_of(chals_old) + seq![ch.val()]);
            assert((vals_of(chals_old) + seq![ch.val()]) + rest.chals =~= vals_of(chals_old) + (
            seq![ch.val()] + rest.chals));
        }
        i = i + 1;
    }
    proof {
        assert(pi.skip(n as int) =~= Seq::<(int, int)>::empty());
        lemma_chain_base(pi.skip(n as int), transcript.st(), claim.val());
        assert(vals_of(chals@) + Seq::<int>::empty() =~= vals_of(chals@));
    }
    Some((chals, claim))
}

impl SparsePolynomialEvaluationProof {
    /// Proves that the committed lookups evaluate, under the equality
    /// weighting against the challenge point `r` and the instruction's
    /// collation polynomial, to the claimed scalar: computes the weighted
    /// lookup table, binds the public inputs into the transcript, then runs
    /// one sumcheck round per table variable, absorbing each round
    /// polynomial before deriving the next challenge.
    pub fn prove(
        dense: &DensifiedRepresentation,
        r: &Vec<Fe>,
        gens: &SparsePolyCommitmentGens,
        transcript: &mut Transcript,
    ) -> (pf: Self)
        requires
            dense.wf(),
            dense.log_m == 2 * SUBTABLE_OPERAND_BITS,
            1 <= dense.c,
            dense.c < usize::MAX / 2,
            dense.s_padded == pow2(r@.len() as nat),
            r@.len() < 64,
            all_inv(r@),
            gens.base.inv(),
            old(transcript).wf(),
        ensures
            final(transcript).wf(),
            pf.claimed_eval.inv(),
            pf.opened_dim@.len() == dense.c,
            dim_views(pf.opened_dim@) == dim_views(dense.dim@),
            pf.round_polys@.len() == r@.len(),
            polys_inv(pf.round_polys@),
            ({
                let tt = t_table(
                    dim_views(dense.dim@),
                    dense.c as int,
                    dense.s as int,
                    dense.s_padded as int,
                    vals_of(r@),
                );
                let st_pub = bind_public(
                    old(transcript).st(),
                    commit_digests(dim_views(dense.dim@), gens.base.val()),
                    vals_of(r@),
                    fsum(tt),
                );
                let run = sumcheck_run(tt, st_pub);
                &&& pf.claimed_eval.val() == fsum(tt)
                &&& polys_ints(pf.round_polys@) == run.polys
                &&& final(transcript).st() == run.state
            }),
    {
        let cm = dense.commit(gens);
        proof {
            lemma2_to64();
            assert(pow2((2 * SUBTABLE_OPERAND_BITS) as nat) == SUBTABLE_MEMORY_SIZE);
        }
        let t0 = compute_t(&dense.dim, dense.c, dense.s, dense.s_padded, r);
        let claimed = fe_sum_range(&t0, 0, dense.s_padded);
        proof {
            assert(vals_of(t0@).subrange(0, dense.s_padded as int) =~= vals_of(t0@));
        }
        transcript.absorb_scalars(&cm.digests);
        transcript.absorb_scalars(r);
        transcript.absorb_scalar(&claimed);
        let ghost tt = vals_of(t0@);
        let ghost st_pub = transcript.st();
        let n = r.len();
        let mut tcur = t0;
        let mut polys: Vec<(Fe, Fe)> = Vec::new();
        let mut i: usize = 0;
        proof {
            assert(polys_ints(polys@) + sumcheck_run(tt, st_pub).polys =~= sumcheck_run(
                tt,
                st_pub,
            ).polys);
        }
        while i < n
            invariant
                i <= n,
                n == r@.len() < 64,
                transcript.wf(),
                all_inv(tcur@),
                tcur@.len() == pow2((n - i) as nat),
                polys@.len() == i,
                polys_inv(polys@),
                sumcheck_run(tt, st_pub).polys == polys_ints(polys@) + sumcheck_run(
                    vals_of(tcur@),
                    transcript.st(),
                ).polys,
                sumcheck_run(tt, st_pub).state == sumcheck_run(
                    vals_of(tcur@),
                    transcript.st(),
                ).state,
            decreases n - i,
        {
            proof {
                crate::bits::lemma_pow2_double((n - i - 1) as nat);
                lemma_pow2_pos((n - i - 1) as nat);
            }
            let len = tcur.len();
            let h = len / 2;
            let ghost tv_old = vals_of(tcur@);
            let ghost st_old = transcript.st();
            let ghost polys_old = polys@;
            let p0 = fe_sum_range(&tcur, 0, h);
            let p1 = fe_sum_range(&tcur, h, len);
            proof {
                assert(tv_old.subrange(0, h as int) =~= tv_old.take(h as int));
                assert(tv_old.subrange(h as int, len as int) =~= tv_old.skip(h as int));
            }
            transcript.absorb_scalar(&p0);
            transcript.absorb_scalar(&p1);
            let ch = transcript.challenge();
            let tnext = fold_vec(&tcur, ch);
            polys.push((p0, p1));
            proof {
                let run_old = sumcheck_run(tv_old, st_old);
                let run_new = sumcheck_run(vals_of(tnext@), transcript.st());
                assert(run_old.polys == seq![(p0.val(), p1.val())] + run_new.polys);
                assert(run_old.state == run_new.state);
                assert(polys_ints(polys@) =~= polys_ints(polys_old) + seq![
                    (p0.val(), p1.val()),
                ]);
                assert((polys_ints(polys_old) + seq![(p0.val(), p1.val())]) + run_new.polys
                    =~= polys_ints(polys_old) + (seq![(p0.val(), p1.val())] + run_new.polys));
            }
            tcur = tnext;
            i = i + 1;
        }
        proof {
            lemma2_to64();
            assert(tcur@.len() == 1);
            assert(sumcheck_run(vals_of(tcur@), transcript.st()).polys =~= Seq::<(
                int,
                int,
            )>::empty());
            assert(polys_ints(polys@) + Seq::<(int, int)>::empty() =~= polys_ints(polys@));
        }
        let opened_dim = copy_columns(&dense.dim);
        SparsePolynomialEvaluationProof { claimed_eval: claimed, round_polys: polys, opened_dim }
    }

    /// Verifies the proof against the commitment, the challenge point and
    /// the generators: re-derives every challenge from its own transcript,
    /// checks the proof's shape, rebinds the opened columns to the
    /// commitment, replays the sumcheck claim chain, and compares the final
    /// claim with the opened columns' weighted lookup table folded by the
    /// derived challenges. Fails closed on the first check that breaks.
    #[verifier::rlimit(100)]
    pub fn verify(
        &self,
        commitment: &Commitment,
        r: &Vec<Fe>,
        gens: &SparsePolyCommitmentGens,
        transcript: &mut Transcript,
    ) -> (res: Result<(), VerificationError>)
        requires
            old(transcript).wf(),
            all_inv(r@),
            r@.len() < 64,
            gens.base.inv(),
        ensures
            final(transcript).wf(),
            res == verify_decision(
                *self,
                *commitment,
                vals_of(r@),
                old(transcript).st(),
                gens.base.val(),
            ),
    {
        let n = r.len();
        proof {
            assert(vals_of(r@).len() == r@.len());
        }
        // shape checks
        let sp_expected: u64 = pow2_u64(n as u64);
        if !(1 <= commitment.c && commitment.c < usize::MAX / 2
            && self.opened_dim.len() == commitment.c && commitment.digests.len() == commitment.c
            && 1 <= commitment.s && commitment.s <= commitment.s_padded
            && commitment.s_padded as u64 == sp_expected
            && commitment.log_m == 2 * SUBTABLE_OPERAND_BITS && self.round_polys.len() == n
            && self.claimed_eval.is_reduced()) {
            return Err(VerificationError::MalformedProof);
        }
        let mut j: usize = 0;
        while j < commitment.c
            invariant
                j <= commitment.c,
                transcript.wf(),
                *transcript == *old(transcript),
                self.opened_dim@.len() == commitment.c,
                forall|t: int|
                    0 <= t < j ==> #[trigger] self.opened_dim@[t]@.len() == commitment.s_padded,
                forall|t: int, k: int|
                    0 <= t < j && 0 <= k < commitment.s_padded ==> #[trigger] self.opened_dim@[t]@[k]
                        < SUBTABLE_MEMORY_SIZE,
            decreases commitment.c - j,
        {
            let col = &self.opened_dim[j];
            if col.len() != commitment.s_padded {
                return Err(VerificationError::MalformedProof);
            }
            let mut k: usize = 0;
            while k < col.len()
                invariant
                    k <= col@.len(),
                    transcript.wf(),
                    *transcript == *old(transcript),
                    0 <= j < commitment.c,
                    self.opened_dim@.len() == commitment.c,
                    col@ == self.opened_dim@[j as int]@,
                    col@.len() == commitment.s_padded,
                    forall|t: int| 0 <= t < k ==> #[trigger] col@[t] < SUBTABLE_MEMORY_SIZE,
                decreases col@.len() - k,
            {
                if col[k] >= SUBTABLE_MEMORY_SIZE {
                    return Err(VerificationError::MalformedProof);
                }
                k = k + 1;
            }
            j = j + 1;
        }
        let mut y: usize = 0;
        while y < self.round_polys.len()
            invariant
                y <= self.round_polys@.len(),
                transcript.wf(),
                *transcript == *old(transcript),
                forall|t: int|
                    0 <= t < y ==> (#[trigger] self.round_polys@[t]).0.inv()
                        && self.round_polys@[t].1.inv(),
            decreases self.round_polys@.len() - y,
        {
            let p = &self.round_polys[y];
            if !(p.0.is_reduced() && p.1.is_reduced()) {
                return Err(VerificationError::MalformedProof);
            }
            proof {
                assert(self.round_polys@[y as int].0.inv());
                assert(self.round_polys@[y as int].1.inv());
            }
            y = y + 1;
        }
        let mut y2: usize = 0;
        while y2 < commitment.digests.len()
            invariant
                y2 <= commitment.digests@.len(),
                transcript.wf(),
                *transcript == *old(transcript),
                forall|t: int| 0 <= t < y2 ==> (#[trigger] commitment.digests@[t]).inv(),
            decreases commitment.digests@.len() - y2,
        {
            if !commitment.digests[y2].is_reduced() {
                return Err(VerificationError::MalformedProof);
            }
            y2 = y2 + 1;
        }
        proof {
            assert(shape_ok(*self, *commitment, vals_of(r@)));
        }
        // rebind the opened columns to the commitment
        let recomputed = commit_columns(&self.opened_dim, gens.base);
        let mut j2: usize = 0;
        while j2 < commitment.c
            invariant
                j2 <= commitment.c,
                transcript.wf(),
                *transcript == *old(transcript),
                shape_ok(*self, *commitment, vals_of(r@)),
                commitment.digests@.len() == commitment.c,
                recomputed@.len() == self.opened_dim@.len() == commitment.c,
                gens.base.inv(),
                forall|t: int|
                    0 <= t < recomputed@.len() ==> #[trigger] recomputed@[t].val()
                        == column_digest(col_ints(self.opened_dim@[t]@), gens.base.val()),
                forall|t: int|
                    0 <= t < j2 ==> #[trigger] commitment.digests@[t].val() == column_digest(
                        col_ints(self.opened_dim@[t]@),
                        gens.base.val(),
                    ),
            decreases commitment.c - j2,
        {
            if !(commitment.digests[j2] == recomputed[j2]) {
                proof {
                    let a = commitment.digests@[j2 as int];
                    let b = recomputed@[j2 as int];
                    assert(b.val() == column_digest(
                        col_ints(self.opened_dim@[j2 as int]@),
                        gens.base.val(),
                    ));
                    if a.v == b.v {
                        assert(a == b);
                    }
                    assert(a.val() != column_digest(
                        col_ints(self.opened_dim@[j2 as int]@),
                        gens.base.val(),
                    ));
                }
                return Err(VerificationError::CommitmentMismatch);
            }
            j2 = j2 + 1;
        }
        proof {
            assert(digests_ok(*self, *commitment, gens.base.val()));
        }
        // bind the public inputs and replay the claim chain
        transcript.absorb_scalars(&commitment.digests);
        transcript.absorb_scalars(r);
        transcript.absorb_scalar(&self.claimed_eval);
        let ghost pi = polys_ints(self.round_polys@);
        let ghost st_pub = transcript.st();
        let ghost ct_full = run_chain(pi, st_pub, self.claimed_eval.val());
        let replayed = replay_chain(&self.round_polys, self.claimed_eval, transcript);
        let (chals, claim) = match replayed {
            Some(pair) => pair,
            None => {
                return Err(VerificationError::SumcheckRoundMismatch);
            },
        };
        // recompute the weighted lookup table from the opened columns and
        // the true tables, and fold it by the derived challenges
        let mut tcur = compute_t(
            &self.opened_dim,
            commitment.c,
            commitment.s,
            commitment.s_padded,
            r,
        );
        let ghost tt0 = vals_of(tcur@);
        let mut i2: usize = 0;
        proof {
            assert(ct_full.chals.skip(0) =~= ct_full.chals);
        }
        while i2 < n
            invariant
                i2 <= n,
                n == r@.len() < 64,
                transcript.wf(),
                shape_ok(*self, *commitment, vals_of(r@)),
                digests_ok(*self, *commitment, gens.base.val()),
                ct_full == run_chain(
                    polys_ints(self.round_polys@),
                    st_pub,
                    self.claimed_eval.val(),
                ),
                st_pub == bind_public(
                    old(transcript).st(),
                    vals_of(commitment.digests@),
                    vals_of(r@),
                    self.claimed_eval.val(),
                ),
                ct_full.ok,
                ct_full.claim == claim.val(),
                claim.inv(),
                tt0 == t_table(
                    dim_views(self.opened_dim@),
                    commitment.c as int,
                    commitment.s as int,
                    commitment.s_padded as int,
                    vals_of(r@),
                ),
                chals@.len() == n,
                all_inv(chals@),
                ct_full.chals == vals_of(chals@),
                all_inv(tcur@),
                tcur@.len() == pow2((n - i2) as nat),
                fold_all(tt0, ct_full.chals) == fold_all(
                    vals_of(tcur@),
                    ct_full.chals.skip(i2 as int),
                ),
            decreases n - i2,
        {
            proof {
                crate::bits::lemma_pow2_double((n - i2 - 1) as nat);
                lemma_pow2_pos((n - i2 - 1) as nat);
                assert(ct_full.chals.skip(i2 as int)[0] == chals@[i2 as int].val());
                assert(ct_full.chals.skip(i2 as int).skip(1) =~= ct_full.chals.skip(i2 as int + 1));
            }
            let tnext = fold_vec(&tcur, chals[i2]);
            tcur = tnext;
            i2 = i2 + 1;
        }
        proof {
            lemma2_to64();
            assert(tcur@.len() == 1);
            assert(ct_full.chals.skip(n as int) =~= Seq::<int>::empty());
            assert(fold_all(tt0, ct_full.chals) == vals_of(tcur@));
            assert(fold_all(tt0, ct_full.chals)[0] == tcur@[0].val());
        }
        let final_val = tcur[0];
        if final_val == claim {
            Ok(())
        } else {
            Err(VerificationError::FinalEvaluationMismatch)
        }
    }
}

/// A field sum is a reduced value.
proof fn lemma_fsum_range(s: Seq<int>)
    ensures
        0 <= fsum(s) < modulus(),
    decreases s.len(),
{
    if s.len() == 0 {
    } else {
        lemma_fsum_range(s.drop_last());
        crate::field::lemma_f_range(fsum(s.drop_last()), s.last());
    }
}

/// A field sum splits at any cut into the sum of the two parts.
proof fn lemma_fsum_split(t: Seq<int>, h: int)
    requires
        0 <= h <= t.len(),
    ensures
        fsum(t) == f_add(fsum(t.take(h)), fsum(t.skip(h))),
    decreases t.len(),
{
    if t.len() == h {
        assert(t.take(h) =~= t);
        assert(t.skip(h) =~= Seq::<int>::empty());
        lemma_fsum_range(t);
        crate::field::lemma_f_add_zero(fsum(t));
    } else {
        let dl = t.drop_last();
        lemma_fsum_split(dl, h);
        assert(dl.take(h) =~= t.take(h));
        assert(dl.skip(h) =~= t.skip(h).drop_last());
        assert(t.skip(h).last() == t.last());
        crate::field::lemma_f_add_assoc(fsum(t.take(h)), fsum(t.skip(h).drop_last()), t.last());
    }
}

/// Folding two halves affinely sums to the affine combination of the
/// halves' sums: the folded table's total is the round polynomial's value
/// at the challenge.
proof fn lemma_fsum_fold_pair(a: Seq<int>, b: Seq<int>, ch: int)
    requires
        a.len() == b.len(),
    ensures
        fsum(fold_pair(a, b, ch)) == f_add(fsum(a), f_mul(ch, f_sub(fsum(b), fsum(a)))),
    decreases a.len(),
{
    if a.len() == 0 {
        assert(fold_pair(a, b, ch) =~= Seq::<int>::empty());
        crate::field::lemma_f01();
        assert(f_sub(0, 0) == 0);
        assert(f_mul(ch, 0) == 0) by {
            vstd::arithmetic::div_mod::lemma_small_mod(0nat, modulus() as nat);
        }
    } else {
        let f = fold_pair(a, b, ch);
        assert(f.drop_last() =~= fold_pair(a.drop_last(), b.drop_last(), ch));
        assert(f.last() == f_add(a.last(), f_mul(ch, f_sub(b.last(), a.last()))));
        lemma_fsum_fold_pair(a.drop_last(), b.drop_last(), ch);
        crate::field::lemma_f_fold_linear(
            fsum(a.drop_last()),
            fsum(b.drop_last()),
            a.last(),
            b.last(),
            ch,
        );
    }
}

/// Every entry of the weighted lookup table is reduced.
proof fn lemma_t_table_all_fe(dimv: Seq<Seq<usize>>, c: int, s: int, s_padded: int, rv: Seq<int>)
    ensures
        all_fe(t_table(dimv, c, s, s_padded, rv)),
{
    let tt = t_table(dimv, c, s, s_padded, rv);
    assert forall|k: int| 0 <= k < tt.len() implies 0 <= #[trigger] tt[k] < modulus() by {
        if k < s {
            crate::field::lemma_f_range(eq_weight(rv, k), g_sum(row_vals(dimv, c, k), c, c));
        }
    }
}

/// A folded table is still made of reduced values, and is half as long.
proof fn lemma_fold_half_fe(t: Seq<int>, ch: int)
    ensures
        all_fe(fold_half(t, ch)),
        fold_half(t, ch).len() == t.len() / 2,
{
    let t2 = fold_half(t, ch);
    let h = t.len() as int / 2;
    assert forall|j: int| 0 <= j < t2.len() implies 0 <= #[trigger] t2[j] < modulus() by {
        crate::field::lemma_f_range(t.take(h)[j], f_mul(ch, f_sub(t.skip(h)[j], t.take(h)[j])));
    }
}

/// The inductive step of sumcheck completeness: one honest round replays
/// cleanly and reduces the statement to the folded table.
#[verifier::rlimit(100)]
#[verifier::spinoff_prover]
proof fn lemma_sumcheck_honest_step(t: Seq<int>, st: int)
    requires
        all_fe(t),
        t.len() >= 2,
        t.len() as int % 2 == 0,
        ({
            let h = t.len() as int / 2;
            let p0 = fsum(t.take(h));
            let p1 = fsum(t.skip(h));
            let ch = challenge_state(mix(mix(st, p0), p1));
            let t2 = fold_half(t, ch);
            let run2 = sumcheck_run(t2, ch);
            let ct2 = run_chain(run2.polys, ch, fsum(t2));
            &&& ct2.ok
            &&& ct2.chals == run2.chals
            &&& ct2.claim == fold_all(t2, run2.chals)[0]
        }),
    ensures
        ({
            let run = sumcheck_run(t, st);
            let ct = run_chain(run.polys, st, fsum(t));
            &&& ct.ok
            &&& ct.chals == run.chals
            &&& ct.claim == fold_all(t, run.chals)[0]
        }),
{
    let h = t.len() as int / 2;
    let p0 = fsum(t.take(h));
    let p1 = fsum(t.skip(h));
    let ch = challenge_state(mix(mix(st, p0), p1));
    let t2 = fold_half(t, ch);
    let run2 = sumcheck_run(t2, ch);
    let ct2 = run_chain(run2.polys, ch, fsum(t2));
    lemma_fsum_split(t, h);
    assert(t.take(h).len() == t.skip(h).len());
    lemma_fsum_fold_pair(t.take(h), t.skip(h), ch);
    let run = sumcheck_run(t, st);
    let claim1 = f_add(p0, f_mul(ch, f_sub(p1, p0)));
    assert(claim1 == fsum(t2));
    assert(run.polys == seq![(p0, p1)] + run2.polys);
    assert(run.chals == seq![ch] + run2.chals);
    let ct = run_chain(run.polys, st, fsum(t));
    assert(run.polys[0] == (p0, p1));
    assert(f_add(p0, p1) == fsum(t));
    lemma_chain_step(run.polys, 0, st, fsum(t));
    assert(run.polys.skip(0) =~= run.polys);
    assert(run.polys.skip(1) =~= run2.polys);
    assert(ct.ok == ct2.ok);
    assert(ct.chals == seq![ch] + ct2.chals);
    assert(ct.claim == ct2.claim);
    assert(run.chals[0] == ch);
    assert(run.chals.skip(1) =~= run2.chals);
    assert(fold_all(t, run.chals) == fold_all(t2, run2.chals));
}

/// Completeness of the sumcheck pass: the honest prover's round
/// polynomials replay cleanly against the same transcript state, derive
/// the same challenges, and leave as final claim exactly the table folded
/// by those challenges.
#[verifier::rlimit(100)]
#[verifier::spinoff_prover]
pub proof fn lemma_sumcheck_honest(t: Seq<int>, st: int)
    requires
        all_fe(t),
        crate::bits::is_pow2_u(t.len()),
    ensures
        ({
            let run = sumcheck_run(t, st);
            let ct = run_chain(run.polys, st, fsum(t));
            &&& ct.ok
            &&& ct.chals == run.chals
            &&& ct.claim == fold_all(t, run.chals)[0]
        }),
    decreases t.len(),
{
    let e = choose|e: nat| t.len() == pow2(e);
    vstd::arithmetic::power2::lemma_pow2_pos(e);
    if t.len() <= 1 {
        let run = sumcheck_run(t, st);
        lemma_chain_base(run.polys, st, fsum(t));
        assert(t.len() == 1);
        assert(t.drop_last() =~= Seq::<int>::empty());
        lemma_fsum_range(t);
        assert(0 <= t[0] < modulus());
        assert(t.last() == t[0]);
        crate::field::lemma_f_add_zero(t.last());
        assert(fsum(t) == f_add(fsum(t.drop_last()), t.last()));
        assert(fsum(t.drop_last()) == 0);
        assert(fsum(t) == t[0]);
        assert(fold_all(t, run.chals) == t);
    } else {
        assert(e >= 1) by {
            lemma2_to64();
            if e == 0 {
                assert(pow2(0) == 1);
            }
        }
        crate::bits::lemma_pow2_double((e - 1) as nat);
        assert(t.len() == 2 * pow2((e - 1) as nat));
        let h = t.len() as int / 2;
        let p0 = fsum(t.take(h));
        let p1 = fsum(t.skip(h));
        let ch = challenge_state(mix(mix(st, p0), p1));
        let t2 = fold_half(t, ch);
        lemma_fold_half_fe(t, ch);
        assert(t2.len() == pow2((e - 1) as nat));
        assert(crate::bits::is_pow2_u(t2.len()));
        lemma_sumcheck_honest(t2, ch);
        lemma_sumcheck_honest_step(t, st);
    }
}

/// An honest proof verifies: a proof whose opened columns, claimed
/// evaluation and round polynomials are exactly what the prover computes
/// for a commitment that binds the same columns is accepted, whenever the
/// verifier's transcript starts in the same state the prover's did.
pub proof fn lemma_prove_then_verify_accepts(
    pf: SparsePolynomialEvaluationProof,
    cm: Commitment,
    rv: Seq<int>,
    st0: int,
    base: int,
)
    requires
        shape_ok(pf, cm, rv),
        digests_ok(pf, cm, base),
        ({
            let tt = t_table(
                dim_views(pf.opened_dim@),
                cm.c as int,
                cm.s as int,
                cm.s_padded as int,
                rv,
            );
            &&& pf.claimed_eval.val() == fsum(tt)
            &&& polys_ints(pf.round_polys@) == sumcheck_run(
                tt,
                bind_public(st0, vals_of(cm.digests@), rv, fsum(tt)),
            ).polys
        }),
    ensures
        verify_decision(pf, cm, rv, st0, base) == Result::<(), VerificationError>::Ok(()),
{
    let tt = t_table(dim_views(pf.opened_dim@), cm.c as int, cm.s as int, cm.s_padded as int, rv);
    let st_pub = bind_public(st0, vals_of(cm.digests@), rv, fsum(tt));
    lemma_t_table_all_fe(dim_views(pf.opened_dim@), cm.c as int, cm.s as int, cm.s_padded as int, rv);
    assert(tt.len() == cm.s_padded);
    assert(crate::bits::is_pow2_u(tt.len())) by {
        assert(tt.len() == pow2(rv.len() as nat));
    }
    lemma_sumcheck_honest(tt, st_pub);
}

/// The full round trip: the proof that `prove` returns for a densified
/// batch, checked against the commitment that `commit` returns for the
/// same batch, is accepted by a verifier whose transcript starts in the
/// same state the prover's did. The premises are exactly what the two
/// functions' contracts give.
pub proof fn lemma_round_trip(
    dense: DensifiedRepresentation,
    cm: Commitment,
    pf: SparsePolynomialEvaluationProof,
    rv: Seq<int>,
    st0: int,
    base: int,
)
    requires
        dense.wf(),
        dense.log_m == 2 * SUBTABLE_OPERAND_BITS,
        1 <= dense.c,
        dense.c < usize::MAX as int / 2,
        dense.s_padded == pow2(rv.len() as nat),
        cm.c == dense.c,
        cm.s == dense.s,
        cm.s_padded == dense.s_padded,
        cm.log_m == dense.log_m,
        cm.digests@.len() == dense.c,
        all_inv(cm.digests@),
        vals_of(cm.digests@) == commit_digests(dim_views(dense.dim@), base),
        pf.claimed_eval.inv(),
        polys_inv(pf.round_polys@),
        pf.round_polys@.len() == rv.len(),
        pf.opened_dim@.len() == dense.c,
        dim_views(pf.opened_dim@) == dim_views(dense.dim@),
        ({
            let tt = t_table(
                dim_views(dense.dim@),
                dense.c as int,
                dense.s as int,
                dense.s_padded as int,
                rv,
            );
            &&& pf.claimed_eval.val() == fsum(tt)
            &&& polys_ints(pf.round_polys@) == sumcheck_run(
                tt,
                bind_public(st0, vals_of(cm.digests@), rv, fsum(tt)),
            ).polys
        }),
    ensures
        verify_decision(pf, cm, rv, st0, base) == Result::<(), VerificationError>::Ok(()),
{
    lemma2_to64();
    assert(pow2((2 * SUBTABLE_OPERAND_BITS) as nat) == SUBTABLE_MEMORY_SIZE);
    assert forall|j: int| 0 <= j < cm.c implies #[trigger] pf.opened_dim@[j]@.len()
        == cm.s_padded by {
        assert(dim_views(pf.opened_dim@)[j] == pf.opened_dim@[j]@);
        assert(dim_views(dense.dim@)[j] == dense.dim@[j]@);
    }
    assert forall|j: int, k: int| 0 <= j < cm.c && 0 <= k < cm.s_padded implies #[trigger] pf
        .opened_dim@[j]@[k] < SUBTABLE_MEMORY_SIZE by {
        assert(dim_views(pf.opened_dim@)[j] == pf.opened_dim@[j]@);
        assert(dim_views(dense.dim@)[j] == dense.dim@[j]@);
        assert((dense.dim@[j]@[k] as int) < pow2(dense.log_m as nat));
    }
    assert(shape_ok(pf, cm, rv));
    assert forall|j: int| 0 <= j < cm.c implies (#[trigger] cm.digests@[j].val())
        == column_digest(col_ints(pf.opened_dim@[j]@), base) by {
        assert(vals_of(cm.digests@)[j] == cm.digests@[j].val());
        assert(commit_digests(dim_views(dense.dim@), base)[j] == column_digest(
            col_ints(dim_views(dense.dim@)[j]),
            base,
        ));
        assert(dim_views(pf.opened_dim@)[j] == pf.opened_dim@[j]@);
        assert(dim_views(dense.dim@)[j] == dense.dim@[j]@);
    }
    assert(digests_ok(pf, cm, base));
    assert(t_table(dim_views(pf.opened_dim@), cm.c as int, cm.s as int, cm.s_padded as int, rv)
        == t_table(dim_views(dense.dim@), dense.c as int, dense.s as int, dense.s_padded as int, rv));
    lemma_prove_then_verify_accepts(pf, cm, rv, st0, base);
}

/// Padding insensitivity: two densified layouts that agree on every real
/// row give the same weighted lookup table, hence the same claimed
/// evaluation, whatever indices their padding rows hold.
#[verifier::rlimit(100)]
#[verifier::spinoff_prover]
pub proof fn lemma_padding_insensitive(
    dimv1: Seq<Seq<usize>>,
    dimv2: Seq<Seq<usize>>,
    c: int,
    s: int,
    s_padded: int,
    rv: Seq<int>,
)
    requires
        1 <= c,
        0 <= s,
        0 <= s_padded,
        dimv1.len() == c,
        dimv2.len() == c,
        forall|j: int, k: int|
            0 <= j < c && 0 <= k < s ==> #[trigger] dimv1[j][k] == dimv2[j][k],
    ensures
        t_table(dimv1, c, s, s_padded, rv) == t_table(dimv2, c, s, s_padded, rv),
        fsum(t_table(dimv1, c, s, s_padded, rv)) == fsum(t_table(dimv2, c, s, s_padded, rv)),
{
    assert forall|k: int| 0 <= k < s_padded implies t_entry(dimv1, c, s, rv, k) == t_entry(
        dimv2,
        c,
        s,
        rv,
        k,
    ) by {
        if k < s {
            assert forall|x: int| 0 <= x < row_vals(dimv1, c, k).len() implies row_vals(
                dimv1,
                c,
                k,
            )[x] == row_vals(dimv2, c, k)[x] by {
                if x < c {
                    assert(dimv1[x][k] == dimv2[x][k]);
                } else {
                    let j = x - c;
                    assert(0 <= j < c);
                    assert(0 <= k < s);
                    assert(dimv1[j][k] == dimv2[j][k]);
                    assert(row_vals(dimv1, c, k)[x] == eq_entry(
                        dimv1[j][k] as int,
                        SUBTABLE_OPERAND_BITS as nat,
                    ));
                }
            }
            assert(row_vals(dimv1, c, k) =~= row_vals(dimv2, c, k));
        }
    }
    assert(t_table(dimv1, c, s, s_padded, rv) =~= t_table(dimv2, c, s, s_padded, rv));
}

/// Tamper sensitivity of the claimed evaluation: a proof that is honest in
/// every part but claims a different evaluation is rejected at the first
/// sumcheck round.
pub proof fn lemma_tampered_claim_rejected(
    pf: SparsePolynomialEvaluationProof,
    cm: Commitment,
    rv: Seq<int>,
    st0: int,
    base: int,
)
    requires
        shape_ok(pf, cm, rv),
        digests_ok(pf, cm, base),
        rv.len() >= 1,
        ({
            let tt = t_table(
                dim_views(pf.opened_dim@),
                cm.c as int,
                cm.s as int,
                cm.s_padded as int,
                rv,
            );
            &&& pf.claimed_eval.val() != fsum(tt)
            &&& polys_ints(pf.round_polys@) == sumcheck_run(
                tt,
                bind_public(st0, vals_of(cm.digests@), rv, pf.claimed_eval.val()),
            ).polys
        }),
    ensures
        verify_decision(pf, cm, rv, st0, base) == Result::<(), VerificationError>::Err(
            VerificationError::SumcheckRoundMismatch,
        ),
{
    let tt = t_table(dim_views(pf.opened_dim@), cm.c as int, cm.s as int, cm.s_padded as int, rv);
    let st_pub = bind_public(st0, vals_of(cm.digests@), rv, pf.claimed_eval.val());
    let pi = polys_ints(pf.round_polys@);
    assert(tt.len() == pow2(rv.len() as nat));
    assert(tt.len() >= 2) by {
        lemma2_to64();
        vstd::arithmetic::power2::lemma_pow2_strictly_increases(0nat, rv.len() as nat);
    }
    let h = tt.len() as int / 2;
    assert(pi[0] == (fsum(tt.take(h)), fsum(tt.skip(h))));
    lemma_fsum_split(tt, h);
    assert(f_add(pi[0].0, pi[0].1) == fsum(tt));
    lemma_chain_fail(pi, 0, st_pub, pf.claimed_eval.val());
    assert(pi.skip(0) =~= pi);
    assert(!run_chain(pi, st_pub, pf.claimed_eval.val()).ok);
}

} // verus!
