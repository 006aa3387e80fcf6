//! Dense column layout of a batch of lookups: the `C` index vectors of `S`
//! instructions become `C` columns of length `S` padded to the next power
//! of two, the padding rows repeating row index 0.
use vstd::prelude::*;

verus! {

use vstd::arithmetic::power2::pow2;
use crate::bits::{next_pow2, is_pow2_u};

/// A batch of lookups laid out as dense index columns, ready to commit.
pub struct DensifiedRepresentation {
    /// The `c` index columns, each of length `s_padded`.
    pub dim: Vec<Vec<usize>>,
    /// Lookup dimensions per instruction.
    pub c: usize,
    /// Number of real (unpadded) lookups.
    pub s: usize,
    /// `s` rounded up to the next power of two.
    pub s_padded: usize,
    /// Bit width of a table row index: every entry is below `2^log_m`.
    pub log_m: usize,
}

impl DensifiedRepresentation {
    /// Well-formedness of the dense layout.
    pub open spec fn wf(self) -> bool {
        &&& 1 <= self.s <= self.s_padded
        &&& self.s_padded < 2 * self.s
        &&& is_pow2_u(self.s_padded as nat)
        &&& self.dim@.len() == self.c
        &&& forall|j: int| 0 <= j < self.c ==> #[trigger] self.dim@[j]@.len() == self.s_padded
        &&& forall|j: int, k: int|
            0 <= j < self.c && 0 <= k < self.s_padded ==> (#[trigger] self.dim@[j]@[k] as int)
                < pow2(self.log_m as nat)
        &&& forall|j: int, k: int|
            0 <= j < self.c && self.s <= k < self.s_padded ==> #[trigger] self.dim@[j]@[k] == 0
    }

    /// Lays out the batch's index vectors as `c` dense columns: column `j`,
    /// row `k` holds index vector `k`'s entry `j`; rows past the batch
    /// repeat index 0.
    pub fn from_lookup_indices(indices: &Vec<Vec<usize>>, log_m: usize) -> (r: Self)
        requires
            1 <= indices@.len(),
            indices@.len() <= usize::MAX / 2,
            1 <= indices@[0]@.len(),
            forall|k: int|
                0 <= k < indices@.len() ==> #[trigger] indices@[k]@.len() == indices@[0]@.len(),
            forall|k: int, j: int|
                0 <= k < indices@.len() && 0 <= j < indices@[0]@.len()
                    ==> (#[trigger] indices@[k]@[j] as int) < pow2(log_m as nat),
        ensures
            r.wf(),
            r.c == indices@[0]@.len(),
            r.s == indices@.len(),
            r.log_m == log_m,
            forall|j: int, k: int|
                0 <= j < r.c && 0 <= k < r.s ==> #[trigger] r.dim@[j]@[k] == indices@[k]@[j],
    {
        let s = indices.len();
        let c = indices[0].len();
        let s_padded = next_pow2(s);
        proof {
            vstd::arithmetic::power2::lemma_pow2_pos(log_m as nat);
        }
        let mut dim: Vec<Vec<usize>> = Vec::new();
        let mut j: usize = 0;
        while j < c
            invariant
                j <= c,
                1 <= s,
                1 <= c,
                s <= s_padded < 2 * s,
                is_pow2_u(s_padded as nat),
                c == indices@[0]@.len(),
                s == indices@.len(),
                pow2(log_m as nat) >= 1,
                forall|k: int| 0 <= k < s ==> #[trigger] indices@[k]@.len() == c,
                forall|k: int, t: int|
                    0 <= k < s && 0 <= t < c ==> (#[trigger] indices@[k]@[t] as int) < pow2(
                        log_m as nat,
                    ),
                dim@.len() == j,
                forall|t: int| 0 <= t < j ==> #[trigger] dim@[t]@.len() == s_padded,
                forall|t: int, k: int|
                    0 <= t < j && 0 <= k < s ==> #[trigger] dim@[t]@[k] == indices@[k]@[t],
                forall|t: int, k: int|
                    0 <= t < j && s <= k < s_padded ==> #[trigger] dim@[t]@[k] == 0,
            decreases c - j,
        {
            let mut col: Vec<usize> = Vec::new();
            let mut k: usize = 0;
            while k < s_padded
                invariant
                    k <= s_padded,
                    j < c,
                    1 <= s <= s_padded,
                    c == indices@[0]@.len(),
                    s == indices@.len(),
                    forall|t: int| 0 <= t < s ==> #[trigger] indices@[t]@.len() == c,
                    col@.len() == k,
                    forall|t: int| 0 <= t < k && t < s ==> #[trigger] col@[t] == indices@[t]@[
                    j as int],
                    forall|t: int| s <= t < k ==> #[trigger] col@[t] == 0,
                decreases s_padded - k,
            {
                if k < s {
                    let row = &indices[k];
                    col.push(row[j]);
                } else {
                    col.push(0);
                }
                k = k + 1;
            }
            dim.push(col);
            j = j + 1;
        }
        DensifiedRepresentation { dim, c, s, s_padded, log_m }
    }
}

} // verus!
