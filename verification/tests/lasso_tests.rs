use lasso::bits::{chunk_operand, next_pow2, pow2_u64, split_bits};
use lasso::densified::DensifiedRepresentation;
use lasso::field::{Fe, FIELD_MODULUS};
use lasso::instruction::{LassoError, SubtableIndices};
use lasso::lt::{LTVMInstruction, LTVM};
use lasso::subtable::{EQSubtable, LTSubtable, SubtableId};
use lasso::surge::{SparsePolyCommitmentGens, SparsePolynomialEvaluationProof};
use lasso::to_ram_address;
use lasso::transcript::Transcript;

use rand::{Rng, SeedableRng};

fn gen_indices(c: usize, sparsity: usize, memory_size: usize) -> Vec<Vec<usize>> {
    let mut rng = rand::rngs::StdRng::seed_from_u64(1234);
    let mut all_indices: Vec<Vec<usize>> = Vec::new();
    for _ in 0..sparsity {
        let mut indices: Vec<usize> = Vec::new();
        for _ in 0..c {
            indices.push(rng.next_u64() as usize % memory_size);
        }
        all_indices.push(indices);
    }
    all_indices
}

fn gen_random_point(memory_bits: usize) -> Vec<Fe> {
    let mut rng = rand::rngs::StdRng::seed_from_u64(5678);
    let mut r: Vec<Fe> = Vec::new();
    for _ in 0..memory_bits {
        r.push(Fe::from_u64(rng.next_u64()));
    }
    r
}

#[test]
fn e2e() {
    const C: usize = 8;
    const S: usize = 1 << 8;
    const M: usize = 1 << 16;
    let log_m: usize = 16;
    let log_s: usize = 8;

    let nz = gen_indices(C, S, M);
    let r = gen_random_point(log_s);

    let dense = DensifiedRepresentation::from_lookup_indices(&nz, log_m);
    let gens = SparsePolyCommitmentGens::new(b"gens_sparse_poly", C, S, C, log_m);
    let commitment = dense.commit(&gens);
    let mut prover_transcript = Transcript::new(b"example");
    let proof =
        SparsePolynomialEvaluationProof::prove(&dense, &r, &gens, &mut prover_transcript);

    let mut verify_transcript = Transcript::new(b"example");
    proof
        .verify(&commitment, &r, &gens, &mut verify_transcript)
        .expect("should verify");
}

#[test]
fn e2e_tampered_index_rejected() {
    const C: usize = 8;
    const S: usize = 1 << 8;
    const M: usize = 1 << 16;

    let nz = gen_indices(C, S, M);
    let r = gen_random_point(8);
    let dense = DensifiedRepresentation::from_lookup_indices(&nz, 16);
    let gens = SparsePolyCommitmentGens::new(b"gens_sparse_poly", C, S, C, 16);
    let commitment = dense.commit(&gens);
    let mut prover_transcript = Transcript::new(b"example");
    let mut proof =
        SparsePolynomialEvaluationProof::prove(&dense, &r, &gens, &mut prover_transcript);

    // flip one opened index entry
    proof.opened_dim[3][17] = (proof.opened_dim[3][17] + 1) % M;

    let mut verify_transcript = Transcript::new(b"example");
    assert!(proof
        .verify(&commitment, &r, &gens, &mut verify_transcript)
        .is_err());
}

#[test]
fn e2e_tampered_claim_rejected() {
    const C: usize = 8;
    const S: usize = 1 << 4;
    const M: usize = 1 << 16;

    let nz = gen_indices(C, S, M);
    let r = gen_random_point(4);
    let dense = DensifiedRepresentation::from_lookup_indices(&nz, 16);
    let gens = SparsePolyCommitmentGens::new(b"gens_sparse_poly", C, S, C, 16);
    let commitment = dense.commit(&gens);
    let mut prover_transcript = Transcript::new(b"example");
    let mut proof =
        SparsePolynomialEvaluationProof::prove(&dense, &r, &gens, &mut prover_transcript);

    proof.claimed_eval = proof.claimed_eval.add(Fe::one());

    let mut verify_transcript = Transcript::new(b"example");
    assert!(proof
        .verify(&commitment, &r, &gens, &mut verify_transcript)
        .is_err());
}

#[test]
fn e2e_tampered_round_poly_rejected() {
    const C: usize = 8;
    const S: usize = 1 << 4;
    const M: usize = 1 << 16;

    let nz = gen_indices(C, S, M);
    let r = gen_random_point(4);
    let dense = DensifiedRepresentation::from_lookup_indices(&nz, 16);
    let gens = SparsePolyCommitmentGens::new(b"gens_sparse_poly", C, S, C, 16);
    let commitment = dense.commit(&gens);
    let mut prover_transcript = Transcript::new(b"example");
    let mut proof =
        SparsePolynomialEvaluationProof::prove(&dense, &r, &gens, &mut prover_transcript);

    let (p0, p1) = proof.round_polys[2];
    proof.round_polys[2] = (p0.add(Fe::one()), p1);

    let mut verify_transcript = Transcript::new(b"example");
    assert!(proof
        .verify(&commitment, &r, &gens, &mut verify_transcript)
        .is_err());
}

#[test]
fn e2e_changed_point_rejected() {
    const C: usize = 8;
    const S: usize = 1 << 4;
    const M: usize = 1 << 16;

    let nz = gen_indices(C, S, M);
    let r = gen_random_point(4);
    let dense = DensifiedRepresentation::from_lookup_indices(&nz, 16);
    let gens = SparsePolyCommitmentGens::new(b"gens_sparse_poly", C, S, C, 16);
    let commitment = dense.commit(&gens);
    let mut prover_transcript = Transcript::new(b"example");
    let proof =
        SparsePolynomialEvaluationProof::prove(&dense, &r, &gens, &mut prover_transcript);

    let mut r2 = r.clone();
    r2[1] = r2[1].add(Fe::one());

    let mut verify_transcript = Transcript::new(b"example");
    assert!(proof
        .verify(&commitment, &r2, &gens, &mut verify_transcript)
        .is_err());
}

#[test]
fn padding_index_does_not_change_claim() {
    const C: usize = 4;
    const M: usize = 1 << 16;
    // 3 real rows pad to 4
    let nz = gen_indices(C, 3, M);
    let r = gen_random_point(2);
    let dense = DensifiedRepresentation::from_lookup_indices(&nz, 16);
    assert_eq!(dense.s, 3);
    assert_eq!(dense.s_padded, 4);

    // the same batch, with the padding row pointing at a different fixed index
    let mut dim2 = dense.dim.clone();
    for col in dim2.iter_mut() {
        col[3] = 42;
    }
    let dense2 = DensifiedRepresentation {
        dim: dim2,
        c: dense.c,
        s: dense.s,
        s_padded: dense.s_padded,
        log_m: dense.log_m,
    };

    let gens = SparsePolyCommitmentGens::new(b"gens_sparse_poly", C, 3, C, 16);
    let mut t1 = Transcript::new(b"example");
    let mut t2 = Transcript::new(b"example");
    let proof1 = SparsePolynomialEvaluationProof::prove(&dense, &r, &gens, &mut t1);
    let proof2 = SparsePolynomialEvaluationProof::prove(&dense2, &r, &gens, &mut t2);
    assert_eq!(proof1.claimed_eval, proof2.claimed_eval);
}

#[test]
fn lt_mle_agrees_with_materialization_on_all_boolean_points() {
    let table = LTSubtable {}.materialize();
    for idx in 0..(1usize << 16) {
        let mut point: Vec<Fe> = Vec::new();
        for j in 0..16 {
            point.push(Fe::from_u64(((idx >> (15 - j)) & 1) as u64));
        }
        assert_eq!(LTSubtable {}.evaluate_mle(&point), table[idx]);
    }
}

#[test]
fn eq_mle_agrees_with_materialization_on_all_boolean_points() {
    let table = EQSubtable {}.materialize();
    for idx in 0..(1usize << 16) {
        let mut point: Vec<Fe> = Vec::new();
        for j in 0..16 {
            point.push(Fe::from_u64(((idx >> (15 - j)) & 1) as u64));
        }
        assert_eq!(EQSubtable {}.evaluate_mle(&point), table[idx]);
    }
}

#[test]
fn subtable_shapes_and_entries() {
    assert_eq!(LTSubtable {}.dimensions(), 8);
    assert_eq!(LTSubtable {}.memory_size(), 1 << 16);
    assert_eq!(EQSubtable {}.dimensions(), 8);
    assert_eq!(EQSubtable {}.memory_size(), 1 << 16);

    let lt = LTSubtable {}.materialize();
    // row packs (lhs, rhs) as lhs * 256 + rhs
    assert_eq!(lt[3 * 256 + 5], Fe::one());
    assert_eq!(lt[5 * 256 + 3], Fe::zero());
    assert_eq!(lt[7 * 256 + 7], Fe::zero());

    let eq = EQSubtable {}.materialize();
    assert_eq!(eq[7 * 256 + 7], Fe::one());
    assert_eq!(eq[7 * 256 + 8], Fe::zero());

    assert_eq!(SubtableId::Lt.materialize()[3 * 256 + 5], Fe::one());
    assert_eq!(SubtableId::Eq.materialize()[3 * 256 + 5], Fe::zero());
}

#[test]
fn combine_lookups_matches_lookup_entry() {
    let c: usize = 8;
    let m: usize = 1 << 16;
    let lt_table = LTSubtable {}.materialize();
    let eq_table = EQSubtable {}.materialize();
    let mut rng = rand::rngs::StdRng::seed_from_u64(42);
    let mut cases: Vec<(u64, u64)> = vec![
        (0, 0),
        (0, 1),
        (1, 0),
        (u64::MAX, u64::MAX),
        (u64::MAX - 1, u64::MAX),
        (u64::MAX, u64::MAX - 1),
        (0x0123456789ABCDEF, 0x0123456789ABCDF0),
    ];
    for _ in 0..100 {
        cases.push((rng.next_u64(), rng.next_u64()));
    }
    for (x, y) in cases {
        let instr = LTVMInstruction::LT(x, y);
        let indices = instr.to_indices(c, 16).unwrap();
        let mut vals: Vec<Fe> = Vec::new();
        for i in 0..c {
            vals.push(lt_table[indices[i]]);
        }
        for i in 0..c - 1 {
            vals.push(eq_table[indices[i]]);
        }
        let combined = instr.combine_lookups(&vals, c, m).unwrap();
        assert_eq!(combined, Fe::from_u64(instr.lookup_entry()));
    }
}

#[test]
fn slice_values_reconstructs_input() {
    let c: usize = 8;
    let m: usize = 1 << 16;
    let instr = LTVMInstruction::LT(11, 22);
    let mut vals: Vec<Fe> = Vec::new();
    for i in 0..(2 * c - 1) {
        vals.push(Fe::from_u64(i as u64 + 100));
    }
    let slices = instr.slice_values(&vals, c, m).unwrap();
    assert_eq!(slices.len(), 2);
    assert_eq!(slices[0].len(), c);
    assert_eq!(slices[1].len(), c - 1);
    let mut rebuilt: Vec<Fe> = Vec::new();
    for s in slices {
        rebuilt.extend_from_slice(s);
    }
    assert_eq!(rebuilt, vals);
}

#[test]
fn error_kinds_surface() {
    let c: usize = 8;
    let m: usize = 1 << 16;
    let instr = LTVMInstruction::LT(1, 2);
    assert_eq!(
        instr.to_indices(c, 15).unwrap_err(),
        LassoError::InvalidParameter
    );
    assert_eq!(
        instr.operand_chunks(c, 15).unwrap_err(),
        LassoError::InvalidParameter
    );
    let vals = vec![Fe::one(); 2 * c];
    assert_eq!(
        instr.combine_lookups(&vals, c, m).unwrap_err(),
        LassoError::InvalidState
    );
    assert_eq!(
        instr.slice_values(&vals, c, m).unwrap_err(),
        LassoError::InvalidState
    );
}

#[test]
fn instruction_basics() {
    let instr = LTVMInstruction::LT(5, 9);
    assert_eq!(instr.operands(), (5, 9));
    assert_eq!(instr.lookup_entry(), 1);
    assert_eq!(LTVMInstruction::LT(9, 5).lookup_entry(), 0);
    assert_eq!(LTVMInstruction::LT(9, 9).lookup_entry(), 0);
    assert_eq!(instr.enum_index(), 0);
    assert_eq!(instr.g_poly_degree(8), 8);
    assert_eq!(LTVM::instructions().len(), 1);
    assert_eq!(LTVM::primary_poly_degree(), 9);

    let mut rng = rand::rngs::StdRng::seed_from_u64(3);
    let fresh = instr.random(&mut rng);
    let LTVMInstruction::LT(_, _) = fresh;

    let subtables = instr.subtables(8, 1 << 16);
    assert_eq!(subtables.len(), 2);
    assert_eq!(subtables[0].0, SubtableId::Lt);
    assert_eq!(subtables[1].0, SubtableId::Eq);
    assert_eq!(subtables[0].1.len(), 8);
    assert_eq!(subtables[1].1.len(), 7);
}

#[test]
fn operand_chunks_are_big_endian() {
    let instr = LTVMInstruction::LT(0x0102030405060708, 0);
    let (a, b) = instr.operand_chunks(8, 16).unwrap();
    assert_eq!(a, vec![1, 2, 3, 4, 5, 6, 7, 8]);
    assert_eq!(b, vec![0; 8]);

    let indices = instr.to_indices(8, 16).unwrap();
    // each index concatenates the two operands' chunks, high then low
    assert_eq!(indices[0], 1 * 256);
    assert_eq!(indices[7], 8 * 256);
    let instr2 = LTVMInstruction::LT(0x0102030405060708, 0x1112131415161718);
    let indices2 = instr2.to_indices(8, 16).unwrap();
    assert_eq!(indices2[0], 1 * 256 + 0x11);
    assert_eq!(indices2[7], 8 * 256 + 0x18);
}

#[test]
fn bit_utilities() {
    assert_eq!(split_bits(3 * 256 + 5, 8), (3, 5));
    assert_eq!(split_bits(0, 8), (0, 0));
    assert_eq!(pow2_u64(0), 1);
    assert_eq!(pow2_u64(16), 65536);
    assert_eq!(pow2_u64(63), 1u64 << 63);
    assert_eq!(next_pow2(1), 1);
    assert_eq!(next_pow2(3), 4);
    assert_eq!(next_pow2(256), 256);
    assert_eq!(next_pow2(257), 512);
    assert_eq!(
        chunk_operand(0x0123456789ABCDEF, 8, 8),
        vec![0x01, 0x23, 0x45, 0x67, 0x89, 0xAB, 0xCD, 0xEF]
    );
    // chunks above bit 63 are zero
    assert_eq!(chunk_operand(u64::MAX, 3, 30), vec![15, (1 << 30) - 1, (1 << 30) - 1]);
}

#[test]
fn subtable_indices_behave_as_a_set() {
    let a = SubtableIndices::from_range(0, 5);
    assert_eq!(a.len(), 5);
    assert!(a.contains(0));
    assert!(a.contains(4));
    assert!(!a.contains(5));
    assert_eq!(a.iter(), vec![0, 1, 2, 3, 4]);

    let empty = SubtableIndices::with_capacity(8);
    assert_eq!(empty.len(), 0);
    assert!(!empty.contains(3));

    let single = SubtableIndices::from_index(7);
    assert_eq!(single.len(), 1);
    assert!(single.contains(7));

    let mut merged = SubtableIndices::from_range(2, 4);
    merged.union_with(&single);
    assert_eq!(merged.len(), 3);
    assert_eq!(merged.iter(), vec![2, 3, 7]);
    assert!(merged.contains(7));
    assert!(!merged.contains(4));
}

#[test]
fn field_arithmetic_wraps_at_the_modulus() {
    assert_eq!(Fe::from_u64(FIELD_MODULUS), Fe::zero());
    assert_eq!(Fe::from_u64(FIELD_MODULUS - 1).add(Fe::one()), Fe::zero());
    assert_eq!(Fe::zero().sub(Fe::one()), Fe::from_u64(FIELD_MODULUS - 1));
    assert_eq!(Fe::from_u64(3).mul(Fe::from_u64(5)), Fe::from_u64(15));
    let big = Fe::from_u64(FIELD_MODULUS - 1);
    // (m - 1)^2 = m^2 - 2m + 1 = 1 mod m
    assert_eq!(big.mul(big), Fe::one());
    assert_eq!(Fe::from_u64(7).as_u64(), 7);
}

#[test]
fn transcript_is_deterministic() {
    let mut t1 = Transcript::new(b"domain");
    let mut t2 = Transcript::new(b"domain");
    t1.append_message(b"label", b"payload");
    t2.append_message(b"label", b"payload");
    t1.append_u64(b"n", 42);
    t2.append_u64(b"n", 42);
    t1.append_scalar(b"x", &Fe::from_u64(9));
    t2.append_scalar(b"x", &Fe::from_u64(9));
    assert_eq!(t1.challenge_scalar(b"c"), t2.challenge_scalar(b"c"));
    assert_eq!(t1.challenge(), t2.challenge());
}

#[test]
fn commitment_is_deterministic_and_binding_to_columns() {
    let nz = gen_indices(4, 8, 1 << 16);
    let dense = DensifiedRepresentation::from_lookup_indices(&nz, 16);
    let gens = SparsePolyCommitmentGens::new(b"gens_sparse_poly", 4, 8, 4, 16);
    let c1 = dense.commit(&gens);
    let c2 = dense.commit(&gens);
    assert_eq!(c1.digests, c2.digests);

    let mut nz2 = nz.clone();
    nz2[0][0] = (nz2[0][0] + 1) % (1 << 16);
    let dense2 = DensifiedRepresentation::from_lookup_indices(&nz2, 16);
    let c3 = dense2.commit(&gens);
    assert_ne!(c1.digests, c3.digests);
}

#[test]
fn densified_layout_and_padding() {
    let nz = vec![vec![10usize, 20, 30], vec![40, 50, 60]];
    let dense = DensifiedRepresentation::from_lookup_indices(&nz, 16);
    assert_eq!(dense.c, 3);
    assert_eq!(dense.s, 2);
    assert_eq!(dense.s_padded, 2);
    assert_eq!(dense.dim[0], vec![10, 40]);
    assert_eq!(dense.dim[1], vec![20, 50]);
    assert_eq!(dense.dim[2], vec![30, 60]);

    let nz3 = vec![vec![1usize], vec![2], vec![3]];
    let dense3 = DensifiedRepresentation::from_lookup_indices(&nz3, 16);
    assert_eq!(dense3.s, 3);
    assert_eq!(dense3.s_padded, 4);
    assert_eq!(dense3.dim[0], vec![1, 2, 3, 0]);
}

#[test]
fn ram_addresses_step_by_instruction_width() {
    assert_eq!(to_ram_address(0), 0x8000_0000);
    assert_eq!(to_ram_address(1), 0x8000_0004);
    assert_eq!(to_ram_address(3), 0x8000_000C);
}
