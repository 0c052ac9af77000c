use stark_core::air::{generate_fibonacci_trace, FibonacciAir, FibonacciCols, NUM_FIBONACCI_COLS};
use stark_core::challenger::Challenger;
use stark_core::fri::FriConfig;
use stark_core::matrix::RowMajorMatrix;
use stark_core::uni_stark::{prove, verify, StarkConfig, VerificationError};

fn test_config() -> StarkConfig {
    StarkConfig { fri: FriConfig { log_blowup: 1, num_queries: 8, proof_of_work_bits: 2 } }
}

#[test]
fn fibonacci_prove_verify_roundtrip() {
    let config = test_config();
    let air = FibonacciAir {};
    let trace = generate_fibonacci_trace(64).unwrap();
    let pv: Vec<u64> = Vec::new();
    let mut prover_ch = Challenger::new();
    let proof = prove(&config, &air, &mut prover_ch, trace, &pv).unwrap();
    assert_eq!(proof.degree_bits, 6);
    let mut verifier_ch = Challenger::new();
    assert!(verify(&config, &air, &mut verifier_ch, &proof, &pv).is_ok());
}

#[test]
fn fibonacci_corrupted_trace_is_rejected() {
    // Corrupt row 10's `b` value: either proof generation aborts, or the
    // proof it yields fails the out-of-domain constraint identity.
    let config = test_config();
    let air = FibonacciAir {};
    let good = generate_fibonacci_trace(64).unwrap();
    let mut vals: Vec<u64> = Vec::new();
    for r in 0..64 {
        for c in 0..NUM_FIBONACCI_COLS {
            let v = good.get(r, c);
            if r == 10 && c == 1 {
                vals.push(v + 1);
            } else {
                vals.push(v);
            }
        }
    }
    let bad = RowMajorMatrix::new(vals, NUM_FIBONACCI_COLS).unwrap();
    let pv: Vec<u64> = Vec::new();
    let mut prover_ch = Challenger::new();
    match prove(&config, &air, &mut prover_ch, bad, &pv) {
        Err(_) => {},
        Ok(proof) => {
            let mut verifier_ch = Challenger::new();
            assert_eq!(
                verify(&config, &air, &mut verifier_ch, &proof, &pv),
                Err(VerificationError::OodEvaluationMismatch),
            );
        },
    }
}

#[test]
fn fibonacci_corrupted_trace_rejected_at_higher_blowup() {
    // With a larger blow-up the prover itself notices that the quotient
    // does not fit its chunks.
    let config = StarkConfig {
        fri: FriConfig { log_blowup: 2, num_queries: 8, proof_of_work_bits: 2 },
    };
    let air = FibonacciAir {};
    let good = generate_fibonacci_trace(32).unwrap();
    let mut vals: Vec<u64> = Vec::new();
    for r in 0..32 {
        for c in 0..NUM_FIBONACCI_COLS {
            let v = good.get(r, c);
            if r == 10 && c == 1 {
                vals.push(v + 1);
            } else {
                vals.push(v);
            }
        }
    }
    let bad = RowMajorMatrix::new(vals, NUM_FIBONACCI_COLS).unwrap();
    let pv: Vec<u64> = Vec::new();
    let mut prover_ch = Challenger::new();
    assert!(prove(&config, &air, &mut prover_ch, bad, &pv).is_err());
}

#[test]
fn fibonacci_corrupted_opened_value_is_rejected() {
    // Flip one field element in the opened values: verification fails.
    let config = test_config();
    let air = FibonacciAir {};
    let trace = generate_fibonacci_trace(64).unwrap();
    let pv: Vec<u64> = Vec::new();
    let mut prover_ch = Challenger::new();
    let mut proof = prove(&config, &air, &mut prover_ch, trace, &pv).unwrap();
    let old = proof.opened_values.trace_local[1];
    proof.opened_values.trace_local[1] = (old + 1) % 2013265921;
    let mut verifier_ch = Challenger::new();
    assert!(verify(&config, &air, &mut verifier_ch, &proof, &pv).is_err());
}

#[test]
fn fibonacci_corrupted_commitment_is_rejected() {
    // Flip one element of a commitment digest: verification fails.
    let config = test_config();
    let air = FibonacciAir {};
    let trace = generate_fibonacci_trace(64).unwrap();
    let pv: Vec<u64> = Vec::new();
    let mut prover_ch = Challenger::new();
    let mut proof = prove(&config, &air, &mut prover_ch, trace, &pv).unwrap();
    let old = proof.commitments.trace[0];
    proof.commitments.trace[0] = (old + 1) % 2013265921;
    let mut verifier_ch = Challenger::new();
    assert!(verify(&config, &air, &mut verifier_ch, &proof, &pv).is_err());
}

#[test]
fn fibonacci_wrong_degree_bits_is_rejected() {
    let config = test_config();
    let air = FibonacciAir {};
    let trace = generate_fibonacci_trace(64).unwrap();
    let pv: Vec<u64> = Vec::new();
    let mut prover_ch = Challenger::new();
    let mut proof = prove(&config, &air, &mut prover_ch, trace, &pv).unwrap();
    proof.degree_bits = 7;
    let mut verifier_ch = Challenger::new();
    assert!(verify(&config, &air, &mut verifier_ch, &proof, &pv).is_err());
}

#[test]
fn fibonacci_larger_trace_roundtrip() {
    let config = test_config();
    let air = FibonacciAir {};
    let trace = generate_fibonacci_trace(128).unwrap();
    let pv: Vec<u64> = Vec::new();
    let mut prover_ch = Challenger::new();
    let proof = prove(&config, &air, &mut prover_ch, trace, &pv).unwrap();
    assert_eq!(proof.degree_bits, 7);
    let mut verifier_ch = Challenger::new();
    assert!(verify(&config, &air, &mut verifier_ch, &proof, &pv).is_ok());
}

#[test]
fn fibonacci_trace_values() {
    let trace = generate_fibonacci_trace(8).unwrap();
    // Rows follow the recurrence starting (1, 1, 2).
    let row0 = trace.row(0);
    let cols0 = FibonacciCols::from_row(&row0);
    assert_eq!((cols0.a, cols0.b, cols0.c), (1, 1, 2));
    let row1 = trace.row(1);
    let cols1 = FibonacciCols::from_row(&row1);
    assert_eq!((cols1.a, cols1.b, cols1.c), (1, 2, 3));
    let row2 = trace.row(2);
    let cols2 = FibonacciCols::from_row(&row2);
    assert_eq!((cols2.a, cols2.b, cols2.c), (2, 3, 5));
}

#[test]
fn fibonacci_corrupted_final_poly_is_rejected() {
    // Mutating the FRI final polynomial breaks the fold replay.
    let config = test_config();
    let air = FibonacciAir {};
    let trace = generate_fibonacci_trace(64).unwrap();
    let pv: Vec<u64> = Vec::new();
    let mut prover_ch = Challenger::new();
    let mut proof = prove(&config, &air, &mut prover_ch, trace, &pv).unwrap();
    proof.opening_proof.fri.final_poly = (proof.opening_proof.fri.final_poly + 1) % 2013265921;
    let mut verifier_ch = Challenger::new();
    assert_eq!(
        verify(&config, &air, &mut verifier_ch, &proof, &pv),
        Err(VerificationError::FinalPolyDegreeTooHigh),
    );
}

#[test]
fn fibonacci_corrupted_query_opening_is_rejected() {
    // Mutating one opened row value in a query breaks its Merkle opening.
    let config = test_config();
    let air = FibonacciAir {};
    let trace = generate_fibonacci_trace(64).unwrap();
    let pv: Vec<u64> = Vec::new();
    let mut prover_ch = Challenger::new();
    let mut proof = prove(&config, &air, &mut prover_ch, trace, &pv).unwrap();
    let old = proof.opening_proof.input_openings[0][0].opened_rows[0][0];
    proof.opening_proof.input_openings[0][0].opened_rows[0][0] = (old + 1) % 2013265921;
    let mut verifier_ch = Challenger::new();
    assert_eq!(
        verify(&config, &air, &mut verifier_ch, &proof, &pv),
        Err(VerificationError::MmcsFailure),
    );
}

#[test]
fn mismatched_config_is_rejected() {
    // A verifier instantiated with different FRI parameters rejects the
    // proof: the round counts no longer match.
    let config = test_config();
    let air = FibonacciAir {};
    let trace = generate_fibonacci_trace(64).unwrap();
    let pv: Vec<u64> = Vec::new();
    let mut prover_ch = Challenger::new();
    let proof = prove(&config, &air, &mut prover_ch, trace, &pv).unwrap();
    let other = StarkConfig {
        fri: FriConfig { log_blowup: 2, num_queries: 8, proof_of_work_bits: 2 },
    };
    let mut verifier_ch = Challenger::new();
    assert!(verify(&other, &air, &mut verifier_ch, &proof, &pv).is_err());
}
