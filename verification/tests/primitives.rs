use stark_core::challenger::Challenger;
use stark_core::dft::{coset_domain, eval_poly_at, evaluate_on, interpolate, natural_domain};
use stark_core::field::{add_fe, mul_fe, neg_fe, pow_fe, sub_fe, try_inv_fe, INV2, P};
use stark_core::fri::{commit_phase, fold_row};
use stark_core::symmetric::{compress, hash_elements};

#[test]
fn field_ops_exact_values() {
    assert_eq!(add_fe(P - 1, 1), 0);
    assert_eq!(add_fe(P - 1, 5), 4);
    assert_eq!(sub_fe(0, 1), P - 1);
    assert_eq!(mul_fe(2, INV2), 1);
    assert_eq!(neg_fe(1), P - 1);
    assert_eq!(pow_fe(2, 10), 1024);
    assert_eq!(pow_fe(7, 0), 1);
}

#[test]
fn field_inverse() {
    for x in [1u64, 2, 3, 31, 12345, P - 1] {
        let inv = try_inv_fe(x).unwrap();
        assert_eq!(mul_fe(x, inv), 1);
    }
    assert!(try_inv_fe(0).is_none());
}

#[test]
fn domain_structure() {
    let d = natural_domain(3).unwrap();
    // The generator has order exactly eight.
    assert_eq!(pow_fe(d.generator, 8), 1);
    assert_eq!(pow_fe(d.generator, 4), P - 1);
    assert_eq!(d.point_at(0), 1);
    // Paired points negate each other.
    for i in 0..4 {
        assert_eq!(d.point_at(i + 4), neg_fe(d.point_at(i)));
    }
}

#[test]
fn interpolate_evaluate_roundtrip() {
    let d = natural_domain(3).unwrap();
    let values: Vec<u64> = vec![5, 17, 0, 2013265920, 3, 9, 100, 7];
    let coeffs = interpolate(&values, &d).unwrap();
    for i in 0..8 {
        assert_eq!(eval_poly_at(&coeffs, d.point_at(i)), values[i]);
    }
    let out = evaluate_on(&coeffs, &d);
    assert_eq!(out, values);
}

#[test]
fn low_degree_extension_is_consistent() {
    // A cubic on a size-8 domain, blown up to a size-16 coset, is still the
    // same polynomial everywhere.
    let base = natural_domain(3).unwrap();
    let coset = coset_domain(4, 31).unwrap();
    let coeffs: Vec<u64> = vec![3, 1, 4, 1, 0, 0, 0, 0];
    let values = evaluate_on(&coeffs, &base);
    let recovered = interpolate(&values, &base).unwrap();
    let lde = evaluate_on(&recovered, &coset);
    for i in 0..16 {
        assert_eq!(lde[i], eval_poly_at(&coeffs, coset.point_at(i)));
    }
}

#[test]
fn hash_is_deterministic_and_input_dependent() {
    let a = hash_elements(&vec![1, 2, 3]);
    let b = hash_elements(&vec![1, 2, 3]);
    let c = hash_elements(&vec![1, 2, 4]);
    assert_eq!(a, b);
    assert_ne!(a, c);
    assert_eq!(a.len(), 4);
    let d = compress(&a, &c);
    let e = compress(&c, &a);
    assert_ne!(d, e);
}

#[test]
fn challenger_determinism() {
    let mut c1 = Challenger::new();
    let mut c2 = Challenger::new();
    for x in [3u64, 1, 4, 1, 5] {
        c1.observe(x);
        c2.observe(x);
    }
    for _ in 0..5 {
        assert_eq!(c1.sample(), c2.sample());
    }
    // Diverging observations give diverging samples.
    let mut c3 = Challenger::new();
    let mut c4 = Challenger::new();
    c3.observe(1);
    c4.observe(2);
    assert_ne!(c3.sample(), c4.sample());
}

#[test]
fn challenger_sample_bits_in_range() {
    let mut c = Challenger::new();
    c.observe(42);
    for bits in [1usize, 3, 8, 16] {
        let s = c.sample_bits(bits);
        assert!(s < (1 << bits));
    }
}

#[test]
fn fri_commit_phase_low_degree_codeword() {
    // A degree-7 polynomial on a size-16 coset with blow-up two folds down
    // to a constant, so the commit phase succeeds.
    let dom = coset_domain(4, 31).unwrap();
    let coeffs: Vec<u64> = vec![9, 8, 7, 6, 5, 4, 3, 2];
    let codeword = evaluate_on(&coeffs, &dom);
    let mut ch = Challenger::new();
    assert!(commit_phase(codeword, &dom, 1, &mut ch).is_ok());
}

#[test]
fn fri_commit_phase_high_degree_codeword_fails() {
    // Perturbing one point of the codeword breaks low-degreeness, and the
    // final fold is no longer constant.
    let dom = coset_domain(4, 31).unwrap();
    let coeffs: Vec<u64> = vec![9, 8, 7, 6, 5, 4, 3, 2];
    let mut codeword = evaluate_on(&coeffs, &dom);
    codeword[5] = add_fe(codeword[5], 1);
    let mut ch = Challenger::new();
    assert!(commit_phase(codeword, &dom, 1, &mut ch).is_err());
}

#[test]
fn fri_fold_value_formula() {
    // Folding evaluations of f(x) = 3 + 5x at x and -x gives the constant 3
    // plus beta times the odd coefficient 5.
    let dom = natural_domain(2).unwrap();
    let coeffs: Vec<u64> = vec![3, 5, 0, 0];
    let v = evaluate_on(&coeffs, &dom);
    let beta = 7;
    for i in 0..2 {
        let x_inv = try_inv_fe(dom.point_at(i)).unwrap();
        let folded = fold_row(v[i], v[i + 2], beta, x_inv);
        assert_eq!(folded, add_fe(3, mul_fe(beta, 5)));
    }
}
