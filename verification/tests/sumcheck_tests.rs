use gkr_sumcheck::field::{Fp, MODULUS};
use gkr_sumcheck::poly::MultiLinearPoly;
use gkr_sumcheck::scratchpad::SumcheckMultilinearProdScratchpad;
use gkr_sumcheck::sumcheck::{mle_product_sum, sumcheck_multilinear_prod};
use gkr_sumcheck::transcript::Transcript;
use gkr_sumcheck::verify::Verifier;

fn fp(x: u32) -> Fp {
    Fp::from_u32(x)
}

fn poly_from(vals: &[u32]) -> MultiLinearPoly {
    let mut var_num: usize = 0;
    while (1usize << var_num) < vals.len() {
        var_num += 1;
    }
    assert_eq!(1usize << var_num, vals.len());
    MultiLinearPoly { var_num, evals: vals.iter().map(|v| fp(*v)).collect() }
}

fn run_prod(p1: &MultiLinearPoly, p2: &MultiLinearPoly) -> (Vec<Fp>, Vec<Fp>, Transcript) {
    let mut sp = SumcheckMultilinearProdScratchpad::new(p1, p2);
    let mut tp = Transcript::new();
    let (randomness, claims) = sumcheck_multilinear_prod(&mut tp, &mut sp);
    (randomness, claims, tp)
}

#[test]
fn product_sumcheck_concrete_two_variable_scenario() {
    // p1 = [4, 9, 16, 25], p2 = [1, 1, 1, 1]: the claimed sum is 54 and the
    // round-0 polynomial's values at 0 and 1 add up to it
    let p1 = poly_from(&[4, 9, 16, 25]);
    let p2 = poly_from(&[1, 1, 1, 1]);
    let sum = mle_product_sum(&p1.evals, &p2.evals);
    assert_eq!(sum, fp(54));
    let (randomness, claims, tp) = run_prod(&p1, &p2);
    assert_eq!(tp.proof_log.len(), 4 * 2 + 2);
    assert_eq!(tp.proof_log[0].add(tp.proof_log[1]), fp(54));
    let v1 = MultiLinearPoly::eval_multilinear(&p1.evals, &randomness);
    let v2 = MultiLinearPoly::eval_multilinear(&p2.evals, &randomness);
    assert_eq!(claims[0], v1);
    assert_eq!(claims[1], v2);
    let mut verified = false;
    let verifier = Verifier::default();
    verifier.verify_sumcheck(2, &sum, &claims, &tp.proof_log, &mut verified);
    assert!(verified);
}

#[test]
fn product_sumcheck_claims_are_true_evaluations() {
    let p1 = poly_from(&[3, 1, 4, 1, 5, 9, 2, 6]);
    let p2 = poly_from(&[2, 7, 1, 8, 2, 8, 1, 8]);
    let (randomness, claims, tp) = run_prod(&p1, &p2);
    assert_eq!(randomness.len(), 3);
    let v1 = MultiLinearPoly::eval_multilinear(&p1.evals, &randomness);
    let v2 = MultiLinearPoly::eval_multilinear(&p2.evals, &randomness);
    assert_eq!(claims[0], v1);
    assert_eq!(claims[1], v2);
    let sum = mle_product_sum(&p1.evals, &p2.evals);
    let mut verified = false;
    Verifier::new().verify_sumcheck(3, &sum, &claims, &tp.proof_log, &mut verified);
    assert!(verified);
}

#[test]
fn transcript_challenges_are_reproducible() {
    let mut t1 = Transcript::new();
    let mut t2 = Transcript::new();
    t1.append_f(fp(5));
    t1.append_f(fp(7));
    t2.append_f(fp(5));
    t2.append_f(fp(7));
    assert_eq!(t1.challenge_f(), t2.challenge_f());
    // a different history gives a different next challenge
    t1.append_f(fp(1));
    t2.append_f(fp(2));
    assert_ne!(t1.challenge_f(), t2.challenge_f());
}

#[test]
fn verifier_rejects_any_single_tampered_log_entry() {
    let p1 = poly_from(&[4, 9, 16, 25]);
    let p2 = poly_from(&[3, 5, 7, 11]);
    let sum = mle_product_sum(&p1.evals, &p2.evals);
    let (_randomness, claims, tp) = run_prod(&p1, &p2);
    let verifier = Verifier::new();
    for idx in 0..tp.proof_log.len() {
        let mut log = tp.proof_log.clone();
        log[idx] = Fp { v: (log[idx].v + 1) % MODULUS };
        let mut verified = true;
        verifier.verify_sumcheck(2, &sum, &claims, &log, &mut verified);
        assert!(!verified, "tampered entry {} was accepted", idx);
    }
}

#[test]
fn verifier_rejects_wrong_sum_and_malformed_logs() {
    let p1 = poly_from(&[4, 9, 16, 25]);
    let p2 = poly_from(&[1, 1, 1, 1]);
    let sum = mle_product_sum(&p1.evals, &p2.evals);
    let (_randomness, claims, tp) = run_prod(&p1, &p2);
    let verifier = Verifier::new();
    let mut verified = true;
    verifier.verify_sumcheck(2, &sum.add(fp(1)), &claims, &tp.proof_log, &mut verified);
    assert!(!verified);
    // a short log is a failure, not a crash
    let mut short = tp.proof_log.clone();
    short.pop();
    let mut v2 = true;
    verifier.verify_sumcheck(2, &sum, &claims, &short, &mut v2);
    assert!(!v2);
    // an empty log too
    let empty: Vec<Fp> = Vec::new();
    let mut v3 = true;
    verifier.verify_sumcheck(2, &sum, &claims, &empty, &mut v3);
    assert!(!v3);
    // claims that disagree with the logged ones are rejected
    let swapped = vec![claims[1], claims[0]];
    let mut v4 = true;
    verifier.verify_sumcheck(2, &sum, &swapped, &tp.proof_log, &mut v4);
    assert!(!v4);
}

#[test]
fn zero_round_instance_checks_the_product_directly() {
    let p1 = MultiLinearPoly { var_num: 0, evals: vec![fp(6)] };
    let p2 = MultiLinearPoly { var_num: 0, evals: vec![fp(7)] };
    let sum = mle_product_sum(&p1.evals, &p2.evals);
    assert_eq!(sum, fp(42));
    let (randomness, claims, tp) = run_prod(&p1, &p2);
    assert_eq!(randomness.len(), 0);
    assert_eq!(tp.proof_log.len(), 2);
    let mut verified = false;
    Verifier::new().verify_sumcheck(0, &sum, &claims, &tp.proof_log, &mut verified);
    assert!(verified);
    let mut rejected = true;
    Verifier::new().verify_sumcheck(0, &fp(41), &claims, &tp.proof_log, &mut rejected);
    assert!(!rejected);
}

#[test]
fn prove_and_verify_round_trip_accepts() {
    let p1 = poly_from(&[10, 20, 30, 40, 50, 60, 70, 80]);
    let p2 = poly_from(&[9, 8, 7, 6, 5, 4, 3, 2]);
    let (ok, tp, claims) = gkr_sumcheck::soundness::prove_and_verify_product(&p1, &p2);
    assert!(ok);
    assert_eq!(tp.proof_log.len(), 4 * 3 + 2);
    assert_eq!(claims.len(), 2);
    // the produced log really is a run of the prover: it verifies again
    let sum = mle_product_sum(&p1.evals, &p2.evals);
    let mut again = false;
    Verifier::new().verify_sumcheck(3, &sum, &claims, &tp.proof_log, &mut again);
    assert!(again);
    let q1 = MultiLinearPoly { var_num: 0, evals: vec![fp(0)] };
    let q2 = MultiLinearPoly { var_num: 0, evals: vec![fp(0)] };
    let (ok0, _, _) = gkr_sumcheck::soundness::prove_and_verify_product(&q1, &q2);
    assert!(ok0);
}
