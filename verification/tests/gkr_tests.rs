use gkr_sumcheck::circuit::{CircuitLayer, GateMul, GateUni};
use gkr_sumcheck::field::{Fp, HALF};
use gkr_sumcheck::gkr::{sumcheck_prove_gkr_layer, sumcheck_prove_gkr_square_layer};
use gkr_sumcheck::poly::MultiLinearPoly;
use gkr_sumcheck::scratchpad::GkrScratchpad;
use gkr_sumcheck::transcript::Transcript;

fn fp(x: u32) -> Fp {
    Fp::from_u32(x)
}

fn poly_from(vals: &[u32]) -> MultiLinearPoly {
    let mut var_num: usize = 0;
    while (1usize << var_num) < vals.len() {
        var_num += 1;
    }
    assert_eq!(1usize << var_num, vals.len());
    MultiLinearPoly { var_num, evals: vals.iter().map(|v| fp(*v)).collect() }
}

fn pow5(x: Fp) -> Fp {
    x.mul(x).mul(x).mul(x).mul(x)
}

#[test]
fn gkr_layer_claims_are_input_evaluations_and_round_zero_matches() {
    // two input wires, two output wires: out0 = v0 * v1, out1 = v0
    let input = poly_from(&[5, 9]);
    let layer = CircuitLayer {
        input_var_num: 1,
        output_var_num: 1,
        input_vals: input.clone(),
        mul_gates: vec![GateMul { i0: 0, i1: 1, o: 0 }],
        add_gates: vec![GateUni { i0: 0, o: 1 }],
        pow5_gates: Vec::new(),
    };
    let rz0 = vec![fp(7)];
    let rz1 = vec![fp(11)];
    let alpha = fp(3);
    let beta = fp(4);
    let mut tp = Transcript::new();
    let mut sp = GkrScratchpad::new(1, 1);
    let (rx, ry) = sumcheck_prove_gkr_layer(&layer, &rz0, &rz1, &alpha, &beta, &mut tp, &mut sp);
    assert_eq!(rx.len(), 1);
    assert_eq!(ry.len(), 1);
    assert_eq!(tp.proof_log.len(), 8 * 1 + 2);
    // the two appended claims are the input polynomial at rx and at ry
    let vx = MultiLinearPoly::eval_multilinear(&input.evals, &rx);
    let vy = MultiLinearPoly::eval_multilinear(&input.evals, &ry);
    assert_eq!(tp.proof_log[4], vx);
    assert_eq!(tp.proof_log[9], vy);
    // round 0 proves the combined output claim:
    // alpha * out_hat(rz0) + beta * out_hat(rz1) == p(0) + p(1)
    let out = vec![input.evals[0].mul(input.evals[1]), input.evals[0]];
    let o0 = MultiLinearPoly::eval_multilinear(&out, &rz0);
    let o1 = MultiLinearPoly::eval_multilinear(&out, &rz1);
    let claim = alpha.mul(o0).add(beta.mul(o1));
    assert_eq!(tp.proof_log[0].add(tp.proof_log[1]), claim);
}

#[test]
fn gkr_layer_two_round_log_has_the_documented_shape() {
    // four input wires, two output wires
    let input = poly_from(&[2, 3, 5, 7]);
    let layer = CircuitLayer {
        input_var_num: 2,
        output_var_num: 1,
        input_vals: input.clone(),
        mul_gates: vec![GateMul { i0: 0, i1: 3, o: 0 }, GateMul { i0: 1, i1: 2, o: 1 }],
        add_gates: vec![GateUni { i0: 2, o: 0 }],
        pow5_gates: Vec::new(),
    };
    let rz0 = vec![fp(13)];
    let rz1 = vec![fp(17)];
    let alpha = fp(2);
    let beta = fp(9);
    let mut tp = Transcript::new();
    let mut sp = GkrScratchpad::new(2, 1);
    let (rx, ry) = sumcheck_prove_gkr_layer(&layer, &rz0, &rz1, &alpha, &beta, &mut tp, &mut sp);
    assert_eq!(rx.len(), 2);
    assert_eq!(ry.len(), 2);
    assert_eq!(tp.proof_log.len(), 8 * 2 + 2);
    let vx = MultiLinearPoly::eval_multilinear(&input.evals, &rx);
    let vy = MultiLinearPoly::eval_multilinear(&input.evals, &ry);
    assert_eq!(tp.proof_log[8], vx);
    assert_eq!(tp.proof_log[17], vy);
    // round 0 again proves the combined output claim
    let out = vec![
        input.evals[0].mul(input.evals[3]).add(input.evals[2]),
        input.evals[1].mul(input.evals[2]),
    ];
    let o0 = MultiLinearPoly::eval_multilinear(&out, &rz0);
    let o1 = MultiLinearPoly::eval_multilinear(&out, &rz1);
    let claim = alpha.mul(o0).add(beta.mul(o1));
    assert_eq!(tp.proof_log[0].add(tp.proof_log[1]), claim);
}

#[test]
fn gkr_square_layer_round_zero_proves_the_output_claim() {
    // out0 = v0^5, out1 = v1
    let input = poly_from(&[3, 4]);
    let layer = CircuitLayer {
        input_var_num: 1,
        output_var_num: 1,
        input_vals: input.clone(),
        mul_gates: Vec::new(),
        add_gates: vec![GateUni { i0: 1, o: 1 }],
        pow5_gates: vec![GateUni { i0: 0, o: 0 }],
    };
    let rz0 = vec![fp(19)];
    let mut tp = Transcript::new();
    let mut sp = GkrScratchpad::new(1, 1);
    let rx = sumcheck_prove_gkr_square_layer(&layer, &rz0, &mut tp, &mut sp);
    assert_eq!(rx.len(), 1);
    assert_eq!(tp.proof_log.len(), 8 * 1 + 2);
    // the returned point is the logged challenge
    assert_eq!(rx[0], tp.proof_log[7]);
    // the claim is appended twice and equals the input polynomial at rx
    let vx = MultiLinearPoly::eval_multilinear(&input.evals, &rx);
    assert_eq!(tp.proof_log[8], vx);
    assert_eq!(tp.proof_log[9], vx);
    // the first round polynomial sums to the output claim at rz0
    let out = vec![pow5(input.evals[0]), input.evals[1]];
    let claim = MultiLinearPoly::eval_multilinear(&out, &rz0);
    assert_eq!(tp.proof_log[0].add(tp.proof_log[1]), claim);
}

#[test]
fn gkr_layer_rounds_are_consistent_across_both_phases() {
    // replay every round of a two-round-per-phase layer: each round's
    // polynomial must sum (at 0 and 1) to the previous round's polynomial
    // evaluated at the previous challenge, across the phase switch too
    let interp2 = |e0: Fp, e1: Fp, e2: Fp, r: Fp| -> Fp {
        let one = fp(1);
        let two = fp(2);
        let half = Fp { v: HALF };
        let t0 = e0.mul(r.sub(one).mul(r.sub(two)).mul(half));
        let t1 = e1.mul(r.mul(two.sub(r)));
        let t2 = e2.mul(r.mul(r.sub(one)).mul(half));
        t0.add(t1).add(t2)
    };
    let input = poly_from(&[2, 3, 5, 7]);
    let layer = CircuitLayer {
        input_var_num: 2,
        output_var_num: 2,
        input_vals: input.clone(),
        mul_gates: vec![
            GateMul { i0: 0, i1: 3, o: 0 },
            GateMul { i0: 1, i1: 2, o: 1 },
            GateMul { i0: 2, i1: 2, o: 3 },
        ],
        add_gates: vec![GateUni { i0: 2, o: 0 }, GateUni { i0: 3, o: 2 }],
        pow5_gates: Vec::new(),
    };
    let rz0 = vec![fp(13), fp(29)];
    let rz1 = vec![fp(17), fp(31)];
    let alpha = fp(2);
    let beta = fp(9);
    let mut tp = Transcript::new();
    let mut sp = GkrScratchpad::new(2, 2);
    let (rx, ry) = sumcheck_prove_gkr_layer(&layer, &rz0, &rz1, &alpha, &beta, &mut tp, &mut sp);
    let log = &tp.proof_log;
    assert_eq!(log.len(), 18);
    // round 0 proves the combined output claim
    let out = vec![
        input.evals[0].mul(input.evals[3]).add(input.evals[2]),
        input.evals[1].mul(input.evals[2]),
        input.evals[3],
        input.evals[2].mul(input.evals[2]),
    ];
    let o0 = MultiLinearPoly::eval_multilinear(&out, &rz0);
    let o1 = MultiLinearPoly::eval_multilinear(&out, &rz1);
    let claim = alpha.mul(o0).add(beta.mul(o1));
    assert_eq!(log[0].add(log[1]), claim);
    // within phase one
    assert_eq!(log[4].add(log[5]), interp2(log[0], log[1], log[2], log[3]));
    // across the phase switch: the claim carried into the second phase
    assert_eq!(log[9].add(log[10]), interp2(log[4], log[5], log[6], log[7]));
    // within phase two
    assert_eq!(log[13].add(log[14]), interp2(log[9], log[10], log[11], log[12]));
    // the returned points are the logged challenges
    assert_eq!(rx[0], log[3]);
    assert_eq!(rx[1], log[7]);
    assert_eq!(ry[0], log[12]);
    assert_eq!(ry[1], log[16]);
    // the final claims close the reduction
    let vx = MultiLinearPoly::eval_multilinear(&input.evals, &rx);
    let vy = MultiLinearPoly::eval_multilinear(&input.evals, &ry);
    assert_eq!(log[8], vx);
    assert_eq!(log[17], vy);
}

#[test]
fn one_oversized_scratchpad_serves_smaller_layers() {
    // a pad allocated at larger maxima is reused for smaller layers
    let mut sp = GkrScratchpad::new(3, 3);
    let input = poly_from(&[5, 9]);
    let layer = CircuitLayer {
        input_var_num: 1,
        output_var_num: 1,
        input_vals: input.clone(),
        mul_gates: vec![GateMul { i0: 0, i1: 1, o: 0 }],
        add_gates: vec![GateUni { i0: 1, o: 1 }],
        pow5_gates: Vec::new(),
    };
    let rz0 = vec![fp(23)];
    let rz1 = vec![fp(27)];
    let mut tp = Transcript::new();
    let (rx, ry) = sumcheck_prove_gkr_layer(&layer, &rz0, &rz1, &fp(5), &fp(6), &mut tp, &mut sp);
    assert_eq!(tp.proof_log.len(), 10);
    let vx = MultiLinearPoly::eval_multilinear(&input.evals, &rx);
    let vy = MultiLinearPoly::eval_multilinear(&input.evals, &ry);
    assert_eq!(tp.proof_log[4], vx);
    assert_eq!(tp.proof_log[9], vy);
    // the same pad then serves a squared layer of the same sizes
    let sq = CircuitLayer {
        input_var_num: 1,
        output_var_num: 1,
        input_vals: input.clone(),
        mul_gates: Vec::new(),
        add_gates: vec![GateUni { i0: 1, o: 1 }],
        pow5_gates: vec![GateUni { i0: 0, o: 0 }],
    };
    let mut tp2 = Transcript::new();
    let rx2 = sumcheck_prove_gkr_square_layer(&sq, &rz0, &mut tp2, &mut sp);
    let vx2 = MultiLinearPoly::eval_multilinear(&input.evals, &rx2);
    assert_eq!(tp2.proof_log[9], vx2);
}
