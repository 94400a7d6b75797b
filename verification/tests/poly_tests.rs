use gkr_sumcheck::field::{Fp, MODULUS};
use gkr_sumcheck::poly::MultiLinearPoly;

fn fp(x: u32) -> Fp {
    Fp::from_u32(x)
}

fn poly_from(vals: &[u32]) -> MultiLinearPoly {
    let mut var_num: usize = 0;
    while (1usize << var_num) < vals.len() {
        var_num += 1;
    }
    assert_eq!(1usize << var_num, vals.len());
    MultiLinearPoly { var_num, evals: vals.iter().map(|v| fp(*v)).collect() }
}

#[test]
fn field_arithmetic_wraps_at_the_modulus() {
    let p_minus_1 = Fp { v: MODULUS - 1 };
    assert_eq!(p_minus_1.add(fp(1)), fp(0));
    assert_eq!(fp(0).sub(fp(1)), p_minus_1);
    assert_eq!(fp(3).mul(fp(5)), fp(15));
    assert_eq!(p_minus_1.mul(p_minus_1), fp(1));
    assert_eq!(Fp::from_u64(u64::from(MODULUS)), fp(0));
}

#[test]
fn eval_multilinear_on_boolean_points_reads_the_table() {
    let evals: Vec<Fp> = vec![fp(4), fp(9), fp(16), fp(25)];
    // index bits are LSB-first: point (b0, b1) selects entry b0 + 2*b1
    for b0 in 0..2u32 {
        for b1 in 0..2u32 {
            let pt = vec![fp(b0), fp(b1)];
            let v = MultiLinearPoly::eval_multilinear(&evals, &pt);
            assert_eq!(v, evals[(b0 + 2 * b1) as usize]);
        }
    }
}

#[test]
fn fixing_all_variables_lsb_first_matches_eval() {
    // fold/eval round trip on a non-boolean point
    let poly = poly_from(&[4, 9, 16, 25, 7, 0, 3, 11]);
    let pt = vec![fp(11), fp(10), fp(123456)];
    let fixed = poly.fix_variables_multilinear_lsb_first(&pt);
    assert_eq!(fixed.var_num, 0);
    assert_eq!(fixed.evals.len(), 1);
    let direct = MultiLinearPoly::eval_multilinear(&poly.evals, &pt);
    assert_eq!(fixed.evals[0], direct);
}

#[test]
fn msb_first_fixing_equals_lsb_first_on_the_reversed_point() {
    let poly = poly_from(&[1, 2, 3, 4, 5, 6, 7, 8]);
    let pt = vec![fp(21), fp(33), fp(47)];
    let rev: Vec<Fp> = pt.iter().rev().cloned().collect();
    let via_msb = poly.fix_variables_multilinear_msb_first(&pt);
    let via_lsb = poly.fix_variables_multilinear_lsb_first(&rev);
    assert_eq!(via_msb.evals[0], via_lsb.evals[0]);
}

#[test]
fn partial_fixing_keeps_the_remaining_variables() {
    let poly = poly_from(&[1, 2, 3, 4]);
    // fixing the low variable to 0 keeps the even entries; to 1, the odd ones
    let at0 = poly.fix_variables_multilinear_lsb_first(&vec![fp(0)]);
    assert_eq!(at0.var_num, 1);
    assert_eq!(at0.evals, vec![fp(1), fp(3)]);
    let at1 = poly.fix_variables_multilinear_lsb_first(&vec![fp(1)]);
    assert_eq!(at1.evals, vec![fp(2), fp(4)]);
    // fixing the high variable MSB-first keeps the low half or the high half
    let hi0 = poly.fix_variables_multilinear_msb_first(&vec![fp(0)]);
    assert_eq!(hi0.evals, vec![fp(1), fp(2)]);
    let hi1 = poly.fix_variables_multilinear_msb_first(&vec![fp(1)]);
    assert_eq!(hi1.evals, vec![fp(3), fp(4)]);
}

#[test]
fn zero_variable_polynomial_is_returned_unchanged() {
    let poly = MultiLinearPoly { var_num: 0, evals: vec![fp(42)] };
    let empty: Vec<Fp> = Vec::new();
    let v = MultiLinearPoly::eval_multilinear(&poly.evals, &empty);
    assert_eq!(v, fp(42));
    let fixed = poly.fix_variables_multilinear_lsb_first(&empty);
    assert_eq!(fixed.var_num, 0);
    assert_eq!(fixed.evals, poly.evals);
    let fixed_msb = poly.fix_variables_multilinear_msb_first(&empty);
    assert_eq!(fixed_msb.evals, poly.evals);
}
