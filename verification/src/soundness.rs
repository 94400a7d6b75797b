//! Soundness of the product sum-check: an honest prover's proof log always
//! passes the verifier, and the claims it ends with are the true
//! evaluations of the input polynomials at the challenge point.
//!
//! The algebraic heart is the round identity: the degree-2 polynomial
//! interpolated from the three logged values, evaluated at the round's
//! challenge, equals the product sum over the folded tables — the quantity
//! the next round's check starts from.

use crate::field::{
    all_reduced, all_valid, f_add, f_mod, f_mul, f_sub, lemma_add_mods, lemma_f_mod_range,
    lemma_f_mod_small, lemma_halve_cancel, lemma_mod_subst_add, lemma_mul_mods, lemma_mul_mod_left,
    lemma_mul_mod_right, lemma_sub_mod_left, lemma_add_mod_right, values, Fp, HALF, MODULUS,
};
use crate::poly::{fold_lsb, lemma_fold_lsb_valid, MultiLinearPoly};
use crate::scratchpad::{ext2, sum_e0, sum_e1, sum_e2, sum_prod};
use crate::sumcheck::{lemma_prod_run_folds, lemma_prod_run_unfold, lemma_prod_run_zero, prod_run};
use crate::transcript::{mix, squeeze, SEED};
use crate::verify::{lagrange2, replay_rounds, spec_verify};
use vstd::arithmetic::div_mod::lemma_mod_multiples_vanish;
use vstd::arithmetic::power2::pow2;
use vstd::prelude::*;

verus! {

/// Integer weight of the value at 0 in the interpolation at `r`.
pub open spec fn l0w(r: int) -> int {
    ((r - 1) * (r - 2)) * (HALF as int)
}

/// Integer weight of the value at 1 in the interpolation at `r`.
pub open spec fn l1w(r: int) -> int {
    r * (2 - r)
}

/// Integer weight of the value at 2 in the interpolation at `r`.
pub open spec fn l2w(r: int) -> int {
    (r * (r - 1)) * (HALF as int)
}

/// Normal form of the interpolation: one residue of an integer polynomial.
proof fn lemma_lagrange_normal(e0: int, e1: int, e2: int, r: int)
    ensures
        lagrange2(e0, e1, e2, r) == f_mod(e0 * l0w(r) + e1 * l1w(r) + e2 * l2w(r)),
{
    reveal(lagrange2);
    let h = HALF as int;
    assert(f_mul(f_sub(r, 1), f_sub(r, 2)) == f_mod((r - 1) * (r - 2))) by {
        lemma_mul_mods(r - 1, r - 2);
    }
    assert(f_mul(f_mod((r - 1) * (r - 2)), h) == f_mod(l0w(r))) by {
        lemma_mul_mod_left((r - 1) * (r - 2), h);
    }
    assert(f_mul(e0, f_mod(l0w(r))) == f_mod(e0 * l0w(r))) by {
        lemma_mul_mod_right(e0, l0w(r));
    }
    assert(f_mul(r, f_sub(2, r)) == f_mod(l1w(r))) by {
        lemma_mul_mod_right(r, 2 - r);
    }
    assert(f_mul(e1, f_mod(l1w(r))) == f_mod(e1 * l1w(r))) by {
        lemma_mul_mod_right(e1, l1w(r));
    }
    assert(f_mul(r, f_sub(r, 1)) == f_mod(r * (r - 1))) by {
        lemma_mul_mod_right(r, r - 1);
    }
    assert(f_mul(f_mod(r * (r - 1)), h) == f_mod(l2w(r))) by {
        lemma_mul_mod_left(r * (r - 1), h);
    }
    assert(f_mul(e2, f_mod(l2w(r))) == f_mod(e2 * l2w(r))) by {
        lemma_mul_mod_right(e2, l2w(r));
    }
    lemma_add_mods(e0 * l0w(r), e1 * l1w(r));
    lemma_add_mods(e0 * l0w(r) + e1 * l1w(r), e2 * l2w(r));
}

/// Interpolating three zeros gives zero everywhere.
proof fn lemma_lagrange_zero(r: int)
    ensures
        lagrange2(0, 0, 0, r) == 0,
{
    lemma_lagrange_normal(0, 0, 0, r);
}

/// Interpolation is additive in the three recorded values.
proof fn lemma_lagrange_add(x0: int, x1: int, x2: int, y0: int, y1: int, y2: int, r: int)
    ensures
        f_add(lagrange2(x0, x1, x2, r), lagrange2(y0, y1, y2, r)) == lagrange2(
            f_add(x0, y0),
            f_add(x1, y1),
            f_add(x2, y2),
            r,
        ),
{
    let a = x0 * l0w(r) + x1 * l1w(r) + x2 * l2w(r);
    let b = y0 * l0w(r) + y1 * l1w(r) + y2 * l2w(r);
    lemma_lagrange_normal(x0, x1, x2, r);
    lemma_lagrange_normal(y0, y1, y2, r);
    lemma_add_mods(a, b);
    lemma_lagrange_normal(f_add(x0, y0), f_add(x1, y1), f_add(x2, y2), r);
    let t0 = f_mod(x0 + y0) * l0w(r);
    let t1 = f_mod(x1 + y1) * l1w(r);
    let t2 = f_mod(x2 + y2) * l2w(r);
    let u0 = (x0 + y0) * l0w(r);
    let u1 = (x1 + y1) * l1w(r);
    let u2 = (x2 + y2) * l2w(r);
    assert(f_mod(t0) == f_mod(u0)) by {
        lemma_mul_mod_left(x0 + y0, l0w(r));
    }
    assert(f_mod(t1) == f_mod(u1)) by {
        lemma_mul_mod_left(x1 + y1, l1w(r));
    }
    assert(f_mod(t2) == f_mod(u2)) by {
        lemma_mul_mod_left(x2 + y2, l2w(r));
    }
    lemma_mod_subst_add(t0, u0, t1 + t2);
    lemma_mod_subst_add(t1, u1, u0 + t2);
    lemma_mod_subst_add(t2, u2, u0 + u1);
    assert(u0 == x0 * l0w(r) + y0 * l0w(r)) by (nonlinear_arith)
        requires
            u0 == (x0 + y0) * l0w(r),
    ;
    assert(u1 == x1 * l1w(r) + y1 * l1w(r)) by (nonlinear_arith)
        requires
            u1 == (x1 + y1) * l1w(r),
    ;
    assert(u2 == x2 * l2w(r) + y2 * l2w(r)) by (nonlinear_arith)
        requires
            u2 == (x2 + y2) * l2w(r),
    ;
}

/// The interpolation through one index pair's three logged products,
/// evaluated at `r`, is exactly the product of the two folded entries.
proof fn lemma_lagrange_point(a: int, b: int, c: int, d: int, r: int)
    ensures
        lagrange2(f_mul(a, c), f_mul(b, d), f_mul(ext2(a, b), ext2(c, d)), r) == f_mul(
            f_add(a, f_mul(f_sub(b, a), r)),
            f_add(c, f_mul(f_sub(d, c), r)),
        ),
{
    let h = HALF as int;
    let p = MODULUS as int;
    // normalize the left side
    assert(ext2(a, b) == f_mod(2 * b - a)) by {
        lemma_sub_mod_left(2 * b, a);
    }
    assert(ext2(c, d) == f_mod(2 * d - c)) by {
        lemma_sub_mod_left(2 * d, c);
    }
    assert(f_mul(ext2(a, b), ext2(c, d)) == f_mod((2 * b - a) * (2 * d - c))) by {
        lemma_mul_mods(2 * b - a, 2 * d - c);
    }
    lemma_lagrange_normal(f_mod(a * c), f_mod(b * d), f_mod((2 * b - a) * (2 * d - c)), r);
    let big0 = (a * c) * l0w(r);
    let big1 = (b * d) * l1w(r);
    let big2 = ((2 * b - a) * (2 * d - c)) * l2w(r);
    let m0 = f_mod(a * c) * l0w(r);
    let m1 = f_mod(b * d) * l1w(r);
    let m2 = f_mod((2 * b - a) * (2 * d - c)) * l2w(r);
    assert(f_mod(m0) == f_mod(big0)) by {
        lemma_mul_mod_left(a * c, l0w(r));
    }
    assert(f_mod(m1) == f_mod(big1)) by {
        lemma_mul_mod_left(b * d, l1w(r));
    }
    assert(f_mod(m2) == f_mod(big2)) by {
        lemma_mul_mod_left((2 * b - a) * (2 * d - c), l2w(r));
    }
    lemma_mod_subst_add(m0, big0, m1 + m2);
    lemma_mod_subst_add(m1, big1, big0 + m2);
    lemma_mod_subst_add(m2, big2, big0 + big1);
    assert(lagrange2(f_mul(a, c), f_mul(b, d), f_mul(ext2(a, b), ext2(c, d)), r) == f_mod(
        big0 + big1 + big2,
    ));
    // normalize the right side
    let u = a + (b - a) * r;
    let v = c + (d - c) * r;
    assert(f_add(a, f_mul(f_sub(b, a), r)) == f_mod(u)) by {
        lemma_mul_mod_left(b - a, r);
        lemma_add_mod_right(a, (b - a) * r);
    }
    assert(f_add(c, f_mul(f_sub(d, c), r)) == f_mod(v)) by {
        lemma_mul_mod_left(d - c, r);
        lemma_add_mod_right(c, (d - c) * r);
    }
    assert(f_mul(f_mod(u), f_mod(v)) == f_mod(u * v)) by {
        lemma_mul_mods(u, v);
    }
    // the two residues agree after doubling, and two is invertible
    let q1 = (a * c) * ((r - 1) * (r - 2));
    let q2 = ((2 * b - a) * (2 * d - c)) * (r * (r - 1));
    let g = q1 + q2;
    assert(2 * big0 == (2 * h) * q1) by (nonlinear_arith)
        requires
            big0 == (a * c) * (((r - 1) * (r - 2)) * h),
            q1 == (a * c) * ((r - 1) * (r - 2)),
    ;
    assert(2 * big2 == (2 * h) * q2) by (nonlinear_arith)
        requires
            big2 == ((2 * b - a) * (2 * d - c)) * ((r * (r - 1)) * h),
            q2 == ((2 * b - a) * (2 * d - c)) * (r * (r - 1)),
    ;
    assert((2 * h) * g == (2 * h) * q1 + (2 * h) * q2) by (nonlinear_arith)
        requires
            g == q1 + q2,
    ;
    assert((p + 1) * g == p * g + g) by (nonlinear_arith);
    assert(2 * h == p + 1);
    assert(2 * (big0 + big1 + big2) == p * g + (g + 2 * big1));
    assert(f_mod(p * g + (g + 2 * big1)) == f_mod(g + 2 * big1)) by {
        lemma_mod_multiples_vanish(g, g + 2 * big1, p);
    }
    // expand everything over shared monomials; the final comparison is linear
    let ac = a * c;
    let ad = a * d;
    let bc = b * c;
    let bd = b * d;
    let rr = r * r;
    assert(q1 == ac * rr - 3 * (ac * r) + 2 * ac) by (nonlinear_arith)
        requires
            q1 == (a * c) * ((r - 1) * (r - 2)),
            ac == a * c,
            rr == r * r,
    ;
    let s = (2 * b - a) * (2 * d - c);
    let t = r * (r - 1);
    let x = 4 * bd - 2 * bc - 2 * ad + ac;
    assert(s == x) by (nonlinear_arith)
        requires
            s == (2 * b - a) * (2 * d - c),
            x == 4 * (b * d) - 2 * (b * c) - 2 * (a * d) + a * c,
    ;
    assert(t == rr - r) by (nonlinear_arith)
        requires
            t == r * (r - 1),
            rr == r * r,
    ;
    assert(q2 == x * (rr - r));
    assert(x * (rr - r) == x * rr - x * r) by (nonlinear_arith);
    assert(x * rr == 4 * (bd * rr) - 2 * (bc * rr) - 2 * (ad * rr) + ac * rr) by (nonlinear_arith)
        requires
            x == 4 * bd - 2 * bc - 2 * ad + ac,
    ;
    assert(x * r == 4 * (bd * r) - 2 * (bc * r) - 2 * (ad * r) + ac * r) by (nonlinear_arith)
        requires
            x == 4 * bd - 2 * bc - 2 * ad + ac,
    ;
    assert(q2 == 4 * (bd * rr) - 2 * (bc * rr) - 2 * (ad * rr) + ac * rr - 4 * (bd * r) + 2 * (bc
        * r) + 2 * (ad * r) - ac * r);
    assert(2 * big1 == 4 * (bd * r) - 2 * (bd * rr)) by (nonlinear_arith)
        requires
            big1 == (b * d) * (r * (2 - r)),
            bd == b * d,
            rr == r * r,
    ;
    let er = (b - a) * r;
    let fr = (d - c) * r;
    assert(u * v == a * c + a * fr + er * c + er * fr) by (nonlinear_arith)
        requires
            u == a + er,
            v == c + fr,
    ;
    assert(a * fr == ad * r - ac * r) by (nonlinear_arith)
        requires
            fr == (d - c) * r,
            ad == a * d,
            ac == a * c,
    ;
    assert(er * c == bc * r - ac * r) by (nonlinear_arith)
        requires
            er == (b - a) * r,
            bc == b * c,
            ac == a * c,
    ;
    assert(er * fr == ((b - a) * (d - c)) * rr) by (nonlinear_arith)
        requires
            er == (b - a) * r,
            fr == (d - c) * r,
            rr == r * r,
    ;
    assert((b - a) * (d - c) == bd - bc - ad + ac) by (nonlinear_arith)
        requires
            ac == a * c,
            ad == a * d,
            bc == b * c,
            bd == b * d,
    ;
    assert((bd - bc - ad + ac) * rr == bd * rr - bc * rr - ad * rr + ac * rr) by (nonlinear_arith);
    assert(u * v == ac + ad * r - ac * r + bc * r - ac * r + bd * rr - bc * rr - ad * rr + ac * rr);
    assert(g + 2 * big1 == 2 * (u * v));
    assert(f_mod(2 * (big0 + big1 + big2)) == f_mod(2 * (u * v)));
    lemma_halve_cancel(big0 + big1 + big2, u * v);
}

/// Round identity: the interpolation through the three logged sums,
/// evaluated at the challenge, equals the product sum over the folded
/// tables.
proof fn lemma_round_identity(s1: Seq<int>, s2: Seq<int>, n: int, r: int)
    requires
        n >= 0,
        2 * n <= s1.len(),
        s1.len() == s2.len(),
    ensures
        lagrange2(sum_e0(s1, s2, n), sum_e1(s1, s2, n), sum_e2(s1, s2, n), r) == sum_prod(
            fold_lsb(s1, r),
            fold_lsb(s2, r),
            n,
        ),
    decreases n,
{
    if n == 0 {
        lemma_lagrange_zero(r);
    } else {
        lemma_round_identity(s1, s2, n - 1, r);
        let a = s1[2 * (n - 1)];
        let b = s1[2 * (n - 1) + 1];
        let c = s2[2 * (n - 1)];
        let d = s2[2 * (n - 1) + 1];
        lemma_lagrange_add(
            sum_e0(s1, s2, n - 1),
            sum_e1(s1, s2, n - 1),
            sum_e2(s1, s2, n - 1),
            f_mul(a, c),
            f_mul(b, d),
            f_mul(ext2(a, b), ext2(c, d)),
            r,
        );
        lemma_lagrange_point(a, b, c, d, r);
        assert(fold_lsb(s1, r)[n - 1] == f_add(a, f_mul(f_sub(b, a), r)));
        assert(fold_lsb(s2, r)[n - 1] == f_add(c, f_mul(f_sub(d, c), r)));
    }
}

/// The round polynomial's values at 0 and 1 sum to the product sum over
/// the whole current table.
proof fn lemma_sum_split(s1: Seq<int>, s2: Seq<int>, n: int)
    requires
        n >= 0,
        2 * n <= s1.len(),
        s1.len() == s2.len(),
    ensures
        f_add(sum_e0(s1, s2, n), sum_e1(s1, s2, n)) == sum_prod(s1, s2, 2 * n),
    decreases n,
{
    if n == 0 {
    } else {
        lemma_sum_split(s1, s2, n - 1);
        let x = sum_e0(s1, s2, n - 1);
        let y = sum_e1(s1, s2, n - 1);
        let a = f_mul(s1[2 * (n - 1)], s2[2 * (n - 1)]);
        let b = f_mul(s1[2 * (n - 1) + 1], s2[2 * (n - 1) + 1]);
        assert(sum_prod(s1, s2, 2 * n - 1) == f_add(sum_prod(s1, s2, 2 * n - 2), a));
        assert(sum_prod(s1, s2, 2 * n) == f_add(sum_prod(s1, s2, 2 * n - 1), b));
        // reassociate the four summands under one residue
        lemma_add_mods(x + a, y + b);
        assert(f_add(x, y) == f_mod(x + y));
        assert(f_add(f_mod(x + y), a) == f_mod(x + y + a)) by {
            crate::field::lemma_add_mod_left(x + y, a);
        }
        assert(f_add(f_mod(x + y + a), b) == f_mod(x + y + a + b)) by {
            crate::field::lemma_add_mod_left(x + y + a, b);
        }
    }
}

/// The product sum over a single remaining entry is the product of the two
/// claims.
proof fn lemma_sum_prod_single(s1: Seq<int>, s2: Seq<int>)
    ensures
        sum_prod(s1, s2, 1) == f_mul(s1[0], s2[0]),
{
    assert(sum_prod(s1, s2, 0) == 0);
    assert(sum_prod(s1, s2, 1) == f_add(0, f_mul(s1[0], s2[0])));
    lemma_f_mod_range(s1[0] * s2[0]);
    lemma_f_mod_small(f_mul(s1[0], s2[0]));
}

/// Replaying the log of an honest run from any round onward succeeds, and
/// the value the final claims must multiply to is the product of the run's
/// two folded single entries.
proof fn lemma_replay_honest(log: Seq<Fp>, k: int, n: int, st: u64, s1: Seq<int>, s2: Seq<int>)
    requires
        0 <= k <= n,
        s1.len() == pow2((n - k) as nat),
        s2.len() == s1.len(),
        all_reduced(s1),
        all_reduced(s2),
        log.len() == 4 * n + 2,
        all_valid(log),
        values(log).skip(4 * k) == prod_run(s1, s2, st, (n - k) as nat).log,
    ensures
        replay_rounds(log, k, n, st, sum_prod(s1, s2, s1.len() as int)) == Some(
            f_mul(
                prod_run(s1, s2, st, (n - k) as nat).s1[0],
                prod_run(s1, s2, st, (n - k) as nat).s2[0],
            ),
        ),
    decreases n - k,
{
    let m = (n - k) as nat;
    let run = prod_run(s1, s2, st, m);
    if k == n {
        lemma_prod_run_zero(s1, s2, st);
        assert(pow2(0) == 1) by {
            vstd::arithmetic::power::lemma_pow0(2);
        }
        lemma_sum_prod_single(s1, s2);
    } else {
        vstd::arithmetic::power2::lemma_pow2_unfold(m);
        lemma_prod_run_unfold(s1, s2, st, m);
        let half = s1.len() as int / 2;
        let e0 = sum_e0(s1, s2, half);
        let e1 = sum_e1(s1, s2, half);
        let e2 = sum_e2(s1, s2, half);
        let st3 = mix(mix(mix(st, e0 as u64), e1 as u64), e2 as u64);
        let r = squeeze(st3);
        let st4 = mix(st3, r as u64);
        let f1 = fold_lsb(s1, r);
        let f2 = fold_lsb(s2, r);
        let rest = prod_run(f1, f2, st4, (m - 1) as nat);
        let tail = values(log).skip(4 * k);
        assert(tail == seq![e0, e1, e2, r] + rest.log);
        // the four logged entries of this round
        assert(values(log)[4 * k] == e0) by {
            assert(tail[0] == values(log)[4 * k + 0]);
        }
        assert(values(log)[4 * k + 1] == e1) by {
            assert(tail[1] == values(log)[4 * k + 1]);
        }
        assert(values(log)[4 * k + 2] == e2) by {
            assert(tail[2] == values(log)[4 * k + 2]);
        }
        assert(values(log)[4 * k + 3] == r) by {
            assert(tail[3] == values(log)[4 * k + 3]);
        }
        assert(log[4 * k]@ == e0 && log[4 * k].v == e0 as u64);
        assert(log[4 * k + 1]@ == e1 && log[4 * k + 1].v == e1 as u64);
        assert(log[4 * k + 2]@ == e2 && log[4 * k + 2].v == e2 as u64);
        assert(log[4 * k + 3]@ == r && log[4 * k + 3].v == r as u64) by {
            lemma_f_mod_range(st3 as int);
        }
        // this round's check passes
        lemma_sum_split(s1, s2, half);
        assert(2 * half == s1.len());
        assert(f_add(e0, e1) == sum_prod(s1, s2, s1.len() as int));
        // the next expectation is the product sum over the folded tables
        lemma_round_identity(s1, s2, half, r);
        assert(lagrange2(e0, e1, e2, r) == sum_prod(f1, f2, half));
        // set up the induction hypothesis
        assert(f1.len() == half && f2.len() == half);
        lemma_fold_lsb_valid(s1, r);
        lemma_fold_lsb_valid(s2, r);
        assert(values(log).skip(4 * (k + 1)) =~= rest.log) by {
            assert(forall|j: int|
                0 <= j < rest.log.len() ==> rest.log[j] == (seq![e0, e1, e2, r] + rest.log)[j
                    + 4]);
            assert(forall|j: int|
                0 <= j < rest.log.len() ==> tail[j + 4] == #[trigger] values(log).skip(
                    4 * (k + 1),
                )[j]);
        }
        lemma_replay_honest(log, k + 1, n, st4, f1, f2);
        assert(run.s1 == rest.s1 && run.s2 == rest.s2);
    }
}

/// Soundness law of the product sum-check: the proof log of an honest run
/// on a fresh transcript is accepted by the verifier, with the true product
/// sum as the claimed sum and the run's two final claims as the claimed
/// evaluations.
pub proof fn lemma_product_sumcheck_verifies(log: Seq<Fp>, s1: Seq<int>, s2: Seq<int>, n: nat)
    requires
        s1.len() == pow2(n),
        s2.len() == s1.len(),
        all_reduced(s1),
        all_reduced(s2),
        all_valid(log),
        values(log) == prod_run(s1, s2, SEED, n).log,
    ensures
        spec_verify(
            n,
            sum_prod(s1, s2, s1.len() as int),
            seq![prod_run(s1, s2, SEED, n).s1[0], prod_run(s1, s2, SEED, n).s2[0]],
            log,
        ),
{
    let run = prod_run(s1, s2, SEED, n);
    lemma_prod_run_folds(s1, s2, SEED, n);
    assert(values(log).skip(0) =~= values(log));
    lemma_replay_honest(log, 0, n as int, SEED, s1, s2);
    assert(log[4 * n as int]@ == values(log)[4 * n as int]);
    assert(log[4 * n as int + 1]@ == values(log)[4 * n as int + 1]);
}

/// If the replay of one log succeeds from round `i` on, the replay of a
/// second log that differs only in round `k`'s logged challenge fails:
/// rounds before `k` replay identically, and at round `k` the derived
/// challenge, a function of the earlier entries alone, no longer matches
/// the logged one.
proof fn lemma_replay_challenge_tamper(
    log: Seq<Fp>,
    log2: Seq<Fp>,
    i: int,
    k: int,
    n: int,
    st: u64,
    expected: int,
)
    requires
        0 <= i <= k < n,
        4 * n + 2 <= log.len(),
        log2.len() == log.len(),
        forall|j: int| 0 <= j < log.len() && j != 4 * k + 3 ==> log2[j] == log[j],
        log2[4 * k + 3]@ != log[4 * k + 3]@,
        replay_rounds(log, i, n, st, expected) is Some,
    ensures
        replay_rounds(log2, i, n, st, expected) is None,
    decreases k - i,
{
    let e0 = log[4 * i]@;
    let e1 = log[4 * i + 1]@;
    let e2 = log[4 * i + 2]@;
    let st3 = mix(mix(mix(st, log[4 * i].v), log[4 * i + 1].v), log[4 * i + 2].v);
    let r = squeeze(st3);
    assert(log2[4 * i] == log[4 * i]);
    assert(log2[4 * i + 1] == log[4 * i + 1]);
    assert(log2[4 * i + 2] == log[4 * i + 2]);
    // the original run's round `i` checks pass, else its replay were None
    assert(f_add(e0, e1) == expected && log[4 * i + 3]@ == r);
    if i == k {
        assert(log2[4 * i + 3]@ != r);
    } else {
        assert(log2[4 * i + 3] == log[4 * i + 3]);
        lemma_replay_challenge_tamper(
            log,
            log2,
            i + 1,
            k,
            n,
            mix(st3, log[4 * i + 3].v),
            lagrange2(e0, e1, e2, r),
        );
    }
}

/// One fragment of tamper rejection holds unconditionally: changing the
/// logged challenge of any round of an accepted proof log, and nothing
/// else, makes the verifier reject.
pub proof fn lemma_tampered_challenge_rejected(
    log: Seq<Fp>,
    log2: Seq<Fp>,
    k: int,
    n: nat,
    claimed_sum: int,
    claimed_evals: Seq<int>,
)
    requires
        spec_verify(n, claimed_sum, claimed_evals, log),
        0 <= k < n,
        log2.len() == log.len(),
        forall|j: int| 0 <= j < log.len() && j != 4 * k + 3 ==> log2[j] == log[j],
        log2[4 * k + 3]@ != log[4 * k + 3]@,
    ensures
        !spec_verify(n, claimed_sum, claimed_evals, log2),
{
    lemma_replay_challenge_tamper(log, log2, 0, k, n as int, SEED, claimed_sum);
}

/// Completeness at the machine level: runs the product sum-check on a
/// fresh transcript, hands the log, the true sum and the claims to the
/// verifier, and returns the verifier's verdict together with the produced
/// transcript and claims. The verdict is pinned in both directions — it
/// equals the acceptance predicate on the produced log, which equals the
/// honest-run model — and is always true.
pub fn prove_and_verify_product(p1: &MultiLinearPoly, p2: &MultiLinearPoly) -> (res: (
    bool,
    crate::transcript::Transcript,
    Vec<Fp>,
))
    requires
        p1.wf(),
        p2.wf(),
        p1.var_num == p2.var_num,
    ensures
        res.0,
        res.1.wf(),
        values(res.1.proof_log@) == prod_run(
            values(p1.evals@),
            values(p2.evals@),
            SEED,
            p1.var_num as nat,
        ).log,
        values(res.2@) == seq![
            prod_run(values(p1.evals@), values(p2.evals@), SEED, p1.var_num as nat).s1[0],
            prod_run(values(p1.evals@), values(p2.evals@), SEED, p1.var_num as nat).s2[0],
        ],
        res.0 == spec_verify(
            p1.var_num as nat,
            sum_prod(values(p1.evals@), values(p2.evals@), p1.evals@.len() as int),
            values(res.2@),
            res.1.proof_log@,
        ),
{
    let mut sp = crate::scratchpad::SumcheckMultilinearProdScratchpad::new(p1, p2);
    let mut tp = crate::transcript::Transcript::new();
    let claimed_sum = crate::sumcheck::mle_product_sum(&p1.evals, &p2.evals);
    let ghost s1 = values(p1.evals@);
    let ghost s2 = values(p2.evals@);
    let (_randomness, claimed_evals) = crate::sumcheck::sumcheck_multilinear_prod(
        &mut tp,
        &mut sp,
    );
    let mut verified = false;
    let verifier = crate::verify::Verifier::new();
    verifier.verify_sumcheck(
        p1.var_num,
        &claimed_sum,
        &claimed_evals,
        &tp.proof_log,
        &mut verified,
    );
    proof {
        let n = p1.var_num as nat;
        let run = prod_run(s1, s2, SEED, n);
        assert(values(tp.proof_log@) =~= run.log);
        crate::field::lemma_all_valid_reduced(p1.evals@);
        crate::field::lemma_all_valid_reduced(p2.evals@);
        lemma_product_sumcheck_verifies(tp.proof_log@, s1, s2, n);
        assert(values(claimed_evals@) =~= seq![run.s1[0], run.s2[0]]);
    }
    (verified, tp, claimed_evals)
}

} // verus!
