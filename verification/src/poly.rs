//! Multilinear polynomials in evaluation-table form, and the two core
//! operations: full evaluation at a point and partial variable fixing
//! (folding), in both the LSB-first and the MSB-first index convention.
//!
//! The spec model is one-step linear-interpolation folding of a residue
//! table: `fold_lsb` consumes the lowest index bit, `fold_msb` the highest.
//! Evaluation is iterated LSB-first folding; each executable operation is
//! specified exactly against these functions.

use crate::field::{all_valid, f_add, f_mod, f_mul, f_sub, values, Fp};
use vstd::arithmetic::power2::pow2;
use vstd::pervasive::VecAdditionalExecFns;
use vstd::prelude::*;

verus! {

/// One folding step along the least-significant index bit:
/// entry `i` of the result interpolates entries `2i` and `2i + 1` at `r`.
pub open spec fn fold_lsb(s: Seq<int>, r: int) -> Seq<int> {
    Seq::new((s.len() / 2) as nat, |i: int| f_add(s[2 * i], f_mul(f_sub(s[2 * i + 1], s[2 * i]), r)))
}

/// One folding step along the most-significant index bit:
/// entry `i` of the result interpolates entries `i` and `i + len/2` at `r`.
pub open spec fn fold_msb(s: Seq<int>, r: int) -> Seq<int> {
    Seq::new((s.len() / 2) as nat, |i: int| f_add(s[i], f_mul(f_sub(s[i + s.len() / 2], s[i]), r)))
}

/// Iterated LSB-first folding, one step per point coordinate, first
/// coordinate first.
pub open spec fn fold_lsb_all(s: Seq<int>, pt: Seq<int>) -> Seq<int>
    decreases pt.len(),
{
    if pt.len() == 0 {
        s
    } else {
        fold_lsb_all(fold_lsb(s, pt[0]), pt.drop_first())
    }
}

/// Iterated MSB-first folding, one step per point coordinate, first
/// coordinate first.
pub open spec fn fold_msb_all(s: Seq<int>, pt: Seq<int>) -> Seq<int>
    decreases pt.len(),
{
    if pt.len() == 0 {
        s
    } else {
        fold_msb_all(fold_msb(s, pt[0]), pt.drop_first())
    }
}

/// The value of the multilinear extension of table `s` at point `pt`
/// (with `pt[0]` the least-significant variable): the single entry left
/// after folding every variable away.
pub open spec fn eval_mle(s: Seq<int>, pt: Seq<int>) -> int {
    fold_lsb_all(s, pt)[0]
}

/// Appending a coordinate folds once more at the end.
pub proof fn lemma_fold_lsb_all_snoc(s: Seq<int>, pt: Seq<int>, r: int)
    ensures
        fold_lsb_all(s, pt.push(r)) == fold_lsb(fold_lsb_all(s, pt), r),
    decreases pt.len(),
{
    let p1 = pt.push(r);
    assert(fold_lsb_all(s, p1) == fold_lsb_all(fold_lsb(s, p1[0]), p1.drop_first()));
    if pt.len() == 0 {
        assert(p1.drop_first() =~= pt);
        assert(p1[0] == r);
        assert(fold_lsb_all(fold_lsb(s, r), pt) == fold_lsb(s, r));
        assert(fold_lsb_all(s, pt) == s);
    } else {
        assert(p1[0] == pt[0]);
        assert(p1.drop_first() =~= pt.drop_first().push(r));
        lemma_fold_lsb_all_snoc(fold_lsb(s, pt[0]), pt.drop_first(), r);
        assert(fold_lsb_all(s, pt) == fold_lsb_all(fold_lsb(s, pt[0]), pt.drop_first()));
    }
}

/// Appending a coordinate folds once more at the end (MSB convention).
pub proof fn lemma_fold_msb_all_snoc(s: Seq<int>, pt: Seq<int>, r: int)
    ensures
        fold_msb_all(s, pt.push(r)) == fold_msb(fold_msb_all(s, pt), r),
    decreases pt.len(),
{
    let p1 = pt.push(r);
    assert(fold_msb_all(s, p1) == fold_msb_all(fold_msb(s, p1[0]), p1.drop_first()));
    if pt.len() == 0 {
        assert(p1.drop_first() =~= pt);
        assert(p1[0] == r);
        assert(fold_msb_all(fold_msb(s, r), pt) == fold_msb(s, r));
        assert(fold_msb_all(s, pt) == s);
    } else {
        assert(p1[0] == pt[0]);
        assert(p1.drop_first() =~= pt.drop_first().push(r));
        lemma_fold_msb_all_snoc(fold_msb(s, pt[0]), pt.drop_first(), r);
        assert(fold_msb_all(s, pt) == fold_msb_all(fold_msb(s, pt[0]), pt.drop_first()));
    }
}

/// Folding preserves reducedness of the table entries.
pub proof fn lemma_fold_lsb_valid(s: Seq<int>, r: int)
    ensures
        crate::field::all_reduced(fold_lsb(s, r)),
{
    assert forall|i: int| 0 <= i < fold_lsb(s, r).len() implies 0 <= #[trigger] fold_lsb(
        s,
        r,
    )[i] < crate::field::MODULUS as int by {
        crate::field::lemma_f_mod_range(s[2 * i] + f_mul(f_sub(s[2 * i + 1], s[2 * i]), r));
    }
}

/// Folding at a boolean coordinate selects entries instead of blending
/// them: at 0 the even-indexed entries remain, at 1 the odd-indexed ones.
/// This is why fixing variables at a boolean point of a row-major matrix
/// encoding picks out a row or a column unchanged.
pub proof fn lemma_fold_lsb_boolean(s: Seq<int>, b: int)
    requires
        crate::field::all_reduced(s),
        b == 0 || b == 1,
    ensures
        forall|i: int|
            0 <= i < s.len() / 2 ==> #[trigger] fold_lsb(s, b)[i] == if b == 1 {
                s[2 * i + 1]
            } else {
                s[2 * i]
            },
{
    assert forall|i: int| 0 <= i < s.len() / 2 implies #[trigger] fold_lsb(s, b)[i] == (if b == 1 {
        s[2 * i + 1]
    } else {
        s[2 * i]
    }) by {
        let a0 = s[2 * i];
        let a1 = s[2 * i + 1];
        if b == 1 {
            crate::field::lemma_mul_mod_left(a1 - a0, 1);
            crate::field::lemma_add_mod_right(a0, a1 - a0);
            crate::field::lemma_f_mod_small(a1);
        } else {
            crate::field::lemma_f_mod_small(a0);
        }
    }
}

/// The evaluation table of a multilinear polynomial: `evals[i]` is its value
/// at the boolean point whose bits are the binary digits of `i`.
#[derive(Debug, Clone, PartialEq, Eq)]
pub struct MultiLinearPoly {
    /// Number of variables.
    pub var_num: usize,
    /// `2^var_num` evaluations over the boolean hypercube.
    pub evals: Vec<Fp>,
}

impl MultiLinearPoly {
    /// The size invariant: exactly one evaluation per hypercube point, all
    /// entries reduced.
    pub open spec fn wf(self) -> bool {
        &&& self.evals@.len() == pow2(self.var_num as nat)
        &&& all_valid(self.evals@)
    }

    /// Evaluates the multilinear extension of `evals` at the point `x`
    /// (`x[0]` is folded first, consuming the least-significant index bit).
    pub fn eval_multilinear(evals: &Vec<Fp>, x: &Vec<Fp>) -> (r: Fp)
        requires
            evals@.len() == pow2(x@.len() as nat),
            all_valid(evals@),
            all_valid(x@),
        ensures
            r.valid(),
            r@ == eval_mle(values(evals@), values(x@)),
    {
        let mut scratch: Vec<Fp> = evals.clone();
        assert(scratch@ =~= evals@);
        let mut active: usize = scratch.len();
        let mut k: usize = 0;
        while k < x.len()
            invariant
                k <= x@.len(),
                scratch@.len() == evals@.len(),
                evals@.len() == pow2(x@.len() as nat),
                active == pow2((x@.len() - k) as nat),
                active <= scratch@.len(),
                all_valid(scratch@),
                all_valid(x@),
                values(scratch@).subrange(0, active as int) == fold_lsb_all(
                    values(evals@),
                    values(x@).subrange(0, k as int),
                ),
            decreases x@.len() - k,
        {
            let r = x[k];
            proof {
                vstd::arithmetic::power2::lemma_pow2_unfold((x@.len() - k) as nat);
            }
            fold_lsb_in_place(&mut scratch, active, r);
            proof {
                lemma_fold_lsb_all_snoc(
                    values(evals@),
                    values(x@).subrange(0, k as int),
                    x@[k as int]@,
                );
                assert(values(x@).subrange(0, k + 1) =~= values(x@).subrange(0, k as int).push(
                    x@[k as int]@,
                ));
                vstd::arithmetic::power2::lemma_pow2_unfold((x@.len() - k) as nat);
            }
            active = active / 2;
            k = k + 1;
        }
        proof {
            assert(values(x@).subrange(0, x@.len() as int) =~= values(x@));
            assert(pow2(0) == 1) by {
                vstd::arithmetic::power::lemma_pow0(2);
            }
            assert(values(scratch@).subrange(0, 1)[0] == values(scratch@)[0]);
        }
        scratch[0]
    }

    /// Folds away the first `partial_point.len()` variables, LSB-first,
    /// returning the smaller polynomial in the remaining variables.
    pub fn fix_variables_multilinear_lsb_first(&self, partial_point: &Vec<Fp>) -> (r:
        MultiLinearPoly)
        requires
            self.wf(),
            partial_point@.len() <= self.var_num,
            all_valid(partial_point@),
        ensures
            r.wf(),
            r.var_num == self.var_num - partial_point@.len(),
            values(r.evals@) == fold_lsb_all(values(self.evals@), values(partial_point@)),
    {
        let mut scratch: Vec<Fp> = self.evals.clone();
        assert(scratch@ =~= self.evals@);
        let mut active: usize = scratch.len();
        let mut k: usize = 0;
        proof {
            lemma_pow2_monotone(partial_point@.len() as nat, self.var_num as nat);
        }
        while k < partial_point.len()
            invariant
                k <= partial_point@.len(),
                partial_point@.len() <= self.var_num,
                scratch@.len() == self.evals@.len(),
                self.evals@.len() == pow2(self.var_num as nat),
                active == pow2((self.var_num - k) as nat),
                active <= scratch@.len(),
                all_valid(scratch@),
                all_valid(partial_point@),
                values(scratch@).subrange(0, active as int) == fold_lsb_all(
                    values(self.evals@),
                    values(partial_point@).subrange(0, k as int),
                ),
            decreases partial_point@.len() - k,
        {
            let r = partial_point[k];
            proof {
                vstd::arithmetic::power2::lemma_pow2_unfold((self.var_num - k) as nat);
            }
            fold_lsb_in_place(&mut scratch, active, r);
            proof {
                lemma_fold_lsb_all_snoc(
                    values(self.evals@),
                    values(partial_point@).subrange(0, k as int),
                    partial_point@[k as int]@,
                );
                assert(values(partial_point@).subrange(0, k + 1) =~= values(
                    partial_point@,
                ).subrange(0, k as int).push(partial_point@[k as int]@));
            }
            active = active / 2;
            k = k + 1;
        }
        scratch.truncate(active);
        proof {
            assert(values(partial_point@).subrange(0, partial_point@.len() as int) =~= values(
                partial_point@,
            ));
            assert(values(scratch@) =~= fold_lsb_all(values(self.evals@), values(partial_point@)));
        }
        MultiLinearPoly { var_num: self.var_num - partial_point.len(), evals: scratch }
    }

    /// Folds away the first `partial_point.len()` variables, MSB-first:
    /// each coordinate consumes the current most-significant index bit.
    pub fn fix_variables_multilinear_msb_first(&self, partial_point: &Vec<Fp>) -> (r:
        MultiLinearPoly)
        requires
            self.wf(),
            partial_point@.len() <= self.var_num,
            all_valid(partial_point@),
        ensures
            r.wf(),
            r.var_num == self.var_num - partial_point@.len(),
            values(r.evals@) == fold_msb_all(values(self.evals@), values(partial_point@)),
    {
        let mut scratch: Vec<Fp> = self.evals.clone();
        assert(scratch@ =~= self.evals@);
        let mut active: usize = scratch.len();
        let mut k: usize = 0;
        proof {
            lemma_pow2_monotone(partial_point@.len() as nat, self.var_num as nat);
        }
        while k < partial_point.len()
            invariant
                k <= partial_point@.len(),
                partial_point@.len() <= self.var_num,
                scratch@.len() == self.evals@.len(),
                self.evals@.len() == pow2(self.var_num as nat),
                active == pow2((self.var_num - k) as nat),
                active <= scratch@.len(),
                all_valid(scratch@),
                all_valid(partial_point@),
                values(scratch@).subrange(0, active as int) == fold_msb_all(
                    values(self.evals@),
                    values(partial_point@).subrange(0, k as int),
                ),
            decreases partial_point@.len() - k,
        {
            let r = partial_point[k];
            proof {
                vstd::arithmetic::power2::lemma_pow2_unfold((self.var_num - k) as nat);
            }
            fold_msb_in_place(&mut scratch, active, r);
            proof {
                lemma_fold_msb_all_snoc(
                    values(self.evals@),
                    values(partial_point@).subrange(0, k as int),
                    partial_point@[k as int]@,
                );
                assert(values(partial_point@).subrange(0, k + 1) =~= values(
                    partial_point@,
                ).subrange(0, k as int).push(partial_point@[k as int]@));
            }
            active = active / 2;
            k = k + 1;
        }
        scratch.truncate(active);
        proof {
            assert(values(partial_point@).subrange(0, partial_point@.len() as int) =~= values(
                partial_point@,
            ));
            assert(values(scratch@) =~= fold_msb_all(values(self.evals@), values(partial_point@)));
        }
        MultiLinearPoly { var_num: self.var_num - partial_point.len(), evals: scratch }
    }
}

/// Folding one variable per point coordinate shrinks the table from
/// `2^(|pt| + k)` entries to `2^k`.
pub proof fn lemma_fold_lsb_all_len(s: Seq<int>, pt: Seq<int>, k: nat)
    requires
        s.len() == pow2(pt.len() + k),
    ensures
        fold_lsb_all(s, pt).len() == pow2(k),
    decreases pt.len(),
{
    if pt.len() == 0 {
    } else {
        vstd::arithmetic::power2::lemma_pow2_unfold(pt.len() + k);
        assert(fold_lsb(s, pt[0]).len() == pow2((pt.len() - 1) as nat + k));
        lemma_fold_lsb_all_len(fold_lsb(s, pt[0]), pt.drop_first(), k);
    }
}

/// Round-trip law: fixing every variable LSB-first leaves a single entry,
/// and that entry is exactly the full multilinear evaluation at the same
/// point. Together with the contracts of `fix_variables_multilinear_lsb_first`
/// and `eval_multilinear`, fixing all variables agrees with evaluating.
pub proof fn lemma_fold_eval_round_trip(s: Seq<int>, pt: Seq<int>)
    requires
        s.len() == pow2(pt.len()),
    ensures
        fold_lsb_all(s, pt).len() == 1,
        fold_lsb_all(s, pt)[0] == eval_mle(s, pt),
{
    lemma_fold_lsb_all_len(s, pt, 0);
    vstd::arithmetic::power::lemma_pow0(2);
}

/// The four-point interpolation identity behind axis commutation: folding
/// the low index bit at `a` and then the high one at `b` gives the same
/// field element as the other order. `a0, a1, c0, c1` are the table entries
/// at (low, high) bit pairs (0,0), (1,0), (0,1), (1,1).
proof fn lemma_bilinear_interp(a0: int, a1: int, c0: int, c1: int, a: int, b: int)
    ensures
        f_add(
            f_add(a0, f_mul(f_sub(c0, a0), b)),
            f_mul(
                f_sub(f_add(a1, f_mul(f_sub(c1, a1), b)), f_add(a0, f_mul(f_sub(c0, a0), b))),
                a,
            ),
        ) == f_add(
            f_add(a0, f_mul(f_sub(a1, a0), a)),
            f_mul(
                f_sub(f_add(c0, f_mul(f_sub(c1, c0), a)), f_add(a0, f_mul(f_sub(a1, a0), a))),
                b,
            ),
        ),
{
    let t0 = a0 + (c0 - a0) * b;
    let t1 = a1 + (c1 - a1) * b;
    let u0 = a0 + (a1 - a0) * a;
    let u1 = c0 + (c1 - c0) * a;
    assert(f_add(a0, f_mul(f_sub(c0, a0), b)) == f_mod(t0)) by {
        crate::field::lemma_mul_mod_left(c0 - a0, b);
        crate::field::lemma_add_mod_right(a0, (c0 - a0) * b);
    }
    assert(f_add(a1, f_mul(f_sub(c1, a1), b)) == f_mod(t1)) by {
        crate::field::lemma_mul_mod_left(c1 - a1, b);
        crate::field::lemma_add_mod_right(a1, (c1 - a1) * b);
    }
    assert(f_add(f_mod(t0), f_mul(f_sub(f_mod(t1), f_mod(t0)), a)) == f_mod(t0 + (t1 - t0) * a))
        by {
        crate::field::lemma_sub_mod_left(t1, f_mod(t0));
        crate::field::lemma_sub_mod_right(t1, t0);
        crate::field::lemma_mul_mod_left(t1 - t0, a);
        crate::field::lemma_add_mod_right(f_mod(t0), (t1 - t0) * a);
        crate::field::lemma_add_mod_left(t0, (t1 - t0) * a);
    }
    assert(f_add(a0, f_mul(f_sub(a1, a0), a)) == f_mod(u0)) by {
        crate::field::lemma_mul_mod_left(a1 - a0, a);
        crate::field::lemma_add_mod_right(a0, (a1 - a0) * a);
    }
    assert(f_add(c0, f_mul(f_sub(c1, c0), a)) == f_mod(u1)) by {
        crate::field::lemma_mul_mod_left(c1 - c0, a);
        crate::field::lemma_add_mod_right(c0, (c1 - c0) * a);
    }
    assert(f_add(f_mod(u0), f_mul(f_sub(f_mod(u1), f_mod(u0)), b)) == f_mod(u0 + (u1 - u0) * b))
        by {
        crate::field::lemma_sub_mod_left(u1, f_mod(u0));
        crate::field::lemma_sub_mod_right(u1, u0);
        crate::field::lemma_mul_mod_left(u1 - u0, b);
        crate::field::lemma_add_mod_right(f_mod(u0), (u1 - u0) * b);
        crate::field::lemma_add_mod_left(u0, (u1 - u0) * b);
    }
    assert(t0 + (t1 - t0) * a == u0 + (u1 - u0) * b) by (nonlinear_arith)
        requires
            t0 == a0 + (c0 - a0) * b,
            t1 == a1 + (c1 - a1) * b,
            u0 == a0 + (a1 - a0) * a,
            u1 == c0 + (c1 - c0) * a,
    ;
}

/// Folding along the lowest and the highest index bit commute.
proof fn lemma_fold_commute(s: Seq<int>, a: int, b: int)
    requires
        s.len() % 4 == 0,
    ensures
        fold_lsb(fold_msb(s, b), a) == fold_msb(fold_lsb(s, a), b),
{
    let lhs = fold_lsb(fold_msb(s, b), a);
    let rhs = fold_msb(fold_lsb(s, a), b);
    let q = s.len() as int / 4;
    let h = s.len() as int / 2;
    assert(fold_msb(s, b).len() == h);
    assert(fold_lsb(s, a).len() == h);
    assert(lhs.len() == q);
    assert(rhs.len() == q);
    assert forall|i: int| 0 <= i < q implies lhs[i] == rhs[i] by {
        let t = fold_msb(s, b);
        let u = fold_lsb(s, a);
        assert(t[2 * i] == f_add(s[2 * i], f_mul(f_sub(s[2 * i + h], s[2 * i]), b)));
        assert(t[2 * i + 1] == f_add(s[2 * i + 1], f_mul(f_sub(s[2 * i + 1 + h], s[2 * i + 1]), b)));
        assert(u[i] == f_add(s[2 * i], f_mul(f_sub(s[2 * i + 1], s[2 * i]), a)));
        assert(u[i + q] == f_add(s[2 * (i + q)], f_mul(f_sub(s[2 * (i + q) + 1], s[2 * (i + q)]), a)));
        assert(2 * (i + q) == 2 * i + h);
        assert(2 * (i + q) + 1 == 2 * i + 1 + h);
        lemma_bilinear_interp(s[2 * i], s[2 * i + 1], s[2 * i + h], s[2 * i + 1 + h], a, b);
    }
    assert(lhs =~= rhs);
}

/// Folding the highest bit at `b` first and then evaluating LSB-first is the
/// same as evaluating LSB-first with `b` appended as the last coordinate.
proof fn lemma_msb_fold_defers(s: Seq<int>, b: int, y: Seq<int>)
    requires
        s.len() == pow2(y.len() + 1),
    ensures
        fold_lsb_all(fold_msb(s, b), y) == fold_lsb_all(s, y.push(b)),
    decreases y.len(),
{
    vstd::arithmetic::power2::lemma_pow2_unfold(y.len() + 1);
    if y.len() == 0 {
        assert(pow2(0) == 1) by {
            vstd::arithmetic::power::lemma_pow0(2);
        }
        assert(s.len() == 2);
        assert(fold_msb(s, b) =~= fold_lsb(s, b));
        assert(y.push(b)[0] == b);
        assert(y.push(b).drop_first() =~= y);
        assert(fold_lsb_all(s, y.push(b)) == fold_lsb_all(fold_lsb(s, b), y));
    } else {
        let a = y[0];
        let y2 = y.drop_first();
        assert(s.len() % 4 == 0) by {
            vstd::arithmetic::power2::lemma_pow2_unfold(y.len());
        }
        lemma_fold_commute(s, a, b);
        assert(fold_lsb_all(fold_msb(s, b), y) == fold_lsb_all(fold_lsb(fold_msb(s, b), a), y2));
        assert(fold_lsb(s, a).len() == pow2(y2.len() + 1));
        lemma_msb_fold_defers(fold_lsb(s, a), b, y2);
        assert(y.push(b)[0] == a);
        assert(y.push(b).drop_first() =~= y2.push(b));
        assert(fold_lsb_all(s, y.push(b)) == fold_lsb_all(fold_lsb(s, a), y2.push(b)));
    }
}

/// Convention duality law: fixing all variables MSB-first with point `pt`
/// is the same as fixing them LSB-first with the reversed point.
pub proof fn lemma_msb_lsb_duality(s: Seq<int>, pt: Seq<int>)
    requires
        s.len() == pow2(pt.len()),
    ensures
        fold_msb_all(s, pt) == fold_lsb_all(s, pt.reverse()),
    decreases pt.len(),
{
    if pt.len() == 0 {
        assert(pt.reverse() =~= pt);
    } else {
        let b = pt[0];
        let rest = pt.drop_first();
        vstd::arithmetic::power2::lemma_pow2_unfold(pt.len());
        assert(fold_msb_all(s, pt) == fold_msb_all(fold_msb(s, b), rest));
        assert(fold_msb(s, b).len() == pow2(rest.len()));
        lemma_msb_lsb_duality(fold_msb(s, b), rest);
        assert(s.len() == pow2(rest.reverse().len() + 1));
        lemma_msb_fold_defers(s, b, rest.reverse());
        assert(pt.reverse() =~= rest.reverse().push(b));
    }
}

/// Powers of two are monotone in the exponent.
pub proof fn lemma_pow2_monotone(a: nat, b: nat)
    requires
        a <= b,
    ensures
        pow2(a) <= pow2(b),
    decreases b - a,
{
    if a < b {
        lemma_pow2_monotone(a, (b - 1) as nat);
        vstd::arithmetic::power2::lemma_pow2_unfold(b);
    }
}

/// Replaces the first `active / 2` entries of `scratch` by the LSB-first
/// fold at `r` of its first `active` entries; everything else is unchanged.
pub(crate) fn fold_lsb_in_place(scratch: &mut Vec<Fp>, active: usize, r: Fp)
    requires
        active <= old(scratch)@.len(),
        active % 2 == 0 || active <= 1,
        all_valid(old(scratch)@),
        r.valid(),
    ensures
        final(scratch)@.len() == old(scratch)@.len(),
        all_valid(final(scratch)@),
        values(final(scratch)@).subrange(0, active as int / 2) == fold_lsb(
            values(old(scratch)@).subrange(0, active as int),
            r@,
        ),
        forall|j: int|
            active as int / 2 <= j < old(scratch)@.len() ==> final(scratch)@[j] == old(
                scratch,
            )@[j],
{
    let ghost orig = scratch@;
    let ghost cur = values(scratch@).subrange(0, active as int);
    let half: usize = active / 2;
    let mut i: usize = 0;
    while i < half
        invariant
            i <= half,
            half == active / 2,
            active <= scratch@.len(),
            active % 2 == 0 || active <= 1,
            scratch@.len() == orig.len(),
            r.valid(),
            cur == values(orig).subrange(0, active as int),
            all_valid(orig),
            all_valid(scratch@),
            forall|j: int| i <= j < orig.len() ==> scratch@[j] == orig[j],
            forall|j: int| 0 <= j < i ==> values(scratch@)[j] == #[trigger] fold_lsb(cur, r@)[j],
        decreases half - i,
    {
        let e0 = scratch[2 * i];
        let e1 = scratch[2 * i + 1];
        let folded = e0.add(e1.sub(e0).mul(r));
        proof {
            assert(orig[2 * i] == scratch@[2 * i]);
            assert(orig[2 * i + 1] == scratch@[2 * i + 1]);
            assert(cur[2 * i] == values(orig)[2 * i]);
            assert(cur[2 * i + 1] == values(orig)[2 * i + 1]);
        }
        scratch.set(i, folded);
        i = i + 1;
    }
    proof {
        assert(values(scratch@).subrange(0, half as int) =~= fold_lsb(cur, r@));
    }
}

/// Replaces the first `active / 2` entries of `scratch` by the MSB-first
/// fold at `r` of its first `active` entries; everything else is unchanged.
pub(crate) fn fold_msb_in_place(scratch: &mut Vec<Fp>, active: usize, r: Fp)
    requires
        active <= old(scratch)@.len(),
        active % 2 == 0 || active <= 1,
        all_valid(old(scratch)@),
        r.valid(),
    ensures
        final(scratch)@.len() == old(scratch)@.len(),
        all_valid(final(scratch)@),
        values(final(scratch)@).subrange(0, active as int / 2) == fold_msb(
            values(old(scratch)@).subrange(0, active as int),
            r@,
        ),
        forall|j: int|
            active as int / 2 <= j < old(scratch)@.len() ==> final(scratch)@[j] == old(
                scratch,
            )@[j],
{
    let ghost orig = scratch@;
    let ghost cur = values(scratch@).subrange(0, active as int);
    let half: usize = active / 2;
    let mut i: usize = 0;
    while i < half
        invariant
            i <= half,
            half == active / 2,
            active <= scratch@.len(),
            active % 2 == 0 || active <= 1,
            scratch@.len() == orig.len(),
            r.valid(),
            cur == values(orig).subrange(0, active as int),
            all_valid(orig),
            all_valid(scratch@),
            forall|j: int| i <= j < orig.len() ==> scratch@[j] == orig[j],
            forall|j: int| 0 <= j < i ==> values(scratch@)[j] == #[trigger] fold_msb(cur, r@)[j],
        decreases half - i,
    {
        let e0 = scratch[i];
        let e1 = scratch[i + half];
        let folded = e0.add(e1.sub(e0).mul(r));
        proof {
            assert(orig[i as int] == scratch@[i as int]);
            assert(orig[i + half] == scratch@[i + half]);
            assert(cur[i as int] == values(orig)[i as int]);
            assert(cur[i + half] == values(orig)[i + half]);
            assert(cur.len() / 2 == half as int);
        }
        scratch.set(i, folded);
        i = i + 1;
    }
    proof {
        assert(values(scratch@).subrange(0, half as int) =~= fold_msb(cur, r@));
    }
}

} // verus!
