//! The GKR circuit-layer sum-check prover: the two-phase reduction of two
//! output-side claims to one input-side claim, and the single-phase
//! "square" variant for layers built from fifth-power and relay gates.
//!
//! Both provers promise: the transcript is only appended to, with the
//! exact message count; every challenge they draw is the Fiat-Shamir
//! squeeze of everything logged before it; the claims they append are the
//! true evaluations of the input layer's polynomial at the challenge
//! points they return; and the equality tables they leave in the
//! scratchpad hold the scaled equality weights of their points. Every
//! step function carries an exact value-level contract: the equality
//! tables are `eq_build` weights, the bookkeeping tables are the
//! `scatter_*` folds, the round evaluators return the mask-filtered sums
//! over the current tables, and each fold is pinned by `fold_lsb`. The provers' own contracts do not restate the
//! numeric round values in one closed formula; those are determined step
//! by step through the helpers' contracts.

use crate::circuit::{CircuitLayer, GateMul, GateUni};
use crate::field::{all_valid, f_add, f_mul, f_sub, values, Fp};
use crate::poly::{
    eval_mle, fold_lsb_all, fold_lsb_in_place, lemma_fold_eval_round_trip, lemma_fold_lsb_all_snoc,
    lemma_pow2_monotone,
};
use crate::scratchpad::{fold_mask_in_place, GkrScratchpad};
use crate::transcript::Transcript;
use vstd::arithmetic::power2::pow2;
use vstd::pervasive::VecAdditionalExecFns;
use vstd::prelude::*;

verus! {

broadcast use crate::field::lemma_values_push, crate::field::lemma_values_update;

/// Copies the first `n` entries of `src` over the head of `dst`.
fn copy_prefix(dst: &mut Vec<Fp>, src: &Vec<Fp>, n: usize)
    requires
        n <= old(dst)@.len(),
        n <= src@.len(),
        all_valid(old(dst)@),
        all_valid(src@),
    ensures
        final(dst)@.len() == old(dst)@.len(),
        all_valid(final(dst)@),
        values(final(dst)@).subrange(0, n as int) == values(src@).subrange(0, n as int),
        forall|j: int| n <= j < old(dst)@.len() ==> final(dst)@[j] == old(dst)@[j],
{
    let mut i: usize = 0;
    while i < n
        invariant
            i <= n,
            n <= dst@.len(),
            n <= src@.len(),
            dst@.len() == old(dst)@.len(),
            all_valid(dst@),
            all_valid(src@),
            forall|j: int| 0 <= j < i ==> (#[trigger] dst@[j])@ == src@[j]@,
            forall|j: int| i <= j < old(dst)@.len() ==> dst@[j] == old(dst)@[j],
        decreases n - i,
    {
        let x = src[i];
        dst.set(i, x);
        i = i + 1;
    }
    proof {
        assert(values(dst@).subrange(0, n as int) =~= values(src@).subrange(0, n as int));
    }
}

/// Zeroes the first `n` entries of `dst`.
fn zero_prefix(dst: &mut Vec<Fp>, n: usize)
    requires
        n <= old(dst)@.len(),
        all_valid(old(dst)@),
    ensures
        final(dst)@.len() == old(dst)@.len(),
        all_valid(final(dst)@),
        forall|j: int| 0 <= j < n ==> values(final(dst)@)[j] == 0,
        forall|j: int| n <= j < old(dst)@.len() ==> final(dst)@[j] == old(dst)@[j],
{
    let mut i: usize = 0;
    while i < n
        invariant
            i <= n,
            n <= dst@.len(),
            dst@.len() == old(dst)@.len(),
            all_valid(dst@),
            forall|j: int| 0 <= j < i ==> (#[trigger] dst@[j])@ == 0,
            forall|j: int| i <= j < old(dst)@.len() ==> dst@[j] == old(dst)@[j],
        decreases n - i,
    {
        dst.set(i, Fp::zero());
        i = i + 1;
    }
    proof {
        assert(forall|j: int| 0 <= j < n ==> values(dst@)[j] == (#[trigger] dst@[j])@);
    }
}

/// Sets the first `n` mask entries to `b`.
fn set_mask_prefix(dst: &mut Vec<bool>, n: usize, b: bool)
    requires
        n <= old(dst)@.len(),
    ensures
        final(dst)@.len() == old(dst)@.len(),
        forall|j: int| 0 <= j < n ==> final(dst)@[j] == b,
        forall|j: int| n <= j < old(dst)@.len() ==> final(dst)@[j] == old(dst)@[j],
{
    let mut i: usize = 0;
    while i < n
        invariant
            i <= n,
            n <= dst@.len(),
            dst@.len() == old(dst)@.len(),
            forall|j: int| 0 <= j < i ==> dst@[j] == b,
            forall|j: int| i <= j < old(dst)@.len() ==> dst@[j] == old(dst)@[j],
        decreases n - i,
    {
        dst.set(i, b);
        i = i + 1;
    }
}

/// One equality factor: `r` when the index bit is set, `1 - r` otherwise.
pub open spec fn eq_factor(r: int, b: int) -> int {
    if b == 1 {
        r
    } else {
        f_sub(1, r)
    }
}

/// The scaled equality weight of index `j` against `point`, accumulated
/// low bit first onto `base`: `base * eq(point, j)` with `point[0]` paired
/// to `j`'s lowest bit.
pub open spec fn eq_build(s: Seq<int>, j: int, base: int) -> int
    decreases s.len(),
{
    if s.len() == 0 {
        base
    } else {
        eq_build(s.drop_first(), j / 2, f_mul(base, eq_factor(s[0], j % 2)))
    }
}

/// An equality weight over a reduced base stays reduced.
proof fn lemma_eq_build_range(s: Seq<int>, j: int, base: int)
    requires
        0 <= base < crate::field::MODULUS as int,
    ensures
        0 <= eq_build(s, j, base) < crate::field::MODULUS as int,
    decreases s.len(),
{
    if s.len() == 0 {
    } else {
        crate::field::lemma_f_mod_range(base * eq_factor(s[0], j % 2));
        lemma_eq_build_range(s.drop_first(), j / 2, f_mul(base, eq_factor(s[0], j % 2)));
    }
}

/// Appending a coordinate multiplies the weight by that coordinate's
/// factor for the index's new top bit.
proof fn lemma_eq_build_snoc(s: Seq<int>, r: int, j: int, b: int, base: int)
    requires
        0 <= j < pow2(s.len()),
        b == 0 || b == 1,
    ensures
        eq_build(s.push(r), j + pow2(s.len()) * b, base) == f_mul(
            eq_build(s, j, base),
            eq_factor(r, b),
        ),
    decreases s.len(),
{
    vstd::arithmetic::power::lemma_pow0(2);
    if s.len() == 0 {
        assert(j == 0);
        let p1 = s.push(r);
        assert(p1[0] == r);
        assert(p1.drop_first() =~= s);
        assert(eq_build(p1, b, base) == eq_build(s, b / 2, f_mul(base, eq_factor(r, b % 2))));
        assert(b % 2 == b && b / 2 == 0);
    } else {
        let l = s.len();
        vstd::arithmetic::power2::lemma_pow2_unfold(l);
        let p1 = s.push(r);
        assert(p1[0] == s[0]);
        assert(p1.drop_first() =~= s.drop_first().push(r));
        let idx = j + pow2(l) * b;
        assert(pow2(l) * b == 2 * (pow2((l - 1) as nat) * b)) by (nonlinear_arith)
            requires
                pow2(l) == 2 * pow2((l - 1) as nat),
        ;
        assert(idx % 2 == j % 2 && idx / 2 == j / 2 + pow2((l - 1) as nat) * b) by {
            let y = pow2((l - 1) as nat) * b;
            assert(j == 2 * (j / 2) + j % 2);
            assert(idx == 2 * (j / 2 + y) + j % 2);
            vstd::arithmetic::div_mod::lemma_fundamental_div_mod_converse(
                idx,
                2,
                j / 2 + y,
                j % 2,
            );
        }
        assert(j / 2 < pow2((l - 1) as nat)) by {
            assert(j < 2 * pow2((l - 1) as nat));
        }
        lemma_eq_build_snoc(
            s.drop_first(),
            r,
            j / 2,
            b,
            f_mul(base, eq_factor(s[0], j % 2)),
        );
    }
}

/// Weights against a concatenated point factor through the two halves:
/// the low bits meet the first half, the high bits the second.
proof fn lemma_eq_build_concat(s1: Seq<int>, s2: Seq<int>, i: int, j: int, base: int)
    requires
        0 <= i < pow2(s1.len()),
    ensures
        eq_build(s1 + s2, i + pow2(s1.len()) * j, base) == eq_build(s2, j, eq_build(s1, i, base)),
    decreases s1.len(),
{
    vstd::arithmetic::power::lemma_pow0(2);
    if s1.len() == 0 {
        assert(i == 0);
        assert(s1 + s2 =~= s2);
    } else {
        let l = s1.len();
        vstd::arithmetic::power2::lemma_pow2_unfold(l);
        let cat = s1 + s2;
        assert(cat[0] == s1[0]);
        assert(cat.drop_first() =~= s1.drop_first() + s2);
        let idx = i + pow2(l) * j;
        assert(pow2(l) * j == 2 * (pow2((l - 1) as nat) * j)) by (nonlinear_arith)
            requires
                pow2(l) == 2 * pow2((l - 1) as nat),
        ;
        assert(idx % 2 == i % 2 && idx / 2 == i / 2 + pow2((l - 1) as nat) * j) by {
            let y = pow2((l - 1) as nat) * j;
            assert(i == 2 * (i / 2) + i % 2);
            assert(idx == 2 * (i / 2 + y) + i % 2);
            vstd::arithmetic::div_mod::lemma_fundamental_div_mod_converse(
                idx,
                2,
                i / 2 + y,
                i % 2,
            );
        }
        assert(i / 2 < pow2((l - 1) as nat)) by {
            assert(i < 2 * pow2((l - 1) as nat));
        }
        lemma_eq_build_concat(
            s1.drop_first(),
            s2,
            i / 2,
            j,
            f_mul(base, eq_factor(s1[0], i % 2)),
        );
    }
}

/// The accumulated base factors out of a weight.
proof fn lemma_eq_build_base(s: Seq<int>, j: int, a: int, b: int)
    ensures
        eq_build(s, j, f_mul(a, b)) == f_mul(a, eq_build(s, j, b)),
    decreases s.len(),
{
    if s.len() == 0 {
    } else {
        let ef = eq_factor(s[0], j % 2);
        assert(f_mul(f_mul(a, b), ef) == f_mul(a, f_mul(b, ef))) by {
            crate::field::lemma_mul_mod_left(a * b, ef);
            crate::field::lemma_mul_mod_right(a, b * ef);
            vstd::arithmetic::mul::lemma_mul_is_associative(a, b, ef);
        }
        lemma_eq_build_base(s.drop_first(), j / 2, a, f_mul(b, ef));
    }
}

/// Builds the scaled equality table of `point` into the head of `out`:
/// entry `z` (bits LSB-first, `point[0]` first) becomes
/// `coeff * eq(point, z)`. The low- and high-half factor tables are built
/// by bit doubling into the two scratch halves and combined by an outer
/// product.
fn build_eq_table(point: &Vec<Fp>, coeff: Fp, out: &mut Vec<Fp>, fh: &mut Vec<Fp>, sh: &mut Vec<
    Fp,
>)
    requires
        pow2(point@.len() as nat) <= old(out)@.len(),
        pow2(point@.len() as nat) <= old(fh)@.len(),
        pow2(point@.len() as nat) <= old(sh)@.len(),
        all_valid(point@),
        all_valid(old(out)@),
        all_valid(old(fh)@),
        all_valid(old(sh)@),
        coeff.valid(),
    ensures
        final(out)@.len() == old(out)@.len(),
        final(fh)@.len() == old(fh)@.len(),
        final(sh)@.len() == old(sh)@.len(),
        all_valid(final(out)@),
        all_valid(final(fh)@),
        all_valid(final(sh)@),
        forall|z: int|
            0 <= z < pow2(point@.len() as nat) ==> values(final(out)@)[z] == eq_build(
                values(point@),
                z,
                coeff@,
            ),
{
    let k = point.len();
    let k1 = k / 2;
    let k2 = k - k1;
    proof {
        lemma_pow2_monotone(k1 as nat, k as nat);
        lemma_pow2_monotone(k2 as nat, k as nat);
    }
    let olen = out.len();
    let s1 = build_eq_half(point, 0, k1, coeff, fh);
    let one = Fp::one();
    let s2 = build_eq_half(point, k1, k2, one, sh);
    let ghost p1 = values(point@).subrange(0, k1 as int);
    let ghost p2 = values(point@).subrange(k1 as int, k as int);
    proof {
        vstd::arithmetic::power2::lemma_pow2_adds(k1 as nat, k2 as nat);
        assert(s1 * s2 == pow2(k as nat));
        assert(values(point@) =~= p1 + p2);
    }
    let mut j: usize = 0;
    while j < s2
        invariant
            j <= s2,
            s1 == pow2(k1 as nat),
            s2 == pow2(k2 as nat),
            s1 * s2 == pow2(k as nat),
            pow2(k as nat) <= olen,
            olen == out@.len(),
            s1 <= fh@.len(),
            s2 <= sh@.len(),
            out@.len() == old(out)@.len(),
            all_valid(out@),
            all_valid(fh@),
            all_valid(sh@),
            coeff.valid(),
            p1 == values(point@).subrange(0, k1 as int),
            p2 == values(point@).subrange(k1 as int, k as int),
            p1.len() == k1 as nat,
            p2.len() == (k - k1) as nat,
            values(point@) == p1 + p2,
            forall|y: int| 0 <= y < s1 ==> values(fh@)[y] == eq_build(p1, y, coeff@),
            forall|y: int| 0 <= y < s2 ==> values(sh@)[y] == eq_build(p2, y, 1),
            forall|z: int|
                0 <= z < j * s1 ==> values(out@)[z] == eq_build(values(point@), z, coeff@),
        decreases s2 - j,
    {
        let hi = sh[j];
        let mut i: usize = 0;
        proof {
            assert((j + 1) * s1 <= s2 * s1) by (nonlinear_arith)
                requires
                    j < s2,
                    s1 >= 0,
            ;
        }
        while i < s1
            invariant
                i <= s1,
                j < s2,
                s1 == pow2(k1 as nat),
                s2 == pow2(k2 as nat),
                (j + 1) * s1 <= s2 * s1,
                s1 * s2 == pow2(k as nat),
                pow2(k as nat) <= olen,
                olen == out@.len(),
                s1 <= fh@.len(),
                s2 <= sh@.len(),
                hi.valid(),
                hi == sh@[j as int],
                out@.len() == old(out)@.len(),
                all_valid(out@),
                all_valid(fh@),
                all_valid(sh@),
                coeff.valid(),
                p1 == values(point@).subrange(0, k1 as int),
                p2 == values(point@).subrange(k1 as int, k as int),
                p1.len() == k1 as nat,
                p2.len() == (k - k1) as nat,
                values(point@) == p1 + p2,
                forall|y: int| 0 <= y < s1 ==> values(fh@)[y] == eq_build(p1, y, coeff@),
                forall|y: int| 0 <= y < s2 ==> values(sh@)[y] == eq_build(p2, y, 1),
                forall|z: int|
                    0 <= z < j * s1 + i ==> values(out@)[z] == eq_build(values(point@), z, coeff@),
            decreases s1 - i,
        {
            proof {
                assert(j * s1 + i < (j + 1) * s1) by (nonlinear_arith)
                    requires
                        i < s1,
                ;
                assert(s2 * s1 == s1 * s2) by (nonlinear_arith);
            }
            let w = fh[i].mul(hi);
            out.set(j * s1 + i, w);
            proof {
                let z = j * s1 + i;
                let a = eq_build(p1, i as int, coeff@);
                assert(z == i + pow2(k1 as nat) * (j as int)) by (nonlinear_arith)
                    requires
                        s1 == pow2(k1 as nat),
                        z == (j as int) * (s1 as int) + i,
                ;
                lemma_eq_build_concat(p1, p2, i as int, j as int, coeff@);
                lemma_eq_build_base(p2, j as int, a, 1);
                lemma_eq_build_range(p1, i as int, coeff@);
                assert(a * 1 == a) by (nonlinear_arith);
                crate::field::lemma_f_mod_small(a);
                assert(f_mul(a, 1) == a);
                assert(values(out@)[z as int] == eq_build(values(point@), z as int, coeff@));
            }
            i = i + 1;
        }
        proof {
            assert((j + 1) * s1 == j * s1 + s1) by (nonlinear_arith);
        }
        j = j + 1;
    }
    proof {
        assert(s2 * s1 == s1 * s2) by (nonlinear_arith);
    }
}

/// Builds the equality factor table of `point[from .. from + len]` into the
/// head of `buf` by doubling, scaled by `coeff`; returns the table size.
/// Entry `j` is exactly the accumulated weight `eq_build` of `j` against
/// that slice of the point.
fn build_eq_half(point: &Vec<Fp>, from: usize, len: usize, coeff: Fp, buf: &mut Vec<Fp>) -> (size:
    usize)
    requires
        from + len <= point@.len(),
        pow2(len as nat) <= old(buf)@.len(),
        all_valid(point@),
        all_valid(old(buf)@),
        coeff.valid(),
    ensures
        size == pow2(len as nat),
        final(buf)@.len() == old(buf)@.len(),
        all_valid(final(buf)@),
        forall|j: int|
            0 <= j < pow2(len as nat) ==> values(final(buf)@)[j] == eq_build(
                values(point@).subrange(from as int, from + len),
                j,
                coeff@,
            ),
{
    let plen = point.len();
    let blen = buf.len();
    proof {
        vstd::arithmetic::power::lemma_pow0(2);
        vstd::arithmetic::power2::lemma_pow2_pos(len as nat);
    }
    buf.set(0, coeff);
    let mut size: usize = 1;
    let mut l: usize = 0;
    let one = Fp::one();
    proof {
        assert(values(point@).subrange(from as int, from as int) =~= Seq::<int>::empty());
        assert(values(buf@)[0] == coeff@);
    }
    while l < len
        invariant
            l <= len,
            from + len <= plen,
            plen == point@.len(),
            size == pow2(l as nat),
            pow2(len as nat) <= blen,
            blen == buf@.len(),
            buf@.len() == old(buf)@.len(),
            all_valid(buf@),
            all_valid(point@),
            one.v == 1,
            coeff.valid(),
            forall|j: int|
                0 <= j < size ==> values(buf@)[j] == eq_build(
                    values(point@).subrange(from as int, from + l),
                    j,
                    coeff@,
                ),
        decreases len - l,
    {
        proof {
            lemma_pow2_monotone((l + 1) as nat, len as nat);
            vstd::arithmetic::power2::lemma_pow2_unfold((l + 1) as nat);
        }
        let r = point[from + l];
        let ghost prev = values(buf@);
        let ghost slice = values(point@).subrange(from as int, from + l);
        let mut idx: usize = 0;
        while idx < size
            invariant
                idx <= size,
                size == pow2(l as nat),
                2 * size <= blen,
                blen == buf@.len(),
                buf@.len() == old(buf)@.len(),
                all_valid(buf@),
                r.valid(),
                one.v == 1,
                r == point@[from + l],
                slice == values(point@).subrange(from as int, from + l),
                forall|j: int| 0 <= j < size ==> prev[j] == eq_build(slice, j, coeff@),
                forall|j: int| idx <= j < size ==> values(buf@)[j] == prev[j],
                forall|j: int|
                    0 <= j < idx ==> values(buf@)[j] == f_mul(prev[j], f_sub(1, r@)),
                forall|j: int| 0 <= j < idx ==> values(buf@)[j + size] == f_mul(prev[j], r@),
            decreases size - idx,
        {
            let base = buf[idx];
            buf.set(idx + size, base.mul(r));
            let keep = base.mul(one.sub(r));
            buf.set(idx, keep);
            idx = idx + 1;
        }
        proof {
            vstd::arithmetic::power2::lemma_pow2_pos(l as nat);
            let slice1 = values(point@).subrange(from as int, from + l + 1);
            assert(slice1 =~= slice.push(r@));
            assert forall|j: int| 0 <= j < 2 * size implies values(buf@)[j] == eq_build(
                slice1,
                j,
                coeff@,
            ) by {
                let b = j / (size as int);
                let jl = j % (size as int);
                vstd::arithmetic::div_mod::lemma_fundamental_div_mod(j, size as int);
                assert(j == (size as int) * b + jl);
                assert(b == 0 || b == 1) by {
                    if b >= 2 {
                        assert((size as int) * b >= (size as int) * 2) by (nonlinear_arith)
                            requires
                                b >= 2,
                                size >= 1,
                        ;
                        assert(false);
                    }
                    if b < 0 {
                        assert((size as int) * b <= (size as int) * -1) by (nonlinear_arith)
                            requires
                                b <= -1,
                                size >= 1,
                        ;
                        assert(false);
                    }
                }
                lemma_eq_build_snoc(slice, r@, jl, b, coeff@);
                assert(jl + pow2(l as nat) * b == j);
                if b == 0 {
                    assert((size as int) * b == 0) by (nonlinear_arith)
                        requires
                            b == 0,
                    ;
                    assert(j == jl);
                    assert(values(buf@)[j] == f_mul(prev[jl], f_sub(1, r@)));
                    assert(eq_factor(r@, 0) == f_sub(1, r@));
                } else {
                    assert((size as int) * b == size as int) by (nonlinear_arith)
                        requires
                            b == 1,
                    ;
                    assert(j == jl + size);
                    assert(values(buf@)[j] == f_mul(prev[jl], r@));
                    assert(eq_factor(r@, 1) == r@);
                }
            }
        }
        size = size * 2;
        l = l + 1;
    }
    size
}

/// Adds the first `n` entries of `src` into the head of `dst`, pointwise.
fn add_into_prefix(dst: &mut Vec<Fp>, src: &Vec<Fp>, n: usize)
    requires
        n <= old(dst)@.len(),
        n <= src@.len(),
        all_valid(old(dst)@),
        all_valid(src@),
    ensures
        final(dst)@.len() == old(dst)@.len(),
        all_valid(final(dst)@),
        forall|j: int|
            0 <= j < n ==> values(final(dst)@)[j] == f_add(
                values(old(dst)@)[j],
                values(src@)[j],
            ),
        forall|j: int| n <= j < old(dst)@.len() ==> final(dst)@[j] == old(dst)@[j],
{
    let mut i: usize = 0;
    while i < n
        invariant
            i <= n,
            n <= dst@.len(),
            n <= src@.len(),
            dst@.len() == old(dst)@.len(),
            all_valid(dst@),
            all_valid(src@),
            forall|j: int|
                0 <= j < i ==> values(dst@)[j] == f_add(values(old(dst)@)[j], values(src@)[j]),
            forall|j: int| i <= j < old(dst)@.len() ==> dst@[j] == old(dst)@[j],
        decreases n - i,
    {
        let s = dst[i].add(src[i]);
        dst.set(i, s);
        i = i + 1;
    }
}

/// The bookkeeping table after the first `k` multiplication gates'
/// first-phase contributions `hg[x] += eqc[o] * vsrc[y]` are added in.
pub open spec fn scatter_mul1(
    gates: Seq<GateMul>,
    eqc: Seq<int>,
    vsrc: Seq<int>,
    hg: Seq<int>,
    k: int,
) -> Seq<int>
    decreases k,
{
    if k <= 0 {
        hg
    } else {
        let prev = scatter_mul1(gates, eqc, vsrc, hg, k - 1);
        let g = gates[k - 1];
        prev.update(g.i0 as int, f_add(prev[g.i0 as int], f_mul(eqc[g.o as int], vsrc[g.i1 as int])))
    }
}

/// The liveness table after the first `k` multiplication gates mark their
/// first operand's wire.
pub open spec fn scatter_mul1_mask(gates: Seq<GateMul>, m: Seq<bool>, k: int) -> Seq<bool>
    decreases k,
{
    if k <= 0 {
        m
    } else {
        scatter_mul1_mask(gates, m, k - 1).update(gates[k - 1].i0 as int, true)
    }
}

/// Scatters the multiplication gates' first-phase contributions:
/// `hg[x] += eqc[o] * vsrc[y]` for every gate `(x, y, o)`, marking `x` live.
/// The resulting table and liveness entries are exactly `scatter_mul1` and
/// `scatter_mul1_mask` over the whole gate sequence.
fn accumulate_mul_phase1(
    hg: &mut Vec<Fp>,
    mask: &mut Vec<bool>,
    gates: &Vec<GateMul>,
    eqc: &Vec<Fp>,
    vsrc: &Vec<Fp>,
    in_size: usize,
    out_size: usize,
)
    requires
        in_size <= old(hg)@.len(),
        in_size <= old(mask)@.len(),
        out_size <= eqc@.len(),
        in_size <= vsrc@.len(),
        all_valid(old(hg)@),
        all_valid(eqc@),
        all_valid(vsrc@),
        forall|k: int|
            0 <= k < gates@.len() ==> (#[trigger] gates@[k]).i0 < in_size && gates@[k].i1 < in_size
                && gates@[k].o < out_size,
    ensures
        final(hg)@.len() == old(hg)@.len(),
        final(mask)@.len() == old(mask)@.len(),
        all_valid(final(hg)@),
        values(final(hg)@) == scatter_mul1(
            gates@,
            values(eqc@),
            values(vsrc@),
            values(old(hg)@),
            gates@.len() as int,
        ),
        final(mask)@ == scatter_mul1_mask(gates@, old(mask)@, gates@.len() as int),
{
    let mut k: usize = 0;
    while k < gates.len()
        invariant
            k <= gates@.len(),
            in_size <= hg@.len(),
            in_size <= mask@.len(),
            out_size <= eqc@.len(),
            in_size <= vsrc@.len(),
            hg@.len() == old(hg)@.len(),
            mask@.len() == old(mask)@.len(),
            all_valid(hg@),
            all_valid(eqc@),
            all_valid(vsrc@),
            values(hg@) == scatter_mul1(
                gates@,
                values(eqc@),
                values(vsrc@),
                values(old(hg)@),
                k as int,
            ),
            mask@ == scatter_mul1_mask(gates@, old(mask)@, k as int),
            forall|t: int|
                0 <= t < gates@.len() ==> (#[trigger] gates@[t]).i0 < in_size && gates@[t].i1
                    < in_size && gates@[t].o < out_size,
        decreases gates@.len() - k,
    {
        let g = gates[k];
        let add_term = eqc[g.o].mul(vsrc[g.i1]);
        let s = hg[g.i0].add(add_term);
        hg.set(g.i0, s);
        mask.set(g.i0, true);
        k = k + 1;
    }
}

/// The bookkeeping table after the first `k` one-input gates' contributions
/// `hg[x] += eqc[o]` are added in.
pub open spec fn scatter_uni(gates: Seq<GateUni>, eqc: Seq<int>, hg: Seq<int>, k: int) -> Seq<int>
    decreases k,
{
    if k <= 0 {
        hg
    } else {
        let prev = scatter_uni(gates, eqc, hg, k - 1);
        let g = gates[k - 1];
        prev.update(g.i0 as int, f_add(prev[g.i0 as int], eqc[g.o as int]))
    }
}

/// The liveness table after the first `k` one-input gates mark their input
/// wire.
pub open spec fn scatter_uni_mask(gates: Seq<GateUni>, m: Seq<bool>, k: int) -> Seq<bool>
    decreases k,
{
    if k <= 0 {
        m
    } else {
        scatter_uni_mask(gates, m, k - 1).update(gates[k - 1].i0 as int, true)
    }
}

/// Scatters one-input gates' contributions: `hg[x] += eqc[o]` for every
/// gate `(x, o)`, marking `x` live. The resulting table and liveness
/// entries are exactly `scatter_uni` and `scatter_uni_mask` over the whole
/// gate sequence.
fn accumulate_uni(
    hg: &mut Vec<Fp>,
    mask: &mut Vec<bool>,
    gates: &Vec<GateUni>,
    eqc: &Vec<Fp>,
    in_size: usize,
    out_size: usize,
)
    requires
        in_size <= old(hg)@.len(),
        in_size <= old(mask)@.len(),
        out_size <= eqc@.len(),
        all_valid(old(hg)@),
        all_valid(eqc@),
        forall|k: int|
            0 <= k < gates@.len() ==> (#[trigger] gates@[k]).i0 < in_size && gates@[k].o < out_size,
    ensures
        final(hg)@.len() == old(hg)@.len(),
        final(mask)@.len() == old(mask)@.len(),
        all_valid(final(hg)@),
        values(final(hg)@) == scatter_uni(
            gates@,
            values(eqc@),
            values(old(hg)@),
            gates@.len() as int,
        ),
        final(mask)@ == scatter_uni_mask(gates@, old(mask)@, gates@.len() as int),
{
    let mut k: usize = 0;
    while k < gates.len()
        invariant
            k <= gates@.len(),
            in_size <= hg@.len(),
            in_size <= mask@.len(),
            out_size <= eqc@.len(),
            hg@.len() == old(hg)@.len(),
            mask@.len() == old(mask)@.len(),
            all_valid(hg@),
            all_valid(eqc@),
            values(hg@) == scatter_uni(gates@, values(eqc@), values(old(hg)@), k as int),
            mask@ == scatter_uni_mask(gates@, old(mask)@, k as int),
            forall|t: int|
                0 <= t < gates@.len() ==> (#[trigger] gates@[t]).i0 < in_size && gates@[t].o
                    < out_size,
        decreases gates@.len() - k,
    {
        let g = gates[k];
        let s = hg[g.i0].add(eqc[g.o]);
        hg.set(g.i0, s);
        mask.set(g.i0, true);
        k = k + 1;
    }
}

/// The bookkeeping table after the first `k` multiplication gates'
/// second-phase contributions `hg[y] += eqc[o] * eq_rx[x] * vx` are added
/// in.
pub open spec fn scatter_mul2(
    gates: Seq<GateMul>,
    eqc: Seq<int>,
    eq_rx: Seq<int>,
    vx: int,
    hg: Seq<int>,
    k: int,
) -> Seq<int>
    decreases k,
{
    if k <= 0 {
        hg
    } else {
        let prev = scatter_mul2(gates, eqc, eq_rx, vx, hg, k - 1);
        let g = gates[k - 1];
        prev.update(
            g.i1 as int,
            f_add(prev[g.i1 as int], f_mul(f_mul(eqc[g.o as int], eq_rx[g.i0 as int]), vx)),
        )
    }
}

/// The liveness table after the first `k` multiplication gates mark their
/// second operand's wire.
pub open spec fn scatter_mul2_mask(gates: Seq<GateMul>, m: Seq<bool>, k: int) -> Seq<bool>
    decreases k,
{
    if k <= 0 {
        m
    } else {
        scatter_mul2_mask(gates, m, k - 1).update(gates[k - 1].i1 as int, true)
    }
}

/// Scatters the multiplication gates' second-phase contributions:
/// `hg[y] += eqc[o] * eq_rx[x] * vx` for every gate `(x, y, o)`. The
/// resulting table and liveness entries are exactly `scatter_mul2` and
/// `scatter_mul2_mask` over the whole gate sequence.
fn accumulate_mul_phase2(
    hg: &mut Vec<Fp>,
    mask: &mut Vec<bool>,
    gates: &Vec<GateMul>,
    eqc: &Vec<Fp>,
    eq_rx: &Vec<Fp>,
    vx: Fp,
    in_size: usize,
    out_size: usize,
)
    requires
        in_size <= old(hg)@.len(),
        in_size <= old(mask)@.len(),
        out_size <= eqc@.len(),
        in_size <= eq_rx@.len(),
        all_valid(old(hg)@),
        all_valid(eqc@),
        all_valid(eq_rx@),
        vx.valid(),
        forall|k: int|
            0 <= k < gates@.len() ==> (#[trigger] gates@[k]).i0 < in_size && gates@[k].i1 < in_size
                && gates@[k].o < out_size,
    ensures
        final(hg)@.len() == old(hg)@.len(),
        final(mask)@.len() == old(mask)@.len(),
        all_valid(final(hg)@),
        values(final(hg)@) == scatter_mul2(
            gates@,
            values(eqc@),
            values(eq_rx@),
            vx@,
            values(old(hg)@),
            gates@.len() as int,
        ),
        final(mask)@ == scatter_mul2_mask(gates@, old(mask)@, gates@.len() as int),
{
    let mut k: usize = 0;
    while k < gates.len()
        invariant
            k <= gates@.len(),
            in_size <= hg@.len(),
            in_size <= mask@.len(),
            out_size <= eqc@.len(),
            in_size <= eq_rx@.len(),
            hg@.len() == old(hg)@.len(),
            mask@.len() == old(mask)@.len(),
            all_valid(hg@),
            all_valid(eqc@),
            all_valid(eq_rx@),
            vx.valid(),
            values(hg@) == scatter_mul2(
                gates@,
                values(eqc@),
                values(eq_rx@),
                vx@,
                values(old(hg)@),
                k as int,
            ),
            mask@ == scatter_mul2_mask(gates@, old(mask)@, k as int),
            forall|t: int|
                0 <= t < gates@.len() ==> (#[trigger] gates@[t]).i0 < in_size && gates@[t].i1
                    < in_size && gates@[t].o < out_size,
        decreases gates@.len() - k,
    {
        let g = gates[k];
        let add_term = eqc[g.o].mul(eq_rx[g.i0]).mul(vx);
        let s = hg[g.i1].add(add_term);
        hg.set(g.i1, s);
        mask.set(g.i1, true);
        k = k + 1;
    }
}

/// The one-input gates' second-phase constant after the first `k` gates:
/// the running sum of `eqc[o] * eq_rx[x]`.
pub open spec fn uni_phase2_sum(gates: Seq<GateUni>, eqc: Seq<int>, eq_rx: Seq<int>, k: int) -> int
    decreases k,
{
    if k <= 0 {
        0
    } else {
        let g = gates[k - 1];
        f_add(
            uni_phase2_sum(gates, eqc, eq_rx, k - 1),
            f_mul(eqc[g.o as int], eq_rx[g.i0 as int]),
        )
    }
}

/// Sums the one-input gates' second-phase constant `eqc[o] * eq_rx[x]`,
/// returning exactly `uni_phase2_sum` over the whole gate sequence.
fn sum_uni_phase2(gates: &Vec<GateUni>, eqc: &Vec<Fp>, eq_rx: &Vec<Fp>, in_size: usize, out_size: usize) -> (r: Fp)
    requires
        out_size <= eqc@.len(),
        in_size <= eq_rx@.len(),
        all_valid(eqc@),
        all_valid(eq_rx@),
        forall|k: int|
            0 <= k < gates@.len() ==> (#[trigger] gates@[k]).i0 < in_size && gates@[k].o < out_size,
    ensures
        r.valid(),
        r@ == uni_phase2_sum(gates@, values(eqc@), values(eq_rx@), gates@.len() as int),
{
    let mut acc = Fp::zero();
    let mut k: usize = 0;
    while k < gates.len()
        invariant
            k <= gates@.len(),
            out_size <= eqc@.len(),
            in_size <= eq_rx@.len(),
            all_valid(eqc@),
            all_valid(eq_rx@),
            acc.valid(),
            acc@ == uni_phase2_sum(gates@, values(eqc@), values(eq_rx@), k as int),
            forall|t: int|
                0 <= t < gates@.len() ==> (#[trigger] gates@[t]).i0 < in_size && gates@[t].o
                    < out_size,
        decreases gates@.len() - k,
    {
        let g = gates[k];
        acc = acc.add(eqc[g.o].mul(eq_rx[g.i0]));
        k = k + 1;
    }
    acc
}

/// Mask-filtered sum of the even-indexed products over the first `n` index
/// pairs: the masked round polynomial at 0.
pub open spec fn msum_e0(v: Seq<int>, hg: Seq<int>, g: Seq<bool>, n: int) -> int
    decreases n,
{
    if n <= 0 {
        0
    } else {
        let prev = msum_e0(v, hg, g, n - 1);
        if g[2 * (n - 1)] || g[2 * (n - 1) + 1] {
            f_add(prev, f_mul(v[2 * (n - 1)], hg[2 * (n - 1)]))
        } else {
            prev
        }
    }
}

/// Mask-filtered sum of the odd-indexed products: the masked round
/// polynomial at 1.
pub open spec fn msum_e1(v: Seq<int>, hg: Seq<int>, g: Seq<bool>, n: int) -> int
    decreases n,
{
    if n <= 0 {
        0
    } else {
        let prev = msum_e1(v, hg, g, n - 1);
        if g[2 * (n - 1)] || g[2 * (n - 1) + 1] {
            f_add(prev, f_mul(v[2 * (n - 1) + 1], hg[2 * (n - 1) + 1]))
        } else {
            prev
        }
    }
}

/// Mask-filtered sum of each pair's line extended to 2: the masked round
/// polynomial at 2.
pub open spec fn msum_e2(v: Seq<int>, hg: Seq<int>, g: Seq<bool>, n: int) -> int
    decreases n,
{
    if n <= 0 {
        0
    } else {
        let prev = msum_e2(v, hg, g, n - 1);
        if g[2 * (n - 1)] || g[2 * (n - 1) + 1] {
            f_add(
                prev,
                f_mul(
                    crate::scratchpad::ext2(v[2 * (n - 1)], v[2 * (n - 1) + 1]),
                    crate::scratchpad::ext2(hg[2 * (n - 1)], hg[2 * (n - 1) + 1]),
                ),
            )
        } else {
            prev
        }
    }
}

/// Positions at or beyond every gate's target are untouched by the fold.
proof fn lemma_scatter_mul1_tail(
    gates: Seq<GateMul>,
    eqc: Seq<int>,
    vsrc: Seq<int>,
    hg: Seq<int>,
    k: int,
    bound: int,
)
    requires
        forall|t: int| 0 <= t < gates.len() ==> (#[trigger] gates[t]).i0 < bound,
        k <= gates.len(),
        bound <= hg.len(),
    ensures
        scatter_mul1(gates, eqc, vsrc, hg, k).len() == hg.len(),
        forall|j: int|
            bound <= j < hg.len() ==> #[trigger] scatter_mul1(gates, eqc, vsrc, hg, k)[j]
                == hg[j],
    decreases k,
{
    if k > 0 {
        lemma_scatter_mul1_tail(gates, eqc, vsrc, hg, k - 1, bound);
    }
}

/// Positions at or beyond every gate's target are untouched by the fold.
proof fn lemma_scatter_mul1_mask_tail(gates: Seq<GateMul>, m: Seq<bool>, k: int, bound: int)
    requires
        forall|t: int| 0 <= t < gates.len() ==> (#[trigger] gates[t]).i0 < bound,
        k <= gates.len(),
        bound <= m.len(),
    ensures
        scatter_mul1_mask(gates, m, k).len() == m.len(),
        forall|j: int| bound <= j < m.len() ==> #[trigger] scatter_mul1_mask(gates, m, k)[j] == m[j],
    decreases k,
{
    if k > 0 {
        lemma_scatter_mul1_mask_tail(gates, m, k - 1, bound);
    }
}

/// Positions at or beyond every gate's target are untouched by the fold.
proof fn lemma_scatter_uni_tail(gates: Seq<GateUni>, eqc: Seq<int>, hg: Seq<int>, k: int, bound: int)
    requires
        forall|t: int| 0 <= t < gates.len() ==> (#[trigger] gates[t]).i0 < bound,
        k <= gates.len(),
        bound <= hg.len(),
    ensures
        scatter_uni(gates, eqc, hg, k).len() == hg.len(),
        forall|j: int| bound <= j < hg.len() ==> #[trigger] scatter_uni(gates, eqc, hg, k)[j] == hg[j],
    decreases k,
{
    if k > 0 {
        lemma_scatter_uni_tail(gates, eqc, hg, k - 1, bound);
    }
}

/// Positions at or beyond every gate's target are untouched by the fold.
proof fn lemma_scatter_uni_mask_tail(gates: Seq<GateUni>, m: Seq<bool>, k: int, bound: int)
    requires
        forall|t: int| 0 <= t < gates.len() ==> (#[trigger] gates[t]).i0 < bound,
        k <= gates.len(),
        bound <= m.len(),
    ensures
        scatter_uni_mask(gates, m, k).len() == m.len(),
        forall|j: int| bound <= j < m.len() ==> #[trigger] scatter_uni_mask(gates, m, k)[j] == m[j],
    decreases k,
{
    if k > 0 {
        lemma_scatter_uni_mask_tail(gates, m, k - 1, bound);
    }
}

/// The masked round sums read only the first `2n` entries of each table.
proof fn lemma_msums_prefix(
    av: Seq<int>,
    ah: Seq<int>,
    ag: Seq<bool>,
    bv: Seq<int>,
    bh: Seq<int>,
    bg: Seq<bool>,
    n: int,
)
    requires
        forall|j: int| 0 <= j < 2 * n ==> av[j] == bv[j],
        forall|j: int| 0 <= j < 2 * n ==> ah[j] == bh[j],
        forall|j: int| 0 <= j < 2 * n ==> ag[j] == bg[j],
    ensures
        msum_e0(av, ah, ag, n) == msum_e0(bv, bh, bg, n),
        msum_e1(av, ah, ag, n) == msum_e1(bv, bh, bg, n),
        msum_e2(av, ah, ag, n) == msum_e2(bv, bh, bg, n),
    decreases n,
{
    if n > 0 {
        lemma_msums_prefix(av, ah, ag, bv, bh, bg, n - 1);
    }
}

/// The squared-layer round sum reads only the first `2n` entries of each
/// table.
proof fn lemma_sq_sum_prefix(
    av: Seq<int>,
    a5: Seq<int>,
    a1: Seq<int>,
    ag5: Seq<bool>,
    ag1: Seq<bool>,
    bv: Seq<int>,
    b5: Seq<int>,
    b1: Seq<int>,
    bg5: Seq<bool>,
    bg1: Seq<bool>,
    n: int,
    t: int,
)
    requires
        forall|j: int| 0 <= j < 2 * n ==> av[j] == bv[j],
        forall|j: int| 0 <= j < 2 * n ==> a5[j] == b5[j],
        forall|j: int| 0 <= j < 2 * n ==> a1[j] == b1[j],
        forall|j: int| 0 <= j < 2 * n ==> ag5[j] == bg5[j],
        forall|j: int| 0 <= j < 2 * n ==> ag1[j] == bg1[j],
    ensures
        sq_sum(av, a5, a1, ag5, ag1, n, t) == sq_sum(bv, b5, b1, bg5, bg1, n, t),
    decreases n,
{
    if n > 0 {
        lemma_sq_sum_prefix(av, a5, a1, ag5, ag1, bv, b5, b1, bg5, bg1, n - 1, t);
    }
}

/// Everything one phase of a GKR layer sum-check produces: the transcript
/// extension (three round values and the challenge per round), the
/// challenges in round order, the final mixing state, and the final
/// tables and folded constant.
pub ghost struct LayerPhase {
    /// Four residues per round: the round polynomial at 0, 1, 2 and the
    /// challenge.
    pub log: Seq<int>,
    /// The challenge of each round, in round order.
    pub challenges: Seq<int>,
    /// Transcript mixing state after the phase.
    pub state: u64,
    /// The value table after all folds.
    pub v: Seq<int>,
    /// The bookkeeping table after all folds.
    pub hg: Seq<int>,
    /// The liveness table after all folds.
    pub g: Seq<bool>,
    /// The one-input gates' folded constant after all folds.
    pub acc: int,
}

/// The honest run of one phase on tables of size `2^rounds`: each round's
/// polynomial is the masked sum `v * hg` plus the constant line
/// `acc * (1 - t)`; its values at 0, 1, 2 are logged, the challenge is the
/// squeeze of the state after absorbing them, and every table folds at the
/// challenge.
#[verifier::opaque]
pub open spec fn phase_run(
    v: Seq<int>,
    hg: Seq<int>,
    g: Seq<bool>,
    acc: int,
    st: u64,
    rounds: nat,
) -> LayerPhase
    decreases rounds,
{
    if rounds == 0 {
        LayerPhase {
            log: Seq::empty(),
            challenges: Seq::empty(),
            state: st,
            v: v,
            hg: hg,
            g: g,
            acc: acc,
        }
    } else {
        let half = v.len() as int / 2;
        let e0 = f_add(msum_e0(v, hg, g, half), acc);
        let e1 = msum_e1(v, hg, g, half);
        let e2 = f_sub(msum_e2(v, hg, g, half), acc);
        let st3 = crate::transcript::mix(
            crate::transcript::mix(crate::transcript::mix(st, e0 as u64), e1 as u64),
            e2 as u64,
        );
        let r = crate::transcript::squeeze(st3);
        let st4 = crate::transcript::mix(st3, r as u64);
        let rest = phase_run(
            crate::poly::fold_lsb(v, r),
            crate::poly::fold_lsb(hg, r),
            crate::scratchpad::fold_mask(g),
            f_mul(acc, f_sub(1, r)),
            st4,
            (rounds - 1) as nat,
        );
        LayerPhase {
            log: seq![e0, e1, e2, r] + rest.log,
            challenges: seq![r] + rest.challenges,
            state: rest.state,
            v: rest.v,
            hg: rest.hg,
            g: rest.g,
            acc: rest.acc,
        }
    }
}

/// A phase of no rounds changes nothing and logs nothing.
proof fn lemma_phase_run_zero(v: Seq<int>, hg: Seq<int>, g: Seq<bool>, acc: int, st: u64)
    ensures
        phase_run(v, hg, g, acc, st, 0).log == Seq::<int>::empty(),
        phase_run(v, hg, g, acc, st, 0).challenges == Seq::<int>::empty(),
        phase_run(v, hg, g, acc, st, 0).state == st,
        phase_run(v, hg, g, acc, st, 0).v == v,
        phase_run(v, hg, g, acc, st, 0).hg == hg,
        phase_run(v, hg, g, acc, st, 0).g == g,
        phase_run(v, hg, g, acc, st, 0).acc == acc,
{
    reveal(phase_run);
}

/// A phase of `rounds > 0` rounds is one logged round followed by the
/// phase on the folded tables.
proof fn lemma_phase_run_unfold(
    v: Seq<int>,
    hg: Seq<int>,
    g: Seq<bool>,
    acc: int,
    st: u64,
    rounds: nat,
)
    requires
        rounds > 0,
    ensures
        ({
            let half = v.len() as int / 2;
            let e0 = f_add(msum_e0(v, hg, g, half), acc);
            let e1 = msum_e1(v, hg, g, half);
            let e2 = f_sub(msum_e2(v, hg, g, half), acc);
            let st3 = crate::transcript::mix(
                crate::transcript::mix(crate::transcript::mix(st, e0 as u64), e1 as u64),
                e2 as u64,
            );
            let r = crate::transcript::squeeze(st3);
            let st4 = crate::transcript::mix(st3, r as u64);
            let rest = phase_run(
                crate::poly::fold_lsb(v, r),
                crate::poly::fold_lsb(hg, r),
                crate::scratchpad::fold_mask(g),
                f_mul(acc, f_sub(1, r)),
                st4,
                (rounds - 1) as nat,
            );
            &&& phase_run(v, hg, g, acc, st, rounds).log == seq![e0, e1, e2, r] + rest.log
            &&& phase_run(v, hg, g, acc, st, rounds).challenges == seq![r] + rest.challenges
            &&& phase_run(v, hg, g, acc, st, rounds).state == rest.state
            &&& phase_run(v, hg, g, acc, st, rounds).v == rest.v
            &&& phase_run(v, hg, g, acc, st, rounds).hg == rest.hg
            &&& phase_run(v, hg, g, acc, st, rounds).g == rest.g
            &&& phase_run(v, hg, g, acc, st, rounds).acc == rest.acc
        }),
{
    reveal(phase_run);
}

/// A phase logs four entries per round and draws one challenge per round.
proof fn lemma_phase_run_props(
    v: Seq<int>,
    hg: Seq<int>,
    g: Seq<bool>,
    acc: int,
    st: u64,
    rounds: nat,
)
    ensures
        phase_run(v, hg, g, acc, st, rounds).log.len() == 4 * rounds,
        phase_run(v, hg, g, acc, st, rounds).challenges.len() == rounds,
    decreases rounds,
{
    if rounds == 0 {
        lemma_phase_run_zero(v, hg, g, acc, st);
    } else {
        lemma_phase_run_unfold(v, hg, g, acc, st, rounds);
        let half = v.len() as int / 2;
        let e0 = f_add(msum_e0(v, hg, g, half), acc);
        let e1 = msum_e1(v, hg, g, half);
        let e2 = f_sub(msum_e2(v, hg, g, half), acc);
        let st3 = crate::transcript::mix(
            crate::transcript::mix(crate::transcript::mix(st, e0 as u64), e1 as u64),
            e2 as u64,
        );
        let r = crate::transcript::squeeze(st3);
        lemma_phase_run_props(
            crate::poly::fold_lsb(v, r),
            crate::poly::fold_lsb(hg, r),
            crate::scratchpad::fold_mask(g),
            f_mul(acc, f_sub(1, r)),
            crate::transcript::mix(st3, r as u64),
            (rounds - 1) as nat,
        );
    }
}

/// The bookkeeping of one committed phase round: how the remaining run,
/// the emitted log prefix and the collected challenges advance when round
/// `i` of the full phase is played.
proof fn lemma_phase_step(
    full: LayerPhase,
    cv: Seq<int>,
    ch: Seq<int>,
    cg: Seq<bool>,
    cacc: int,
    st: u64,
    m: nat,
    i: int,
)
    requires
        m > 0,
        i >= 0,
        4 * i + 4 * m == full.log.len(),
        i + m == full.challenges.len(),
        phase_run(cv, ch, cg, cacc, st, m).log == full.log.skip(4 * i),
        phase_run(cv, ch, cg, cacc, st, m).challenges == full.challenges.skip(i),
        phase_run(cv, ch, cg, cacc, st, m).state == full.state,
    ensures
        ({
            let half = cv.len() as int / 2;
            let e0 = f_add(msum_e0(cv, ch, cg, half), cacc);
            let e1 = msum_e1(cv, ch, cg, half);
            let e2 = f_sub(msum_e2(cv, ch, cg, half), cacc);
            let st3 = crate::transcript::mix(
                crate::transcript::mix(crate::transcript::mix(st, e0 as u64), e1 as u64),
                e2 as u64,
            );
            let r = crate::transcript::squeeze(st3);
            let st4 = crate::transcript::mix(st3, r as u64);
            let next = phase_run(
                crate::poly::fold_lsb(cv, r),
                crate::poly::fold_lsb(ch, r),
                crate::scratchpad::fold_mask(cg),
                f_mul(cacc, f_sub(1, r)),
                st4,
                (m - 1) as nat,
            );
            &&& next.log == full.log.skip(4 * (i + 1))
            &&& next.challenges == full.challenges.skip(i + 1)
            &&& next.state == full.state
            &&& full.log.subrange(0, 4 * (i + 1)) == full.log.subrange(0, 4 * i) + seq![
                e0,
                e1,
                e2,
                r,
            ]
            &&& full.challenges.subrange(0, i + 1) == full.challenges.subrange(0, i).push(r)
        }),
{
    lemma_phase_run_unfold(cv, ch, cg, cacc, st, m);
    lemma_phase_run_props(cv, ch, cg, cacc, st, m);
    let half = cv.len() as int / 2;
    let e0 = f_add(msum_e0(cv, ch, cg, half), cacc);
    let e1 = msum_e1(cv, ch, cg, half);
    let e2 = f_sub(msum_e2(cv, ch, cg, half), cacc);
    let st3 = crate::transcript::mix(
        crate::transcript::mix(crate::transcript::mix(st, e0 as u64), e1 as u64),
        e2 as u64,
    );
    let r = crate::transcript::squeeze(st3);
    let st4 = crate::transcript::mix(st3, r as u64);
    let next = phase_run(
        crate::poly::fold_lsb(cv, r),
        crate::poly::fold_lsb(ch, r),
        crate::scratchpad::fold_mask(cg),
        f_mul(cacc, f_sub(1, r)),
        st4,
        (m - 1) as nat,
    );
    lemma_phase_run_props(
        crate::poly::fold_lsb(cv, r),
        crate::poly::fold_lsb(ch, r),
        crate::scratchpad::fold_mask(cg),
        f_mul(cacc, f_sub(1, r)),
        st4,
        (m - 1) as nat,
    );
    let rest_log = full.log.skip(4 * i);
    assert(rest_log == seq![e0, e1, e2, r] + next.log);
    assert(next.log =~= full.log.skip(4 * (i + 1))) by {
        assert(next.log.len() == full.log.len() - 4 * i - 4);
        assert(forall|j: int|
            0 <= j < next.log.len() ==> next.log[j] == (seq![e0, e1, e2, r] + next.log)[j + 4]);
    }
    assert(next.challenges =~= full.challenges.skip(i + 1)) by {
        assert(full.challenges.skip(i) == seq![r] + next.challenges);
        assert(forall|j: int|
            0 <= j < next.challenges.len() ==> next.challenges[j] == (seq![r]
                + next.challenges)[j + 1]);
    }
    assert(full.log[4 * i] == e0) by {
        assert(rest_log[0] == full.log[4 * i + 0]);
    }
    assert(full.log[4 * i + 1] == e1) by {
        assert(rest_log[1] == full.log[4 * i + 1]);
    }
    assert(full.log[4 * i + 2] == e2) by {
        assert(rest_log[2] == full.log[4 * i + 2]);
    }
    assert(full.log[4 * i + 3] == r) by {
        assert(rest_log[3] == full.log[4 * i + 3]);
    }
    assert(full.log.subrange(0, 4 * (i + 1)) =~= full.log.subrange(0, 4 * i) + seq![e0, e1, e2, r]);
    assert(full.challenges[i] == r) by {
        assert(full.challenges.skip(i)[0] == full.challenges[i + 0]);
    }
    assert(full.challenges.subrange(0, i + 1) =~= full.challenges.subrange(0, i).push(r));
}

/// Everything one squared-layer sum-check produces per phase: the
/// transcript extension (seven round values and the challenge per round),
/// the challenges, the final mixing state, and the final tables.
pub ghost struct SquarePhase {
    /// Eight residues per round: the round polynomial at 0 through 6 and
    /// the challenge.
    pub log: Seq<int>,
    /// The challenge of each round, in round order.
    pub challenges: Seq<int>,
    /// Transcript mixing state after the phase.
    pub state: u64,
    /// The value table after all folds.
    pub v: Seq<int>,
    /// The fifth-power bookkeeping table after all folds.
    pub h5: Seq<int>,
    /// The linear bookkeeping table after all folds.
    pub h1: Seq<int>,
    /// The fifth-power liveness table after all folds.
    pub g5: Seq<bool>,
    /// The linear liveness table after all folds.
    pub g1: Seq<bool>,
}

/// The honest squared-layer run on tables of size `2^rounds`: each round
/// logs the masked round sums at 0 through 6, draws the challenge as the
/// squeeze of the state after absorbing them, and folds every table.
#[verifier::opaque]
pub open spec fn square_run(
    v: Seq<int>,
    h5: Seq<int>,
    h1: Seq<int>,
    g5: Seq<bool>,
    g1: Seq<bool>,
    st: u64,
    rounds: nat,
) -> SquarePhase
    decreases rounds,
{
    if rounds == 0 {
        SquarePhase {
            log: Seq::empty(),
            challenges: Seq::empty(),
            state: st,
            v: v,
            h5: h5,
            h1: h1,
            g5: g5,
            g1: g1,
        }
    } else {
        let half = v.len() as int / 2;
        let es = Seq::new(7, |t: int| sq_sum(v, h5, h1, g5, g1, half, t));
        let st7 = crate::transcript::absorb_vals(st, es);
        let r = crate::transcript::squeeze(st7);
        let st8 = crate::transcript::mix(st7, r as u64);
        let rest = square_run(
            crate::poly::fold_lsb(v, r),
            crate::poly::fold_lsb(h5, r),
            crate::poly::fold_lsb(h1, r),
            crate::scratchpad::fold_mask(g5),
            crate::scratchpad::fold_mask(g1),
            st8,
            (rounds - 1) as nat,
        );
        SquarePhase {
            log: es + seq![r] + rest.log,
            challenges: seq![r] + rest.challenges,
            state: rest.state,
            v: rest.v,
            h5: rest.h5,
            h1: rest.h1,
            g5: rest.g5,
            g1: rest.g1,
        }
    }
}

/// A run of no rounds changes nothing and logs nothing.
proof fn lemma_square_run_zero(
    v: Seq<int>,
    h5: Seq<int>,
    h1: Seq<int>,
    g5: Seq<bool>,
    g1: Seq<bool>,
    st: u64,
)
    ensures
        square_run(v, h5, h1, g5, g1, st, 0).log == Seq::<int>::empty(),
        square_run(v, h5, h1, g5, g1, st, 0).challenges == Seq::<int>::empty(),
        square_run(v, h5, h1, g5, g1, st, 0).state == st,
{
    reveal(square_run);
}

/// A run of `rounds > 0` rounds is one logged round followed by the run on
/// the folded tables.
proof fn lemma_square_run_unfold(
    v: Seq<int>,
    h5: Seq<int>,
    h1: Seq<int>,
    g5: Seq<bool>,
    g1: Seq<bool>,
    st: u64,
    rounds: nat,
)
    requires
        rounds > 0,
    ensures
        ({
            let half = v.len() as int / 2;
            let es = Seq::new(7, |t: int| sq_sum(v, h5, h1, g5, g1, half, t));
            let st7 = crate::transcript::absorb_vals(st, es);
            let r = crate::transcript::squeeze(st7);
            let st8 = crate::transcript::mix(st7, r as u64);
            let rest = square_run(
                crate::poly::fold_lsb(v, r),
                crate::poly::fold_lsb(h5, r),
                crate::poly::fold_lsb(h1, r),
                crate::scratchpad::fold_mask(g5),
                crate::scratchpad::fold_mask(g1),
                st8,
                (rounds - 1) as nat,
            );
            &&& square_run(v, h5, h1, g5, g1, st, rounds).log == es + seq![r] + rest.log
            &&& square_run(v, h5, h1, g5, g1, st, rounds).challenges == seq![r] + rest.challenges
            &&& square_run(v, h5, h1, g5, g1, st, rounds).state == rest.state
        }),
{
    reveal(square_run);
}

/// A run logs eight entries per round and draws one challenge per round.
proof fn lemma_square_run_props(
    v: Seq<int>,
    h5: Seq<int>,
    h1: Seq<int>,
    g5: Seq<bool>,
    g1: Seq<bool>,
    st: u64,
    rounds: nat,
)
    ensures
        square_run(v, h5, h1, g5, g1, st, rounds).log.len() == 8 * rounds,
        square_run(v, h5, h1, g5, g1, st, rounds).challenges.len() == rounds,
    decreases rounds,
{
    if rounds == 0 {
        lemma_square_run_zero(v, h5, h1, g5, g1, st);
    } else {
        lemma_square_run_unfold(v, h5, h1, g5, g1, st, rounds);
        let half = v.len() as int / 2;
        let es = Seq::new(7, |t: int| sq_sum(v, h5, h1, g5, g1, half, t));
        let st7 = crate::transcript::absorb_vals(st, es);
        let r = crate::transcript::squeeze(st7);
        lemma_square_run_props(
            crate::poly::fold_lsb(v, r),
            crate::poly::fold_lsb(h5, r),
            crate::poly::fold_lsb(h1, r),
            crate::scratchpad::fold_mask(g5),
            crate::scratchpad::fold_mask(g1),
            crate::transcript::mix(st7, r as u64),
            (rounds - 1) as nat,
        );
    }
}

/// The bookkeeping of one committed squared-layer round.
proof fn lemma_square_step(
    full: SquarePhase,
    cv: Seq<int>,
    c5: Seq<int>,
    c1: Seq<int>,
    cg5: Seq<bool>,
    cg1: Seq<bool>,
    st: u64,
    m: nat,
    i: int,
)
    requires
        m > 0,
        i >= 0,
        8 * i + 8 * m == full.log.len(),
        i + m == full.challenges.len(),
        square_run(cv, c5, c1, cg5, cg1, st, m).log == full.log.skip(8 * i),
        square_run(cv, c5, c1, cg5, cg1, st, m).challenges == full.challenges.skip(i),
        square_run(cv, c5, c1, cg5, cg1, st, m).state == full.state,
    ensures
        ({
            let half = cv.len() as int / 2;
            let es = Seq::new(7, |t: int| sq_sum(cv, c5, c1, cg5, cg1, half, t));
            let st7 = crate::transcript::absorb_vals(st, es);
            let r = crate::transcript::squeeze(st7);
            let st8 = crate::transcript::mix(st7, r as u64);
            let next = square_run(
                crate::poly::fold_lsb(cv, r),
                crate::poly::fold_lsb(c5, r),
                crate::poly::fold_lsb(c1, r),
                crate::scratchpad::fold_mask(cg5),
                crate::scratchpad::fold_mask(cg1),
                st8,
                (m - 1) as nat,
            );
            &&& next.log == full.log.skip(8 * (i + 1))
            &&& next.challenges == full.challenges.skip(i + 1)
            &&& next.state == full.state
            &&& full.log.subrange(0, 8 * (i + 1)) == full.log.subrange(0, 8 * i) + es + seq![r]
            &&& forall|t: int| 0 <= t < 7 ==> full.log[8 * i + t] == es[t]
            &&& full.log[8 * i + 7] == r
            &&& full.challenges.subrange(0, i + 1) == full.challenges.subrange(0, i).push(r)
        }),
{
    lemma_square_run_unfold(cv, c5, c1, cg5, cg1, st, m);
    lemma_square_run_props(cv, c5, c1, cg5, cg1, st, m);
    let half = cv.len() as int / 2;
    let es = Seq::new(7, |t: int| sq_sum(cv, c5, c1, cg5, cg1, half, t));
    let st7 = crate::transcript::absorb_vals(st, es);
    let r = crate::transcript::squeeze(st7);
    let st8 = crate::transcript::mix(st7, r as u64);
    let next = square_run(
        crate::poly::fold_lsb(cv, r),
        crate::poly::fold_lsb(c5, r),
        crate::poly::fold_lsb(c1, r),
        crate::scratchpad::fold_mask(cg5),
        crate::scratchpad::fold_mask(cg1),
        st8,
        (m - 1) as nat,
    );
    lemma_square_run_props(
        crate::poly::fold_lsb(cv, r),
        crate::poly::fold_lsb(c5, r),
        crate::poly::fold_lsb(c1, r),
        crate::scratchpad::fold_mask(cg5),
        crate::scratchpad::fold_mask(cg1),
        st8,
        (m - 1) as nat,
    );
    let rest_log = full.log.skip(8 * i);
    assert(rest_log == es + seq![r] + next.log);
    assert(next.log =~= full.log.skip(8 * (i + 1))) by {
        assert(next.log.len() == full.log.len() - 8 * i - 8);
        assert(forall|j: int|
            0 <= j < next.log.len() ==> next.log[j] == (es + seq![r] + next.log)[j + 8]);
    }
    assert(next.challenges =~= full.challenges.skip(i + 1)) by {
        assert(full.challenges.skip(i) == seq![r] + next.challenges);
        assert(forall|j: int|
            0 <= j < next.challenges.len() ==> next.challenges[j] == (seq![r]
                + next.challenges)[j + 1]);
    }
    assert forall|t: int| 0 <= t < 7 implies full.log[8 * i + t] == es[t] by {
        assert(rest_log[t] == full.log[8 * i + t]);
    }
    assert(full.log[8 * i + 7] == r) by {
        assert(rest_log[7] == full.log[8 * i + 7]);
    }
    assert(full.log.subrange(0, 8 * (i + 1)) =~= full.log.subrange(0, 8 * i) + es + seq![r]);
    assert(full.challenges[i] == r) by {
        assert(full.challenges.skip(i)[0] == full.challenges[i + 0]);
    }
    assert(full.challenges.subrange(0, i + 1) =~= full.challenges.subrange(0, i).push(r));
}

/// Evaluates the masked degree-2 round polynomial of `v * hg` at 0, 1 and
/// 2, with the one-input gates' folded constant `acc` contributing the line
/// `acc * (1 - t)`: exactly the masked sums over the first `pairs` index
/// pairs, shifted by `acc` at 0 and by `-acc` at 2.
fn gkr_eval_3(v: &Vec<Fp>, hg: &Vec<Fp>, mask: &Vec<bool>, pairs: usize, acc: Fp) -> (r: (
    Fp,
    Fp,
    Fp,
))
    requires
        2 * pairs <= v@.len(),
        2 * pairs <= hg@.len(),
        2 * pairs <= mask@.len(),
        all_valid(v@),
        all_valid(hg@),
        acc.valid(),
    ensures
        r.0.valid(),
        r.1.valid(),
        r.2.valid(),
        r.0@ == f_add(msum_e0(values(v@), values(hg@), mask@, pairs as int), acc@),
        r.1@ == msum_e1(values(v@), values(hg@), mask@, pairs as int),
        r.2@ == f_sub(msum_e2(values(v@), values(hg@), mask@, pairs as int), acc@),
{
    let total = v.len();
    let two = Fp { v: 2 };
    let mut p0 = Fp::zero();
    let mut p1 = Fp::zero();
    let mut p2 = Fp::zero();
    let mut i: usize = 0;
    while i < pairs
        invariant
            i <= pairs,
            2 * pairs <= total,
            total == v@.len(),
            2 * pairs <= hg@.len(),
            2 * pairs <= mask@.len(),
            all_valid(v@),
            all_valid(hg@),
            two.v == 2,
            p0.valid(),
            p1.valid(),
            p2.valid(),
            p0@ == msum_e0(values(v@), values(hg@), mask@, i as int),
            p1@ == msum_e1(values(v@), values(hg@), mask@, i as int),
            p2@ == msum_e2(values(v@), values(hg@), mask@, i as int),
        decreases pairs - i,
    {
        if mask[2 * i] || mask[2 * i + 1] {
            let f0 = v[2 * i];
            let f1 = v[2 * i + 1];
            let h0 = hg[2 * i];
            let h1 = hg[2 * i + 1];
            p0 = p0.add(f0.mul(h0));
            p1 = p1.add(f1.mul(h1));
            p2 = p2.add(two.mul(f1).sub(f0).mul(two.mul(h1).sub(h0)));
        }
        i = i + 1;
    }
    p0 = p0.add(acc);
    p2 = p2.sub(acc);
    (p0, p1, p2)
}

/// The line through `(0, a)` and `(1, b)` evaluated at `t`.
pub open spec fn line_at(a: int, b: int, t: int) -> int {
    f_add(a, f_mul(f_sub(b, a), t))
}

/// The fifth power, associated as the evaluator computes it.
pub open spec fn pow5_val(x: int) -> int {
    f_mul(f_mul(f_mul(x, x), f_mul(x, x)), x)
}

/// The contribution of index pair `i` to the squared-layer round
/// polynomial at `t`: the fifth-power part when its pair is live, plus the
/// linear part when its pair is live.
pub open spec fn sq_term(
    v: Seq<int>,
    h5: Seq<int>,
    h1: Seq<int>,
    g5: Seq<bool>,
    g1: Seq<bool>,
    i: int,
    t: int,
) -> int {
    let lv = line_at(v[2 * i], v[2 * i + 1], t);
    let part5 = if g5[2 * i] || g5[2 * i + 1] {
        f_add(0, f_mul(pow5_val(lv), line_at(h5[2 * i], h5[2 * i + 1], t)))
    } else {
        0
    };
    if g1[2 * i] || g1[2 * i + 1] {
        f_add(part5, f_mul(lv, line_at(h1[2 * i], h1[2 * i + 1], t)))
    } else {
        part5
    }
}

/// Mask-filtered sum of the squared-layer round polynomial
/// `v^5 * hg5 + v * hg1` at `t`, over the first `n` index pairs.
pub open spec fn sq_sum(
    v: Seq<int>,
    h5: Seq<int>,
    h1: Seq<int>,
    g5: Seq<bool>,
    g1: Seq<bool>,
    n: int,
    t: int,
) -> int
    decreases n,
{
    if n <= 0 {
        0
    } else {
        let prev = sq_sum(v, h5, h1, g5, g1, n - 1, t);
        if g5[2 * (n - 1)] || g5[2 * (n - 1) + 1] || g1[2 * (n - 1)] || g1[2 * (n - 1) + 1] {
            f_add(prev, sq_term(v, h5, h1, g5, g1, n - 1, t))
        } else {
            prev
        }
    }
}

/// Evaluates the masked squared-layer round polynomial
/// `v^5 * hg5 + v * hg1` at 0 through 6: entry `t` is exactly the masked
/// sum `sq_sum` at `t` over the first `pairs` index pairs.
fn gkr_eval_7(
    v: &Vec<Fp>,
    hg5: &Vec<Fp>,
    hg1: &Vec<Fp>,
    mask5: &Vec<bool>,
    mask1: &Vec<bool>,
    pairs: usize,
) -> (r: Vec<Fp>)
    requires
        2 * pairs <= v@.len(),
        2 * pairs <= hg5@.len(),
        2 * pairs <= hg1@.len(),
        2 * pairs <= mask5@.len(),
        2 * pairs <= mask1@.len(),
        all_valid(v@),
        all_valid(hg5@),
        all_valid(hg1@),
    ensures
        r@.len() == 7,
        all_valid(r@),
        forall|t: int|
            0 <= t < 7 ==> values(r@)[t] == sq_sum(
                values(v@),
                values(hg5@),
                values(hg1@),
                mask5@,
                mask1@,
                pairs as int,
                t,
            ),
{
    let total = v.len();
    let mut p = crate::scratchpad::zero_vec(7);
    let mut i: usize = 0;
    while i < pairs
        invariant
            i <= pairs,
            2 * pairs <= total,
            total == v@.len(),
            2 * pairs <= hg5@.len(),
            2 * pairs <= hg1@.len(),
            2 * pairs <= mask5@.len(),
            2 * pairs <= mask1@.len(),
            all_valid(v@),
            all_valid(hg5@),
            all_valid(hg1@),
            p@.len() == 7,
            all_valid(p@),
            forall|t: int|
                0 <= t < 7 ==> values(p@)[t] == sq_sum(
                    values(v@),
                    values(hg5@),
                    values(hg1@),
                    mask5@,
                    mask1@,
                    i as int,
                    t,
                ),
        decreases pairs - i,
    {
        let live5 = mask5[2 * i] || mask5[2 * i + 1];
        let live1 = mask1[2 * i] || mask1[2 * i + 1];
        if live5 || live1 {
            let f0 = v[2 * i];
            let df = v[2 * i + 1].sub(f0);
            let g0 = hg5[2 * i];
            let dg = hg5[2 * i + 1].sub(g0);
            let a0 = hg1[2 * i];
            let da = hg1[2 * i + 1].sub(a0);
            let mut t: usize = 0;
            while t < 7
                invariant
                    t <= 7,
                    i < pairs,
                    2 * pairs <= total,
                    total == v@.len(),
                    2 * pairs <= hg5@.len(),
                    2 * pairs <= hg1@.len(),
                    2 * pairs <= mask5@.len(),
                    2 * pairs <= mask1@.len(),
                    all_valid(v@),
                    all_valid(hg5@),
                    all_valid(hg1@),
                    p@.len() == 7,
                    all_valid(p@),
                    f0 == v@[2 * i as int],
                    df@ == f_sub(values(v@)[2 * i as int + 1], values(v@)[2 * i as int]),
                    g0 == hg5@[2 * i as int],
                    dg@ == f_sub(values(hg5@)[2 * i as int + 1], values(hg5@)[2 * i as int]),
                    a0 == hg1@[2 * i as int],
                    da@ == f_sub(values(hg1@)[2 * i as int + 1], values(hg1@)[2 * i as int]),
                    f0.valid(),
                    df.valid(),
                    g0.valid(),
                    dg.valid(),
                    a0.valid(),
                    da.valid(),
                    live5 == (mask5@[2 * i as int] || mask5@[2 * i as int + 1]),
                    live1 == (mask1@[2 * i as int] || mask1@[2 * i as int + 1]),
                    live5 || live1,
                    forall|t2: int|
                        0 <= t2 < 7 ==> values(p@)[t2] == sq_sum(
                            values(v@),
                            values(hg5@),
                            values(hg1@),
                            mask5@,
                            mask1@,
                            if t2 < t { i + 1 } else { i as int },
                            t2,
                        ),
                decreases 7 - t,
            {
                let tf = Fp { v: t as u64 };
                let vt = f0.add(df.mul(tf));
                let g5t = g0.add(dg.mul(tf));
                let a1t = a0.add(da.mul(tf));
                let mut term = Fp::zero();
                if live5 {
                    let v2 = vt.mul(vt);
                    let v4 = v2.mul(v2);
                    term = term.add(v4.mul(vt).mul(g5t));
                }
                if live1 {
                    term = term.add(vt.mul(a1t));
                }
                let ghost pb = p@;
                let s = p[t].add(term);
                p.set(t, s);
                proof {
                    assert(p@ == pb.update(t as int, s));
                    assert(values(p@) == values(pb).update(t as int, s@));
                    assert(values(pb)[t as int] == sq_sum(
                        values(v@),
                        values(hg5@),
                        values(hg1@),
                        mask5@,
                        mask1@,
                        i as int,
                        t as int,
                    ));
                    assert(s@ == f_add(values(pb)[t as int], term@));
                    assert(values(p@)[t as int] == s@);
                    assert(vt@ == line_at(values(v@)[2 * i as int], values(v@)[2 * i as int + 1], t as int));
                    assert(g5t@ == line_at(
                        values(hg5@)[2 * i as int],
                        values(hg5@)[2 * i as int + 1],
                        t as int,
                    ));
                    assert(a1t@ == line_at(
                        values(hg1@)[2 * i as int],
                        values(hg1@)[2 * i as int + 1],
                        t as int,
                    ));
                    assert(term@ == sq_term(
                        values(v@),
                        values(hg5@),
                        values(hg1@),
                        mask5@,
                        mask1@,
                        i as int,
                        t as int,
                    ));
                    assert(values(p@)[t as int] == f_add(
                        sq_sum(
                            values(v@),
                            values(hg5@),
                            values(hg1@),
                            mask5@,
                            mask1@,
                            i as int,
                            t as int,
                        ),
                        term@,
                    ));
                    assert(sq_sum(
                        values(v@),
                        values(hg5@),
                        values(hg1@),
                        mask5@,
                        mask1@,
                        i as int + 1,
                        t as int,
                    ) == f_add(
                        sq_sum(
                            values(v@),
                            values(hg5@),
                            values(hg1@),
                            mask5@,
                            mask1@,
                            i as int,
                            t as int,
                        ),
                        sq_term(
                            values(v@),
                            values(hg5@),
                            values(hg1@),
                            mask5@,
                            mask1@,
                            i as int,
                            t as int,
                        ),
                    ));
                }
                t = t + 1;
            }
        }
        i = i + 1;
    }
    p
}

/// Runs the two-phase GKR layer sum-check: `input_var_num` rounds binding
/// the first operand point `rx`, the claim `vx` appended at the midpoint,
/// then `input_var_num` rounds binding `ry` and the claim `vy` at the end.
/// Each round appends the round polynomial at 0, 1, 2 and draws its
/// challenge from the transcript. The contract pins the log's growth
/// (append-only, exact length), each challenge as the Fiat-Shamir squeeze
/// of everything logged before it, the two appended claims as the input
/// layer polynomial's evaluations at the returned points, and the whole
/// extension as the two-phase honest-run model `phase_run` over the
/// scattered bookkeeping tables.
#[verifier::rlimit(100)]
pub fn sumcheck_prove_gkr_layer(
    layer: &CircuitLayer,
    rz0: &Vec<Fp>,
    rz1: &Vec<Fp>,
    alpha: &Fp,
    beta: &Fp,
    transcript: &mut Transcript,
    sp: &mut GkrScratchpad,
) -> (res: (Vec<Fp>, Vec<Fp>))
    requires
        layer.wf(),
        1 <= layer.input_var_num,
        rz0@.len() == layer.output_var_num,
        rz1@.len() == layer.output_var_num,
        all_valid(rz0@),
        all_valid(rz1@),
        alpha.valid(),
        beta.valid(),
        old(transcript).wf(),
        old(sp).wf(layer.input_var_num as nat, layer.output_var_num as nat),
    ensures
        final(transcript).wf(),
        final(sp).wf(layer.input_var_num as nat, layer.output_var_num as nat),
        res.0@.len() == layer.input_var_num,
        res.1@.len() == layer.input_var_num,
        all_valid(res.0@),
        all_valid(res.1@),
        final(transcript).proof_log@.len() == old(transcript).proof_log@.len() + 8
            * layer.input_var_num + 2,
        values(final(transcript).proof_log@)[old(transcript).proof_log@.len() + 4
            * layer.input_var_num] == eval_mle(values(layer.input_vals.evals@), values(res.0@)),
        values(final(transcript).proof_log@)[old(transcript).proof_log@.len() + 8
            * layer.input_var_num + 1] == eval_mle(values(layer.input_vals.evals@), values(res.1@)),
        forall|t: int|
            0 <= t < layer.input_var_num ==> values(final(transcript).proof_log@)[old(
                transcript,
            ).proof_log@.len() + 4 * t + 3] == values(res.0@)[t],
        forall|t: int|
            0 <= t < layer.input_var_num ==> values(final(transcript).proof_log@)[old(
                transcript,
            ).proof_log@.len() + 4 * layer.input_var_num + 4 + 4 * t] == values(res.1@)[t],
        forall|j: int|
            0 <= j < old(transcript).proof_log@.len() ==> final(transcript).proof_log@[j] == old(
                transcript,
            ).proof_log@[j],
        forall|t: int|
            0 <= t < layer.input_var_num ==> #[trigger] crate::transcript::fs_challenge_at(
                final(transcript).proof_log@,
                old(transcript).proof_log@.len() + 4 * t + 3,
            ),
        forall|t: int|
            0 <= t < layer.input_var_num ==> #[trigger] crate::transcript::fs_challenge_at(
                final(transcript).proof_log@,
                old(transcript).proof_log@.len() + 4 * layer.input_var_num + 4 + 4 * t,
            ),
        forall|z: int|
            0 <= z < pow2(layer.output_var_num as nat) ==> values(final(sp).eq_evals_at_rz0@)[z]
                == f_add(
                eq_build(values(rz0@), z, alpha@),
                eq_build(values(rz1@), z, beta@),
            ),
        forall|z: int|
            0 <= z < pow2(layer.input_var_num as nat) ==> values(final(sp).eq_evals_at_rx@)[z]
                == eq_build(values(res.0@), z, 1),
        ({
            let isz = pow2(layer.input_var_num as nat) as int;
            let v0 = values(layer.input_vals.evals@);
            let eqc = values(final(sp).eq_evals_at_rz0@);
            let eqrx = values(final(sp).eq_evals_at_rx@);
            let zbs = Seq::new(
                old(sp).hg_evals_1@.len(),
                (|z: int|
                    if z < isz {
                        0
                    } else {
                        values(old(sp).hg_evals_1@)[z]
                    }),
            );
            let fbs = Seq::new(
                old(sp).gate_exists_1@.len(),
                (|z: int|
                    if z < isz {
                        false
                    } else {
                        old(sp).gate_exists_1@[z]
                    }),
            );
            let h0s = scatter_uni(
                layer.add_gates@,
                eqc,
                scatter_mul1(layer.mul_gates@, eqc, v0, zbs, layer.mul_gates@.len() as int),
                layer.add_gates@.len() as int,
            ).subrange(0, isz);
            let g0s = scatter_uni_mask(
                layer.add_gates@,
                scatter_mul1_mask(layer.mul_gates@, fbs, layer.mul_gates@.len() as int),
                layer.add_gates@.len() as int,
            ).subrange(0, isz);
            let run1 = phase_run(
                v0,
                h0s,
                g0s,
                0,
                old(transcript).state,
                layer.input_var_num as nat,
            );
            let vxs = eval_mle(v0, run1.challenges);
            let h0ps = scatter_mul2(
                layer.mul_gates@,
                eqc,
                eqrx,
                vxs,
                zbs,
                layer.mul_gates@.len() as int,
            ).subrange(0, isz);
            let g0ps = scatter_mul2_mask(
                layer.mul_gates@,
                fbs,
                layer.mul_gates@.len() as int,
            ).subrange(0, isz);
            let acc0s = f_mul(
                vxs,
                uni_phase2_sum(layer.add_gates@, eqc, eqrx, layer.add_gates@.len() as int),
            );
            let run2 = phase_run(
                v0,
                h0ps,
                g0ps,
                acc0s,
                crate::transcript::mix(run1.state, vxs as u64),
                layer.input_var_num as nat,
            );
            &&& values(final(transcript).proof_log@) == values(old(transcript).proof_log@)
                + run1.log + seq![vxs] + run2.log + seq![eval_mle(v0, run2.challenges)]
            &&& values(res.0@) == run1.challenges
            &&& values(res.1@) == run2.challenges
        }),
{
    let n = layer.input_var_num;
    let out_n = layer.output_var_num;
    let v_cap: usize = sp.v_evals.len();
    let eq_cap: usize = sp.eq_evals_at_rz0.len();
    proof {
        assert(pow2(n as nat) <= v_cap);
        assert(pow2(out_n as nat) <= eq_cap);
    }
    let in_size = crate::scratchpad::pow2_exec(n);
    let out_size = crate::scratchpad::pow2_exec(out_n);
    let ghost init_v = values(layer.input_vals.evals@);
    let ghost base_len = transcript.proof_log@.len() as int;
    let ghost base_log = transcript.proof_log@;
    let one = Fp::one();

    // combined equality table over the output wires: alpha and beta weights
    build_eq_table(
        rz0,
        *alpha,
        &mut sp.eq_evals_at_rz0,
        &mut sp.eq_evals_first_half,
        &mut sp.eq_evals_second_half,
    );
    build_eq_table(
        rz1,
        *beta,
        &mut sp.eq_evals_at_rz1,
        &mut sp.eq_evals_first_half,
        &mut sp.eq_evals_second_half,
    );
    add_into_prefix(&mut sp.eq_evals_at_rz0, &sp.eq_evals_at_rz1, out_size);
    proof {
        assert(values(rz0@).subrange(0, out_n as int) =~= values(rz0@));
        assert(values(rz1@).subrange(0, out_n as int) =~= values(rz1@));
        assert forall|z: int| 0 <= z < out_size implies values(sp.eq_evals_at_rz0@)[z] == f_add(
            eq_build(values(rz0@), z, alpha@),
            eq_build(values(rz1@), z, beta@),
        ) by {}
    }
    let ghost eqc_tab = sp.eq_evals_at_rz0@;

    // first-phase tables
    copy_prefix(&mut sp.v_evals, &layer.input_vals.evals, in_size);
    zero_prefix(&mut sp.hg_evals_1, in_size);
    let ghost hg_zeroed = sp.hg_evals_1@;
    set_mask_prefix(&mut sp.gate_exists_1, in_size, false);
    let ghost g_cleared = sp.gate_exists_1@;
    accumulate_mul_phase1(
        &mut sp.hg_evals_1,
        &mut sp.gate_exists_1,
        &layer.mul_gates,
        &sp.eq_evals_at_rz0,
        &layer.input_vals.evals,
        in_size,
        out_size,
    );
    let ghost hg_mid = sp.hg_evals_1@;
    let ghost g_mid = sp.gate_exists_1@;
    accumulate_uni(
        &mut sp.hg_evals_1,
        &mut sp.gate_exists_1,
        &layer.add_gates,
        &sp.eq_evals_at_rz0,
        in_size,
        out_size,
    );
    proof {
        // scattering writes only inside the layer's table; the region
        // beyond it keeps its previous entries
        lemma_scatter_mul1_tail(
            layer.mul_gates@,
            values(eqc_tab),
            values(layer.input_vals.evals@),
            values(hg_zeroed),
            layer.mul_gates@.len() as int,
            in_size as int,
        );
        lemma_scatter_uni_tail(
            layer.add_gates@,
            values(eqc_tab),
            values(hg_mid),
            layer.add_gates@.len() as int,
            in_size as int,
        );
        lemma_scatter_mul1_mask_tail(
            layer.mul_gates@,
            g_cleared,
            layer.mul_gates@.len() as int,
            in_size as int,
        );
        lemma_scatter_uni_mask_tail(
            layer.add_gates@,
            g_mid,
            layer.add_gates@.len() as int,
            in_size as int,
        );
        assert forall|j: int|
            in_size <= j < sp.hg_evals_1@.len() implies values(sp.hg_evals_1@)[j] == values(
            old(sp).hg_evals_1@,
        )[j] by {
            assert(values(sp.hg_evals_1@)[j] == values(hg_mid)[j]);
            assert(values(hg_mid)[j] == values(hg_zeroed)[j]);
            assert(hg_zeroed[j] == old(sp).hg_evals_1@[j]);
        }
        assert forall|j: int|
            in_size <= j < sp.gate_exists_1@.len() implies sp.gate_exists_1@[j] == old(
            sp,
        ).gate_exists_1@[j] by {
            assert(sp.gate_exists_1@[j] == g_mid[j]);
            assert(g_mid[j] == g_cleared[j]);
            assert(g_cleared[j] == old(sp).gate_exists_1@[j]);
        }
    }

    let mut rx: Vec<Fp> = Vec::new();
    let mut active: usize = in_size;
    let ghost h0 = values(sp.hg_evals_1@).subrange(0, in_size as int);
    let ghost g0 = sp.gate_exists_1@.subrange(0, in_size as int);
    let ghost st0 = transcript.state;
    let ghost full1 = phase_run(init_v, h0, g0, 0, st0, n as nat);
    proof {
        assert(h0 == scatter_uni(
            layer.add_gates@,
            values(eqc_tab),
            scatter_mul1(
                layer.mul_gates@,
                values(eqc_tab),
                values(layer.input_vals.evals@),
                values(hg_zeroed),
                layer.mul_gates@.len() as int,
            ),
            layer.add_gates@.len() as int,
        ).subrange(0, in_size as int));
        assert(g0 == scatter_uni_mask(
            layer.add_gates@,
            scatter_mul1_mask(layer.mul_gates@, g_cleared, layer.mul_gates@.len() as int),
            layer.add_gates@.len() as int,
        ).subrange(0, in_size as int));
        assert(values(sp.v_evals@).subrange(0, active as int) =~= init_v.subrange(
            0,
            active as int,
        ));
        assert(init_v.subrange(0, active as int) =~= init_v);
        assert(values(rx@) =~= Seq::<int>::empty());
        lemma_phase_run_props(init_v, h0, g0, 0, st0, n as nat);
        assert(full1.log.skip(0) =~= full1.log);
        assert(full1.challenges.skip(0) =~= full1.challenges);
        assert(full1.log.subrange(0, 0) =~= Seq::<int>::empty());
        assert(values(transcript.proof_log@) =~= values(base_log) + full1.log.subrange(0, 0));
        assert(full1.challenges.subrange(0, 0) =~= Seq::<int>::empty());
        assert(values(sp.hg_evals_1@).subrange(0, active as int) == h0);
        assert(sp.gate_exists_1@.subrange(0, active as int) == g0);
    }
    let mut i: usize = 0;
    while i < n
        invariant
            i <= n,
            n == layer.input_var_num,
            layer.wf(),
            active == pow2((n - i) as nat),
            in_size == pow2(n as nat),
            sp.wf(n as nat, out_n as nat),
            transcript.wf(),
            transcript.proof_log@.len() == base_len + 4 * i,
            rx@.len() == i,
            all_valid(rx@),
            init_v == values(layer.input_vals.evals@),
            init_v.len() == pow2(n as nat),
            0 <= base_len,
            base_log.len() == base_len,
            forall|j: int| 0 <= j < base_len ==> transcript.proof_log@[j] == base_log[j],
            forall|t: int|
                0 <= t < i ==> values(transcript.proof_log@)[base_len + 4 * t + 3] == values(
                    rx@,
                )[t],
            forall|t: int|
                0 <= t < i ==> #[trigger] crate::transcript::fs_challenge_at(
                    transcript.proof_log@,
                    base_len + 4 * t + 3,
                ),
            out_size == pow2(out_n as nat),
            forall|z: int|
                0 <= z < out_size ==> values(sp.eq_evals_at_rz0@)[z] == f_add(
                    eq_build(values(rz0@), z, alpha@),
                    eq_build(values(rz1@), z, beta@),
                ),
            sp.eq_evals_at_rz0@ == eqc_tab,
            forall|j: int|
                in_size <= j < sp.hg_evals_1@.len() ==> values(sp.hg_evals_1@)[j] == values(
                    old(sp).hg_evals_1@,
                )[j],
            forall|j: int|
                in_size <= j < sp.gate_exists_1@.len() ==> sp.gate_exists_1@[j] == old(
                    sp,
                ).gate_exists_1@[j],
            full1 == phase_run(init_v, h0, g0, 0, st0, n as nat),
            full1.log.len() == 4 * n,
            full1.challenges.len() == n,
            hg_zeroed.len() == old(sp).hg_evals_1@.len(),
            sp.hg_evals_1@.len() == old(sp).hg_evals_1@.len(),
            sp.gate_exists_1@.len() == old(sp).gate_exists_1@.len(),
            forall|j: int| 0 <= j < in_size ==> values(hg_zeroed)[j] == 0,
            forall|j: int|
                in_size <= j < hg_zeroed.len() ==> hg_zeroed[j] == old(sp).hg_evals_1@[j],
            g_cleared.len() == old(sp).gate_exists_1@.len(),
            forall|j: int| 0 <= j < in_size ==> !g_cleared[j],
            forall|j: int|
                in_size <= j < g_cleared.len() ==> g_cleared[j] == old(sp).gate_exists_1@[j],
            h0 == scatter_uni(
                layer.add_gates@,
                values(eqc_tab),
                scatter_mul1(
                    layer.mul_gates@,
                    values(eqc_tab),
                    values(layer.input_vals.evals@),
                    values(hg_zeroed),
                    layer.mul_gates@.len() as int,
                ),
                layer.add_gates@.len() as int,
            ).subrange(0, in_size as int),
            g0 == scatter_uni_mask(
                layer.add_gates@,
                scatter_mul1_mask(layer.mul_gates@, g_cleared, layer.mul_gates@.len() as int),
                layer.add_gates@.len() as int,
            ).subrange(0, in_size as int),
            phase_run(
                values(sp.v_evals@).subrange(0, active as int),
                values(sp.hg_evals_1@).subrange(0, active as int),
                sp.gate_exists_1@.subrange(0, active as int),
                0,
                transcript.state,
                (n - i) as nat,
            ).log == full1.log.skip(4 * i),
            phase_run(
                values(sp.v_evals@).subrange(0, active as int),
                values(sp.hg_evals_1@).subrange(0, active as int),
                sp.gate_exists_1@.subrange(0, active as int),
                0,
                transcript.state,
                (n - i) as nat,
            ).challenges == full1.challenges.skip(i as int),
            phase_run(
                values(sp.v_evals@).subrange(0, active as int),
                values(sp.hg_evals_1@).subrange(0, active as int),
                sp.gate_exists_1@.subrange(0, active as int),
                0,
                transcript.state,
                (n - i) as nat,
            ).state == full1.state,
            values(transcript.proof_log@) == values(base_log) + full1.log.subrange(0, 4 * i),
            values(rx@) == full1.challenges.subrange(0, i as int),
            values(sp.v_evals@).subrange(0, active as int) == fold_lsb_all(init_v, values(rx@)),
        decreases n - i,
    {
        let ghost cv = values(sp.v_evals@).subrange(0, active as int);
        let ghost chh = values(sp.hg_evals_1@).subrange(0, active as int);
        let ghost cgg = sp.gate_exists_1@.subrange(0, active as int);
        let ghost st_round = transcript.state;
        proof {
            vstd::arithmetic::power2::lemma_pow2_unfold((n - i) as nat);
            lemma_pow2_monotone((n - i) as nat, n as nat);
            lemma_msums_prefix(
                values(sp.v_evals@),
                values(sp.hg_evals_1@),
                sp.gate_exists_1@,
                cv,
                chh,
                cgg,
                active as int / 2,
            );
            lemma_phase_step(full1, cv, chh, cgg, 0, st_round, (n - i) as nat, i as int);
        }
        let evals = gkr_eval_3(
            &sp.v_evals,
            &sp.hg_evals_1,
            &sp.gate_exists_1,
            active / 2,
            Fp::zero(),
        );
        let ghost lg0 = transcript.proof_log@;
        transcript.append_f(evals.0);
        transcript.append_f(evals.1);
        transcript.append_f(evals.2);
        let r = transcript.challenge_f();
        let ghost rx_prev = values(rx@);
        rx.push(r);
        fold_lsb_in_place(&mut sp.v_evals, active, r);
        fold_lsb_in_place(&mut sp.hg_evals_1, active, r);
        fold_mask_in_place(&mut sp.gate_exists_1, active);
        proof {
            assert(values(rx@) =~= rx_prev.push(r@));
            lemma_fold_lsb_all_snoc(init_v, rx_prev, r@);
            assert(transcript.proof_log@ == lg0.push(evals.0).push(evals.1).push(evals.2).push(r));
            assert forall|jj: int| 0 <= jj < lg0.len() implies transcript.proof_log@[jj]
                == lg0[jj] by {
                assert(lg0.push(evals.0)[jj] == lg0[jj]);
                assert(lg0.push(evals.0).push(evals.1)[jj] == lg0.push(evals.0)[jj]);
                assert(lg0.push(evals.0).push(evals.1).push(evals.2)[jj] == lg0.push(
                    evals.0,
                ).push(evals.1)[jj]);
                assert(lg0.push(evals.0).push(evals.1).push(evals.2).push(r)[jj] == lg0.push(
                    evals.0,
                ).push(evals.1).push(evals.2)[jj]);
            }
            assert(lg0.push(evals.0).push(evals.1).push(evals.2).push(r)[lg0.len() as int + 3] == r);
            assert(values(transcript.proof_log@)[base_len + 4 * i + 3] == r@);
            assert forall|t: int| 0 <= t < i + 1 implies #[trigger] crate::transcript::fs_challenge_at(
                transcript.proof_log@,
                base_len + 4 * t + 3,
            ) by {
                if t < i {
                    crate::transcript::lemma_fs_challenge_preserved(
                        lg0,
                        transcript.proof_log@,
                        base_len + 4 * t + 3,
                    );
                }
            }
            // the round matches the phase model and the run advances by one
            let half = active as int / 2;
            let me0 = f_add(msum_e0(cv, chh, cgg, half), 0);
            let me1 = msum_e1(cv, chh, cgg, half);
            let me2 = f_sub(msum_e2(cv, chh, cgg, half), 0);
            let mst3 = crate::transcript::mix(
                crate::transcript::mix(
                    crate::transcript::mix(st_round, me0 as u64),
                    me1 as u64,
                ),
                me2 as u64,
            );
            let mr = crate::transcript::squeeze(mst3);
            assert(evals.0@ == me0 && evals.1@ == me1 && evals.2@ == me2);
            crate::field::lemma_f_mod_range(mst3 as int);
            assert(r@ == mr && r.v == mr as u64);
            assert(f_mul(0, f_sub(1, mr)) == 0) by {
                assert(0 * f_sub(1, mr) == 0);
            }
            assert(values(sp.v_evals@).subrange(0, half) == crate::poly::fold_lsb(cv, mr));
            assert(values(sp.hg_evals_1@).subrange(0, half) == crate::poly::fold_lsb(chh, mr));
            assert(sp.gate_exists_1@.subrange(0, half) == crate::scratchpad::fold_mask(cgg));
            assert(values(transcript.proof_log@) =~= values(base_log) + full1.log.subrange(
                0,
                4 * (i + 1),
            ));
            assert(values(rx@) =~= full1.challenges.subrange(0, i + 1));
        }
        active = active / 2;
        i = i + 1;
    }
    proof {
        assert(pow2(0) == 1) by {
            vstd::arithmetic::power::lemma_pow0(2);
        }
        vstd::arithmetic::power2::lemma_pow2_pos(n as nat);
        lemma_fold_eval_round_trip(init_v, values(rx@));
        assert(values(sp.v_evals@).subrange(0, 1)[0] == values(sp.v_evals@)[0]);
        lemma_phase_run_zero(
            values(sp.v_evals@).subrange(0, active as int),
            values(sp.hg_evals_1@).subrange(0, active as int),
            sp.gate_exists_1@.subrange(0, active as int),
            0,
            transcript.state,
        );
        assert(transcript.state == full1.state);
        assert(full1.log.subrange(0, 4 * (n as int)) =~= full1.log);
    }
    let vx = sp.v_evals[0];
    let ghost lg_mid = transcript.proof_log@;
    transcript.append_f(vx);
    proof {
        assert forall|j: int| 0 <= j < lg_mid.len() implies transcript.proof_log@[j]
            == lg_mid[j] by {
            assert(lg_mid.push(vx)[j] == lg_mid[j]);
        }
        assert forall|t: int| 0 <= t < n implies #[trigger] crate::transcript::fs_challenge_at(
            transcript.proof_log@,
            base_len + 4 * t + 3,
        ) by {
            crate::transcript::lemma_fs_challenge_preserved(
                lg_mid,
                transcript.proof_log@,
                base_len + 4 * t + 3,
            );
        }
    }
    let ghost vx_pos = base_len + 4 * n;
    let ghost vx_val = vx@;
    let ghost mid_log = transcript.proof_log@;
    proof {
        assert(values(mid_log) =~= values(base_log) + full1.log + seq![vx_val]);
        assert(values(rx@) =~= full1.challenges);
        assert(transcript.state == crate::transcript::mix(full1.state, vx_val as u64));
    }

    // second-phase tables
    build_eq_table(&rx, one, &mut sp.eq_evals_at_rx, &mut sp.hg_evals_5, &mut sp.v_evals);
    proof {
        assert(values(rx@).subrange(0, n as int) =~= values(rx@));
    }
    let ghost eqrx_tab = sp.eq_evals_at_rx@;
    copy_prefix(&mut sp.v_evals, &layer.input_vals.evals, in_size);
    zero_prefix(&mut sp.hg_evals_1, in_size);
    let ghost hg2_zeroed = sp.hg_evals_1@;
    set_mask_prefix(&mut sp.gate_exists_1, in_size, false);
    let ghost g2_cleared = sp.gate_exists_1@;
    accumulate_mul_phase2(
        &mut sp.hg_evals_1,
        &mut sp.gate_exists_1,
        &layer.mul_gates,
        &sp.eq_evals_at_rz0,
        &sp.eq_evals_at_rx,
        vx,
        in_size,
        out_size,
    );
    let a_rx = sum_uni_phase2(
        &layer.add_gates,
        &sp.eq_evals_at_rz0,
        &sp.eq_evals_at_rx,
        in_size,
        out_size,
    );
    let mut acc = vx.mul(a_rx);
    proof {
        // the second-phase tables agree with the first phase's zeroed bases:
        // zeroed prefix both times, and the region beyond the layer's table
        // was never touched
        assert forall|j: int| 0 <= j < hg2_zeroed.len() implies values(hg2_zeroed)[j] == values(
            hg_zeroed,
        )[j] by {
            if j < in_size {
                assert(values(hg2_zeroed)[j] == 0);
                assert(values(hg_zeroed)[j] == 0);
            } else {
                assert(values(hg2_zeroed)[j] == values(old(sp).hg_evals_1@)[j]);
                assert(hg_zeroed[j] == old(sp).hg_evals_1@[j]);
            }
        }
        assert(values(hg2_zeroed) =~= values(hg_zeroed));
        assert forall|j: int| 0 <= j < g2_cleared.len() implies g2_cleared[j] == g_cleared[j] by {
            if j < in_size {
            } else {
                assert(g2_cleared[j] == old(sp).gate_exists_1@[j]);
                assert(g_cleared[j] == old(sp).gate_exists_1@[j]);
            }
        }
        assert(g2_cleared =~= g_cleared);
    }
    let ghost h0p = values(sp.hg_evals_1@).subrange(0, in_size as int);
    let ghost g0p = sp.gate_exists_1@.subrange(0, in_size as int);
    let ghost acc0 = acc@;
    let ghost st_mid = transcript.state;
    let ghost full2 = phase_run(init_v, h0p, g0p, acc0, st_mid, n as nat);

    let mut ry: Vec<Fp> = Vec::new();
    active = in_size;
    proof {
        lemma_phase_run_props(init_v, h0p, g0p, acc0, st_mid, n as nat);
        assert(values(sp.v_evals@).subrange(0, active as int) =~= init_v.subrange(
            0,
            active as int,
        ));
        assert(init_v.subrange(0, active as int) =~= init_v);
        assert(values(ry@) =~= Seq::<int>::empty());
        assert(full2.log.skip(0) =~= full2.log);
        assert(full2.challenges.skip(0) =~= full2.challenges);
        assert(full2.log.subrange(0, 0) =~= Seq::<int>::empty());
        assert(values(transcript.proof_log@) =~= values(mid_log) + full2.log.subrange(0, 0));
        assert(full2.challenges.subrange(0, 0) =~= Seq::<int>::empty());
        assert(values(sp.hg_evals_1@).subrange(0, active as int) == h0p);
        assert(sp.gate_exists_1@.subrange(0, active as int) == g0p);
    }
    let mut j: usize = 0;
    while j < n
        invariant
            j <= n,
            n == layer.input_var_num,
            layer.wf(),
            active == pow2((n - j) as nat),
            sp.wf(n as nat, out_n as nat),
            transcript.wf(),
            0 <= base_len,
            transcript.proof_log@.len() == base_len + 4 * n + 1 + 4 * j,
            vx_pos == base_len + 4 * n,
            (#[trigger] transcript.proof_log@[vx_pos])@ == vx_val,
            ry@.len() == j,
            all_valid(ry@),
            acc.valid(),
            one.v == 1,
            init_v == values(layer.input_vals.evals@),
            init_v.len() == pow2(n as nat),
            rx@.len() == n,
            base_log.len() == base_len,
            forall|j2: int| 0 <= j2 < base_len ==> transcript.proof_log@[j2] == base_log[j2],
            out_size == pow2(out_n as nat),
            in_size == pow2(n as nat),
            forall|z: int|
                0 <= z < out_size ==> values(sp.eq_evals_at_rz0@)[z] == f_add(
                    eq_build(values(rz0@), z, alpha@),
                    eq_build(values(rz1@), z, beta@),
                ),
            forall|z: int|
                0 <= z < in_size ==> values(sp.eq_evals_at_rx@)[z] == eq_build(
                    values(rx@),
                    z,
                    1,
                ),
            forall|t: int|
                0 <= t < n ==> values(transcript.proof_log@)[base_len + 4 * t + 3] == values(
                    rx@,
                )[t],
            forall|t: int|
                0 <= t < n ==> #[trigger] crate::transcript::fs_challenge_at(
                    transcript.proof_log@,
                    base_len + 4 * t + 3,
                ),
            forall|t: int|
                0 <= t < j ==> values(transcript.proof_log@)[base_len + 4 * n + 4 + 4 * t]
                    == values(ry@)[t],
            forall|t: int|
                0 <= t < j ==> #[trigger] crate::transcript::fs_challenge_at(
                    transcript.proof_log@,
                    base_len + 4 * n + 4 + 4 * t,
                ),
            sp.eq_evals_at_rz0@ == eqc_tab,
            sp.eq_evals_at_rx@ == eqrx_tab,
            full1 == phase_run(init_v, h0, g0, 0, st0, n as nat),
            full1.log.len() == 4 * n,
            full1.challenges.len() == n,
            hg_zeroed.len() == old(sp).hg_evals_1@.len(),
            forall|j2: int| 0 <= j2 < in_size ==> values(hg_zeroed)[j2] == 0,
            forall|j2: int|
                in_size <= j2 < hg_zeroed.len() ==> hg_zeroed[j2] == old(sp).hg_evals_1@[j2],
            g_cleared.len() == old(sp).gate_exists_1@.len(),
            forall|j2: int| 0 <= j2 < in_size ==> !g_cleared[j2],
            forall|j2: int|
                in_size <= j2 < g_cleared.len() ==> g_cleared[j2] == old(sp).gate_exists_1@[j2],
            h0 == scatter_uni(
                layer.add_gates@,
                values(eqc_tab),
                scatter_mul1(
                    layer.mul_gates@,
                    values(eqc_tab),
                    values(layer.input_vals.evals@),
                    values(hg_zeroed),
                    layer.mul_gates@.len() as int,
                ),
                layer.add_gates@.len() as int,
            ).subrange(0, in_size as int),
            g0 == scatter_uni_mask(
                layer.add_gates@,
                scatter_mul1_mask(layer.mul_gates@, g_cleared, layer.mul_gates@.len() as int),
                layer.add_gates@.len() as int,
            ).subrange(0, in_size as int),
            st0 == old(transcript).state,
            vx_val == eval_mle(init_v, full1.challenges),
            mid_log.len() == base_len + 4 * n + 1,
            values(mid_log) == values(base_log) + full1.log + seq![vx_val],
            st_mid == crate::transcript::mix(full1.state, vx_val as u64),
            h0p == scatter_mul2(
                layer.mul_gates@,
                values(eqc_tab),
                values(eqrx_tab),
                vx_val,
                values(hg_zeroed),
                layer.mul_gates@.len() as int,
            ).subrange(0, in_size as int),
            g0p == scatter_mul2_mask(
                layer.mul_gates@,
                g_cleared,
                layer.mul_gates@.len() as int,
            ).subrange(0, in_size as int),
            acc0 == f_mul(
                vx_val,
                uni_phase2_sum(
                    layer.add_gates@,
                    values(eqc_tab),
                    values(eqrx_tab),
                    layer.add_gates@.len() as int,
                ),
            ),
            full2 == phase_run(init_v, h0p, g0p, acc0, st_mid, n as nat),
            full2.log.len() == 4 * n,
            full2.challenges.len() == n,
            phase_run(
                values(sp.v_evals@).subrange(0, active as int),
                values(sp.hg_evals_1@).subrange(0, active as int),
                sp.gate_exists_1@.subrange(0, active as int),
                acc@,
                transcript.state,
                (n - j) as nat,
            ).log == full2.log.skip(4 * j),
            phase_run(
                values(sp.v_evals@).subrange(0, active as int),
                values(sp.hg_evals_1@).subrange(0, active as int),
                sp.gate_exists_1@.subrange(0, active as int),
                acc@,
                transcript.state,
                (n - j) as nat,
            ).challenges == full2.challenges.skip(j as int),
            phase_run(
                values(sp.v_evals@).subrange(0, active as int),
                values(sp.hg_evals_1@).subrange(0, active as int),
                sp.gate_exists_1@.subrange(0, active as int),
                acc@,
                transcript.state,
                (n - j) as nat,
            ).state == full2.state,
            values(transcript.proof_log@) == values(mid_log) + full2.log.subrange(0, 4 * j),
            values(ry@) == full2.challenges.subrange(0, j as int),
            values(sp.v_evals@).subrange(0, active as int) == fold_lsb_all(init_v, values(ry@)),
        decreases n - j,
    {
        let ghost cv = values(sp.v_evals@).subrange(0, active as int);
        let ghost chh = values(sp.hg_evals_1@).subrange(0, active as int);
        let ghost cgg = sp.gate_exists_1@.subrange(0, active as int);
        let ghost st_round = transcript.state;
        let ghost ac = acc@;
        proof {
            vstd::arithmetic::power2::lemma_pow2_unfold((n - j) as nat);
            lemma_pow2_monotone((n - j) as nat, n as nat);
            lemma_msums_prefix(
                values(sp.v_evals@),
                values(sp.hg_evals_1@),
                sp.gate_exists_1@,
                cv,
                chh,
                cgg,
                active as int / 2,
            );
            lemma_phase_step(full2, cv, chh, cgg, ac, st_round, (n - j) as nat, j as int);
        }
        let evals = gkr_eval_3(&sp.v_evals, &sp.hg_evals_1, &sp.gate_exists_1, active / 2, acc);
        let ghost lg0 = transcript.proof_log@;
        transcript.append_f(evals.0);
        transcript.append_f(evals.1);
        transcript.append_f(evals.2);
        let r = transcript.challenge_f();
        let ghost ry_prev = values(ry@);
        ry.push(r);
        fold_lsb_in_place(&mut sp.v_evals, active, r);
        fold_lsb_in_place(&mut sp.hg_evals_1, active, r);
        fold_mask_in_place(&mut sp.gate_exists_1, active);
        acc = acc.mul(one.sub(r));
        proof {
            assert(values(ry@) =~= ry_prev.push(r@));
            lemma_fold_lsb_all_snoc(init_v, ry_prev, r@);
            assert(0 <= vx_pos < lg0.len());
            vstd::seq::axiom_seq_push_index_different(lg0, evals.0, vx_pos);
            vstd::seq::axiom_seq_push_index_different(lg0.push(evals.0), evals.1, vx_pos);
            vstd::seq::axiom_seq_push_index_different(
                lg0.push(evals.0).push(evals.1),
                evals.2,
                vx_pos,
            );
            assert(transcript.proof_log@ == lg0.push(evals.0).push(evals.1).push(evals.2).push(r));
            assert(transcript.proof_log@[vx_pos] == lg0.push(evals.0).push(evals.1).push(
                evals.2,
            )[vx_pos]);
            assert(transcript.proof_log@[vx_pos]@ == vx_val);
            assert forall|jj: int| 0 <= jj < lg0.len() implies transcript.proof_log@[jj]
                == lg0[jj] by {
                assert(lg0.push(evals.0)[jj] == lg0[jj]);
                assert(lg0.push(evals.0).push(evals.1)[jj] == lg0.push(evals.0)[jj]);
                assert(lg0.push(evals.0).push(evals.1).push(evals.2)[jj] == lg0.push(
                    evals.0,
                ).push(evals.1)[jj]);
                assert(lg0.push(evals.0).push(evals.1).push(evals.2).push(r)[jj] == lg0.push(
                    evals.0,
                ).push(evals.1).push(evals.2)[jj]);
            }
            assert(lg0.push(evals.0).push(evals.1).push(evals.2).push(r)[lg0.len() as int + 3] == r);
            assert(values(transcript.proof_log@)[base_len + 4 * n + 4 + 4 * j] == r@);
            assert forall|t: int| 0 <= t < n implies #[trigger] crate::transcript::fs_challenge_at(
                transcript.proof_log@,
                base_len + 4 * t + 3,
            ) by {
                crate::transcript::lemma_fs_challenge_preserved(
                    lg0,
                    transcript.proof_log@,
                    base_len + 4 * t + 3,
                );
            }
            assert forall|t: int| 0 <= t < j + 1 implies #[trigger] crate::transcript::fs_challenge_at(
                transcript.proof_log@,
                base_len + 4 * n + 4 + 4 * t,
            ) by {
                if t < j {
                    crate::transcript::lemma_fs_challenge_preserved(
                        lg0,
                        transcript.proof_log@,
                        base_len + 4 * n + 4 + 4 * t,
                    );
                }
            }
            // the round matches the phase model and the run advances by one
            let half = active as int / 2;
            let me0 = f_add(msum_e0(cv, chh, cgg, half), ac);
            let me1 = msum_e1(cv, chh, cgg, half);
            let me2 = f_sub(msum_e2(cv, chh, cgg, half), ac);
            let mst3 = crate::transcript::mix(
                crate::transcript::mix(
                    crate::transcript::mix(st_round, me0 as u64),
                    me1 as u64,
                ),
                me2 as u64,
            );
            let mr = crate::transcript::squeeze(mst3);
            assert(evals.0@ == me0 && evals.1@ == me1 && evals.2@ == me2);
            crate::field::lemma_f_mod_range(mst3 as int);
            assert(r@ == mr && r.v == mr as u64);
            assert(acc@ == f_mul(ac, f_sub(1, mr)));
            assert(values(sp.v_evals@).subrange(0, half) == crate::poly::fold_lsb(cv, mr));
            assert(values(sp.hg_evals_1@).subrange(0, half) == crate::poly::fold_lsb(chh, mr));
            assert(sp.gate_exists_1@.subrange(0, half) == crate::scratchpad::fold_mask(cgg));
            assert(values(transcript.proof_log@) =~= values(mid_log) + full2.log.subrange(
                0,
                4 * (j + 1),
            ));
            assert(values(ry@) =~= full2.challenges.subrange(0, j + 1));
        }
        active = active / 2;
        j = j + 1;
    }
    proof {
        assert(pow2(0) == 1) by {
            vstd::arithmetic::power::lemma_pow0(2);
        }
        vstd::arithmetic::power2::lemma_pow2_pos(n as nat);
        lemma_fold_eval_round_trip(init_v, values(ry@));
        assert(values(sp.v_evals@).subrange(0, 1)[0] == values(sp.v_evals@)[0]);
        assert(full2.log.subrange(0, 4 * (n as int)) =~= full2.log);
        assert(full2.challenges.subrange(0, n as int) =~= full2.challenges);
        assert(values(transcript.proof_log@) =~= values(mid_log) + full2.log);
        assert(values(ry@) == full2.challenges);
    }
    let vy = sp.v_evals[0];
    let ghost lg_end = transcript.proof_log@;
    transcript.append_f(vy);
    proof {
        assert forall|j2: int| 0 <= j2 < lg_end.len() implies transcript.proof_log@[j2]
            == lg_end[j2] by {
            assert(lg_end.push(vy)[j2] == lg_end[j2]);
        }
        assert forall|t: int| 0 <= t < n implies #[trigger] crate::transcript::fs_challenge_at(
            transcript.proof_log@,
            base_len + 4 * t + 3,
        ) by {
            crate::transcript::lemma_fs_challenge_preserved(
                lg_end,
                transcript.proof_log@,
                base_len + 4 * t + 3,
            );
        }
        assert forall|t: int| 0 <= t < n implies #[trigger] crate::transcript::fs_challenge_at(
            transcript.proof_log@,
            base_len + 4 * n + 4 + 4 * t,
        ) by {
            crate::transcript::lemma_fs_challenge_preserved(
                lg_end,
                transcript.proof_log@,
                base_len + 4 * n + 4 + 4 * t,
            );
        }
        // the whole extension is the two-phase honest-run model
        let zbs = Seq::new(
            old(sp).hg_evals_1@.len(),
            (|z: int|
                if z < in_size as int {
                    0
                } else {
                    values(old(sp).hg_evals_1@)[z]
                }),
        );
        let fbs = Seq::new(
            old(sp).gate_exists_1@.len(),
            (|z: int|
                if z < in_size as int {
                    false
                } else {
                    old(sp).gate_exists_1@[z]
                }),
        );
        assert(values(hg_zeroed) =~= zbs);
        assert(g_cleared =~= fbs);
        assert(values(sp.eq_evals_at_rz0@) == values(eqc_tab));
        assert(values(sp.eq_evals_at_rx@) == values(eqrx_tab));
        assert(values(transcript.proof_log@) =~= values(base_log) + full1.log + seq![vx_val]
            + full2.log + seq![vy@]);
    }
    (rx, ry)
}

/// Runs the squared-layer sum-check: one phase of `input_var_num` rounds
/// over the degree-6 round polynomial `v^5 * hg5 + v * hg1`, seven values
/// per round. The claim `vx` is appended twice, once as the last round's
/// closing message and once as the final claim; it is the input layer
/// polynomial's evaluation at the returned point. The contract pins the
/// log's growth (append-only, exact length), each challenge as the
/// Fiat-Shamir squeeze of everything logged before it, the claims, and
/// the whole extension as the honest-run model `square_run` over the
/// scattered bookkeeping tables.
#[verifier::rlimit(100)]
pub fn sumcheck_prove_gkr_square_layer(
    layer: &CircuitLayer,
    rz0: &Vec<Fp>,
    transcript: &mut Transcript,
    sp: &mut GkrScratchpad,
) -> (res: Vec<Fp>)
    requires
        layer.wf(),
        1 <= layer.input_var_num,
        rz0@.len() == layer.output_var_num,
        all_valid(rz0@),
        old(transcript).wf(),
        old(sp).wf(layer.input_var_num as nat, layer.output_var_num as nat),
    ensures
        final(transcript).wf(),
        final(sp).wf(layer.input_var_num as nat, layer.output_var_num as nat),
        res@.len() == layer.input_var_num,
        all_valid(res@),
        final(transcript).proof_log@.len() == old(transcript).proof_log@.len() + 8
            * layer.input_var_num + 2,
        values(final(transcript).proof_log@)[old(transcript).proof_log@.len() + 8
            * layer.input_var_num] == eval_mle(values(layer.input_vals.evals@), values(res@)),
        values(final(transcript).proof_log@)[old(transcript).proof_log@.len() + 8
            * layer.input_var_num + 1] == eval_mle(values(layer.input_vals.evals@), values(res@)),
        forall|t: int|
            0 <= t < layer.input_var_num ==> values(final(transcript).proof_log@)[old(
                transcript,
            ).proof_log@.len() + 8 * t + 7] == values(res@)[t],
        forall|j: int|
            0 <= j < old(transcript).proof_log@.len() ==> final(transcript).proof_log@[j] == old(
                transcript,
            ).proof_log@[j],
        forall|t: int|
            0 <= t < layer.input_var_num ==> #[trigger] crate::transcript::fs_challenge_at(
                final(transcript).proof_log@,
                old(transcript).proof_log@.len() + 8 * t + 7,
            ),
        forall|z: int|
            0 <= z < pow2(layer.output_var_num as nat) ==> values(final(sp).eq_evals_at_rz0@)[z]
                == eq_build(values(rz0@), z, 1),
        ({
            let isz = pow2(layer.input_var_num as nat) as int;
            let v0 = values(layer.input_vals.evals@);
            let eqc = values(final(sp).eq_evals_at_rz0@);
            let zb5s = Seq::new(
                old(sp).hg_evals_5@.len(),
                (|z: int|
                    if z < isz {
                        0
                    } else {
                        values(old(sp).hg_evals_5@)[z]
                    }),
            );
            let zb1s = Seq::new(
                old(sp).hg_evals_1@.len(),
                (|z: int|
                    if z < isz {
                        0
                    } else {
                        values(old(sp).hg_evals_1@)[z]
                    }),
            );
            let fb5s = Seq::new(
                old(sp).gate_exists_5@.len(),
                (|z: int|
                    if z < isz {
                        false
                    } else {
                        old(sp).gate_exists_5@[z]
                    }),
            );
            let fb1s = Seq::new(
                old(sp).gate_exists_1@.len(),
                (|z: int|
                    if z < isz {
                        false
                    } else {
                        old(sp).gate_exists_1@[z]
                    }),
            );
            let runs = square_run(
                v0,
                scatter_uni(
                    layer.pow5_gates@,
                    eqc,
                    zb5s,
                    layer.pow5_gates@.len() as int,
                ).subrange(0, isz),
                scatter_uni(
                    layer.add_gates@,
                    eqc,
                    zb1s,
                    layer.add_gates@.len() as int,
                ).subrange(0, isz),
                scatter_uni_mask(layer.pow5_gates@, fb5s, layer.pow5_gates@.len() as int).subrange(
                    0,
                    isz,
                ),
                scatter_uni_mask(layer.add_gates@, fb1s, layer.add_gates@.len() as int).subrange(
                    0,
                    isz,
                ),
                old(transcript).state,
                layer.input_var_num as nat,
            );
            &&& values(final(transcript).proof_log@) == values(old(transcript).proof_log@)
                + runs.log + seq![eval_mle(v0, runs.challenges), eval_mle(v0, runs.challenges)]
            &&& values(res@) == runs.challenges
        }),
{
    let n = layer.input_var_num;
    let out_n = layer.output_var_num;
    let v_cap: usize = sp.v_evals.len();
    let eq_cap: usize = sp.eq_evals_at_rz0.len();
    proof {
        assert(pow2(n as nat) <= v_cap);
        assert(pow2(out_n as nat) <= eq_cap);
    }
    let in_size = crate::scratchpad::pow2_exec(n);
    let out_size = crate::scratchpad::pow2_exec(out_n);
    let ghost init_v = values(layer.input_vals.evals@);
    let ghost base_len = transcript.proof_log@.len() as int;
    let ghost base_log = transcript.proof_log@;
    let one = Fp::one();

    build_eq_table(
        rz0,
        one,
        &mut sp.eq_evals_at_rz0,
        &mut sp.eq_evals_first_half,
        &mut sp.eq_evals_second_half,
    );
    proof {
        assert(values(rz0@).subrange(0, out_n as int) =~= values(rz0@));
    }
    let ghost eqc_tab = sp.eq_evals_at_rz0@;
    copy_prefix(&mut sp.v_evals, &layer.input_vals.evals, in_size);
    zero_prefix(&mut sp.hg_evals_5, in_size);
    let ghost h5_zeroed = sp.hg_evals_5@;
    zero_prefix(&mut sp.hg_evals_1, in_size);
    let ghost h1_zeroed = sp.hg_evals_1@;
    set_mask_prefix(&mut sp.gate_exists_5, in_size, false);
    let ghost g5_cleared = sp.gate_exists_5@;
    set_mask_prefix(&mut sp.gate_exists_1, in_size, false);
    let ghost g1_cleared = sp.gate_exists_1@;
    accumulate_uni(
        &mut sp.hg_evals_5,
        &mut sp.gate_exists_5,
        &layer.pow5_gates,
        &sp.eq_evals_at_rz0,
        in_size,
        out_size,
    );
    accumulate_uni(
        &mut sp.hg_evals_1,
        &mut sp.gate_exists_1,
        &layer.add_gates,
        &sp.eq_evals_at_rz0,
        in_size,
        out_size,
    );

    let mut rx: Vec<Fp> = Vec::new();
    let mut active: usize = in_size;
    let ghost zb5 = Seq::new(
        old(sp).hg_evals_5@.len(),
        (|z: int|
            if z < in_size as int {
                0
            } else {
                values(old(sp).hg_evals_5@)[z]
            }),
    );
    let ghost zb1 = Seq::new(
        old(sp).hg_evals_1@.len(),
        (|z: int|
            if z < in_size as int {
                0
            } else {
                values(old(sp).hg_evals_1@)[z]
            }),
    );
    let ghost fb5 = Seq::new(
        old(sp).gate_exists_5@.len(),
        (|z: int|
            if z < in_size as int {
                false
            } else {
                old(sp).gate_exists_5@[z]
            }),
    );
    let ghost fb1 = Seq::new(
        old(sp).gate_exists_1@.len(),
        (|z: int|
            if z < in_size as int {
                false
            } else {
                old(sp).gate_exists_1@[z]
            }),
    );
    let ghost h50 = values(sp.hg_evals_5@).subrange(0, in_size as int);
    let ghost h10 = values(sp.hg_evals_1@).subrange(0, in_size as int);
    let ghost gm50 = sp.gate_exists_5@.subrange(0, in_size as int);
    let ghost gm10 = sp.gate_exists_1@.subrange(0, in_size as int);
    let ghost st0 = transcript.state;
    let ghost fullsq = square_run(init_v, h50, h10, gm50, gm10, st0, n as nat);
    proof {
        assert(values(h5_zeroed) =~= zb5);
        assert(values(h1_zeroed) =~= zb1);
        assert(g5_cleared =~= fb5);
        assert(g1_cleared =~= fb1);
        assert(h50 == scatter_uni(
            layer.pow5_gates@,
            values(eqc_tab),
            zb5,
            layer.pow5_gates@.len() as int,
        ).subrange(0, in_size as int));
        assert(h10 == scatter_uni(
            layer.add_gates@,
            values(eqc_tab),
            zb1,
            layer.add_gates@.len() as int,
        ).subrange(0, in_size as int));
        assert(gm50 == scatter_uni_mask(
            layer.pow5_gates@,
            fb5,
            layer.pow5_gates@.len() as int,
        ).subrange(0, in_size as int));
        assert(gm10 == scatter_uni_mask(
            layer.add_gates@,
            fb1,
            layer.add_gates@.len() as int,
        ).subrange(0, in_size as int));
        lemma_square_run_props(init_v, h50, h10, gm50, gm10, st0, n as nat);
        assert(values(sp.v_evals@).subrange(0, active as int) =~= init_v.subrange(
            0,
            active as int,
        ));
        assert(init_v.subrange(0, active as int) =~= init_v);
        assert(values(rx@) =~= Seq::<int>::empty());
        assert(fullsq.log.skip(0) =~= fullsq.log);
        assert(fullsq.challenges.skip(0) =~= fullsq.challenges);
        assert(fullsq.log.subrange(0, 0) =~= Seq::<int>::empty());
        assert(values(transcript.proof_log@) =~= values(base_log) + fullsq.log.subrange(0, 0));
        assert(fullsq.challenges.subrange(0, 0) =~= Seq::<int>::empty());
        assert(values(sp.hg_evals_5@).subrange(0, active as int) == h50);
        assert(values(sp.hg_evals_1@).subrange(0, active as int) == h10);
        assert(sp.gate_exists_5@.subrange(0, active as int) == gm50);
        assert(sp.gate_exists_1@.subrange(0, active as int) == gm10);
    }
    let mut i: usize = 0;
    while i < n
        invariant
            i <= n,
            n == layer.input_var_num,
            layer.wf(),
            active == pow2((n - i) as nat),
            sp.wf(n as nat, out_n as nat),
            transcript.wf(),
            transcript.proof_log@.len() == base_len + 8 * i,
            rx@.len() == i,
            all_valid(rx@),
            0 <= base_len,
            base_log.len() == base_len,
            forall|j: int| 0 <= j < base_len ==> transcript.proof_log@[j] == base_log[j],
            out_size == pow2(out_n as nat),
            forall|z: int|
                0 <= z < out_size ==> values(sp.eq_evals_at_rz0@)[z] == eq_build(
                    values(rz0@),
                    z,
                    1,
                ),
            forall|t: int|
                0 <= t < i ==> values(transcript.proof_log@)[base_len + 8 * t + 7] == values(
                    rx@,
                )[t],
            forall|t: int|
                0 <= t < i ==> #[trigger] crate::transcript::fs_challenge_at(
                    transcript.proof_log@,
                    base_len + 8 * t + 7,
                ),
            init_v == values(layer.input_vals.evals@),
            init_v.len() == pow2(n as nat),
            in_size == pow2(n as nat),
            sp.eq_evals_at_rz0@ == eqc_tab,
            st0 == old(transcript).state,
            fullsq == square_run(init_v, h50, h10, gm50, gm10, st0, n as nat),
            fullsq.log.len() == 8 * n,
            fullsq.challenges.len() == n,
            h50 == scatter_uni(
                layer.pow5_gates@,
                values(eqc_tab),
                zb5,
                layer.pow5_gates@.len() as int,
            ).subrange(0, in_size as int),
            h10 == scatter_uni(
                layer.add_gates@,
                values(eqc_tab),
                zb1,
                layer.add_gates@.len() as int,
            ).subrange(0, in_size as int),
            gm50 == scatter_uni_mask(
                layer.pow5_gates@,
                fb5,
                layer.pow5_gates@.len() as int,
            ).subrange(0, in_size as int),
            gm10 == scatter_uni_mask(
                layer.add_gates@,
                fb1,
                layer.add_gates@.len() as int,
            ).subrange(0, in_size as int),
            zb5 == Seq::new(
                old(sp).hg_evals_5@.len(),
                (|z: int|
                    if z < in_size as int {
                        0
                    } else {
                        values(old(sp).hg_evals_5@)[z]
                    }),
            ),
            zb1 == Seq::new(
                old(sp).hg_evals_1@.len(),
                (|z: int|
                    if z < in_size as int {
                        0
                    } else {
                        values(old(sp).hg_evals_1@)[z]
                    }),
            ),
            fb5 == Seq::new(
                old(sp).gate_exists_5@.len(),
                (|z: int|
                    if z < in_size as int {
                        false
                    } else {
                        old(sp).gate_exists_5@[z]
                    }),
            ),
            fb1 == Seq::new(
                old(sp).gate_exists_1@.len(),
                (|z: int|
                    if z < in_size as int {
                        false
                    } else {
                        old(sp).gate_exists_1@[z]
                    }),
            ),
            square_run(
                values(sp.v_evals@).subrange(0, active as int),
                values(sp.hg_evals_5@).subrange(0, active as int),
                values(sp.hg_evals_1@).subrange(0, active as int),
                sp.gate_exists_5@.subrange(0, active as int),
                sp.gate_exists_1@.subrange(0, active as int),
                transcript.state,
                (n - i) as nat,
            ).log == fullsq.log.skip(8 * i),
            square_run(
                values(sp.v_evals@).subrange(0, active as int),
                values(sp.hg_evals_5@).subrange(0, active as int),
                values(sp.hg_evals_1@).subrange(0, active as int),
                sp.gate_exists_5@.subrange(0, active as int),
                sp.gate_exists_1@.subrange(0, active as int),
                transcript.state,
                (n - i) as nat,
            ).challenges == fullsq.challenges.skip(i as int),
            square_run(
                values(sp.v_evals@).subrange(0, active as int),
                values(sp.hg_evals_5@).subrange(0, active as int),
                values(sp.hg_evals_1@).subrange(0, active as int),
                sp.gate_exists_5@.subrange(0, active as int),
                sp.gate_exists_1@.subrange(0, active as int),
                transcript.state,
                (n - i) as nat,
            ).state == fullsq.state,
            values(transcript.proof_log@) == values(base_log) + fullsq.log.subrange(0, 8 * i),
            values(rx@) == fullsq.challenges.subrange(0, i as int),
            values(sp.v_evals@).subrange(0, active as int) == fold_lsb_all(init_v, values(rx@)),
        decreases n - i,
    {
        let ghost cv = values(sp.v_evals@).subrange(0, active as int);
        let ghost c5 = values(sp.hg_evals_5@).subrange(0, active as int);
        let ghost c1 = values(sp.hg_evals_1@).subrange(0, active as int);
        let ghost cg5 = sp.gate_exists_5@.subrange(0, active as int);
        let ghost cg1 = sp.gate_exists_1@.subrange(0, active as int);
        let ghost st_round = transcript.state;
        let ghost es = Seq::new(7, |t: int| sq_sum(cv, c5, c1, cg5, cg1, active as int / 2, t));
        proof {
            vstd::arithmetic::power2::lemma_pow2_unfold((n - i) as nat);
            lemma_pow2_monotone((n - i) as nat, n as nat);
            assert forall|t: int| 0 <= t < 7 implies sq_sum(
                values(sp.v_evals@),
                values(sp.hg_evals_5@),
                values(sp.hg_evals_1@),
                sp.gate_exists_5@,
                sp.gate_exists_1@,
                active as int / 2,
                t,
            ) == es[t] by {
                lemma_sq_sum_prefix(
                    values(sp.v_evals@),
                    values(sp.hg_evals_5@),
                    values(sp.hg_evals_1@),
                    sp.gate_exists_5@,
                    sp.gate_exists_1@,
                    cv,
                    c5,
                    c1,
                    cg5,
                    cg1,
                    active as int / 2,
                    t,
                );
            }
            lemma_square_step(fullsq, cv, c5, c1, cg5, cg1, st_round, (n - i) as nat, i as int);
        }
        let evals = gkr_eval_7(
            &sp.v_evals,
            &sp.hg_evals_5,
            &sp.hg_evals_1,
            &sp.gate_exists_5,
            &sp.gate_exists_1,
            active / 2,
        );
        let ghost lg0 = transcript.proof_log@;
        let mut deg: usize = 0;
        proof {
            assert(es.subrange(0, 0) =~= Seq::<int>::empty());
        }
        while deg < 7
            invariant
                deg <= 7,
                evals@.len() == 7,
                all_valid(evals@),
                transcript.wf(),
                transcript.proof_log@.len() == base_len + 8 * i + deg,
                lg0.len() == base_len + 8 * i,
                es.len() == 7,
                forall|t: int| 0 <= t < 7 ==> values(evals@)[t] == es[t],
                forall|jj: int| 0 <= jj < lg0.len() ==> transcript.proof_log@[jj] == lg0[jj],
                forall|d: int|
                    0 <= d < deg ==> values(transcript.proof_log@)[lg0.len() + d] == es[d],
                transcript.state == crate::transcript::absorb_vals(
                    st_round,
                    es.subrange(0, deg as int),
                ),
                st_round == crate::transcript::absorb_vals(st_round, es.subrange(0, 0)),
            decreases 7 - deg,
        {
            let ghost before = transcript.proof_log@;
            transcript.append_f(evals[deg]);
            proof {
                assert forall|jj: int| 0 <= jj < lg0.len() implies transcript.proof_log@[jj]
                    == lg0[jj] by {
                    assert(before.push(evals@[deg as int])[jj] == before[jj]);
                }
                crate::transcript::lemma_absorb_vals_snoc(
                    st_round,
                    es.subrange(0, deg as int),
                    es[deg as int],
                );
                assert(es.subrange(0, deg + 1) =~= es.subrange(0, deg as int).push(
                    es[deg as int],
                ));
                assert(evals@[deg as int].v == es[deg as int] as u64);
            }
            deg = deg + 1;
        }
        let ghost lg7 = transcript.proof_log@;
        proof {
            assert(es.subrange(0, 7) =~= es);
            assert(transcript.state == crate::transcript::absorb_vals(st_round, es));
        }
        let r = transcript.challenge_f();
        proof {
            assert forall|jj: int| 0 <= jj < lg0.len() implies transcript.proof_log@[jj]
                == lg0[jj] by {
                assert(lg7.push(r)[jj] == lg7[jj]);
            }
            assert forall|d: int| 0 <= d < 7 implies values(transcript.proof_log@)[lg0.len() + d]
                == es[d] by {
                assert(lg7.push(r)[lg0.len() as int + d] == lg7[lg0.len() as int + d]);
            }
            assert(lg7.push(r)[lg7.len() as int] == r);
            assert(values(transcript.proof_log@)[base_len + 8 * i + 7] == r@);
            assert forall|t: int| 0 <= t < i + 1 implies #[trigger] crate::transcript::fs_challenge_at(
                transcript.proof_log@,
                base_len + 8 * t + 7,
            ) by {
                if t < i {
                    crate::transcript::lemma_fs_challenge_preserved(
                        lg0,
                        transcript.proof_log@,
                        base_len + 8 * t + 7,
                    );
                }
            }
        }
        let ghost rx_prev = values(rx@);
        rx.push(r);
        fold_lsb_in_place(&mut sp.v_evals, active, r);
        fold_lsb_in_place(&mut sp.hg_evals_5, active, r);
        fold_lsb_in_place(&mut sp.hg_evals_1, active, r);
        fold_mask_in_place(&mut sp.gate_exists_5, active);
        fold_mask_in_place(&mut sp.gate_exists_1, active);
        proof {
            assert(values(rx@) =~= rx_prev.push(r@));
            lemma_fold_lsb_all_snoc(init_v, rx_prev, r@);
            // the round matches the squared-layer model and the run advances
            let half = active as int / 2;
            assert(es =~= Seq::new(
                7,
                |t: int| sq_sum(cv, c5, c1, cg5, cg1, cv.len() as int / 2, t),
            ));
            let mst7 = crate::transcript::absorb_vals(st_round, es);
            let mr = crate::transcript::squeeze(mst7);
            crate::field::lemma_f_mod_range(mst7 as int);
            assert(r@ == mr && r.v == mr as u64);
            assert(values(sp.v_evals@).subrange(0, half) == crate::poly::fold_lsb(cv, mr));
            assert(values(sp.hg_evals_5@).subrange(0, half) == crate::poly::fold_lsb(c5, mr));
            assert(values(sp.hg_evals_1@).subrange(0, half) == crate::poly::fold_lsb(c1, mr));
            assert(sp.gate_exists_5@.subrange(0, half) == crate::scratchpad::fold_mask(cg5));
            assert(sp.gate_exists_1@.subrange(0, half) == crate::scratchpad::fold_mask(cg1));
            assert forall|idx: int| 0 <= idx < base_len + 8 * i + 8 implies values(
                transcript.proof_log@,
            )[idx] == (values(base_log) + fullsq.log.subrange(0, 8 * (i + 1)))[idx] by {
                if idx < base_len + 8 * i {
                    assert(transcript.proof_log@[idx] == lg0[idx]);
                    assert(values(lg0)[idx] == (values(base_log) + fullsq.log.subrange(
                        0,
                        8 * i,
                    ))[idx]);
                } else if idx < base_len + 8 * i + 7 {
                    let d = idx - (base_len + 8 * i);
                    assert(values(transcript.proof_log@)[lg0.len() + d] == es[d]);
                    assert(fullsq.log[8 * i + d] == es[d]);
                } else {
                    assert(values(transcript.proof_log@)[base_len + 8 * i + 7] == r@);
                    assert(fullsq.log[8 * i + 7] == mr);
                }
            }
            assert(values(transcript.proof_log@) =~= values(base_log) + fullsq.log.subrange(
                0,
                8 * (i + 1),
            ));
            assert(values(rx@) =~= fullsq.challenges.subrange(0, i + 1));
        }
        active = active / 2;
        i = i + 1;
    }
    proof {
        assert(pow2(0) == 1) by {
            vstd::arithmetic::power::lemma_pow0(2);
        }
        vstd::arithmetic::power2::lemma_pow2_pos(n as nat);
        lemma_fold_eval_round_trip(init_v, values(rx@));
        assert(values(sp.v_evals@).subrange(0, 1)[0] == values(sp.v_evals@)[0]);
        assert(fullsq.log.subrange(0, 8 * (n as int)) =~= fullsq.log);
        assert(fullsq.challenges.subrange(0, n as int) =~= fullsq.challenges);
        assert(values(transcript.proof_log@) =~= values(base_log) + fullsq.log);
        assert(values(rx@) == fullsq.challenges);
    }
    let vx = sp.v_evals[0];
    let ghost lg_end = transcript.proof_log@;
    transcript.append_f(vx);
    transcript.append_f(vx);
    proof {
        assert forall|j: int| 0 <= j < lg_end.len() implies transcript.proof_log@[j]
            == lg_end[j] by {
            assert(lg_end.push(vx)[j] == lg_end[j]);
            assert(lg_end.push(vx).push(vx)[j] == lg_end.push(vx)[j]);
        }
        assert(transcript.proof_log@ == lg_end.push(vx).push(vx));
        assert forall|t: int| 0 <= t < n implies #[trigger] crate::transcript::fs_challenge_at(
            transcript.proof_log@,
            base_len + 8 * t + 7,
        ) by {
            crate::transcript::lemma_fs_challenge_preserved(
                lg_end,
                transcript.proof_log@,
                base_len + 8 * t + 7,
            );
        }
        assert(values(sp.eq_evals_at_rz0@) == values(eqc_tab));
        assert(values(transcript.proof_log@) =~= values(base_log) + fullsq.log + seq![vx@, vx@]);
    }
    rx
}

} // verus!
