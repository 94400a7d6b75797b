//! Per-instance working memory for sum-check runs: the GKR layer scratchpad
//! and the two-polynomial product scratchpad, together with the round-step
//! helper that evaluates the round polynomial and folds the tables.
//!
//! The helper's contracts are exact: `poly_eval_at` returns the three
//! mask-filtered sums the round polynomial takes at 0, 1 and 2, and
//! `receive_challenge` folds both tables by the LSB-first interpolation rule
//! and halves the liveness table.

use crate::field::{all_valid, f_add, f_mul, f_sub, values, Fp};
use crate::poly::{fold_lsb, fold_lsb_in_place, MultiLinearPoly};
use vstd::arithmetic::power2::pow2;
use vstd::pervasive::VecAdditionalExecFns;
use vstd::prelude::*;

verus! {

/// Value at 2 of the line through `(0, a)` and `(1, b)`.
pub open spec fn ext2(a: int, b: int) -> int {
    f_sub(f_mul(2, b), a)
}

/// Sum of the entrywise products of the even-indexed entries of the first
/// `n` index pairs: the round polynomial at 0.
pub open spec fn sum_e0(s1: Seq<int>, s2: Seq<int>, n: int) -> int
    decreases n,
{
    if n <= 0 {
        0
    } else {
        f_add(sum_e0(s1, s2, n - 1), f_mul(s1[2 * (n - 1)], s2[2 * (n - 1)]))
    }
}

/// Sum of the entrywise products of the odd-indexed entries: the round
/// polynomial at 1.
pub open spec fn sum_e1(s1: Seq<int>, s2: Seq<int>, n: int) -> int
    decreases n,
{
    if n <= 0 {
        0
    } else {
        f_add(sum_e1(s1, s2, n - 1), f_mul(s1[2 * (n - 1) + 1], s2[2 * (n - 1) + 1]))
    }
}

/// Sum of the products of each pair's line extended to 2: the round
/// polynomial at 2.
pub open spec fn sum_e2(s1: Seq<int>, s2: Seq<int>, n: int) -> int
    decreases n,
{
    if n <= 0 {
        0
    } else {
        f_add(
            sum_e2(s1, s2, n - 1),
            f_mul(
                ext2(s1[2 * (n - 1)], s1[2 * (n - 1) + 1]),
                ext2(s2[2 * (n - 1)], s2[2 * (n - 1) + 1]),
            ),
        )
    }
}

/// The round sums read only the first `2n` entries of each table.
pub proof fn lemma_sums_depend_on_prefix(
    a1: Seq<int>,
    a2: Seq<int>,
    b1: Seq<int>,
    b2: Seq<int>,
    n: int,
)
    requires
        forall|j: int| 0 <= j < 2 * n ==> a1[j] == b1[j],
        forall|j: int| 0 <= j < 2 * n ==> a2[j] == b2[j],
    ensures
        sum_e0(a1, a2, n) == sum_e0(b1, b2, n),
        sum_e1(a1, a2, n) == sum_e1(b1, b2, n),
        sum_e2(a1, a2, n) == sum_e2(b1, b2, n),
    decreases n,
{
    if n > 0 {
        lemma_sums_depend_on_prefix(a1, a2, b1, b2, n - 1);
    }
}

/// Sum of the entrywise products of the first `m` entries of two tables:
/// the quantity a product sum-check proves.
pub open spec fn sum_prod(s1: Seq<int>, s2: Seq<int>, m: int) -> int
    decreases m,
{
    if m <= 0 {
        0
    } else {
        f_add(sum_prod(s1, s2, m - 1), f_mul(s1[m - 1], s2[m - 1]))
    }
}

/// One folding step of the liveness table: a folded position stays on
/// when at least one of its two sources was on.
pub open spec fn fold_mask(g: Seq<bool>) -> Seq<bool> {
    Seq::new((g.len() / 2) as nat, |i: int| g[2 * i] || g[2 * i + 1])
}

/// Computes `2^n` on the machine.
pub(crate) fn pow2_exec(n: usize) -> (r: usize)
    requires
        pow2(n as nat) <= usize::MAX,
    ensures
        r == pow2(n as nat),
{
    proof {
        vstd::arithmetic::power::lemma_pow0(2);
    }
    let mut size: usize = 1;
    let mut i: usize = 0;
    while i < n
        invariant
            i <= n,
            size == pow2(i as nat),
            pow2(n as nat) <= usize::MAX,
        decreases n - i,
    {
        proof {
            crate::poly::lemma_pow2_monotone((i + 1) as nat, n as nat);
            vstd::arithmetic::power2::lemma_pow2_unfold((i + 1) as nat);
        }
        size = size * 2;
        i = i + 1;
    }
    size
}

/// A vector of `n` zero field elements.
pub(crate) fn zero_vec(n: usize) -> (r: Vec<Fp>)
    ensures
        r@.len() == n,
        all_valid(r@),
        forall|j: int| 0 <= j < n ==> values(r@)[j] == 0,
{
    let mut v: Vec<Fp> = Vec::new();
    let mut i: usize = 0;
    while i < n
        invariant
            i <= n,
            v@.len() == i,
            all_valid(v@),
            forall|j: int| 0 <= j < i ==> (#[trigger] v@[j])@ == 0,
        decreases n - i,
    {
        v.push(Fp::zero());
        i = i + 1;
    }
    proof {
        assert(forall|j: int| 0 <= j < n ==> values(v@)[j] == (#[trigger] v@[j])@);
    }
    v
}

/// A vector of `n` copies of `b`.
pub(crate) fn bool_vec(n: usize, b: bool) -> (r: Vec<bool>)
    ensures
        r@.len() == n,
        forall|j: int| 0 <= j < n ==> r@[j] == b,
{
    let mut v: Vec<bool> = Vec::new();
    let mut i: usize = 0;
    while i < n
        invariant
            i <= n,
            v@.len() == i,
            forall|j: int| 0 <= j < i ==> v@[j] == b,
        decreases n - i,
    {
        v.push(b);
        i = i + 1;
    }
    v
}

/// Working tables for one GKR layer reduction, allocated once at the
/// layer's maximum sizes and folded in place round by round.
#[derive(Debug, Clone)]
pub struct GkrScratchpad {
    /// Folded table of the input-layer polynomial.
    pub v_evals: Vec<Fp>,
    /// Bookkeeping table of the degree-5 (power) gates.
    pub hg_evals_5: Vec<Fp>,
    /// Bookkeeping table of the linear gates.
    pub hg_evals_1: Vec<Fp>,
    /// Equality table over the first-phase challenges.
    pub eq_evals_at_rx: Vec<Fp>,
    /// Equality table over the first output claim's point.
    pub eq_evals_at_rz0: Vec<Fp>,
    /// Equality table over the second output claim's point.
    pub eq_evals_at_rz1: Vec<Fp>,
    /// Scratch half-table used when building an equality table.
    pub eq_evals_first_half: Vec<Fp>,
    /// Scratch half-table used when building an equality table.
    pub eq_evals_second_half: Vec<Fp>,
    /// Live positions of the degree-5 gate table.
    pub gate_exists_5: Vec<bool>,
    /// Live positions of the linear gate table.
    pub gate_exists_1: Vec<bool>,
}

impl GkrScratchpad {
    /// All tables can hold a layer of the given sizes (a pad allocated for
    /// larger maxima qualifies too) and hold reduced elements.
    pub open spec fn wf(self, max_input_var: nat, max_output_var: nat) -> bool {
        &&& self.v_evals@.len() >= pow2(max_input_var)
        &&& self.hg_evals_5@.len() >= pow2(max_input_var)
        &&& self.hg_evals_1@.len() >= pow2(max_input_var)
        &&& self.eq_evals_at_rx@.len() >= pow2(max_input_var)
        &&& self.eq_evals_at_rz0@.len() >= pow2(max_output_var)
        &&& self.eq_evals_at_rz1@.len() >= pow2(max_output_var)
        &&& self.eq_evals_first_half@.len() >= pow2(max_output_var)
        &&& self.eq_evals_second_half@.len() >= pow2(max_output_var)
        &&& self.gate_exists_5@.len() >= pow2(max_input_var)
        &&& self.gate_exists_1@.len() >= pow2(max_input_var)
        &&& all_valid(self.v_evals@)
        &&& all_valid(self.hg_evals_5@)
        &&& all_valid(self.hg_evals_1@)
        &&& all_valid(self.eq_evals_at_rx@)
        &&& all_valid(self.eq_evals_at_rz0@)
        &&& all_valid(self.eq_evals_at_rz1@)
        &&& all_valid(self.eq_evals_first_half@)
        &&& all_valid(self.eq_evals_second_half@)
    }

    /// Allocates zeroed tables sized for a layer with the given numbers of
    /// input and output variables.
    pub fn new(max_num_input_var: usize, max_num_output_var: usize) -> (r: GkrScratchpad)
        requires
            pow2(max_num_input_var as nat) <= usize::MAX,
            pow2(max_num_output_var as nat) <= usize::MAX,
        ensures
            r.wf(max_num_input_var as nat, max_num_output_var as nat),
            r.v_evals@.len() == pow2(max_num_input_var as nat),
            r.hg_evals_5@.len() == pow2(max_num_input_var as nat),
            r.hg_evals_1@.len() == pow2(max_num_input_var as nat),
            r.eq_evals_at_rx@.len() == pow2(max_num_input_var as nat),
            r.eq_evals_at_rz0@.len() == pow2(max_num_output_var as nat),
            r.eq_evals_at_rz1@.len() == pow2(max_num_output_var as nat),
            r.eq_evals_first_half@.len() == pow2(max_num_output_var as nat),
            r.eq_evals_second_half@.len() == pow2(max_num_output_var as nat),
            r.gate_exists_5@.len() == pow2(max_num_input_var as nat),
            r.gate_exists_1@.len() == pow2(max_num_input_var as nat),
            forall|j: int| 0 <= j < r.v_evals@.len() ==> values(r.v_evals@)[j] == 0,
            forall|j: int| 0 <= j < r.hg_evals_5@.len() ==> values(r.hg_evals_5@)[j] == 0,
            forall|j: int| 0 <= j < r.hg_evals_1@.len() ==> values(r.hg_evals_1@)[j] == 0,
            forall|j: int| 0 <= j < r.eq_evals_at_rx@.len() ==> values(r.eq_evals_at_rx@)[j] == 0,
            forall|j: int|
                0 <= j < r.eq_evals_at_rz0@.len() ==> values(r.eq_evals_at_rz0@)[j] == 0,
            forall|j: int|
                0 <= j < r.eq_evals_at_rz1@.len() ==> values(r.eq_evals_at_rz1@)[j] == 0,
            forall|j: int|
                0 <= j < r.eq_evals_first_half@.len() ==> values(r.eq_evals_first_half@)[j] == 0,
            forall|j: int|
                0 <= j < r.eq_evals_second_half@.len() ==> values(r.eq_evals_second_half@)[j]
                    == 0,
            forall|j: int|
                0 <= j < r.gate_exists_5@.len() ==> !r.gate_exists_5@[j] && !r.gate_exists_1@[j],
    {
        let max_input_num = pow2_exec(max_num_input_var);
        let max_output_num = pow2_exec(max_num_output_var);
        GkrScratchpad {
            v_evals: zero_vec(max_input_num),
            hg_evals_5: zero_vec(max_input_num),
            hg_evals_1: zero_vec(max_input_num),
            eq_evals_at_rx: zero_vec(max_input_num),
            eq_evals_at_rz0: zero_vec(max_output_num),
            eq_evals_at_rz1: zero_vec(max_output_num),
            eq_evals_first_half: zero_vec(max_output_num),
            eq_evals_second_half: zero_vec(max_output_num),
            gate_exists_5: bool_vec(max_input_num, false),
            gate_exists_1: bool_vec(max_input_num, false),
        }
    }
}

/// Round-step engine of the two-polynomial product sum-check; it carries
/// only the instance's variable count.
#[derive(Debug, Clone, Copy, PartialEq, Eq, Structural)]
pub struct SumcheckMultilinearProdHelper {
    /// Number of sum-check rounds of the instance.
    pub var_num: usize,
}

impl SumcheckMultilinearProdHelper {
    /// A helper for an instance with `var_num` rounds.
    pub fn new(var_num: usize) -> (r: SumcheckMultilinearProdHelper)
        ensures
            r.var_num == var_num,
    {
        SumcheckMultilinearProdHelper { var_num }
    }

    /// Evaluates the degree-2 round polynomial of round `var_idx` at 0, 1
    /// and 2, reading only the first `2^(var_num - var_idx)` entries of the
    /// already-folded tables. The algorithm skips positions whose pair is
    /// off; a dense product instance keeps every position on, which is what
    /// the contract's unconditional sums rely on.
    pub fn poly_eval_at(
        &self,
        var_idx: usize,
        bk_f: &Vec<Fp>,
        bk_hg: &Vec<Fp>,
        gate_exists: &Vec<bool>,
    ) -> (r: (Fp, Fp, Fp))
        requires
            var_idx < self.var_num,
            pow2((self.var_num - var_idx) as nat) <= bk_f@.len(),
            bk_hg@.len() == bk_f@.len(),
            gate_exists@.len() == bk_f@.len(),
            all_valid(bk_f@),
            all_valid(bk_hg@),
            forall|j: int| 0 <= j < pow2((self.var_num - var_idx) as nat) ==> gate_exists@[j],
        ensures
            r.0.valid(),
            r.1.valid(),
            r.2.valid(),
            r.0@ == sum_e0(values(bk_f@), values(bk_hg@), pow2((self.var_num - var_idx) as nat) as int / 2),
            r.1@ == sum_e1(values(bk_f@), values(bk_hg@), pow2((self.var_num - var_idx) as nat) as int / 2),
            r.2@ == sum_e2(values(bk_f@), values(bk_hg@), pow2((self.var_num - var_idx) as nat) as int / 2),
    {
        let total: usize = bk_f.len();
        proof {
            vstd::arithmetic::power2::lemma_pow2_unfold((self.var_num - var_idx) as nat);
        }
        let eval_size = pow2_exec(self.var_num - var_idx) / 2;
        let two = Fp { v: 2 };
        let mut p0 = Fp::zero();
        let mut p1 = Fp::zero();
        let mut p2 = Fp::zero();
        let mut i: usize = 0;
        while i < eval_size
            invariant
                i <= eval_size,
                total == bk_f@.len(),
                2 * eval_size <= total,
                bk_hg@.len() == bk_f@.len(),
                gate_exists@.len() == bk_f@.len(),
                two.v == 2,
                all_valid(bk_f@),
                all_valid(bk_hg@),
                forall|j: int| 0 <= j < 2 * eval_size ==> gate_exists@[j],
                p0.valid(),
                p1.valid(),
                p2.valid(),
                p0@ == sum_e0(values(bk_f@), values(bk_hg@), i as int),
                p1@ == sum_e1(values(bk_f@), values(bk_hg@), i as int),
                p2@ == sum_e2(values(bk_f@), values(bk_hg@), i as int),
            decreases eval_size - i,
        {
            if !gate_exists[2 * i] && !gate_exists[2 * i + 1] {
                // unreachable for a dense instance: every position is on
                proof {
                    assert(gate_exists@[2 * i]);
                }
            } else {
                let f_v_0 = bk_f[2 * i];
                let f_v_1 = bk_f[2 * i + 1];
                let hg_v_0 = bk_hg[2 * i];
                let hg_v_1 = bk_hg[2 * i + 1];
                p0 = p0.add(f_v_0.mul(hg_v_0));
                p1 = p1.add(f_v_1.mul(hg_v_1));
                p2 = p2.add(two.mul(f_v_1).sub(f_v_0).mul(two.mul(hg_v_1).sub(hg_v_0)));
            }
            i = i + 1;
        }
        (p0, p1, p2)
    }

    /// Commits round `var_idx` to the challenge `r`: folds both bookkeeping
    /// tables by LSB-first interpolation at `r` and folds the liveness
    /// table, keeping a position on when at least one source was on.
    pub fn receive_challenge(
        &self,
        var_idx: usize,
        r: Fp,
        bk_f: &mut Vec<Fp>,
        bk_hg: &mut Vec<Fp>,
        gate_exists: &mut Vec<bool>,
    )
        requires
            var_idx < self.var_num,
            pow2((self.var_num - var_idx) as nat) <= old(bk_f)@.len(),
            old(bk_hg)@.len() == old(bk_f)@.len(),
            old(gate_exists)@.len() == old(bk_f)@.len(),
            all_valid(old(bk_f)@),
            all_valid(old(bk_hg)@),
            r.valid(),
        ensures
            final(bk_f)@.len() == old(bk_f)@.len(),
            final(bk_hg)@.len() == old(bk_hg)@.len(),
            final(gate_exists)@.len() == old(gate_exists)@.len(),
            all_valid(final(bk_f)@),
            all_valid(final(bk_hg)@),
            values(final(bk_f)@).subrange(0, pow2((self.var_num - var_idx) as nat) as int / 2)
                == fold_lsb(
                values(old(bk_f)@).subrange(0, pow2((self.var_num - var_idx) as nat) as int),
                r@,
            ),
            values(final(bk_hg)@).subrange(0, pow2((self.var_num - var_idx) as nat) as int / 2)
                == fold_lsb(
                values(old(bk_hg)@).subrange(0, pow2((self.var_num - var_idx) as nat) as int),
                r@,
            ),
            final(gate_exists)@.subrange(0, pow2((self.var_num - var_idx) as nat) as int / 2)
                == fold_mask(
                old(gate_exists)@.subrange(0, pow2((self.var_num - var_idx) as nat) as int),
            ),
            forall|j: int|
                pow2((self.var_num - var_idx) as nat) as int / 2 <= j < old(bk_f)@.len()
                    ==> final(bk_f)@[j] == old(bk_f)@[j],
            forall|j: int|
                pow2((self.var_num - var_idx) as nat) as int / 2 <= j < old(bk_hg)@.len()
                    ==> final(bk_hg)@[j] == old(bk_hg)@[j],
            forall|j: int|
                pow2((self.var_num - var_idx) as nat) as int / 2 <= j < old(gate_exists)@.len()
                    ==> final(gate_exists)@[j] == old(gate_exists)@[j],
    {
        let total: usize = bk_f.len();
        proof {
            vstd::arithmetic::power2::lemma_pow2_unfold((self.var_num - var_idx) as nat);
        }
        let active = pow2_exec(self.var_num - var_idx);
        fold_lsb_in_place(bk_f, active, r);
        fold_lsb_in_place(bk_hg, active, r);
        fold_mask_in_place(gate_exists, active);
    }
}

/// Replaces the first `active / 2` mask entries by the OR of their source
/// pairs; everything else is unchanged.
pub(crate) fn fold_mask_in_place(gate_exists: &mut Vec<bool>, active: usize)
    requires
        active <= old(gate_exists)@.len(),
        active % 2 == 0 || active <= 1,
    ensures
        final(gate_exists)@.len() == old(gate_exists)@.len(),
        final(gate_exists)@.subrange(0, active as int / 2) == fold_mask(
            old(gate_exists)@.subrange(0, active as int),
        ),
        forall|j: int|
            active as int / 2 <= j < old(gate_exists)@.len() ==> final(gate_exists)@[j] == old(
                gate_exists,
            )@[j],
{
    let half = active / 2;
    let ghost g_orig = gate_exists@;
    let mut i: usize = 0;
    while i < half
        invariant
            i <= half,
            2 * half <= active,
            active <= gate_exists@.len(),
            gate_exists@.len() == g_orig.len(),
            forall|j: int| i <= j < g_orig.len() ==> gate_exists@[j] == g_orig[j],
            forall|j: int|
                0 <= j < i ==> gate_exists@[j] == #[trigger] fold_mask(
                    g_orig.subrange(0, active as int),
                )[j],
        decreases half - i,
    {
        let live = gate_exists[2 * i] || gate_exists[2 * i + 1];
        gate_exists.set(i, live);
        i = i + 1;
    }
    proof {
        assert(gate_exists@.subrange(0, half as int) =~= fold_mask(
            g_orig.subrange(0, active as int),
        ));
    }
}

/// Working state of one product sum-check instance: the two polynomials
/// being folded, an untouched copy of the first table, and the liveness
/// table, which a dense product keeps fully on.
#[derive(Debug, Clone)]
pub struct SumcheckMultilinearProdScratchpad {
    /// Number of variables of both polynomials.
    pub num_vars: usize,
    /// First factor; folded in place as rounds are committed.
    pub poly1: MultiLinearPoly,
    /// Second factor; folded in place as rounds are committed.
    pub poly2: MultiLinearPoly,
    /// Unmodified copy of the first factor's original table.
    pub init_v: Vec<Fp>,
    /// Gate mask; a dense product keeps every position live.
    pub gate_exists: Vec<bool>,
    /// The round-step engine bound to this instance.
    pub helper: SumcheckMultilinearProdHelper,
}

impl SumcheckMultilinearProdScratchpad {
    /// Well-formed instance state: consistent sizes, reduced tables, and a
    /// liveness table that is fully on.
    pub open spec fn wf(self) -> bool {
        &&& self.poly1.wf()
        &&& self.poly2.wf()
        &&& self.poly1.var_num == self.num_vars
        &&& self.poly2.var_num == self.num_vars
        &&& self.gate_exists@.len() == pow2(self.num_vars as nat)
        &&& forall|j: int| 0 <= j < self.gate_exists@.len() ==> self.gate_exists@[j]
        &&& all_valid(self.init_v@)
        &&& self.helper.var_num == self.num_vars
    }

    /// Binds a fresh scratchpad to two polynomials of equal size, copying
    /// their tables so the caller's polynomials stay untouched.
    pub fn new(poly1: &MultiLinearPoly, poly2: &MultiLinearPoly) -> (r:
        SumcheckMultilinearProdScratchpad)
        requires
            poly1.wf(),
            poly2.wf(),
            poly1.var_num == poly2.var_num,
        ensures
            r.wf(),
            r.num_vars == poly1.var_num,
            values(r.poly1.evals@) == values(poly1.evals@),
            values(r.poly2.evals@) == values(poly2.evals@),
            values(r.init_v@) == values(poly1.evals@),
    {
        let num_vars = poly1.var_num;
        let num_evals = poly1.evals.len();
        let e1 = poly1.evals.clone();
        let e2 = poly2.evals.clone();
        let iv = poly1.evals.clone();
        proof {
            assert(e1@ =~= poly1.evals@);
            assert(e2@ =~= poly2.evals@);
            assert(iv@ =~= poly1.evals@);
        }
        SumcheckMultilinearProdScratchpad {
            num_vars,
            poly1: MultiLinearPoly { var_num: num_vars, evals: e1 },
            poly2: MultiLinearPoly { var_num: num_vars, evals: e2 },
            init_v: iv,
            gate_exists: bool_vec(num_evals, true),
            helper: SumcheckMultilinearProdHelper::new(num_vars),
        }
    }
}

} // verus!
