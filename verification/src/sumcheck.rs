//! The product sum-check prover: `n` rounds of degree-2 round polynomials
//! proving `sum_x p1(x) * p2(x)`, driven through the Fiat-Shamir transcript.
//!
//! `prod_run` is the complete mathematical model of one honest run: the
//! exact sequence of logged values, the derived challenges, and the folded
//! tables. The prover's contract says its transcript extension and results
//! equal that model, and that the two final claims are the true evaluations
//! of the input polynomials at the challenge point.

use crate::field::{all_valid, values, Fp};
use crate::poly::{eval_mle, fold_lsb, fold_lsb_all, lemma_fold_eval_round_trip};
use crate::scratchpad::{sum_e0, sum_e1, sum_e2, SumcheckMultilinearProdScratchpad};
use crate::transcript::{mix, squeeze, Transcript};
use vstd::arithmetic::power2::pow2;
use vstd::prelude::*;

verus! {

broadcast use crate::field::lemma_values_push;

/// Everything one honest product sum-check run produces: the transcript
/// extension, the challenges in round order, the final transcript state and
/// the fully folded tables.
pub ghost struct ProdRun {
    /// Residues appended to the transcript: four per round (three round
    /// polynomial values and the challenge), then the two final claims.
    pub log: Seq<int>,
    /// The challenge of each round, in round order.
    pub challenges: Seq<int>,
    /// Transcript mixing state after the run.
    pub state: u64,
    /// First table after all rounds are folded.
    pub s1: Seq<int>,
    /// Second table after all rounds are folded.
    pub s2: Seq<int>,
}

/// The honest run on tables `s1`, `s2` (of size `2^rounds`) starting from
/// transcript state `st`: each round logs the round polynomial at 0, 1, 2,
/// derives the challenge from the state, logs it, and folds; after the last
/// round the two remaining entries are logged as the claims.
#[verifier::opaque]
pub open spec fn prod_run(s1: Seq<int>, s2: Seq<int>, st: u64, rounds: nat) -> ProdRun
    decreases rounds,
{
    if rounds == 0 {
        let st1 = mix(st, s1[0] as u64);
        let st2 = mix(st1, s2[0] as u64);
        ProdRun {
            log: seq![s1[0], s2[0]],
            challenges: Seq::empty(),
            state: st2,
            s1: s1,
            s2: s2,
        }
    } else {
        let n = s1.len() as int / 2;
        let e0 = sum_e0(s1, s2, n);
        let e1 = sum_e1(s1, s2, n);
        let e2 = sum_e2(s1, s2, n);
        let st1 = mix(st, e0 as u64);
        let st2 = mix(st1, e1 as u64);
        let st3 = mix(st2, e2 as u64);
        let r = squeeze(st3);
        let st4 = mix(st3, r as u64);
        let rest = prod_run(fold_lsb(s1, r), fold_lsb(s2, r), st4, (rounds - 1) as nat);
        ProdRun {
            log: seq![e0, e1, e2, r] + rest.log,
            challenges: seq![r] + rest.challenges,
            state: rest.state,
            s1: rest.s1,
            s2: rest.s2,
        }
    }
}

/// A run of no rounds just logs and absorbs the two claims.
pub proof fn lemma_prod_run_zero(s1: Seq<int>, s2: Seq<int>, st: u64)
    ensures
        prod_run(s1, s2, st, 0).log == seq![s1[0], s2[0]],
        prod_run(s1, s2, st, 0).challenges == Seq::<int>::empty(),
        prod_run(s1, s2, st, 0).state == mix(mix(st, s1[0] as u64), s2[0] as u64),
        prod_run(s1, s2, st, 0).s1 == s1,
        prod_run(s1, s2, st, 0).s2 == s2,
{
    reveal(prod_run);
}

/// A run of `rounds > 0` rounds is one logged round followed by the run on
/// the folded tables.
pub proof fn lemma_prod_run_unfold(s1: Seq<int>, s2: Seq<int>, st: u64, rounds: nat)
    requires
        rounds > 0,
    ensures
        ({
            let n = s1.len() as int / 2;
            let e0 = sum_e0(s1, s2, n);
            let e1 = sum_e1(s1, s2, n);
            let e2 = sum_e2(s1, s2, n);
            let st3 = mix(mix(mix(st, e0 as u64), e1 as u64), e2 as u64);
            let r = squeeze(st3);
            let st4 = mix(st3, r as u64);
            let rest = prod_run(fold_lsb(s1, r), fold_lsb(s2, r), st4, (rounds - 1) as nat);
            &&& prod_run(s1, s2, st, rounds).log == seq![e0, e1, e2, r] + rest.log
            &&& prod_run(s1, s2, st, rounds).challenges == seq![r] + rest.challenges
            &&& prod_run(s1, s2, st, rounds).state == rest.state
            &&& prod_run(s1, s2, st, rounds).s1 == rest.s1
            &&& prod_run(s1, s2, st, rounds).s2 == rest.s2
        }),
{
    reveal(prod_run);
}

/// The final tables of an honest run are the iterated folds of the inputs
/// at the run's challenges, there is one challenge per round, and the log
/// has four entries per round plus the two claims.
pub proof fn lemma_prod_run_folds(s1: Seq<int>, s2: Seq<int>, st: u64, rounds: nat)
    ensures
        prod_run(s1, s2, st, rounds).s1 == fold_lsb_all(s1, prod_run(s1, s2, st, rounds).challenges),
        prod_run(s1, s2, st, rounds).s2 == fold_lsb_all(s2, prod_run(s1, s2, st, rounds).challenges),
        prod_run(s1, s2, st, rounds).challenges.len() == rounds,
        prod_run(s1, s2, st, rounds).log.len() == 4 * rounds + 2,
        prod_run(s1, s2, st, rounds).log[4 * rounds as int] == prod_run(s1, s2, st, rounds).s1[0],
        prod_run(s1, s2, st, rounds).log[4 * rounds as int + 1] == prod_run(s1, s2, st, rounds).s2[0],
    decreases rounds,
{
    let run = prod_run(s1, s2, st, rounds);
    if rounds == 0 {
        lemma_prod_run_zero(s1, s2, st);
        assert(run.challenges =~= Seq::<int>::empty());
        assert(fold_lsb_all(s1, run.challenges) == s1);
    } else {
        lemma_prod_run_unfold(s1, s2, st, rounds);
        let n = s1.len() as int / 2;
        let e0 = sum_e0(s1, s2, n);
        let e1 = sum_e1(s1, s2, n);
        let e2 = sum_e2(s1, s2, n);
        let st3 = mix(mix(mix(st, e0 as u64), e1 as u64), e2 as u64);
        let r = squeeze(st3);
        let st4 = mix(st3, r as u64);
        lemma_prod_run_folds(fold_lsb(s1, r), fold_lsb(s2, r), st4, (rounds - 1) as nat);
        let rest = prod_run(fold_lsb(s1, r), fold_lsb(s2, r), st4, (rounds - 1) as nat);
        assert(run.challenges[0] == r);
        assert(run.challenges.drop_first() =~= rest.challenges);
        assert(fold_lsb_all(s1, run.challenges) == fold_lsb_all(fold_lsb(s1, r), rest.challenges));
        assert(fold_lsb_all(s2, run.challenges) == fold_lsb_all(fold_lsb(s2, r), rest.challenges));
    }
}

/// The bookkeeping of one committed round: how the remaining honest run,
/// the emitted log prefix and the collected challenges advance when round
/// `i` of the full run is played.
proof fn lemma_prod_step_bookkeeping(
    full: ProdRun,
    cur1: Seq<int>,
    cur2: Seq<int>,
    st_round: u64,
    m: nat,
    i: int,
)
    requires
        m > 0,
        4 * i + 4 * m + 2 == full.log.len(),
        i + m == full.challenges.len(),
        prod_run(cur1, cur2, st_round, m).log == full.log.skip(4 * i),
        prod_run(cur1, cur2, st_round, m).challenges == full.challenges.skip(i),
        prod_run(cur1, cur2, st_round, m).state == full.state,
        prod_run(cur1, cur2, st_round, m).s1 == full.s1,
        prod_run(cur1, cur2, st_round, m).s2 == full.s2,
        i >= 0,
    ensures
        ({
            let half = cur1.len() as int / 2;
            let e0 = sum_e0(cur1, cur2, half);
            let e1 = sum_e1(cur1, cur2, half);
            let e2 = sum_e2(cur1, cur2, half);
            let st3 = mix(mix(mix(st_round, e0 as u64), e1 as u64), e2 as u64);
            let r = squeeze(st3);
            let st4 = mix(st3, r as u64);
            let next = prod_run(fold_lsb(cur1, r), fold_lsb(cur2, r), st4, (m - 1) as nat);
            &&& next.log == full.log.skip(4 * (i + 1))
            &&& next.challenges == full.challenges.skip(i + 1)
            &&& next.state == full.state
            &&& next.s1 == full.s1
            &&& next.s2 == full.s2
            &&& full.log.subrange(0, 4 * (i + 1)) == full.log.subrange(0, 4 * i) + seq![e0, e1, e2, r]
            &&& full.challenges.subrange(0, i + 1) == full.challenges.subrange(0, i).push(r)
        }),
{
    lemma_prod_run_unfold(cur1, cur2, st_round, m);
    lemma_prod_run_folds(cur1, cur2, st_round, m);
    let half = cur1.len() as int / 2;
    let e0 = sum_e0(cur1, cur2, half);
    let e1 = sum_e1(cur1, cur2, half);
    let e2 = sum_e2(cur1, cur2, half);
    let st3 = mix(mix(mix(st_round, e0 as u64), e1 as u64), e2 as u64);
    let r = squeeze(st3);
    let st4 = mix(st3, r as u64);
    let next = prod_run(fold_lsb(cur1, r), fold_lsb(cur2, r), st4, (m - 1) as nat);
    let rest_log = full.log.skip(4 * i);
    assert(rest_log == seq![e0, e1, e2, r] + next.log);
    assert(next.log =~= full.log.skip(4 * (i + 1))) by {
        assert(next.log.len() == full.log.len() - 4 * i - 4);
        assert(forall|j: int|
            0 <= j < next.log.len() ==> next.log[j] == (seq![e0, e1, e2, r] + next.log)[j + 4]);
    }
    assert(next.challenges =~= full.challenges.skip(i + 1)) by {
        assert(full.challenges.skip(i) == seq![r] + next.challenges);
        assert(forall|j: int|
            0 <= j < next.challenges.len() ==> next.challenges[j] == (seq![r]
                + next.challenges)[j + 1]);
    }
    assert(full.log[4 * i] == e0) by {
        assert(rest_log[0] == full.log[4 * i + 0]);
    }
    assert(full.log[4 * i + 1] == e1) by {
        assert(rest_log[1] == full.log[4 * i + 1]);
    }
    assert(full.log[4 * i + 2] == e2) by {
        assert(rest_log[2] == full.log[4 * i + 2]);
    }
    assert(full.log[4 * i + 3] == r) by {
        assert(rest_log[3] == full.log[4 * i + 3]);
    }
    assert(full.log.subrange(0, 4 * (i + 1)) =~= full.log.subrange(0, 4 * i) + seq![e0, e1, e2, r]);
    assert(full.challenges[i] == r) by {
        assert(full.challenges.skip(i)[0] == full.challenges[i + 0]);
    }
    assert(full.challenges.subrange(0, i + 1) =~= full.challenges.subrange(0, i).push(r));
}

/// Runs the full product sum-check: for each of the instance's `num_vars`
/// rounds it appends the round polynomial's values at 0, 1 and 2 to the
/// transcript, draws the round's challenge from it, and folds the
/// scratchpad; afterwards it appends the two fully folded entries as the
/// claimed evaluations. Returns the challenge vector and the two claims,
/// which are exactly the evaluations of the original polynomials at the
/// challenge point.
#[verifier::rlimit(100)]
pub fn sumcheck_multilinear_prod(
    tp: &mut Transcript,
    sp: &mut SumcheckMultilinearProdScratchpad,
) -> (res: (Vec<Fp>, Vec<Fp>))
    requires
        old(tp).wf(),
        old(sp).wf(),
    ensures
        final(tp).wf(),
        final(sp).wf(),
        final(sp).num_vars == old(sp).num_vars,
        values(final(tp).proof_log@) == values(old(tp).proof_log@) + prod_run(
            values(old(sp).poly1.evals@),
            values(old(sp).poly2.evals@),
            old(tp).state,
            old(sp).num_vars as nat,
        ).log,
        final(tp).state == prod_run(
            values(old(sp).poly1.evals@),
            values(old(sp).poly2.evals@),
            old(tp).state,
            old(sp).num_vars as nat,
        ).state,
        res.0@.len() == old(sp).num_vars,
        res.1@.len() == 2,
        all_valid(res.0@),
        all_valid(res.1@),
        values(res.0@) == prod_run(
            values(old(sp).poly1.evals@),
            values(old(sp).poly2.evals@),
            old(tp).state,
            old(sp).num_vars as nat,
        ).challenges,
        values(res.1@)[0] == eval_mle(values(old(sp).poly1.evals@), values(res.0@)),
        values(res.1@)[1] == eval_mle(values(old(sp).poly2.evals@), values(res.0@)),
        values(res.1@)[0] == prod_run(
            values(old(sp).poly1.evals@),
            values(old(sp).poly2.evals@),
            old(tp).state,
            old(sp).num_vars as nat,
        ).s1[0],
        values(res.1@)[1] == prod_run(
            values(old(sp).poly1.evals@),
            values(old(sp).poly2.evals@),
            old(tp).state,
            old(sp).num_vars as nat,
        ).s2[0],
        final(sp).init_v@ == old(sp).init_v@,
        values(final(sp).poly1.evals@)[0] == values(res.1@)[0],
        values(final(sp).poly2.evals@)[0] == values(res.1@)[1],
{
    let ghost init1 = values(old(sp).poly1.evals@);
    let ghost init2 = values(old(sp).poly2.evals@);
    let ghost st0 = old(tp).state;
    let ghost n = old(sp).num_vars as nat;
    let ghost base_log = values(old(tp).proof_log@);
    let ghost full = prod_run(init1, init2, st0, n);

    let num_vars = sp.num_vars;
    let mut randomness_sumcheck: Vec<Fp> = Vec::new();
    let mut claimed_evals: Vec<Fp> = Vec::new();
    let mut active: usize = sp.poly1.evals.len();
    let mut i_var: usize = 0;
    proof {
        lemma_prod_run_folds(init1, init2, st0, n);
        assert(values(randomness_sumcheck@) =~= Seq::<int>::empty());
        assert(values(randomness_sumcheck@) =~= full.challenges.subrange(0, 0));
        assert(full.log.skip(0) =~= full.log);
        assert(full.challenges.skip(0) =~= full.challenges);
        assert(full.log.subrange(0, 0) =~= Seq::<int>::empty());
        assert(base_log + full.log.subrange(0, 0) =~= base_log);
        assert(values(sp.poly1.evals@).subrange(0, active as int) =~= init1);
        assert(values(sp.poly2.evals@).subrange(0, active as int) =~= init2);
    }
    while i_var < num_vars
        invariant
            i_var <= num_vars,
            num_vars == sp.num_vars,
            sp.wf(),
            tp.wf(),
            active == pow2((num_vars - i_var) as nat),
            active <= sp.poly1.evals@.len(),
            active <= sp.poly2.evals@.len(),
            randomness_sumcheck@.len() == i_var,
            all_valid(randomness_sumcheck@),
            n == num_vars as nat,
            sp.init_v@ == old(sp).init_v@,
            full == prod_run(init1, init2, st0, n),
            full.log.len() == 4 * n + 2,
            full.challenges.len() == n,
            prod_run(
                values(sp.poly1.evals@).subrange(0, active as int),
                values(sp.poly2.evals@).subrange(0, active as int),
                tp.state,
                (n - i_var) as nat,
            ).log == full.log.skip(4 * i_var),
            prod_run(
                values(sp.poly1.evals@).subrange(0, active as int),
                values(sp.poly2.evals@).subrange(0, active as int),
                tp.state,
                (n - i_var) as nat,
            ).challenges == full.challenges.skip(i_var as int),
            prod_run(
                values(sp.poly1.evals@).subrange(0, active as int),
                values(sp.poly2.evals@).subrange(0, active as int),
                tp.state,
                (n - i_var) as nat,
            ).state == full.state,
            prod_run(
                values(sp.poly1.evals@).subrange(0, active as int),
                values(sp.poly2.evals@).subrange(0, active as int),
                tp.state,
                (n - i_var) as nat,
            ).s1 == full.s1,
            prod_run(
                values(sp.poly1.evals@).subrange(0, active as int),
                values(sp.poly2.evals@).subrange(0, active as int),
                tp.state,
                (n - i_var) as nat,
            ).s2 == full.s2,
            values(randomness_sumcheck@) == full.challenges.subrange(0, i_var as int),
            values(tp.proof_log@) == base_log + full.log.subrange(0, 4 * i_var),
        decreases num_vars - i_var,
    {
        let ghost cur1 = values(sp.poly1.evals@).subrange(0, active as int);
        let ghost cur2 = values(sp.poly2.evals@).subrange(0, active as int);
        let ghost st_round = tp.state;
        proof {
            vstd::arithmetic::power2::lemma_pow2_unfold((num_vars - i_var) as nat);
            crate::poly::lemma_pow2_monotone((num_vars - i_var) as nat, num_vars as nat);
        }
        let evals = sp.helper.poly_eval_at(
            i_var,
            &sp.poly1.evals,
            &sp.poly2.evals,
            &sp.gate_exists,
        );
        proof {
            crate::scratchpad::lemma_sums_depend_on_prefix(
                values(sp.poly1.evals@),
                values(sp.poly2.evals@),
                cur1,
                cur2,
                active as int / 2,
            );
            lemma_prod_step_bookkeeping(
                full,
                cur1,
                cur2,
                st_round,
                (n - i_var) as nat,
                i_var as int,
            );
        }
        tp.append_f(evals.0);
        tp.append_f(evals.1);
        tp.append_f(evals.2);
        let r = tp.challenge_f();
        randomness_sumcheck.push(r);
        let ghost g_before = sp.gate_exists@;
        let helper = sp.helper;
        helper.receive_challenge(
            i_var,
            r,
            &mut sp.poly1.evals,
            &mut sp.poly2.evals,
            &mut sp.gate_exists,
        );
        proof {
            let half = active as int / 2;
            let e0 = sum_e0(cur1, cur2, half);
            let e1 = sum_e1(cur1, cur2, half);
            let e2 = sum_e2(cur1, cur2, half);
            let st3 = mix(mix(mix(st_round, e0 as u64), e1 as u64), e2 as u64);
            let rr = squeeze(st3);
            crate::field::lemma_f_mod_range(st3 as int);
            assert(r@ == rr);
            assert(r.v == rr as u64);
            // the folded prefixes are the new current tables
            assert(values(sp.poly1.evals@).subrange(0, half) == fold_lsb(cur1, rr));
            assert(values(sp.poly2.evals@).subrange(0, half) == fold_lsb(cur2, rr));
            // every position stays on after folding
            assert forall|j: int| 0 <= j < sp.gate_exists@.len() implies sp.gate_exists@[j] by {
                if j < half {
                    assert(sp.gate_exists@.subrange(0, half)[j] == crate::scratchpad::fold_mask(
                        g_before.subrange(0, active as int),
                    )[j]);
                } else {
                    assert(sp.gate_exists@[j] == g_before[j]);
                }
            }
            // emitted log and collected challenges advance by one round
            assert(values(tp.proof_log@) =~= base_log + full.log.subrange(0, 4 * (i_var + 1)));
            assert(values(randomness_sumcheck@) =~= full.challenges.subrange(0, i_var + 1));
        }
        active = active / 2;
        i_var = i_var + 1;
    }
    proof {
        assert(pow2(0) == 1) by {
            vstd::arithmetic::power::lemma_pow0(2);
        }
        assert(active == 1);
        vstd::arithmetic::power2::lemma_pow2_pos(n);
    }
    let claim1 = sp.poly1.evals[0];
    let claim2 = sp.poly2.evals[0];
    proof {
        let cur1 = values(sp.poly1.evals@).subrange(0, 1);
        let cur2 = values(sp.poly2.evals@).subrange(0, 1);
        assert(cur1[0] == values(sp.poly1.evals@)[0]);
        assert(cur2[0] == values(sp.poly2.evals@)[0]);
        lemma_prod_run_zero(cur1, cur2, tp.state);
        assert(full.log.skip(4 * i_var) == seq![cur1[0], cur2[0]]);
        assert(full.log =~= full.log.subrange(0, 4 * i_var) + full.log.skip(4 * i_var));
        assert(full.challenges.subrange(0, i_var as int) =~= full.challenges);
        assert(values(randomness_sumcheck@) == full.challenges);
        assert(claim1@ == full.s1[0]);
        assert(claim2@ == full.s2[0]);
    }
    transcript_append_claims(tp, claim1, claim2);
    claimed_evals.push(claim1);
    claimed_evals.push(claim2);
    proof {
        assert(values(claimed_evals@) =~= seq![claim1@, claim2@]);
        assert(values(tp.proof_log@) =~= base_log + full.log);
        lemma_fold_eval_round_trip(init1, full.challenges);
        lemma_fold_eval_round_trip(init2, full.challenges);
    }
    (randomness_sumcheck, claimed_evals)
}

/// The sum the product sum-check proves: the entrywise product of the two
/// tables summed over the whole hypercube.
pub fn mle_product_sum(p1: &Vec<Fp>, p2: &Vec<Fp>) -> (r: Fp)
    requires
        p1@.len() == p2@.len(),
        all_valid(p1@),
        all_valid(p2@),
    ensures
        r.valid(),
        r@ == crate::scratchpad::sum_prod(values(p1@), values(p2@), p1@.len() as int),
{
    let mut acc = Fp::zero();
    let mut i: usize = 0;
    while i < p1.len()
        invariant
            i <= p1@.len(),
            p1@.len() == p2@.len(),
            all_valid(p1@),
            all_valid(p2@),
            acc.valid(),
            acc@ == crate::scratchpad::sum_prod(values(p1@), values(p2@), i as int),
        decreases p1@.len() - i,
    {
        acc = acc.add(p1[i].mul(p2[i]));
        i = i + 1;
    }
    acc
}

/// Appends the two final claims to the transcript.
fn transcript_append_claims(tp: &mut Transcript, c1: Fp, c2: Fp)
    requires
        old(tp).wf(),
        c1.valid(),
        c2.valid(),
    ensures
        final(tp).wf(),
        final(tp).proof_log@ == old(tp).proof_log@.push(c1).push(c2),
        final(tp).state == mix(mix(old(tp).state, c1.v), c2.v),
{
    tp.append_f(c1);
    tp.append_f(c2);
}

} // verus!
