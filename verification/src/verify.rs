//! The sum-check verifier. It replays the Fiat-Shamir challenge derivation
//! over the recorded proof log, checks every round's consistency, and
//! accepts only a log whose algebra holds throughout.
//!
//! `spec_verify` is the exact acceptance predicate; `verify_sumcheck`'s
//! contract says the out-parameter equals it, so acceptance and rejection
//! are both pinned down.

use crate::field::{all_valid, f_add, f_mul, values, Fp, HALF, MODULUS};
use crate::transcript::{mix, squeeze, SEED};
use vstd::prelude::*;

verus! {

/// The degree-2 polynomial through `(0, e0)`, `(1, e1)`, `(2, e2)`,
/// evaluated at `r`: Lagrange interpolation with `HALF` standing in for the
/// division by two.
#[verifier::opaque]
pub open spec fn lagrange2(e0: int, e1: int, e2: int, r: int) -> int {
    f_add(
        f_add(
            f_mul(e0, f_mul(f_mul(crate::field::f_sub(r, 1), crate::field::f_sub(r, 2)), HALF as int)),
            f_mul(e1, f_mul(r, crate::field::f_sub(2, r))),
        ),
        f_mul(e2, f_mul(f_mul(r, crate::field::f_sub(r, 1)), HALF as int)),
    )
}

/// Replays rounds `k .. n` of the log from mixing state `st`, where
/// `expected` is what this round's polynomial must sum to over `{0, 1}`.
/// `None` means a consistency or challenge check failed; `Some(e)` carries
/// the value the final claims must multiply to.
pub open spec fn replay_rounds(log: Seq<Fp>, k: int, n: int, st: u64, expected: int) -> Option<
    int,
>
    decreases n - k,
{
    if k >= n {
        Some(expected)
    } else {
        let e0 = log[4 * k]@;
        let e1 = log[4 * k + 1]@;
        let e2 = log[4 * k + 2]@;
        let st3 = mix(mix(mix(st, log[4 * k].v), log[4 * k + 1].v), log[4 * k + 2].v);
        let r = squeeze(st3);
        if f_add(e0, e1) == expected && log[4 * k + 3]@ == r {
            replay_rounds(log, k + 1, n, mix(st3, log[4 * k + 3].v), lagrange2(e0, e1, e2, r))
        } else {
            None
        }
    }
}

/// Acceptance of a product sum-check proof log that starts at a fresh
/// transcript: the log has exactly four entries per round plus the two
/// claims, the claimed evaluations equal the logged ones, every round's
/// polynomial sums to the running expectation and its logged challenge
/// equals the replayed one, and the final claims multiply to the last
/// expectation.
pub open spec fn spec_verify(n: nat, claimed_sum: int, claimed_evals: Seq<int>, log: Seq<Fp>) -> bool {
    &&& log.len() == 4 * n + 2
    &&& claimed_evals.len() == 2
    &&& claimed_evals[0] == log[4 * n as int]@
    &&& claimed_evals[1] == log[4 * n as int + 1]@
    &&& match replay_rounds(log, 0, n as int, SEED, claimed_sum) {
        Some(expected) => f_mul(claimed_evals[0], claimed_evals[1]) == expected,
        None => false,
    }
}

/// Evaluates the degree-2 polynomial recorded by its values at 0, 1, 2.
fn eval_degree2_at(e0: Fp, e1: Fp, e2: Fp, r: Fp) -> (v: Fp)
    requires
        e0.valid(),
        e1.valid(),
        e2.valid(),
        r.valid(),
    ensures
        v.valid(),
        v@ == lagrange2(e0@, e1@, e2@, r@),
{
    proof {
        reveal(lagrange2);
    }
    let one = Fp::one();
    let two = Fp { v: 2 };
    let half = Fp { v: HALF };
    let t0 = e0.mul(r.sub(one).mul(r.sub(two)).mul(half));
    let t1 = e1.mul(r.mul(two.sub(r)));
    let t2 = e2.mul(r.mul(r.sub(one)).mul(half));
    t0.add(t1).add(t2)
}

/// The sum-check verifier; it holds no state of its own.
#[derive(Debug, Clone, Copy, PartialEq, Eq, Structural)]
pub struct Verifier {}

impl Verifier {
    /// A verifier.
    pub fn new() -> (v: Verifier) {
        Verifier {  }
    }
}

impl Default for Verifier {
    /// A verifier.
    fn default() -> (v: Verifier) {
        Verifier {  }
    }
}

impl Verifier {
    /// Checks a product sum-check proof log against the claimed sum and the
    /// two claimed final evaluations, and writes the outcome to `verified`.
    /// A malformed or too-short log is a verification failure, never a
    /// panic. The outcome equals `spec_verify` exactly.
    pub fn verify_sumcheck(
        &self,
        var_num: usize,
        claimed_sum: &Fp,
        claimed_evals: &Vec<Fp>,
        proof_log: &Vec<Fp>,
        verified: &mut bool,
    )
        requires
            claimed_sum.valid(),
            all_valid(claimed_evals@),
            all_valid(proof_log@),
        ensures
            *final(verified) == spec_verify(
                var_num as nat,
                claimed_sum@,
                values(claimed_evals@),
                proof_log@,
            ),
    {
        let log_len = proof_log.len();
        if var_num > (usize::MAX - 2) / 4 {
            proof {
                vstd::arithmetic::div_mod::lemma_fundamental_div_mod(
                    usize::MAX as int - 2,
                    4,
                );
                assert(4 * (var_num as int) + 2 > usize::MAX);
            }
            *verified = false;
            return ;
        }
        let expected_len = 4 * var_num + 2;
        if log_len != expected_len {
            *verified = false;
            return ;
        }
        if claimed_evals.len() != 2 {
            *verified = false;
            return ;
        }
        let v0 = claimed_evals[0];
        let v1 = claimed_evals[1];
        if !(v0 == proof_log[4 * var_num] && v1 == proof_log[4 * var_num + 1]) {
            *verified = false;
            return ;
        }
        let mut st: u64 = SEED;
        let mut expected: Fp = *claimed_sum;
        let mut k: usize = 0;
        while k < var_num
            invariant
                k <= var_num,
                4 * var_num + 2 == proof_log@.len(),
                4 * var_num + 2 <= usize::MAX,
                all_valid(proof_log@),
                expected.valid(),
                replay_rounds(proof_log@, 0, var_num as int, SEED, claimed_sum@)
                    == replay_rounds(proof_log@, k as int, var_num as int, st, expected@),
            decreases var_num - k,
        {
            let e0 = proof_log[4 * k];
            let e1 = proof_log[4 * k + 1];
            let e2 = proof_log[4 * k + 2];
            let r_logged = proof_log[4 * k + 3];
            let st3 = crate::transcript::mix_state(
                crate::transcript::mix_state(crate::transcript::mix_state(st, e0.v), e1.v),
                e2.v,
            );
            let r = Fp { v: st3 % MODULUS };
            proof {
                crate::field::lemma_f_mod_range(st3 as int);
            }
            if !(e0.add(e1) == expected && r_logged == r) {
                *verified = false;
                return ;
            }
            expected = eval_degree2_at(e0, e1, e2, r);
            st = crate::transcript::mix_state(st3, r_logged.v);
            k = k + 1;
        }
        *verified = v0.mul(v1) == expected;
    }
}

} // verus!
