//! Append-only Fiat-Shamir transcript. Every prover message is absorbed
//! into a deterministic 64-bit mixing state and recorded in the proof log;
//! a challenge is derived from the current state alone, so a verifier that
//! replays the log derives byte-identical challenges. Challenges are
//! themselves absorbed and logged, so the log is the complete record of one
//! protocol run.
//!
//! The mixing step is a fixed, fully specified 64-bit multiply-and-xor
//! mixer. Determinism and reproducibility are all the verified properties
//! rely on; it stands in for the protocol's hash capability and makes no
//! collision-resistance claim.

use crate::field::{all_valid, Fp, MODULUS};
use vstd::prelude::*;

verus! {

/// Initial mixing state of a fresh transcript.
pub const SEED: u64 = 0x6a09_e667_f3bc_c908;

/// Multiplier applied to an absorbed message word.
pub const MIX_A: u64 = 0x9e37_79b9_7f4a_7c15;

/// Multiplier applied to the running state.
pub const MIX_B: u64 = 0xbf58_476d_1ce4_e5b9;

/// Additive constant of one mixing step.
pub const MIX_C: u64 = 0x94d0_49bb_1331_11eb;

/// One absorption step: how a message word changes the mixing state.
#[verifier::opaque]
pub open spec fn mix(s: u64, x: u64) -> u64 {
    vstd::wrapping::u64_specs::wrapping_add(
        vstd::wrapping::u64_specs::wrapping_mul(
            s ^ vstd::wrapping::u64_specs::wrapping_mul(x, MIX_A),
            MIX_B,
        ),
        MIX_C,
    )
}

/// The residue a challenge takes when the state is `s`.
pub open spec fn squeeze(s: u64) -> int {
    (s as int) % (MODULUS as int)
}

/// The mixing state after absorbing a whole log, first entry first.
pub open spec fn absorb_all(s: u64, log: Seq<Fp>) -> u64
    decreases log.len(),
{
    if log.len() == 0 {
        s
    } else {
        absorb_all(mix(s, log[0].v), log.drop_first())
    }
}

/// Absorbing one more entry mixes it into the state of the prefix.
pub proof fn lemma_absorb_all_snoc(s: u64, log: Seq<Fp>, x: Fp)
    ensures
        absorb_all(s, log.push(x)) == mix(absorb_all(s, log), x.v),
    decreases log.len(),
{
    let l1 = log.push(x);
    assert(absorb_all(s, l1) == absorb_all(mix(s, l1[0].v), l1.drop_first()));
    if log.len() == 0 {
        assert(l1.drop_first() =~= log);
    } else {
        assert(l1[0] == log[0]);
        assert(l1.drop_first() =~= log.drop_first().push(x));
        lemma_absorb_all_snoc(mix(s, log[0].v), log.drop_first(), x);
    }
}

/// The mixing state after absorbing a sequence of residues, first first.
pub open spec fn absorb_vals(s: u64, vals: Seq<int>) -> u64
    decreases vals.len(),
{
    if vals.len() == 0 {
        s
    } else {
        absorb_vals(mix(s, vals[0] as u64), vals.drop_first())
    }
}

/// Absorbing one more residue mixes it into the state of the prefix.
pub proof fn lemma_absorb_vals_snoc(s: u64, vals: Seq<int>, x: int)
    ensures
        absorb_vals(s, vals.push(x)) == mix(absorb_vals(s, vals), x as u64),
    decreases vals.len(),
{
    let l1 = vals.push(x);
    assert(absorb_vals(s, l1) == absorb_vals(mix(s, l1[0] as u64), l1.drop_first()));
    if vals.len() == 0 {
        assert(l1.drop_first() =~= vals);
    } else {
        assert(l1[0] == vals[0]);
        assert(l1.drop_first() =~= vals.drop_first().push(x));
        lemma_absorb_vals_snoc(mix(s, vals[0] as u64), vals.drop_first(), x);
    }
}

/// The entry at `p` is a Fiat-Shamir challenge: it equals the squeeze of
/// the state obtained by absorbing everything logged before it.
pub open spec fn fs_challenge_at(log: Seq<Fp>, p: int) -> bool {
    log[p]@ == squeeze(absorb_all(SEED, log.subrange(0, p)))
}

/// Being a Fiat-Shamir challenge depends only on the log up to and
/// including the entry, so any extension keeps it.
pub proof fn lemma_fs_challenge_preserved(l1: Seq<Fp>, l2: Seq<Fp>, p: int)
    requires
        0 <= p < l1.len(),
        l1.len() <= l2.len(),
        forall|j: int| 0 <= j < l1.len() ==> l2[j] == l1[j],
        fs_challenge_at(l1, p),
    ensures
        fs_challenge_at(l2, p),
{
    assert(l2.subrange(0, p) =~= l1.subrange(0, p));
}

/// One mixing step, executable.
pub fn mix_state(s: u64, x: u64) -> (r: u64)
    ensures
        r == mix(s, x),
{
    proof {
        reveal(mix);
    }
    (s ^ x.wrapping_mul(MIX_A)).wrapping_mul(MIX_B).wrapping_add(MIX_C)
}

/// Fiat-Shamir state: the ordered proof log of all field elements exchanged
/// so far, and the mixing state they have been absorbed into.
#[derive(Debug, Clone)]
pub struct Transcript {
    /// Every appended message and every derived challenge, in order.
    pub proof_log: Vec<Fp>,
    /// Current mixing state.
    pub state: u64,
}

impl Transcript {
    /// The state always equals the absorption of the whole log from the
    /// seed, and the log holds only reduced elements.
    pub open spec fn wf(self) -> bool {
        &&& self.state == absorb_all(SEED, self.proof_log@)
        &&& all_valid(self.proof_log@)
    }

    /// A fresh, empty transcript.
    pub fn new() -> (t: Transcript)
        ensures
            t.proof_log@ == Seq::<Fp>::empty(),
            t.state == SEED,
            t.wf(),
    {
        let t = Transcript { proof_log: Vec::new(), state: SEED };
        proof {
            assert(t.proof_log@ =~= Seq::<Fp>::empty());
        }
        t
    }

    /// Absorbs one prover message and records it in the log.
    pub fn append_f(&mut self, f: Fp)
        requires
            old(self).wf(),
            f.valid(),
        ensures
            final(self).wf(),
            final(self).proof_log@ == old(self).proof_log@.push(f),
            final(self).state == mix(old(self).state, f.v),
    {
        proof {
            lemma_absorb_all_snoc(SEED, self.proof_log@, f);
        }
        self.state = mix_state(self.state, f.v);
        self.proof_log.push(f);
    }

    /// Derives the next challenge from the current state, then absorbs and
    /// records it so later challenges depend on it, as the verifier's replay
    /// expects. The logged entry is pinned as the squeeze of the absorbed
    /// log prefix before it.
    pub fn challenge_f(&mut self) -> (c: Fp)
        requires
            old(self).wf(),
        ensures
            c.valid(),
            c@ == squeeze(old(self).state),
            final(self).wf(),
            final(self).proof_log@ == old(self).proof_log@.push(c),
            final(self).state == mix(old(self).state, c.v),
            fs_challenge_at(final(self).proof_log@, old(self).proof_log@.len() as int),
    {
        let c = Fp { v: self.state % MODULUS };
        proof {
            lemma_absorb_all_snoc(SEED, self.proof_log@, c);
        }
        self.state = mix_state(self.state, c.v);
        self.proof_log.push(c);
        proof {
            assert(self.proof_log@.subrange(0, self.proof_log@.len() - 1) =~= old(
                self,
            ).proof_log@);
        }
        c
    }
}

} // verus!
