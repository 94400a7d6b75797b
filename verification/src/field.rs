//! The scalar field all tables and transcript messages live in: integers
//! modulo the Mersenne prime 2^31 - 1, stored reduced in a `u64`.
//!
//! Spec-level arithmetic is expressed by `f_add` / `f_sub` / `f_mul` over
//! `int` residues in `[0, MODULUS)`; every executable operation carries an
//! exact contract relating it to those functions.

use vstd::arithmetic::div_mod::{
    lemma_add_mod_noop, lemma_add_mod_noop_right, lemma_mod_add_multiples_vanish,
    lemma_mod_bound, lemma_mod_multiples_vanish, lemma_mul_mod_noop_left,
    lemma_mul_mod_noop_right, lemma_small_mod, lemma_sub_mod_noop, lemma_sub_mod_noop_right,
};
use vstd::prelude::*;

verus! {

/// The field modulus, the Mersenne prime 2^31 - 1.
pub const MODULUS: u64 = 0x7fff_ffff;

/// The multiplicative inverse of 2 modulo `MODULUS` (2^30, since
/// 2 * 2^30 = 2^31 = MODULUS + 1).
pub const HALF: u64 = 0x4000_0000;

/// A field element, kept reduced: `0 <= v < MODULUS`.
#[derive(Debug, Clone, Copy, PartialEq, Eq, Structural)]
pub struct Fp {
    pub v: u64,
}

impl View for Fp {
    type V = int;

    open spec fn view(&self) -> int {
        self.v as int
    }
}

impl Fp {
    /// A field element is well-formed when its representative is reduced.
    pub open spec fn valid(self) -> bool {
        self.v < MODULUS
    }
}

/// Residue of an arbitrary integer.
pub open spec fn f_mod(a: int) -> int {
    a % (MODULUS as int)
}

/// Field addition on residues.
pub open spec fn f_add(a: int, b: int) -> int {
    (a + b) % (MODULUS as int)
}

/// Field subtraction on residues.
pub open spec fn f_sub(a: int, b: int) -> int {
    (a - b) % (MODULUS as int)
}

/// Field multiplication on residues.
pub open spec fn f_mul(a: int, b: int) -> int {
    (a * b) % (MODULUS as int)
}

impl Fp {
    /// The additive identity.
    pub fn zero() -> (r: Fp)
        ensures
            r@ == 0,
            r.valid(),
    {
        Fp { v: 0 }
    }

    /// The multiplicative identity.
    pub fn one() -> (r: Fp)
        ensures
            r@ == 1,
            r.valid(),
    {
        Fp { v: 1 }
    }

    /// Embeds a machine integer into the field by reduction.
    pub fn from_u64(x: u64) -> (r: Fp)
        ensures
            r@ == f_mod(x as int),
            r.valid(),
    {
        Fp { v: x % MODULUS }
    }

    /// Embeds a machine integer into the field by reduction.
    pub fn from_u32(x: u32) -> (r: Fp)
        ensures
            r@ == f_mod(x as int),
            r.valid(),
    {
        Fp { v: (x as u64) % MODULUS }
    }

    /// Field addition.
    pub fn add(self, o: Fp) -> (r: Fp)
        requires
            self.valid(),
            o.valid(),
        ensures
            r@ == f_add(self@, o@),
            r.valid(),
    {
        proof {
            lemma_mod_bound(self@ + o@, MODULUS as int);
        }
        Fp { v: (self.v + o.v) % MODULUS }
    }

    /// Field subtraction.
    pub fn sub(self, o: Fp) -> (r: Fp)
        requires
            self.valid(),
            o.valid(),
        ensures
            r@ == f_sub(self@, o@),
            r.valid(),
    {
        proof {
            lemma_mod_add_multiples_vanish(self@ - o@, MODULUS as int);
            lemma_mod_bound(self@ - o@, MODULUS as int);
        }
        Fp { v: (self.v + MODULUS - o.v) % MODULUS }
    }

    /// Field multiplication.
    pub fn mul(self, o: Fp) -> (r: Fp)
        requires
            self.valid(),
            o.valid(),
        ensures
            r@ == f_mul(self@, o@),
            r.valid(),
    {
        proof {
            assert(self@ * o@ <= (MODULUS - 1) * (MODULUS - 1)) by (nonlinear_arith)
                requires
                    0 <= self@ < MODULUS as int,
                    0 <= o@ < MODULUS as int,
            ;
            lemma_mod_bound(self@ * o@, MODULUS as int);
        }
        Fp { v: (self.v * o.v) % MODULUS }
    }
}

/// The residues of a table of field elements, the form all contracts speak of.
pub open spec fn values(s: Seq<Fp>) -> Seq<int> {
    s.map_values(|x: Fp| x@)
}

/// Appending an element appends its residue.
pub broadcast proof fn lemma_values_push(s: Seq<Fp>, x: Fp)
    ensures
        #[trigger] values(s.push(x)) == values(s).push(x@),
{
    assert(values(s.push(x)) =~= values(s).push(x@));
}

/// Replacing an element replaces its residue.
pub broadcast proof fn lemma_values_update(s: Seq<Fp>, i: int, x: Fp)
    requires
        0 <= i < s.len(),
    ensures
        #[trigger] values(s.update(i, x)) == values(s).update(i, x@),
{
    assert(values(s.update(i, x)) =~= values(s).update(i, x@));
}

/// Every element of a table is reduced.
pub open spec fn all_valid(s: Seq<Fp>) -> bool {
    forall|i: int| 0 <= i < s.len() ==> (#[trigger] s[i]).valid()
}

/// A sequence of residues, all in `[0, MODULUS)`.
pub open spec fn all_reduced(s: Seq<int>) -> bool {
    forall|i: int| 0 <= i < s.len() ==> 0 <= #[trigger] s[i] < MODULUS as int
}

/// A table of reduced elements has reduced residues.
pub proof fn lemma_all_valid_reduced(s: Seq<Fp>)
    requires
        all_valid(s),
    ensures
        all_reduced(values(s)),
{
    assert forall|i: int| 0 <= i < values(s).len() implies 0 <= #[trigger] values(s)[i]
        < MODULUS as int by {
        assert(s[i].valid());
    }
}

/// Any residue is in range.
pub proof fn lemma_f_mod_range(a: int)
    ensures
        0 <= f_mod(a) < MODULUS as int,
{
    lemma_mod_bound(a, MODULUS as int);
}

/// A value already in range is its own residue.
pub proof fn lemma_f_mod_small(a: int)
    requires
        0 <= a < MODULUS as int,
    ensures
        f_mod(a) == a,
{
    lemma_small_mod(a as nat, MODULUS as nat);
}

/// Reducing the left summand first does not change the sum's residue.
pub proof fn lemma_add_mod_left(x: int, y: int)
    ensures
        f_add(f_mod(x), y) == f_mod(x + y),
{
    let m = MODULUS as int;
    lemma_add_mod_noop(x, y, m);
    lemma_add_mod_noop_right(x % m, y, m);
}

/// Reducing the right summand first does not change the sum's residue.
pub proof fn lemma_add_mod_right(x: int, y: int)
    ensures
        f_add(x, f_mod(y)) == f_mod(x + y),
{
    lemma_add_mod_noop_right(x, y, MODULUS as int);
}

/// Reducing the minuend first does not change the difference's residue.
pub proof fn lemma_sub_mod_left(x: int, y: int)
    ensures
        f_sub(f_mod(x), y) == f_mod(x - y),
{
    let m = MODULUS as int;
    lemma_sub_mod_noop(x, y, m);
    lemma_sub_mod_noop_right(x % m, y, m);
}

/// Reducing the subtrahend first does not change the difference's residue.
pub proof fn lemma_sub_mod_right(x: int, y: int)
    ensures
        f_sub(x, f_mod(y)) == f_mod(x - y),
{
    lemma_sub_mod_noop_right(x, y, MODULUS as int);
}

/// Reducing the left factor first does not change the product's residue.
pub proof fn lemma_mul_mod_left(x: int, y: int)
    ensures
        f_mul(f_mod(x), y) == f_mod(x * y),
{
    lemma_mul_mod_noop_left(x, y, MODULUS as int);
}

/// Reducing the right factor first does not change the product's residue.
pub proof fn lemma_mul_mod_right(x: int, y: int)
    ensures
        f_mul(x, f_mod(y)) == f_mod(x * y),
{
    lemma_mul_mod_noop_right(x, y, MODULUS as int);
}

/// Reducing both summands first does not change the sum's residue.
pub proof fn lemma_add_mods(x: int, y: int)
    ensures
        f_add(f_mod(x), f_mod(y)) == f_mod(x + y),
{
    lemma_add_mod_left(x, f_mod(y));
    lemma_add_mod_right(x, y);
}

/// Reducing both factors first does not change the product's residue.
pub proof fn lemma_mul_mods(x: int, y: int)
    ensures
        f_mul(f_mod(x), f_mod(y)) == f_mod(x * y),
{
    lemma_mul_mod_left(x, f_mod(y));
    lemma_mul_mod_right(x, y);
}

/// Replacing a summand by one with the same residue keeps the sum's residue.
pub proof fn lemma_mod_subst_add(a: int, b: int, c: int)
    requires
        f_mod(a) == f_mod(b),
    ensures
        f_mod(a + c) == f_mod(b + c),
{
    lemma_add_mod_left(a, c);
    lemma_add_mod_left(b, c);
}

/// Two is invertible: equal residues of doubled values have equal residues.
pub proof fn lemma_halve_cancel(x: int, y: int)
    requires
        f_mod(2 * x) == f_mod(2 * y),
    ensures
        f_mod(x) == f_mod(y),
{
    let m = MODULUS as int;
    let h = HALF as int;
    assert(h * (2 * x) == m * x + x) by (nonlinear_arith)
        requires
            h == 0x4000_0000,
            m == 0x7fff_ffff,
    ;
    assert(h * (2 * y) == m * y + y) by (nonlinear_arith)
        requires
            h == 0x4000_0000,
            m == 0x7fff_ffff,
    ;
    lemma_mod_multiples_vanish(x, x, m);
    lemma_mod_multiples_vanish(y, y, m);
    lemma_mul_mod_noop_right(h, 2 * x, m);
    lemma_mul_mod_noop_right(h, 2 * y, m);
}

} // verus!
