//! Matrix-to-MLE encoding for the example drivers: a matrix is laid out
//! row-major (or column-major when transposed) over a power-of-two sized
//! hypercube, optionally with each index's bits reversed, and padded with
//! zeroes.

use crate::field::{all_valid, values, Fp};
use crate::poly::{lemma_pow2_monotone, MultiLinearPoly};
use crate::scratchpad::zero_vec;
use vstd::arithmetic::power2::pow2;
use vstd::pervasive::VecAdditionalExecFns;
use vstd::prelude::*;

verus! {

broadcast use crate::field::lemma_values_update;

/// A dense matrix of field elements, row-major.
pub type Matrix = Vec<Vec<Fp>>;

/// Every row has the same width and every entry is reduced.
pub open spec fn matrix_wf(m: Seq<Vec<Fp>>) -> bool {
    &&& m.len() >= 1
    &&& m[0]@.len() >= 1
    &&& forall|i: int| 0 <= i < m.len() ==> (#[trigger] m[i])@.len() == m[0]@.len()
    &&& forall|i: int| 0 <= i < m.len() ==> all_valid((#[trigger] m[i])@)
}

/// The `w`-bit index with `v`'s low `w` bits in reverse order.
pub open spec fn bit_rev(v: int, w: nat) -> int
    decreases w,
{
    if w == 0 {
        0
    } else {
        (v % 2) * pow2((w - 1) as nat) + bit_rev(v / 2, (w - 1) as nat)
    }
}

/// A reversed `w`-bit index stays a `w`-bit index.
pub proof fn lemma_bit_rev_range(v: int, w: nat)
    requires
        v >= 0,
    ensures
        0 <= bit_rev(v, w) < pow2(w),
    decreases w,
{
    if w == 0 {
        vstd::arithmetic::power::lemma_pow0(2);
    } else {
        lemma_bit_rev_range(v / 2, (w - 1) as nat);
        vstd::arithmetic::power2::lemma_pow2_unfold(w);
        let b = v % 2;
        assert(b == 0 || b == 1);
        assert(b * pow2((w - 1) as nat) <= pow2((w - 1) as nat)) by (nonlinear_arith)
            requires
                b == 0 || b == 1,
                pow2((w - 1) as nat) >= 0,
        ;
        assert(b * pow2((w - 1) as nat) >= 0) by (nonlinear_arith)
            requires
                b == 0 || b == 1,
                pow2((w - 1) as nat) >= 0,
        ;
    }
}

/// The ceiling of the base-2 logarithm: the least `r` with `2^r >= x`.
pub fn log2i(x: usize) -> (r: usize)
    requires
        x >= 1,
    ensures
        pow2(r as nat) >= x,
        r > 0 ==> pow2((r - 1) as nat) < x,
        pow2(r as nat) < 2 * x,
        r < x,
{
    proof {
        vstd::arithmetic::power::lemma_pow0(2);
        assert((x - 1) * pow2(0) == x - 1) by (nonlinear_arith)
            requires
                pow2(0) == 1,
        ;
        assert(x * pow2(0) == x) by (nonlinear_arith)
            requires
                pow2(0) == 1,
        ;
    }
    let mut y: usize = x - 1;
    let mut count: usize = 0;
    while y > 0
        invariant
            count + y <= x - 1,
            y * pow2(count as nat) <= x - 1,
            (y + 1) * pow2(count as nat) >= x,
            count > 0 ==> pow2((count - 1) as nat) < x,
        decreases y,
    {
        proof {
            vstd::arithmetic::power2::lemma_pow2_unfold((count + 1) as nat);
            assert((y / 2) * (2 * pow2(count as nat)) <= y * pow2(count as nat))
                by (nonlinear_arith)
                requires
                    y >= 0,
                    pow2(count as nat) >= 0,
            ;
            assert((y / 2 + 1) * (2 * pow2(count as nat)) >= (y + 1) * pow2(count as nat))
                by (nonlinear_arith)
                requires
                    y >= 0,
                    pow2(count as nat) >= 0,
            ;
            assert(pow2(count as nat) <= y * pow2(count as nat)) by (nonlinear_arith)
                requires
                    y >= 1,
                    pow2(count as nat) >= 0,
            ;
        }
        y = y / 2;
        count = count + 1;
    }
    proof {
        vstd::arithmetic::power2::lemma_pow2_pos(count as nat);
        assert((y + 1) * pow2(count as nat) == pow2(count as nat)) by (nonlinear_arith)
            requires
                y == 0,
        ;
        if count > 0 {
            assert(pow2((count - 1) as nat) < x);
            vstd::arithmetic::power2::lemma_pow2_unfold(count as nat);
        }
    }
    count
}

/// The `bits`-bit reversal of `v`, as the index-placement convention of
/// `matrix_to_mle` uses it.
pub fn rbin(v: usize, bits: usize) -> (r: usize)
    requires
        pow2(bits as nat) <= usize::MAX,
        v < pow2(bits as nat),
    ensures
        r == bit_rev(v as int, bits as nat),
        r < pow2(bits as nat),
{
    proof {
        lemma_bit_rev_range(v as int, bits as nat);
    }
    let mut acc: usize = 0;
    let mut rem: usize = bits;
    let mut cur: usize = v;
    while rem > 0
        invariant
            rem <= bits,
            pow2(bits as nat) <= usize::MAX,
            acc * pow2(rem as nat) + bit_rev(cur as int, rem as nat) == bit_rev(
                v as int,
                bits as nat,
            ),
            0 <= bit_rev(v as int, bits as nat) < pow2(bits as nat),
            acc * pow2(rem as nat) <= bit_rev(v as int, bits as nat),
        decreases rem,
    {
        proof {
            vstd::arithmetic::power2::lemma_pow2_unfold(rem as nat);
            lemma_bit_rev_range(cur as int / 2, (rem - 1) as nat);
            assert((2 * acc + cur % 2) * pow2((rem - 1) as nat) == acc * (2 * pow2(
                (rem - 1) as nat,
            )) + (cur % 2) * pow2((rem - 1) as nat)) by (nonlinear_arith);
            vstd::arithmetic::power2::lemma_pow2_pos((rem - 1) as nat);
            assert((2 * acc + cur % 2) * pow2((rem - 1) as nat) <= bit_rev(
                v as int,
                bits as nat,
            ));
            assert(2 * acc + cur % 2 <= bit_rev(v as int, bits as nat)) by (nonlinear_arith)
                requires
                    (2 * acc + cur % 2) * pow2((rem - 1) as nat) <= bit_rev(v as int, bits as nat),
                    pow2((rem - 1) as nat) >= 1,
                    2 * acc + cur % 2 >= 0,
            ;
        }
        acc = 2 * acc + cur % 2;
        cur = cur / 2;
        rem = rem - 1;
    }
    proof {
        vstd::arithmetic::power::lemma_pow0(2);
        assert(pow2(0) == 1);
        assert(bit_rev(cur as int, 0) == 0);
        assert(acc * 1 == acc) by (nonlinear_arith);
    }
    acc
}

/// Encodes a matrix as a multilinear polynomial. Rows are concatenated
/// (columns, when `transposed`), each dimension padded to a power of two
/// with zeroes; when `reverse_binary_index` is set each entry is placed at
/// the bit-reversed index. Returns the polynomial and the two variable
/// counts. The contract reads the table back: entry `t` holds the matrix
/// entry the placement maps there, and zero where nothing maps.
pub fn matrix_to_mle(matrix: &Matrix, transposed: bool, reverse_binary_index: bool) -> (res: (
    MultiLinearPoly,
    usize,
    usize,
))
    requires
        matrix_wf(matrix@),
        4 * matrix@.len() * matrix@[0]@.len() <= usize::MAX,
    ensures
        ({
            let nvr = res.1 as nat;
            let nvc = res.2 as nat;
            let n = (nvr + nvc) as nat;
            let rows = matrix@.len() as int;
            let cols = matrix@[0]@.len() as int;
            &&& res.0.wf()
            &&& res.0.var_num == res.1 + res.2
            &&& pow2(nvr) >= rows && (res.1 > 0 ==> pow2((nvr - 1) as nat) < rows)
            &&& pow2(nvc) >= cols && (res.2 > 0 ==> pow2((nvc - 1) as nat) < cols)
            &&& forall|t: int|
                0 <= t < pow2(n) ==> values(res.0.evals@)[t] == ({
                    let s = if reverse_binary_index {
                        bit_rev(t, n)
                    } else {
                        t
                    };
                    let i = if transposed {
                        s % pow2(nvr) as int
                    } else {
                        s / pow2(nvc) as int
                    };
                    let j = if transposed {
                        s / pow2(nvr) as int
                    } else {
                        s % pow2(nvc) as int
                    };
                    if i < rows && j < cols {
                        values(matrix@[i]@)[j]
                    } else {
                        0
                    }
                })
        }),
{
    let num_rows = matrix.len();
    let num_cols = matrix[0].len();
    let num_vars_rows = log2i(num_rows);
    let num_vars_cols = log2i(num_cols);
    proof {
        assert(num_rows + num_cols <= 4 * (num_rows as int) * (num_cols as int))
            by (nonlinear_arith)
            requires
                num_rows >= 1,
                num_cols >= 1,
        ;
    }
    let n = num_vars_rows + num_vars_cols;
    proof {
        vstd::arithmetic::power2::lemma_pow2_adds(num_vars_rows as nat, num_vars_cols as nat);
        assert(pow2(num_vars_rows as nat) * pow2(num_vars_cols as nat) <= (2 * num_rows) * (2
            * num_cols)) by (nonlinear_arith)
            requires
                0 <= pow2(num_vars_rows as nat) < 2 * num_rows,
                0 <= pow2(num_vars_cols as nat) < 2 * num_cols,
        ;
        assert((2 * num_rows) * (2 * num_cols) == 4 * (num_rows as int) * (num_cols as int))
            by (nonlinear_arith);
        lemma_pow2_monotone(num_vars_rows as nat, (num_vars_rows + num_vars_cols) as nat);
        lemma_pow2_monotone(num_vars_cols as nat, (num_vars_rows + num_vars_cols) as nat);
    }
    let size_rows = crate::scratchpad::pow2_exec(num_vars_rows);
    let size_cols = crate::scratchpad::pow2_exec(num_vars_cols);
    let size = size_rows * size_cols;
    proof {
        vstd::arithmetic::power2::lemma_pow2_pos(num_vars_rows as nat);
        vstd::arithmetic::power2::lemma_pow2_pos(num_vars_cols as nat);
    }
    let mut poly_evals = zero_vec(size);
    let mut t: usize = 0;
    while t < size
        invariant
            t <= size,
            n == num_vars_rows + num_vars_cols,
            num_rows == matrix@.len(),
            num_cols == matrix@[0]@.len(),
            size == pow2(n as nat),
            pow2(n as nat) <= usize::MAX,
            size == pow2((num_vars_rows + num_vars_cols) as nat),
            size_rows == pow2(num_vars_rows as nat),
            size_cols == pow2(num_vars_cols as nat),
            size_rows >= 1,
            size_cols >= 1,
            size == size_rows * size_cols,
            poly_evals@.len() == size,
            all_valid(poly_evals@),
            matrix_wf(matrix@),
            forall|u: int|
                0 <= u < t ==> values(poly_evals@)[u] == ({
                    let s = if reverse_binary_index {
                        bit_rev(u, (num_vars_rows + num_vars_cols) as nat)
                    } else {
                        u
                    };
                    let i = if transposed {
                        s % pow2(num_vars_rows as nat) as int
                    } else {
                        s / pow2(num_vars_cols as nat) as int
                    };
                    let j = if transposed {
                        s / pow2(num_vars_rows as nat) as int
                    } else {
                        s % pow2(num_vars_cols as nat) as int
                    };
                    if i < matrix@.len() && j < matrix@[0]@.len() {
                        values(matrix@[i]@)[j]
                    } else {
                        0
                    }
                }),
            forall|u: int| t <= u < size ==> values(poly_evals@)[u] == 0,
        decreases size - t,
    {
        let s: usize = if reverse_binary_index {
            rbin(t, n)
        } else {
            t
        };
        let row: usize = if transposed {
            s % size_rows
        } else {
            s / size_cols
        };
        let col: usize = if transposed {
            s / size_rows
        } else {
            s % size_cols
        };
        proof {
            if !transposed {
                assert(s as int / (size_cols as int) < size_rows) by (nonlinear_arith)
                    requires
                        0 <= s < size_rows * size_cols,
                        size_cols >= 1,
                ;
            } else {
                assert(s as int / (size_rows as int) < size_cols) by (nonlinear_arith)
                    requires
                        0 <= s < size_rows * size_cols,
                        size_rows >= 1,
                ;
            }
        }
        if row < num_rows && col < num_cols {
            let x = matrix[row][col];
            poly_evals.set(t, x);
        }
        t = t + 1;
    }
    let poly = MultiLinearPoly { var_num: n, evals: poly_evals };
    (poly, num_vars_rows, num_vars_cols)
}

} // verus!
