use gkr_sumcheck::field::Fp;
use gkr_sumcheck::matmul::{log2i, matrix_to_mle, rbin, Matrix};
use gkr_sumcheck::poly::MultiLinearPoly;

fn fp(x: u32) -> Fp {
    Fp::from_u32(x)
}

fn counting_matrix(rows: usize, cols: usize) -> Matrix {
    let mut count: u32 = 1;
    let mut mat: Matrix = Vec::new();
    for _ in 0..rows {
        let mut row: Vec<Fp> = Vec::new();
        for _ in 0..cols {
            row.push(fp(count));
            count += 1;
        }
        mat.push(row);
    }
    mat
}

#[test]
fn log2i_is_the_ceiling_logarithm() {
    assert_eq!(log2i(1), 0);
    assert_eq!(log2i(2), 1);
    assert_eq!(log2i(3), 2);
    assert_eq!(log2i(4), 2);
    assert_eq!(log2i(5), 3);
    assert_eq!(log2i(1023), 10);
    assert_eq!(log2i(1024), 10);
    assert_eq!(log2i(1025), 11);
}

#[test]
fn rbin_reverses_the_index_bits() {
    assert_eq!(rbin(0, 4), 0);
    assert_eq!(rbin(7, 4), 14);
    assert_eq!(rbin(1, 4), 8);
    assert_eq!(rbin(6, 3), 3);
    assert_eq!(rbin(5, 0), 0);
}

#[test]
fn row_major_encoding_places_entries_in_order() {
    let mat = counting_matrix(4, 4);
    let (mle, nvr, nvc) = matrix_to_mle(&mat, false, false);
    assert_eq!((nvr, nvc), (2, 2));
    assert_eq!(mle.var_num, 4);
    for i in 0..4usize {
        for j in 0..4usize {
            assert_eq!(mle.evals[i * 4 + j], mat[i][j]);
        }
    }
    // transposed: columns are concatenated
    let (tmle, _, _) = matrix_to_mle(&mat, true, false);
    for i in 0..4usize {
        for j in 0..4usize {
            assert_eq!(tmle.evals[j * 4 + i], mat[i][j]);
        }
    }
    // bit-reversed placement
    let (rmle, _, _) = matrix_to_mle(&mat, false, true);
    for i in 0..4usize {
        for j in 0..4usize {
            assert_eq!(rmle.evals[rbin(i * 4 + j, 4)], mat[i][j]);
        }
    }
}

#[test]
fn non_square_matrices_are_padded_with_zeroes() {
    let mat = counting_matrix(3, 2);
    let (mle, nvr, nvc) = matrix_to_mle(&mat, false, false);
    assert_eq!((nvr, nvc), (2, 1));
    assert_eq!(mle.evals.len(), 8);
    for i in 0..3usize {
        for j in 0..2usize {
            assert_eq!(mle.evals[i * 2 + j], mat[i][j]);
        }
    }
    assert_eq!(mle.evals[6], fp(0));
    assert_eq!(mle.evals[7], fp(0));
}

#[test]
fn fixing_the_column_variables_selects_a_column() {
    // a 4x4 matrix encoded row-major over 2 row and 2 column variables:
    // the column index occupies the two low bits, so fixing the first two
    // variables at a boolean point (c0, c1) leaves the column c0 + 2*c1
    let mat = counting_matrix(4, 4);
    let (mle, _, _) = matrix_to_mle(&mat, false, false);
    for c0 in 0..2u32 {
        for c1 in 0..2u32 {
            let col = (c0 + 2 * c1) as usize;
            let picked = mle.fix_variables_multilinear_lsb_first(&vec![fp(c0), fp(c1)]);
            assert_eq!(picked.var_num, 2);
            for r in 0..4usize {
                assert_eq!(picked.evals[r], mat[r][col], "column {} row {}", col, r);
            }
        }
    }
}

#[test]
fn fixing_variables_of_the_bit_reversed_encoding_selects_a_row() {
    // with bit-reversed placement the row index moves to the low bits
    // (highest row bit first), so fixing the first two variables at a
    // boolean point picks one row of the matrix
    let mat = counting_matrix(4, 4);
    let (mle, _, _) = matrix_to_mle(&mat, false, true);
    for b0 in 0..2u32 {
        for b1 in 0..2u32 {
            // b0 fixes the high bit of the row index, b1 the low one
            let row = (2 * b0 + b1) as usize;
            let picked = mle.fix_variables_multilinear_lsb_first(&vec![fp(b0), fp(b1)]);
            assert_eq!(picked.var_num, 2);
            for c in 0..4usize {
                // the remaining variables hold the column bits, high bit first
                let pos = rbin(c, 2);
                assert_eq!(picked.evals[pos], mat[row][c], "row {} col {}", row, c);
            }
        }
    }
}

#[test]
fn reversed_and_plain_encodings_agree_after_reordering_the_point() {
    // evaluating the bit-reversed encoding at a point equals evaluating the
    // plain encoding at the reversed point
    let mat = counting_matrix(4, 4);
    let (plain, _, _) = matrix_to_mle(&mat, false, false);
    let (rev, _, _) = matrix_to_mle(&mat, false, true);
    let pt = vec![fp(3), fp(14), fp(15), fp(92)];
    let tp: Vec<Fp> = pt.iter().rev().cloned().collect();
    let a = MultiLinearPoly::eval_multilinear(&rev.evals, &pt);
    let b = MultiLinearPoly::eval_multilinear(&plain.evals, &tp);
    assert_eq!(a, b);
}
