use spartan_sha::packed_rows::{
    SumcheckError, bit_at, empty_packed_rows, packed_flat_bit, packed_rows_bit,
    set_flat_packed_bit, validate_shape,
};
use spartan_sha::sha256_checks::{
    SHA256_SHARED_CONSTANT_CELL, Sha256F2zError, instance_vars, validate_chain_statement,
    validate_public_statement, validate_rows, validate_shared_constant, validate_source_params,
};
use spartan_sha::sha256::{Sha256ChainStatement, Sha256CompressionStatement};
use spartan_sha::u128_f2z::{U128MulSpartanF2zError, checked_pow2, validate_bit_rows};
use spartan_sha::u128_mul::IntEvalParams;

fn params(t: usize, s: usize) -> IntEvalParams {
    IntEvalParams { t, s, word_bits: 1 }
}

#[test]
fn empty_rows_have_the_grid_shape() {
    let rows = empty_packed_rows(&params(7, 6));
    assert_eq!(rows.len(), 64);
    assert!(rows.iter().all(|column| column == &vec![0u64; 2]));
    let tiny = empty_packed_rows(&params(3, 1));
    assert_eq!(tiny, vec![vec![0u64; 1]; 2]);
}

#[test]
fn flat_cells_are_row_then_column() {
    let p = params(7, 6);
    let mut rows = empty_packed_rows(&p);
    set_flat_packed_bit(&mut rows, &p, 0);
    set_flat_packed_bit(&mut rows, &p, 1);
    set_flat_packed_bit(&mut rows, &p, 129);
    set_flat_packed_bit(&mut rows, &p, 128 * 64 - 1);
    // Cell 1 is row 1 of column 0; cell 129 is row 1 of column 1.
    assert_eq!(rows[0][0], 0b11);
    assert_eq!(rows[1][0], 0b10);
    assert_eq!(rows[63][1], 1 << 63);
    for flat in [0, 1, 129, 128 * 64 - 1] {
        assert_eq!(packed_rows_bit(&rows, flat), Some(true));
        assert_eq!(packed_flat_bit(&rows, &p, flat), Ok(1));
    }
    for flat in [2, 128, 130, 5000] {
        assert_eq!(packed_rows_bit(&rows, flat), Some(false));
        assert_eq!(packed_flat_bit(&rows, &p, flat), Ok(0));
    }
    // Setting a cell twice keeps it set and touches nothing else.
    set_flat_packed_bit(&mut rows, &p, 129);
    assert_eq!(rows[1][0], 0b10);
}

#[test]
fn packed_rows_bit_infers_the_grid() {
    let p = params(7, 2);
    let mut rows = empty_packed_rows(&p);
    set_flat_packed_bit(&mut rows, &p, 300);
    assert_eq!(packed_rows_bit(&rows, 300), Some(true));
    assert_eq!(packed_rows_bit(&rows, 511), Some(false));
    assert_eq!(packed_rows_bit(&rows, 512), None);
    assert_eq!(packed_rows_bit(&[], 0), None);
    // Three columns is not a power of two.
    assert_eq!(packed_rows_bit(&rows[..3], 0), None);
    // Three words per column is not a power-of-two bit length.
    assert_eq!(packed_rows_bit(&[vec![1, 0, 0], vec![0, 0, 0]], 0), None);
    // Ragged columns.
    assert_eq!(packed_rows_bit(&[vec![1, 0], vec![0]], 0), None);
    assert_eq!(packed_rows_bit(&[vec![0], vec![2]], 65), Some(true));
}

#[test]
fn packed_flat_bit_rejects_out_of_grid_reads() {
    let p = params(7, 2);
    let rows = empty_packed_rows(&p);
    assert_eq!(packed_flat_bit(&rows, &p, 512), Err(SumcheckError::InvalidProductDimensions));
    assert_eq!(packed_flat_bit(&rows[..2], &p, 0), Err(SumcheckError::InvalidProductDimensions));
    let short = vec![vec![0u64; 1]; 4];
    assert_eq!(packed_flat_bit(&short, &p, 63), Ok(0));
    assert_eq!(packed_flat_bit(&short, &p, 64), Err(SumcheckError::InvalidProductDimensions));
}

#[test]
fn source_params_and_rows_are_validated() {
    assert_eq!(validate_source_params(&params(7, 6)), Ok(()));
    assert_eq!(validate_source_params(&params(6, 6)), Err(Sha256F2zError::InvalidGeometry));
    assert_eq!(
        validate_source_params(&IntEvalParams { t: 7, s: 6, word_bits: 2 }),
        Err(Sha256F2zError::InvalidGeometry)
    );
    assert_eq!(validate_source_params(&params(60, 60)), Ok(()));
    assert_eq!(validate_source_params(&params(64, 62)), Err(Sha256F2zError::InvalidGeometry));
    assert_eq!(validate_source_params(&params(63, 63)), Ok(()));
    assert_eq!(validate_source_params(&params(63, 64)), Err(Sha256F2zError::InvalidGeometry));
    assert_eq!(validate_source_params(&params(7, usize::MAX)), Err(Sha256F2zError::InvalidGeometry));

    let p = params(7, 2);
    let rows = empty_packed_rows(&p);
    assert_eq!(validate_rows(&p, &rows), Ok(()));
    assert_eq!(validate_rows(&p, &rows[..3]), Err(Sha256F2zError::InvalidGeometry));
    let mut ragged = rows.clone();
    ragged[2].push(0);
    assert_eq!(validate_rows(&p, &ragged), Err(Sha256F2zError::InvalidGeometry));
    // A 2^3-bit column still takes one word.
    assert_eq!(validate_rows(&params(3, 0), &[vec![0]]), Ok(()));
}

#[test]
fn shared_constant_must_be_set() {
    assert_eq!(SHA256_SHARED_CONSTANT_CELL, 0);
    assert_eq!(validate_shared_constant(&[]), Err(Sha256F2zError::InvalidGeometry));
    assert_eq!(validate_shared_constant(&[vec![]]), Err(Sha256F2zError::InvalidSharedConstant));
    assert_eq!(validate_shared_constant(&[vec![2]]), Err(Sha256F2zError::InvalidSharedConstant));
    assert_eq!(validate_shared_constant(&[vec![3], vec![0]]), Ok(()));
}

#[test]
fn public_statement_length_validation_rejects_mismatched_count() {
    assert!(matches!(
        validate_public_statement(1, &[]),
        Err(Sha256F2zError::InvalidPublicStatementLength { expected: 1, actual: 0 })
    ));
}

#[test]
fn statement_lengths_match_the_instance_count() {
    let statement = Sha256CompressionStatement::new(([0; 8], [0; 16]), [0; 8]);
    assert_eq!(validate_public_statement(2, &[statement, statement]), Ok(()));
    assert_eq!(
        validate_public_statement(2, &[statement]),
        Err(Sha256F2zError::InvalidPublicStatementLength { expected: 2, actual: 1 })
    );
    let chain = Sha256ChainStatement { blocks: vec![[0; 16]; 127], digest: [0; 8] };
    assert_eq!(
        validate_chain_statement(128, &chain),
        Err(Sha256F2zError::InvalidPublicStatementLength { expected: 128, actual: 127 })
    );
    assert_eq!(validate_chain_statement(127, &chain), Ok(()));
}

#[test]
fn instance_vars_is_the_ceiling_log() {
    assert_eq!(instance_vars(0), Ok(0));
    assert_eq!(instance_vars(1), Ok(0));
    assert_eq!(instance_vars(2), Ok(1));
    assert_eq!(instance_vars(3), Ok(2));
    assert_eq!(instance_vars(128), Ok(7));
    assert_eq!(instance_vars(129), Ok(8));
    assert_eq!(instance_vars(1 << 63), Ok(63));
    assert_eq!(instance_vars((1 << 63) + 1), Err(Sha256F2zError::InvalidGeometry));
    assert_eq!(instance_vars(usize::MAX), Err(Sha256F2zError::InvalidGeometry));
}

#[test]
fn u128_bit_rows_and_powers() {
    assert_eq!(checked_pow2(0), Ok(1));
    assert_eq!(checked_pow2(63), Ok(1 << 63));
    assert_eq!(checked_pow2(64), Err(U128MulSpartanF2zError::InvalidF2zParameters));
    assert_eq!(checked_pow2(usize::MAX), Err(U128MulSpartanF2zError::InvalidF2zParameters));

    let p = params(13, 4);
    let rows = vec![vec![0u64; 128]; 16];
    assert_eq!(validate_bit_rows(&p, &rows), Ok(()));
    assert_eq!(validate_bit_rows(&p, &rows[..15]), Err(U128MulSpartanF2zError::InvalidBitRows));
    let mut ragged = rows.clone();
    ragged[0].pop();
    assert_eq!(validate_bit_rows(&p, &ragged), Err(U128MulSpartanF2zError::InvalidBitRows));
    // 2^5 rows do not fill a word.
    assert_eq!(
        validate_bit_rows(&params(5, 0), &[vec![0]]),
        Err(U128MulSpartanF2zError::InvalidBitRows)
    );
    assert_eq!(
        validate_bit_rows(&params(64, 0), &[]),
        Err(U128MulSpartanF2zError::InvalidF2zParameters)
    );
}

#[test]
fn packed_words_read_bits_least_significant_first() {
    let words = [0b1010u64, 1 << 63];
    assert_eq!(bit_at(&words, 0), 0);
    assert_eq!(bit_at(&words, 1), 1);
    assert_eq!(bit_at(&words, 3), 1);
    assert_eq!(bit_at(&words, 127), 1);
    assert_eq!(bit_at(&words, 126), 0);
}

#[test]
fn packed_word_tables_must_be_canonical() {
    // 70 live bits in a 256-entry domain: two live words or four domain words.
    let mut live = vec![u64::MAX, (1 << 6) - 1];
    assert_eq!(validate_shape(&live, 70, 256), Ok(()));
    live.extend([0, 0]);
    assert_eq!(validate_shape(&live, 70, 256), Ok(()));
    live.push(0);
    assert_eq!(validate_shape(&live, 70, 256), Err(SumcheckError::InvalidProductDimensions));
    // A set padding bit in the partial word.
    let padded = vec![0u64, 1 << 6];
    assert_eq!(validate_shape(&padded, 70, 256), Err(SumcheckError::InvalidProductDimensions));
    // A set bit in a padding word.
    let tail = vec![0u64, 0, 0, 1 << 40];
    assert_eq!(validate_shape(&tail, 70, 256), Err(SumcheckError::InvalidProductDimensions));
    // Whole live words leave no partial word to check.
    assert_eq!(validate_shape(&[u64::MAX, u64::MAX], 128, 128), Ok(()));
    assert_eq!(validate_shape(&[], 0, 0), Ok(()));
    assert_eq!(validate_shape(&[1], 0, 64), Err(SumcheckError::InvalidProductDimensions));
}
