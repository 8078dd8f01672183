use num_bigint::BigUint;
use spartan_sha::u128_mul::{
    SelectorMatrix, U128_MUL_BIT_SLOTS, U128_MUL_SLOT_VARS, U128_MUL_X_SLOT_START,
    U128_MUL_Y_SLOT_START, U128_MUL_Z_SLOT_START, U128MulError, U128MulLayout, U128MulWitness,
    mul_u128_full, u128_mul_constraint_matrices,
};

fn inputs(n: usize) -> Vec<(u128, u128)> {
    let mut state = 0x9e37_79b9_7f4a_7c15_u64;
    let mut next = move || {
        state ^= state << 13;
        state ^= state >> 7;
        state ^= state << 17;
        state
    };
    (0..n)
        .map(|index| {
            let wide = |a: u64, b: u64| (u128::from(a) << 64) | u128::from(b);
            match index % 5 {
                0 => (u128::MAX, u128::MAX),
                1 => (0, wide(next(), next())),
                2 => (wide(next(), next()), 1),
                3 => (u128::from(next()), u128::from(next())),
                _ => (wide(next(), next()), wide(next(), next())),
            }
        })
        .collect()
}

fn single(m: &SelectorMatrix, column: usize) -> Option<(usize, bool)> {
    let entries = m.column(column).expect("column in range");
    if entries.len() == 1 { Some(entries[0]) } else { None }
}

#[test]
fn full_product_matches_bigint() {
    for (x, y) in inputs(500) {
        let (lo, hi) = mul_u128_full(x, y);
        let expected = BigUint::from(x) * BigUint::from(y);
        let actual = (BigUint::from(hi) << 128) | BigUint::from(lo);
        assert_eq!(actual, expected, "{x} * {y}");
    }
}

#[test]
fn full_product_edge_values() {
    assert_eq!(mul_u128_full(0, 0), (0, 0));
    assert_eq!(mul_u128_full(1, u128::MAX), (u128::MAX, 0));
    assert_eq!(mul_u128_full(u128::MAX, u128::MAX), (1, u128::MAX - 1));
    assert_eq!(mul_u128_full(1 << 64, 1 << 64), (0, 1));
    assert_eq!(mul_u128_full(1 << 127, 2), (0, 1));
    assert_eq!(mul_u128_full(3, 5), (15, 0));
}

#[test]
fn layout_shapes() {
    let layout = U128MulLayout::new(1000).unwrap();
    assert_eq!(layout.capacity(), 1024);
    assert_eq!(layout.gate_vars(), 10);
    assert_eq!(layout.assignment_len(), 4 * 1024);
    assert_eq!(layout.assignment_vars(), 12);
    let p = layout.f2z_params();
    assert_eq!((p.t, p.s, p.word_bits), (9 + 5, 5, 1));
    assert_eq!(p.rows() * p.cols(), U128_MUL_BIT_SLOTS * layout.capacity());
    assert_eq!(U128_MUL_BIT_SLOTS, 1 << U128_MUL_SLOT_VARS);
    assert_eq!(U128MulLayout::new(0), Err(U128MulError::EmptyBatch));
}

#[test]
fn layout_capacity_is_at_least_256_and_a_power_of_two() {
    let small = U128MulLayout::new(1).unwrap();
    assert_eq!(small.multiplications(), 1);
    assert_eq!(small.capacity(), 256);
    assert_eq!(small.gate_vars(), 8);
    assert_eq!(small.assignment_vars(), 10);
    assert_eq!(U128MulLayout::new(256).unwrap().capacity(), 256);
    assert_eq!(U128MulLayout::new(257).unwrap().capacity(), 512);
    let p = small.f2z_params();
    assert_eq!((p.t, p.s), (13, 4));
    assert_eq!(p.cells(), U128_MUL_BIT_SLOTS * 256);
    let big = U128MulLayout::new(1 << 54).unwrap();
    assert_eq!(big.capacity(), 1 << 54);
    assert_eq!(U128MulLayout::new((1 << 54) + 1), Err(U128MulError::DomainTooLarge));
    assert_eq!(U128MulLayout::new(usize::MAX), Err(U128MulError::DomainTooLarge));
}

#[test]
fn f2z_cell_is_row_major_and_rejects_out_of_range() {
    let layout = U128MulLayout::new(1000).unwrap();
    let s = layout.f2z_params().s;
    let mut seen = vec![false; U128_MUL_BIT_SLOTS * layout.capacity()];
    for slot in 0..U128_MUL_BIT_SLOTS {
        for gate in 0..layout.capacity() {
            let (b, c) = layout.f2z_cell(slot, gate).unwrap();
            assert_eq!((b << s) + c, slot * layout.capacity() + gate);
            assert!(!seen[(b << s) + c]);
            seen[(b << s) + c] = true;
        }
    }
    assert!(seen.iter().all(|&x| x));
    assert_eq!(layout.f2z_cell(U128_MUL_BIT_SLOTS, 0), None);
    assert_eq!(layout.f2z_cell(0, layout.capacity()), None);
}

#[test]
fn bit_rows_match_cell_map_and_transposed_packer() {
    let inputs = inputs(3000);
    let witness = U128MulWitness::from_inputs(&inputs).unwrap();
    let layout = *witness.layout();
    assert_eq!(layout.gate_vars(), 12);
    let rows = witness.f2z_bit_rows();
    let params = layout.f2z_params();
    let mut reference = vec![vec![0_u64; params.rows() / 64]; params.cols()];
    witness.write_bit_rows_bitwise(&mut reference);
    assert_eq!(rows, reference);

    let bit = |slot: usize, gate: usize| {
        let (b, c) = layout.f2z_cell(slot, gate).unwrap();
        (rows[c][b / 64] >> (b % 64)) & 1
    };
    for (gate, &(x, y)) in inputs.iter().enumerate().take(200) {
        let (lo, hi) = mul_u128_full(x, y);
        for j in 0..128 {
            assert_eq!(bit(U128_MUL_X_SLOT_START + j, gate), ((x >> j) & 1) as u64);
            assert_eq!(bit(U128_MUL_Y_SLOT_START + j, gate), ((y >> j) & 1) as u64);
            assert_eq!(bit(U128_MUL_Z_SLOT_START + j, gate), ((lo >> j) & 1) as u64);
            assert_eq!(bit(U128_MUL_Z_SLOT_START + 128 + j, gate), ((hi >> j) & 1) as u64);
        }
    }
    assert_eq!(bit(U128_MUL_X_SLOT_START, 3500), 0);
}

#[test]
fn bitwise_packer_ors_into_existing_rows() {
    let witness = U128MulWitness::from_inputs(&[(1, 1)]).unwrap();
    let layout = *witness.layout();
    let params = layout.f2z_params();
    let mut rows = vec![vec![0_u64; params.rows() / 64]; params.cols()];
    // Pre-set the cell of x's bit 1 at gate 5 (a padding gate).
    let (b, c) = layout.f2z_cell(U128_MUL_X_SLOT_START + 1, 5).unwrap();
    rows[c][b / 64] |= 1 << (b % 64);
    witness.write_bit_rows_bitwise(&mut rows);
    let bit = |slot: usize, gate: usize| {
        let (b, c) = layout.f2z_cell(slot, gate).unwrap();
        (rows[c][b / 64] >> (b % 64)) & 1
    };
    assert_eq!(bit(U128_MUL_X_SLOT_START + 1, 5), 1);
    assert_eq!(bit(U128_MUL_X_SLOT_START, 0), 1);
    assert_eq!(bit(U128_MUL_Y_SLOT_START, 0), 1);
    assert_eq!(bit(U128_MUL_Z_SLOT_START, 0), 1);
    let ones: u32 = rows.iter().flatten().map(|w| w.count_ones()).sum();
    assert_eq!(ones, 4);
}

#[test]
fn witness_holds_operands_and_products() {
    let pairs = inputs(300);
    let witness = U128MulWitness::from_inputs(&pairs).unwrap();
    let capacity = witness.layout().capacity();
    assert_eq!(capacity, 512);
    assert_eq!(witness.x_values().len(), capacity);
    assert_eq!(witness.y_values().len(), capacity);
    assert_eq!(witness.z_lo_values().len(), capacity);
    assert_eq!(witness.z_hi_values().len(), capacity);
    for (index, &(x, y)) in pairs.iter().enumerate() {
        assert_eq!(witness.x_values()[index], x);
        assert_eq!(witness.y_values()[index], y);
        assert_eq!(witness.product(index), mul_u128_full(x, y));
        let words = witness.gate_words(index);
        assert_eq!(words[0], x as u64);
        assert_eq!(words[1], (x >> 64) as u64);
        assert_eq!(words[2], y as u64);
        assert_eq!(words[3], (y >> 64) as u64);
        let (lo, hi) = mul_u128_full(x, y);
        assert_eq!(words[4], lo as u64);
        assert_eq!(words[7], (hi >> 64) as u64);
    }
    for index in 300..capacity {
        assert_eq!(witness.x_values()[index], 0);
        assert_eq!(witness.product(index), (0, 0));
        assert_eq!(witness.gate_words(index), [0; 8]);
    }
}

#[test]
fn witness_from_fn_matches_from_inputs() {
    let pairs = inputs(40);
    let a = U128MulWitness::from_inputs(&pairs).unwrap();
    let b = U128MulWitness::from_fn(40, |index| pairs[index]).unwrap();
    assert_eq!(a, b);
    assert!(matches!(U128MulWitness::from_inputs(&[]), Err(U128MulError::EmptyBatch)));
    assert!(matches!(U128MulWitness::from_fn(0, |_| (1, 1)), Err(U128MulError::EmptyBatch)));
}

#[test]
fn matrices_select_the_expected_columns() {
    let layout = U128MulLayout::new(300).unwrap();
    let matrices = u128_mul_constraint_matrices(&layout).unwrap();
    let capacity = layout.capacity();
    assert_eq!(matrices.a().row_count(), 300);
    assert_eq!(matrices.a().column_count(), layout.assignment_len());
    for row in [0, 1, 299] {
        assert_eq!(single(matrices.a(), capacity + row), Some((row, true)));
        assert_eq!(single(matrices.b(), 2 * capacity + row), Some((row, true)));
        assert_eq!(single(matrices.c(), 3 * capacity + row), Some((row, true)));
    }
    assert!(single(matrices.c(), 0).is_none());
}

#[test]
fn matrices_leave_padding_columns_empty() {
    let layout = U128MulLayout::new(300).unwrap();
    let matrices = u128_mul_constraint_matrices(&layout).unwrap();
    let capacity = layout.capacity();
    assert_eq!(matrices.b().column(2 * capacity + 300).unwrap(), vec![]);
    assert_eq!(matrices.a().column(2 * capacity + 5).unwrap(), vec![]);
    assert!(matrices.a().column(layout.assignment_len()).is_none());
    let nonzero: usize = (0..layout.assignment_len())
        .map(|column| matrices.c().column(column).unwrap().len())
        .sum();
    assert_eq!(nonzero, 300);
}
