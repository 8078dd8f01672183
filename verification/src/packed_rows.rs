//! Flat packed Boolean grids: cell `j` of a `2^t × 2^s` grid is bit
//! `j mod 2^t` of column `j / 2^t`, stored least-significant bit first in
//! 64-bit words.

use vstd::arithmetic::power2::*;
use vstd::bits::*;
use vstd::prelude::*;

use crate::u128_mul::IntEvalParams;

verus! {

/// Failures of the sumcheck layer that concern table shapes and claims.
#[derive(Clone, Copy, Debug, PartialEq, Eq, Structural)]
pub enum SumcheckError {
    /// A round polynomial must contain at least one coefficient.
    EmptyRoundPolynomial,
    /// The proof has the wrong number of rounds.
    InvalidRoundCount { expected: usize, actual: usize },
    /// A round polynomial is inconsistent with the running claim.
    InvalidRoundClaim { round: usize },
    /// The terminal claim is inconsistent.
    InvalidTerminalClaim,
    /// Product tables have incompatible dimensions.
    InvalidProductDimensions,
    /// Equality tables have incompatible dimensions.
    InvalidEqualityDimensions,
    /// A native multiplicand is wider than 32 bits.
    NativeMultiplicandOutOfRange,
    /// A dense multilinear-extension table is invalid.
    InvalidMleOperation,
    /// A value uses a different field configuration.
    FieldConfigurationMismatch,
    /// A value has a noncanonical field representation.
    NonCanonicalFieldElement,
    /// The proof has the wrong number of grinding nonces.
    InvalidGrindingNonceCount { expected: usize, actual: usize },
}

/// Words per packed column of `2^t` bits.
pub open spec fn words_per_column(t: nat) -> nat {
    ((pow2(t) + 63) / 64) as nat
}

/// `rows` has `2^s` columns of `words_per_column(t)` words each.
pub open spec fn packed_shape(rows: Seq<Vec<u64>>, t: nat, s: nat) -> bool {
    &&& rows.len() == pow2(s)
    &&& forall|c: int| 0 <= c < rows.len() ==> #[trigger] rows[c]@.len() == words_per_column(t)
}

/// Bit `k` of a 64-bit word.
pub open spec fn word_bit64(word: u64, k: nat) -> bool {
    (word >> (k as u64)) & 1u64 == 1u64
}

/// Cell `j` of the flat sequence: bit `j mod 2^t` of column `j / 2^t`.
pub open spec fn flat_bit(rows: Seq<Vec<u64>>, t: nat, j: nat) -> bool {
    let row = j % pow2(t);
    word_bit64(rows[(j / pow2(t)) as int]@[(row / 64) as int], row % 64)
}

/// Cells of a `2^t × 2^s` grid.
pub open spec fn grid_cells(t: nat, s: nat) -> nat {
    pow2(t + s)
}

proof fn lemma_cell_coordinates(t: nat, s: nat, j: nat)
    requires
        j < pow2(t + s),
    ensures
        j / pow2(t) < pow2(s),
        j % pow2(t) < pow2(t),
        (j % pow2(t)) / 64 < words_per_column(t),
        j == pow2(t) * (j / pow2(t)) + j % pow2(t),
{
    lemma_pow2_pos(t);
    lemma_pow2_adds(t, s);
    vstd::arithmetic::div_mod::lemma_fundamental_div_mod(j as int, pow2(t) as int);
    vstd::arithmetic::div_mod::lemma_mod_bound(j as int, pow2(t) as int);
    vstd::arithmetic::mul::lemma_mul_is_commutative(pow2(t) as int, pow2(s) as int);
    vstd::arithmetic::div_mod::lemma_multiply_divide_lt(j as int, pow2(t) as int, pow2(s) as int);
    vstd::arithmetic::div_mod::lemma_div_is_ordered((j % pow2(t)) as int, (pow2(t) + 63) as int, 64);
    assert((j % pow2(t)) / 64 < (pow2(t) + 63) / 64) by {
        vstd::arithmetic::div_mod::lemma_fundamental_div_mod((pow2(t) + 63) as int, 64);
        vstd::arithmetic::div_mod::lemma_fundamental_div_mod((j % pow2(t)) as int, 64);
    }
}

proof fn lemma_cells_determine_index(t: nat, j1: nat, j2: nat)
    requires
        j1 / pow2(t) == j2 / pow2(t),
        j1 % pow2(t) == j2 % pow2(t),
    ensures
        j1 == j2,
{
    lemma_pow2_pos(t);
    vstd::arithmetic::div_mod::lemma_fundamental_div_mod(j1 as int, pow2(t) as int);
    vstd::arithmetic::div_mod::lemma_fundamental_div_mod(j2 as int, pow2(t) as int);
}

proof fn lemma_split_row(r1: nat, r2: nat)
    requires
        r1 / 64 == r2 / 64,
        r1 % 64 == r2 % 64,
    ensures
        r1 == r2,
{
    vstd::arithmetic::div_mod::lemma_fundamental_div_mod(r1 as int, 64);
    vstd::arithmetic::div_mod::lemma_fundamental_div_mod(r2 as int, 64);
}

/// Zeroed rows of the grid's shape: `2^s` columns of `⌈2^t / 64⌉` words.
pub fn empty_packed_rows(params: &IntEvalParams) -> (rows: Vec<Vec<u64>>)
    requires
        params.t < usize::BITS,
        params.s < usize::BITS,
    ensures
        packed_shape(rows@, params.t as nat, params.s as nat),
        forall|c: int, k: int|
            0 <= c < rows@.len() && 0 <= k < rows@[c]@.len() ==> #[trigger] rows@[c]@[k] == 0u64,
        forall|j: nat|
            j < grid_cells(params.t as nat, params.s as nat) ==> !#[trigger] flat_bit(
                rows@,
                params.t as nat,
                j,
            ),
{
    let t = params.t;
    proof {
        lemma_usize_pow2_no_overflow(t as nat);
        if t < usize::BITS - 1 {
            lemma_pow2_strictly_increases(t as nat, (usize::BITS - 1) as nat);
        }
    }
    let row_bits = params.rows();
    proof {
        if usize::BITS == 64 {
            lemma2_to64_rest();
        } else {
            lemma2_to64();
        }
        assert(row_bits <= pow2((usize::BITS - 1) as nat));
    }
    let words = (row_bits + 63) / 64;
    let cols = params.cols();
    let mut rows: Vec<Vec<u64>> = Vec::new();
    for c in 0..cols
        invariant
            rows.len() == c,
            words == words_per_column(t as nat),
            forall|i: int| 0 <= i < c ==> #[trigger] rows[i]@.len() == words,
            forall|i: int, k: int|
                0 <= i < c && 0 <= k < words ==> #[trigger] rows@[i]@[k] == 0u64,
    {
        let mut column: Vec<u64> = Vec::new();
        for k in 0..words
            invariant
                column.len() == k,
                forall|i: int| 0 <= i < k ==> #[trigger] column@[i] == 0u64,
        {
            column.push(0u64);
        }
        rows.push(column);
    }
    proof {
        assert forall|j: nat| j < grid_cells(params.t as nat, params.s as nat) implies !#[trigger] flat_bit(
            rows@,
            params.t as nat,
            j,
        ) by {
            lemma_cell_coordinates(t as nat, params.s as nat, j);
            let k = ((j % pow2(t as nat)) % 64) as u64;
            assert((0u64 >> k) & 1u64 == 0u64) by (bit_vector);
        }
    }
    rows
}

/// Sets flat cell `flat_cell` of a packed grid.
pub fn set_flat_packed_bit(rows: &mut Vec<Vec<u64>>, params: &IntEvalParams, flat_cell: usize)
    requires
        params.t + params.s < usize::BITS,
        packed_shape(old(rows)@, params.t as nat, params.s as nat),
        flat_cell < grid_cells(params.t as nat, params.s as nat),
    ensures
        packed_shape(final(rows)@, params.t as nat, params.s as nat),
        forall|j: nat|
            j < grid_cells(params.t as nat, params.s as nat) ==> #[trigger] flat_bit(
                final(rows)@,
                params.t as nat,
                j,
            ) == (flat_bit(old(rows)@, params.t as nat, j) || j == flat_cell),
{
    let t = params.t;
    let ghost s = params.s as nat;
    proof {
        lemma_usize_pow2_no_overflow(t as nat);
        lemma_cell_coordinates(t as nat, s, flat_cell as nat);
        lemma_usize_shr_is_div(flat_cell, t);
        lemma_usize_low_bits_mask_is_mod(flat_cell, t as nat);
        lemma_pow2_pos(t as nat);
    }
    let row_bits = params.rows();
    let column = flat_cell >> t;
    let row = flat_cell & (row_bits - 1);
    let ghost old_rows = rows@;
    let word = row / 64;
    let bit = row % 64;
    rows[column][word] |= 1u64 << (bit as u64);
    proof {
        let new_rows = rows@;
        assert forall|c: int| 0 <= c < new_rows.len() implies #[trigger] new_rows[c]@.len()
            == words_per_column(t as nat) by {
            if c != column {
                assert(new_rows[c] == old_rows[c]);
            }
        }
        assert forall|j: nat| j < grid_cells(t as nat, s) implies #[trigger] flat_bit(
            new_rows,
            t as nat,
            j,
        ) == (flat_bit(old_rows, t as nat, j) || j == flat_cell) by {
            lemma_cell_coordinates(t as nat, s, j);
            let cj = (j / pow2(t as nat)) as int;
            let rj = j % pow2(t as nat);
            if cj != column {
                assert(new_rows[cj] == old_rows[cj]);
                if j == flat_cell {
                    assert(false);
                }
            } else if rj / 64 != word {
                if j == flat_cell {
                    assert(false);
                }
            } else {
                let w = old_rows[cj]@[word as int];
                let k = (rj % 64) as u64;
                let k0 = bit as u64;
                assert(((w | (1u64 << k0)) >> k) & 1u64 == 1u64 <==> ((w >> k) & 1u64 == 1u64 || k
                    == k0)) by (bit_vector)
                    requires
                        k0 < 64,
                        k < 64,
                ;
                if k == k0 {
                    lemma_split_row(rj, row as nat);
                    lemma_cells_determine_index(t as nat, j, flat_cell as nat);
                } else if j == flat_cell {
                    assert(false);
                }
            }
        }
    }
}

/// `n` is a power of two.
pub open spec fn is_power_of_two(n: nat) -> bool {
    exists|e: nat| pow2(e) == n
}

/// The exponent of a power of two.
pub open spec fn log2_of(n: nat) -> nat {
    choose|e: nat| pow2(e) == n
}

proof fn lemma_log2_of(n: nat, e: nat)
    requires
        pow2(e) == n,
    ensures
        is_power_of_two(n),
        log2_of(n) == e,
{
    let f = log2_of(n);
    assert(pow2(f) == n);
    if f < e {
        lemma_pow2_strictly_increases(f, e);
    } else if e < f {
        lemma_pow2_strictly_increases(e, f);
    }
}

proof fn lemma_pow2_beyond_usize(f: nat)
    requires
        f >= usize::BITS,
    ensures
        pow2(f) > usize::MAX,
{
    if usize::BITS == 64 {
        lemma2_to64_rest();
    } else {
        lemma2_to64();
    }
    if f > usize::BITS {
        lemma_pow2_strictly_increases(usize::BITS as nat, f);
    }
}

/// The exponent `k` with `2^k == n`, if `n` is a power of two.
fn exact_log2(n: usize) -> (k: Option<usize>)
    ensures
        k matches Some(e) ==> e < usize::BITS && pow2(e as nat) == n,
        k is None ==> !is_power_of_two(n as nat),
{
    let bits = usize::BITS as usize;
    for e in 0..bits
        invariant
            bits == usize::BITS,
            forall|f: nat| f < e ==> #[trigger] pow2(f) != n,
    {
        proof {
            lemma_usize_pow2_no_overflow(e as nat);
            lemma_usize_shl_is_mul(1, e);
        }
        if (1usize << e) == n {
            return Some(e);
        }
    }
    proof {
        assert forall|f: nat| #[trigger] pow2(f) != n by {
            if f >= usize::BITS {
                lemma_pow2_beyond_usize(f);
            }
        }
    }
    None
}

/// What [`packed_rows_bit`] reads: `None` unless the rows form a grid of
/// power-of-two many columns of one power-of-two bit length `2^t`, and
/// `flat` falls inside it; then cell `flat` under row variables `t`.
pub open spec fn packed_rows_reading(rows: Seq<Vec<u64>>, flat: nat) -> Option<bool> {
    if rows.len() == 0 {
        None
    } else {
        let bits = rows[0]@.len() * 64;
        if bits > usize::MAX || !is_power_of_two(rows.len()) || !is_power_of_two(bits) || (exists|c: int|
            0 <= c < rows.len() && #[trigger] rows[c]@.len() != rows[0]@.len()) || flat / bits
            >= rows.len() {
            None
        } else {
            Some(flat_bit(rows, log2_of(bits), flat))
        }
    }
}

/// Reads cell `flat_cell` of packed rows whose grid shape is inferred from
/// the rows themselves.
pub fn packed_rows_bit(rows: &[Vec<u64>], flat_cell: usize) -> (bit: Option<bool>)
    ensures
        bit == packed_rows_reading(rows@, flat_cell as nat),
{
    let columns = rows.len();
    if columns == 0 {
        return None;
    }
    let words_per_column = rows[0].len();
    if words_per_column > usize::MAX / 64 {
        return None;
    }
    let rows_per_column = words_per_column * 64;
    let column_exponent = exact_log2(columns);
    let row_exponent = exact_log2(rows_per_column);
    if column_exponent.is_none() {
        return None;
    }
    let t = match row_exponent {
        Some(t) => t,
        None => return None,
    };
    for c in 0..columns
        invariant
            columns == rows@.len(),
            words_per_column == rows@[0]@.len(),
            forall|d: int| 0 <= d < c ==> #[trigger] rows@[d]@.len() == words_per_column,
    {
        if rows[c].len() != words_per_column {
            return None;
        }
    }
    proof {
        lemma_log2_of(rows_per_column as nat, t as nat);
        lemma_usize_shr_is_div(flat_cell, t);
        lemma_usize_low_bits_mask_is_mod(flat_cell, t as nat);
        lemma_pow2_pos(t as nat);
        vstd::arithmetic::div_mod::lemma_mod_bound(flat_cell as int, pow2(t as nat) as int);
        assert((flat_cell as nat % pow2(t as nat)) / 64 < words_per_column) by {
            vstd::arithmetic::div_mod::lemma_fundamental_div_mod(
                (flat_cell as nat % pow2(t as nat)) as int,
                64,
            );
        }
    }
    let column = flat_cell >> t;
    let row = flat_cell & (rows_per_column - 1);
    if column >= columns {
        return None;
    }
    let words = &rows[column];
    Some((words[row / 64] >> ((row % 64) as u64)) & 1 == 1)
}

/// Reads flat cell `flat_cell` of the `2^t × 2^s` grid `p` as `0` or `1`.
pub fn packed_flat_bit(rows: &[Vec<u64>], p: &IntEvalParams, flat_cell: usize) -> (bit: Result<
    u64,
    SumcheckError,
>)
    requires
        p.t + p.s < usize::BITS,
    ensures
        ({
            let t = p.t as nat;
            let row = flat_cell as nat % pow2(t);
            if flat_cell >= grid_cells(t, p.s as nat) || rows@.len() != pow2(p.s as nat) || row / 64
                >= rows@[(flat_cell as nat / pow2(t)) as int]@.len() {
                bit == Err::<u64, SumcheckError>(SumcheckError::InvalidProductDimensions)
            } else {
                bit == Ok::<u64, SumcheckError>(
                    if flat_bit(rows@, t, flat_cell as nat) {
                        1u64
                    } else {
                        0u64
                    },
                )
            }
        }),
{
    proof {
        lemma_usize_pow2_no_overflow(p.t as nat);
        lemma_pow2_pos(p.t as nat);
    }
    if flat_cell >= p.cells() || rows.len() != p.cols() {
        return Err(SumcheckError::InvalidProductDimensions);
    }
    proof {
        lemma_cell_coordinates(p.t as nat, p.s as nat, flat_cell as nat);
        lemma_usize_shr_is_div(flat_cell, p.t);
        lemma_usize_low_bits_mask_is_mod(flat_cell, p.t as nat);
    }
    let column = flat_cell >> p.t;
    let row = flat_cell & (p.rows() - 1);
    let words = &rows[column];
    if row / 64 >= words.len() {
        return Err(SumcheckError::InvalidProductDimensions);
    }
    let word = words[row / 64];
    let k = (row % 64) as u64;
    let value = (word >> k) & 1;
    proof {
        assert(((word >> k) & 1u64 == 1u64) || ((word >> k) & 1u64 == 0u64)) by (bit_vector);
    }
    Ok(value)
}

/// Words holding `n` bits.
pub open spec fn words_for(n: nat) -> nat {
    (n + 63) / 64
}

/// A packed Boolean table of `live_len` live entries, padded to a domain
/// of `table_len` entries, is canonical: it holds exactly the live words or
/// exactly the domain's words, and every bit at or above `live_len` is zero.
pub open spec fn canonical_words(words: Seq<u64>, live_len: nat, table_len: nat) -> bool {
    &&& (words.len() == words_for(live_len) || words.len() == words_for(table_len))
    &&& forall|i: nat| live_len <= i < 64 * words.len() ==> !#[trigger] word_bit64(words[(i / 64) as int], i % 64)
}

/// Bit `index` of a packed Boolean table, as `0` or `1`.
pub fn bit_at(words: &[u64], index: usize) -> (bit: u64)
    requires
        index / 64 < words@.len(),
    ensures
        bit == if word_bit64(words@[(index / 64) as int], (index % 64) as nat) {
            1u64
        } else {
            0u64
        },
{
    let word = words[index / 64];
    let k = (index % 64) as u64;
    proof {
        assert(((word >> k) & 1u64 == 1u64) || ((word >> k) & 1u64 == 0u64)) by (bit_vector);
    }
    (word >> k) & 1
}

proof fn lemma_high_bits_clear(w: u64, u: u64, k: u64)
    requires
        w >> u == 0u64,
        u <= k < 64,
    ensures
        !word_bit64(w, k as nat),
{
    assert((w >> k) & 1u64 != 1u64) by (bit_vector)
        requires
            w >> u == 0u64,
            u <= k < 64,
    ;
}

proof fn lemma_high_bit_set(w: u64, u: u64) -> (k: u64)
    requires
        w >> u != 0u64,
        u < 64,
    ensures
        u <= k < 64,
        word_bit64(w, k as nat),
    decreases 64 - u,
{
    if (w >> u) & 1u64 == 1u64 {
        u
    } else {
        assert(u < 63) by (bit_vector)
            requires
                w >> u != 0u64,
                (w >> u) & 1u64 != 1u64,
                u < 64,
        ;
        assert(w >> ((u + 1) as u64) != 0u64) by (bit_vector)
            requires
                w >> u != 0u64,
                (w >> u) & 1u64 != 1u64,
                u < 63,
        ;
        lemma_high_bit_set(w, (u + 1) as u64)
    }
}

/// Checks that a packed Boolean table of `live_len` live entries in a
/// domain of `table_len` entries is canonical.
pub fn validate_shape(words: &[u64], live_len: usize, table_len: usize) -> (result: Result<
    (),
    SumcheckError,
>)
    requires
        live_len <= table_len,
    ensures
        canonical_words(words@, live_len as nat, table_len as nat) ==> result is Ok,
        !canonical_words(words@, live_len as nat, table_len as nat) ==> result == Err::<
            (),
            SumcheckError,
        >(SumcheckError::InvalidProductDimensions),
{
    let live_words = live_len / 64 + if live_len % 64 != 0 {
        1usize
    } else {
        0usize
    };
    let domain_words = table_len / 64 + if table_len % 64 != 0 {
        1usize
    } else {
        0usize
    };
    proof {
        assert(live_words == words_for(live_len as nat));
        assert(domain_words == words_for(table_len as nat));
        assert(live_words <= domain_words);
    }
    if words.len() != live_words && words.len() != domain_words {
        return Err(SumcheckError::InvalidProductDimensions);
    }
    let used_live_bits = live_len % 64;
    if used_live_bits != 0 && words[live_words - 1] >> (used_live_bits as u64) != 0 {
        proof {
            let w = words@[live_words - 1];
            let k = lemma_high_bit_set(w, used_live_bits as u64);
            let i = (64 * (live_words - 1) + k) as nat;
            assert(i / 64 == live_words - 1 && i % 64 == k);
            assert(live_len <= i < 64 * words@.len());
            assert(word_bit64(words@[(i / 64) as int], i % 64));
        }
        return Err(SumcheckError::InvalidProductDimensions);
    }
    for j in live_words..words.len()
        invariant
            live_words == words_for(live_len as nat),
            live_words <= words@.len(),
            forall|m: int| live_words <= m < j ==> #[trigger] words@[m] == 0u64,
    {
        if words[j] != 0 {
            proof {
                let w = words@[j as int];
                assert(w >> 0u64 == w) by (bit_vector);
                let k = lemma_high_bit_set(w, 0);
                let i = (64 * j + k) as nat;
                assert(i / 64 == j && i % 64 == k);
                assert(live_len <= i < 64 * words@.len());
                assert(word_bit64(words@[(i / 64) as int], i % 64));
            }
            return Err(SumcheckError::InvalidProductDimensions);
        }
    }
    proof {
        assert forall|i: nat| live_len <= i < 64 * words@.len() implies !#[trigger] word_bit64(
            words@[(i / 64) as int],
            i % 64,
        ) by {
            let q = i / 64;
            if q >= live_words {
                assert(words@[q as int] == 0u64);
                let k = (i % 64) as u64;
                assert((0u64 >> k) & 1u64 != 1u64) by (bit_vector);
            } else {
                assert(used_live_bits != 0 && q == live_words - 1);
                lemma_high_bits_clear(words@[q as int], used_live_bits as u64, (i % 64) as u64);
            }
        }
    }
    Ok(())
}

} // verus!
