//! Packing synthesized SHA-256 assignments into flat F2Z grids: the
//! independent batch `[1 | h_0 | … | h_{N-1} | 0…]`, and the chained
//! batch's local-major product tensor `D[local, instance]`.

use vstd::arithmetic::power2::*;
use vstd::bits::*;
use vstd::prelude::*;

use crate::packed_rows::{
    empty_packed_rows, flat_bit, grid_cells, packed_shape, set_flat_packed_bit, word_bit64,
    words_per_column,
};
use crate::sha256::{SHA256_CHAIN_H_BAR_LIVE_BITS, SHA256_H_BAR_LIVE_BITS};
use crate::u128_mul::IntEvalParams;

verus! {

/// Derived cells of one independent compression without the shared
/// leading constant.
pub const SHA256_H_INSTANCE_BITS: usize = 20456;

/// Local stride of the chained product tensor: the least power of two
/// holding a chained compression's live derived cells.
pub const LOCAL_STRIDE: usize = 32768;

/// Variables of [`LOCAL_STRIDE`].
pub const LOCAL_BITS: usize = 15;

/// Cell `j` of the independent batch's packed assignment: the shared one at
/// 0, then instance `i`'s derived bits `h̄_i[1..]` at `1 + i·20456`, and
/// zero beyond.
pub open spec fn derived_cell(h_bars: Seq<Vec<bool>>, j: int, limit: int) -> bool {
    j == 0 || (1 <= j < limit && h_bars[(j - 1) / SHA256_H_INSTANCE_BITS as int]@[(j - 1)
        % SHA256_H_INSTANCE_BITS as int + 1])
}

/// Packs the independent batch's synthesized assignments `h̄_i` (each with
/// its leading constant, which the batch shares) as
/// `[1 | h_0 | … | h_{N-1} | 0…]`.
pub fn pack_derived_rows(h_bars: &[Vec<bool>], params: &IntEvalParams) -> (rows: Vec<Vec<u64>>)
    requires
        params.t + params.s < usize::BITS,
        1 + h_bars.len() * SHA256_H_INSTANCE_BITS <= grid_cells(params.t as nat, params.s as nat),
        forall|i: int| 0 <= i < h_bars.len() ==> #[trigger] h_bars[i]@.len()
            >= SHA256_H_BAR_LIVE_BITS,
    ensures
        packed_shape(rows@, params.t as nat, params.s as nat),
        forall|j: nat|
            j < grid_cells(params.t as nat, params.s as nat) ==> #[trigger] flat_bit(
                rows@,
                params.t as nat,
                j,
            ) == derived_cell(h_bars@, j as int, 1 + h_bars.len() * SHA256_H_INSTANCE_BITS),
{
    let ghost t = params.t as nat;
    let ghost cells = grid_cells(params.t as nat, params.s as nat);
    proof {
        lemma_pow2_pos(params.t as nat);
        lemma_pow2_pos(params.s as nat);
        lemma_usize_pow2_no_overflow((params.t + params.s) as nat);
    }
    let mut rows = empty_packed_rows(params);
    set_flat_packed_bit(&mut rows, params, 0);
    let n = h_bars.len();
    for instance in 0..n
        invariant
            params.t + params.s < usize::BITS,
            t == params.t,
            cells == grid_cells(params.t as nat, params.s as nat),
            n == h_bars.len(),
            1 + n * SHA256_H_INSTANCE_BITS <= cells,
            cells <= usize::MAX,
            forall|i: int| 0 <= i < n ==> #[trigger] h_bars[i]@.len() >= SHA256_H_BAR_LIVE_BITS,
            packed_shape(rows@, t, params.s as nat),
            forall|j: nat|
                j < cells ==> #[trigger] flat_bit(rows@, t, j) == derived_cell(
                    h_bars@,
                    j as int,
                    1 + instance * SHA256_H_INSTANCE_BITS,
                ),
    {
        proof {
            vstd::arithmetic::mul::lemma_mul_inequality(
                (instance + 1) as int,
                n as int,
                SHA256_H_INSTANCE_BITS as int,
            );
            assert((instance + 1) * SHA256_H_INSTANCE_BITS == instance * SHA256_H_INSTANCE_BITS
                + SHA256_H_INSTANCE_BITS) by (nonlinear_arith);
        }
        let start = 1 + instance * SHA256_H_INSTANCE_BITS;
        let h_bar = &h_bars[instance];
        for bit in 1..SHA256_H_BAR_LIVE_BITS
            invariant
                params.t + params.s < usize::BITS,
                t == params.t,
                cells == grid_cells(params.t as nat, params.s as nat),
                instance < n,
                n == h_bars.len(),
                start == 1 + instance * SHA256_H_INSTANCE_BITS,
                start + SHA256_H_INSTANCE_BITS <= cells,
                cells <= usize::MAX,
                *h_bar == h_bars@[instance as int],
                h_bar@.len() >= SHA256_H_BAR_LIVE_BITS,
                packed_shape(rows@, t, params.s as nat),
                forall|j: nat|
                    j < cells ==> #[trigger] flat_bit(rows@, t, j) == derived_cell(
                        h_bars@,
                        j as int,
                        start + bit - 1,
                    ),
        {
            let ghost before = rows@;
            let position = start + bit - 1;
            proof {
                assert((position - 1) / SHA256_H_INSTANCE_BITS as int == instance as int && (
                position - 1) % SHA256_H_INSTANCE_BITS as int == bit - 1) by {
                    vstd::arithmetic::div_mod::lemma_fundamental_div_mod_converse(
                        (position - 1) as int,
                        SHA256_H_INSTANCE_BITS as int,
                        instance as int,
                        (bit - 1) as int,
                    );
                }
            }
            if h_bar[bit] {
                set_flat_packed_bit(&mut rows, params, position);
            }
            proof {
                assert forall|j: nat| j < cells implies #[trigger] flat_bit(rows@, t, j)
                    == derived_cell(h_bars@, j as int, start + bit) by {
                    if j == position {
                        assert(derived_cell(h_bars@, j as int, start + bit) == h_bar@[bit as int]);
                    } else {
                        assert(flat_bit(rows@, t, j) == flat_bit(before, t, j));
                    }
                }
            }
        }
    }
    rows
}

/// What the chained product tensor reads of one compression's witness.
pub struct ChainShard {
    /// The synthesized assignment `h̄ = (1, h)` of the compression.
    pub h_bar: Vec<bool>,
    /// The compression's output bits, word-major, least-significant first.
    pub output_bits: [bool; 256],
}

/// Entry `D[local, instance]` of the chained product tensor: the
/// instance's derived bit `local`, then the terminal rows holding the last
/// instance's output bits and zero elsewhere, then zero padding.
pub open spec fn chain_product_bit(shards: Seq<ChainShard>, local: int, instance: int) -> bool {
    if local < SHA256_H_BAR_LIVE_BITS {
        shards[instance].h_bar@[local]
    } else if local < SHA256_CHAIN_H_BAR_LIVE_BITS {
        instance == shards.len() - 1 && shards[instance].output_bits[local
            - SHA256_H_BAR_LIVE_BITS]
    } else {
        false
    }
}

proof fn lemma_set_word_bit(packed: u64, b: u64, k: u64)
    requires
        b < 64,
        k < 64,
    ensures
        word_bit64(packed | (1u64 << b), k as nat) == (word_bit64(packed, k as nat) || k == b),
{
    assert(((packed | (1u64 << b)) >> k) & 1u64 == 1u64 <==> ((packed >> k) & 1u64 == 1u64 || k
        == b)) by (bit_vector)
        requires
            b < 64,
            k < 64,
    ;
}

/// Column `column` of the product tensor: `rows` packed bits, row `r`
/// holding `D[column / H, (column mod H) · rows + r]`.
fn chain_product_column(
    shards: &[ChainShard],
    rows: usize,
    high_instances: usize,
    column: usize,
) -> (words: Vec<u64>)
    requires
        rows > 0,
        high_instances > 0,
        shards.len() == rows * high_instances,
        shards.len() + 64 <= usize::MAX,
        forall|i: int| 0 <= i < shards.len() ==> #[trigger] shards[i].h_bar@.len()
            >= SHA256_H_BAR_LIVE_BITS,
    ensures
        words@.len() == (rows + 63) / 64,
        forall|row: int|
            0 <= row < rows ==> #[trigger] word_bit64(words@[row / 64], (row % 64) as nat)
                == chain_product_bit(
                shards@,
                (column / high_instances) as int,
                (column % high_instances) * rows + row,
            ),
{
    let local = column / high_instances;
    let high_instance = column % high_instances;
    proof {
        assert(shards.len() > 0) by (nonlinear_arith)
            requires
                rows > 0,
                high_instances > 0,
                shards.len() == rows * high_instances,
        ;
    }
    let last = shards.len() - 1;
    proof {
        assert(high_instance * rows + rows <= shards.len()) by (nonlinear_arith)
            requires
                high_instance < high_instances,
                shards.len() == rows * high_instances,
        ;
    }
    let first_instance = high_instance * rows;
    let words_len = (rows + 63) / 64;
    let mut words: Vec<u64> = Vec::new();
    for word_index in 0..words_len
        invariant
            words_len == (rows + 63) / 64,
            words@.len() == word_index,
            rows > 0,
            high_instances > 0,
            local == column / high_instances,
            high_instance == column % high_instances,
            first_instance == high_instance * rows,
            first_instance + rows <= shards.len(),
            last == shards.len() - 1,
            forall|i: int| 0 <= i < shards.len() ==> #[trigger] shards[i].h_bar@.len()
                >= SHA256_H_BAR_LIVE_BITS,
            forall|row: int|
                0 <= row < rows && row < 64 * word_index ==> #[trigger] word_bit64(
                    words@[row / 64],
                    (row % 64) as nat,
                ) == chain_product_bit(shards@, local as int, first_instance + row),
    {
        proof {
            assert(word_index * 64 < rows + 63) by {
                vstd::arithmetic::div_mod::lemma_fundamental_div_mod((rows + 63) as int, 64);
            }
        }
        let first_row = word_index * 64;
        let mut packed: u64 = 0;
        proof {
            assert forall|k: u64| k < 64 implies !word_bit64(0u64, k as nat) by {
                assert((0u64 >> k) & 1u64 == 0u64) by (bit_vector);
            }
        }
        for bit in 0..64usize
            invariant
                first_row == word_index * 64,
                first_row < rows + 63,
                first_instance + rows <= shards.len(),
                last == shards.len() - 1,
                forall|i: int| 0 <= i < shards.len() ==> #[trigger] shards[i].h_bar@.len()
                    >= SHA256_H_BAR_LIVE_BITS,
                forall|k: u64|
                    k < bit ==> #[trigger] word_bit64(packed, k as nat) == (first_row + k < rows
                        && chain_product_bit(shards@, local as int, first_instance + first_row + k)),
                forall|k: u64| bit <= k < 64 ==> !#[trigger] word_bit64(packed, k as nat),
        {
            let row = first_row + bit;
            let ghost before = packed;
            if row < rows {
                let instance = first_instance + row;
                let value = if local < SHA256_H_BAR_LIVE_BITS {
                    shards[instance].h_bar[local]
                } else if local < SHA256_CHAIN_H_BAR_LIVE_BITS {
                    instance == last && shards[instance].output_bits[local - SHA256_H_BAR_LIVE_BITS]
                } else {
                    false
                };
                if value {
                    packed = packed | (1u64 << (bit as u64));
                }
                proof {
                    assert forall|k: u64| k < 64 implies #[trigger] word_bit64(packed, k as nat)
                        == (word_bit64(before, k as nat) || (value && k == bit)) by {
                        if value {
                            lemma_set_word_bit(before, bit as u64, k);
                        }
                    }
                }
            }
        }
        let ghost done = words@;
        words.push(packed);
        proof {
            assert forall|row: int|
                0 <= row < rows && row < 64 * (word_index + 1) implies #[trigger] word_bit64(
                words@[row / 64],
                (row % 64) as nat,
            ) == chain_product_bit(shards@, local as int, first_instance + row) by {
                if row >= 64 * word_index {
                    assert(row / 64 == word_index);
                    let k = (row % 64) as u64;
                    assert(row == first_row + k);
                    assert(word_bit64(packed, k as nat) == (first_row + k < rows
                        && chain_product_bit(shards@, local as int, first_instance + first_row + k)));
                } else {
                    assert(row / 64 < word_index);
                    assert(words@[row / 64] == done[row / 64]);
                }
            }
        }
    }
    words
}

proof fn lemma_product_cell(local: int, instance: int, r: int, h: int)
    requires
        r > 0,
        h > 0,
        0 <= local,
        0 <= instance < r * h,
    ensures
        (local * (r * h) + instance) / r == local * h + instance / r,
        (local * (r * h) + instance) % r == instance % r,
        (local * h + instance / r) / h == local,
        (local * h + instance / r) % h == instance / r,
        (instance / r) * r + instance % r == instance,
{
    vstd::arithmetic::div_mod::lemma_fundamental_div_mod(instance, r);
    vstd::arithmetic::div_mod::lemma_mod_bound(instance, r);
    vstd::arithmetic::div_mod::lemma_div_pos_is_pos(instance, r);
    assert(instance / r < h) by {
        vstd::arithmetic::mul::lemma_mul_is_commutative(r, h);
        vstd::arithmetic::div_mod::lemma_div_by_multiple_is_strongly_ordered(instance, h * r, h, r);
        vstd::arithmetic::div_mod::lemma_fundamental_div_mod_converse(h * r, r, h, 0);
    }
    assert(local * (r * h) + instance == (local * h + instance / r) * r + instance % r)
        by (nonlinear_arith)
        requires
            instance == r * (instance / r) + instance % r,
    ;
    vstd::arithmetic::div_mod::lemma_fundamental_div_mod_converse(
        local * (r * h) + instance,
        r,
        local * h + instance / r,
        instance % r,
    );
    vstd::arithmetic::div_mod::lemma_fundamental_div_mod_converse(
        local * h + instance / r,
        h,
        local,
        instance / r,
    );
    vstd::arithmetic::mul::lemma_mul_is_commutative(instance / r, r);
}

/// Packs the chained batch's local-major product tensor `D[local, instance]`
/// for `N = 2^(t + s - 15)` instances: cell `local · N + instance` of the
/// flat grid holds `D[local, instance]`, so the `2^t` rows of a column are
/// consecutive instances of one local cell.
pub fn pack_chain_product_rows(shards: &[ChainShard], params: &IntEvalParams) -> (rows: Vec<
    Vec<u64>,
>)
    requires
        params.t + params.s < usize::BITS,
        params.s >= LOCAL_BITS,
        shards.len() == pow2((params.t + params.s - LOCAL_BITS) as nat),
        forall|i: int| 0 <= i < shards.len() ==> #[trigger] shards[i].h_bar@.len()
            >= SHA256_H_BAR_LIVE_BITS,
    ensures
        packed_shape(rows@, params.t as nat, params.s as nat),
        forall|local: int, instance: int|
            0 <= local < LOCAL_STRIDE && 0 <= instance < shards.len() ==> flat_bit(
                rows@,
                params.t as nat,
                (local * shards.len() + instance) as nat,
            ) == #[trigger] chain_product_bit(shards@, local, instance),
{
    let ghost t = params.t as nat;
    let ghost h = pow2((params.s - LOCAL_BITS) as nat);
    proof {
        lemma_usize_pow2_no_overflow((params.t + params.s) as nat);
        lemma_pow2_adds(t, (params.s - LOCAL_BITS) as nat);
        lemma_pow2_adds(LOCAL_BITS as nat, (params.s - LOCAL_BITS) as nat);
        lemma_pow2_adds((params.t + params.s - LOCAL_BITS) as nat, LOCAL_BITS as nat);
        lemma_pow2_pos(t);
        lemma_pow2_pos((params.s - LOCAL_BITS) as nat);
        assert(pow2(LOCAL_BITS as nat) == LOCAL_STRIDE) by {
            lemma2_to64();
        }
        assert(shards.len() + 64 <= usize::MAX) by (nonlinear_arith)
            requires
                shards.len() * 32768 <= usize::MAX,
        ;
    }
    let instances = shards.len();
    let row_count = params.rows();
    let high_instances = instances / row_count;
    proof {
        vstd::arithmetic::div_mod::lemma_fundamental_div_mod_converse(
            instances as int,
            row_count as int,
            h as int,
            0,
        );
        vstd::arithmetic::mul::lemma_mul_is_commutative(row_count as int, h as int);
    }
    let cols = params.cols();
    let mut out: Vec<Vec<u64>> = Vec::new();
    for column in 0..cols
        invariant
            out@.len() == column,
            row_count == pow2(t),
            row_count > 0,
            high_instances == h,
            h > 0,
            instances == shards.len(),
            instances == row_count * high_instances,
            instances + 64 <= usize::MAX,
            forall|i: int| 0 <= i < shards.len() ==> #[trigger] shards[i].h_bar@.len()
                >= SHA256_H_BAR_LIVE_BITS,
            forall|c: int| 0 <= c < column ==> #[trigger] out@[c]@.len() == words_per_column(t),
            forall|c: int, row: int|
                0 <= c < column && 0 <= row < row_count ==> #[trigger] word_bit64(
                    out@[c]@[row / 64],
                    (row % 64) as nat,
                ) == chain_product_bit(
                    shards@,
                    c / high_instances as int,
                    (c % high_instances as int) * row_count + row,
                ),
    {
        let words = chain_product_column(shards, row_count, high_instances, column);
        out.push(words);
    }
    proof {
        assert forall|local: int, instance: int|
            0 <= local < LOCAL_STRIDE && 0 <= instance < shards.len() implies flat_bit(
            out@,
            t,
            (local * shards.len() + instance) as nat,
        ) == #[trigger] chain_product_bit(shards@, local, instance) by {
            let r = row_count as int;
            lemma_product_cell(local, instance, r, h as int);
            let column = local * h + instance / r;
            let row = instance % r;
            assert(column < cols) by (nonlinear_arith)
                requires
                    0 <= local < 32768,
                    0 <= instance / r < h,
                    cols == 32768 * h,
                    column == local * h + instance / r,
            ;
            assert(0 <= row < r) by {
                vstd::arithmetic::div_mod::lemma_mod_bound(instance, r);
            }
            let j = (local * shards.len() + instance) as nat;
            assert(local * shards.len() + instance == local * (r * h) + instance);
            assert(j / pow2(t) == column);
            assert(j % pow2(t) == row);
            assert(word_bit64(out@[column]@[row / 64], (row % 64) as nat) == chain_product_bit(
                shards@,
                column / high_instances as int,
                (column % high_instances as int) * row_count + row,
            ));
        }
    }
    out
}

} // verus!
