use spartan_sha::packed_rows::packed_flat_bit;
use spartan_sha::sha256::{SHA256_CHAIN_H_BAR_LIVE_BITS, SHA256_H_BAR_LIVE_BITS};
use spartan_sha::u128_mul::IntEvalParams;
use spartan_sha::witness_packing::{
    ChainShard, LOCAL_STRIDE, SHA256_H_INSTANCE_BITS, pack_chain_product_rows, pack_derived_rows,
};

fn pseudo_bits(seed: u64, len: usize) -> Vec<bool> {
    let mut state = seed | 1;
    (0..len)
        .map(|_| {
            state ^= state << 13;
            state ^= state >> 7;
            state ^= state << 17;
            state & 1 == 1
        })
        .collect()
}

fn bit(rows: &[Vec<u64>], params: &IntEvalParams, flat: usize) -> bool {
    packed_flat_bit(rows, params, flat).unwrap() == 1
}

#[test]
fn derived_rows_place_instances_back_to_back() {
    let params = IntEvalParams { t: 8, s: 8, word_bits: 1 };
    let h_bars: Vec<Vec<bool>> =
        (0..2).map(|i| pseudo_bits(17 + i, SHA256_H_BAR_LIVE_BITS)).collect();
    let rows = pack_derived_rows(&h_bars, &params);
    assert_eq!(rows.len(), 256);
    assert!(bit(&rows, &params, 0));
    for (instance, h_bar) in h_bars.iter().enumerate() {
        for local in 1..SHA256_H_BAR_LIVE_BITS {
            let flat = 1 + instance * SHA256_H_INSTANCE_BITS + local - 1;
            assert_eq!(bit(&rows, &params, flat), h_bar[local], "{instance} {local}");
        }
    }
    for flat in 1 + 2 * SHA256_H_INSTANCE_BITS..(1 << 16) {
        assert!(!bit(&rows, &params, flat));
    }
}

#[test]
fn chain_product_tensor_is_local_major() {
    // Four instances, two packed rows per column: t = 1, s = 15 + 1.
    let params = IntEvalParams { t: 1, s: 16, word_bits: 1 };
    let instances = 4;
    let shards: Vec<ChainShard> = (0..instances)
        .map(|i| {
            let output = pseudo_bits(99 + i as u64, 256);
            ChainShard {
                h_bar: pseudo_bits(5 + i as u64, SHA256_H_BAR_LIVE_BITS),
                output_bits: std::array::from_fn(|k| output[k]),
            }
        })
        .collect();
    let rows = pack_chain_product_rows(&shards, &params);
    assert_eq!(rows.len(), 1 << 16);
    assert!(rows.iter().all(|column| column.len() == 1));
    for local in 0..LOCAL_STRIDE {
        for instance in 0..instances {
            let expected = if local < SHA256_H_BAR_LIVE_BITS {
                shards[instance].h_bar[local]
            } else if local < SHA256_CHAIN_H_BAR_LIVE_BITS {
                instance + 1 == instances
                    && shards[instance].output_bits[local - SHA256_H_BAR_LIVE_BITS]
            } else {
                false
            };
            assert_eq!(bit(&rows, &params, local * instances + instance), expected);
        }
    }
}
