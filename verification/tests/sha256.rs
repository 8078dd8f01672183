use spartan_sha::sha256::{
    CHAIN_PUBLIC_STATEMENT_DOMAIN, COMPRESSION_INPUT_BITS, INITIAL_STATE,
    SHA256_CHAIN_H_BAR_LIVE_BITS, SHA256_H_BAR_LIVE_BITS, SHA256_PUBLIC_STATEMENT_DOMAIN,
    Sha256ChainStatement, Sha256CompressionInput, Sha256CompressionStatement,
    chain_output_f_column, chain_public_f_column, chain_public_h_column, chain_statement_binding,
    compression_input_bits, output_words_from_bits, public_statement_binding, sha256_chain_states,
    sha256_compress,
};

const ABC_DIGEST: [u32; 8] = [
    0xba7816bf, 0x8f01cfea, 0x414140de, 0x5dae2223, 0xb00361a3, 0x96177a9c, 0xb410ff61,
    0xf20015ad,
];

fn two_block_message() -> [[u32; 16]; 2] {
    [
        [
            0x61626364, 0x62636465, 0x63646566, 0x64656667, 0x65666768, 0x66676869, 0x6768696a,
            0x68696a6b, 0x696a6b6c, 0x6a6b6c6d, 0x6b6c6d6e, 0x6c6d6e6f, 0x6d6e6f70, 0x6e6f7071,
            0x80000000, 0x00000000,
        ],
        [0, 0, 0, 0, 0, 0, 0, 0, 0, 0, 0, 0, 0, 0, 0, 0x000001c0],
    ]
}

const TWO_BLOCK_DIGEST: [u32; 8] = [
    0x248d6a61, 0xd20638b8, 0xe5c02693, 0x0c3e6039, 0xa33ce459, 0x64ff2167, 0xf6ecedd4,
    0x19db06c1,
];

fn input(instance: usize) -> Sha256CompressionInput {
    let mut state = [0u32; 8];
    let mut block = [0u32; 16];
    for (word, value) in state.iter_mut().enumerate() {
        *value = (instance as u32).wrapping_mul(0x9e37_79b9).rotate_left(word as u32);
    }
    for (word, value) in block.iter_mut().enumerate() {
        *value = (instance as u32 ^ word as u32).wrapping_mul(0x85eb_ca6b).rotate_right(word as u32);
    }
    (state, block)
}

fn public_statements(
    inputs: &[Sha256CompressionInput],
    outputs: &[[u32; 8]],
) -> Vec<Sha256CompressionStatement> {
    inputs
        .iter()
        .copied()
        .zip(outputs.iter().copied())
        .map(|(input, output)| Sha256CompressionStatement::new(input, output))
        .collect()
}

#[test]
fn native_compression_matches_fips_abc() {
    let block = [0x61626380, 0, 0, 0, 0, 0, 0, 0, 0, 0, 0, 0, 0, 0, 0, 0x00000018];
    assert_eq!(sha256_compress(INITIAL_STATE, block), ABC_DIGEST);
}

#[test]
fn two_block_chain_matches_fips() {
    let blocks = two_block_message();
    let states = sha256_chain_states(INITIAL_STATE, &blocks);
    assert_eq!(states.len(), 3);
    assert_eq!(states[0], INITIAL_STATE);
    assert_eq!(states[1], sha256_compress(INITIAL_STATE, blocks[0]));
    assert_eq!(states[2], TWO_BLOCK_DIGEST);
}

#[test]
fn empty_chain_is_the_initial_state() {
    let states = sha256_chain_states([1, 2, 3, 4, 5, 6, 7, 8], &[]);
    assert_eq!(states, vec![[1, 2, 3, 4, 5, 6, 7, 8]]);
}

#[test]
fn public_statement_words_use_canonical_order() {
    let state = std::array::from_fn(|index| index as u32);
    let block = std::array::from_fn(|index| 8 + index as u32);
    let output = std::array::from_fn(|index| 24 + index as u32);
    let statement = Sha256CompressionStatement::new((state, block), output);

    assert_eq!(statement.words(), (0..32).collect::<Vec<_>>());
}

#[test]
fn chain_instance_words_carry_the_digest_at_the_last_instance() {
    let blocks = two_block_message();
    let statement = Sha256ChainStatement { blocks: blocks.to_vec(), digest: TWO_BLOCK_DIGEST };
    let first = statement.instance_words(0);
    assert_eq!(first.len(), 24);
    assert_eq!(&first[..16], &blocks[0][..]);
    assert_eq!(&first[16..], &[0u32; 8][..]);
    let last = statement.instance_words(1);
    assert_eq!(&last[..16], &blocks[1][..]);
    assert_eq!(&last[16..], &TWO_BLOCK_DIGEST[..]);
}

#[test]
fn input_bits_put_the_block_first_and_roundtrip() {
    let (state, block) = input(3);
    let bits = compression_input_bits(state, block);
    assert_eq!(bits.len(), COMPRESSION_INPUT_BITS);
    for index in 0..512 {
        assert_eq!(bits[index], (block[index / 32] >> (index % 32)) & 1 == 1);
    }
    for index in 512..768 {
        assert_eq!(bits[index], (state[(index - 512) / 32] >> (index % 32)) & 1 == 1);
    }
    assert_eq!(output_words_from_bits(&bits[512..]), state);
    let block_words = output_words_from_bits(&bits[..256]);
    assert_eq!(block_words, <[u32; 8]>::try_from(&block[..8]).unwrap());
}

#[test]
fn chain_columns_follow_the_layout() {
    assert_eq!(chain_output_f_column(0, 0), 6881 - 256);
    assert_eq!(chain_output_f_column(7, 31), 6881 - 256 + 33 * 7 + 31);
    assert_eq!(chain_public_h_column(0), 257);
    assert_eq!(chain_public_h_column(511), 768);
    assert_eq!(chain_public_h_column(512), SHA256_H_BAR_LIVE_BITS);
    assert_eq!(chain_public_h_column(767), SHA256_CHAIN_H_BAR_LIVE_BITS - 1);
    assert_eq!(chain_public_f_column(0), 1);
    assert_eq!(chain_public_f_column(511), 512);
    assert_eq!(chain_public_f_column(512), chain_output_f_column(0, 0));
    assert_eq!(chain_public_f_column(512 + 32 * 3 + 5), chain_output_f_column(3, 5));
    let mut h: Vec<usize> = (0..768).map(chain_public_h_column).collect();
    let mut f: Vec<usize> = (0..768).map(chain_public_f_column).collect();
    h.sort();
    h.dedup();
    f.sort();
    f.dedup();
    assert_eq!(h.len(), 768);
    assert_eq!(f.len(), 768);
}

#[test]
fn public_statement_binding_covers_every_public_component_and_instance_order() {
    let inputs = [input(1), input(2)];
    let outputs = [[3_u32; 8], [4_u32; 8]];
    let statement = public_statements(&inputs, &outputs);
    let binding = public_statement_binding(&statement);

    let mut changed_state = statement.clone();
    changed_state[0].state[0] ^= 1;
    assert_ne!(public_statement_binding(&changed_state), binding);

    let mut changed_block = statement.clone();
    changed_block[0].block[0] ^= 1;
    assert_ne!(public_statement_binding(&changed_block), binding);

    let mut changed_output = statement.clone();
    changed_output[0].claimed_output[0] ^= 1;
    assert_ne!(public_statement_binding(&changed_output), binding);

    let mut swapped = statement.clone();
    swapped.swap(0, 1);
    assert_ne!(public_statement_binding(&swapped), binding);
}

#[test]
fn public_statement_binding_hashes_the_canonical_encoding() {
    let inputs = [input(5), input(6), input(7)];
    let outputs = [[9_u32; 8], [10_u32; 8], [11_u32; 8]];
    let statement = public_statements(&inputs, &outputs);
    let mut bytes = SHA256_PUBLIC_STATEMENT_DOMAIN.as_bytes().to_vec();
    bytes.extend_from_slice(&3u64.to_le_bytes());
    for s in &statement {
        for word in s.words() {
            bytes.extend_from_slice(&word.to_le_bytes());
        }
    }
    assert_eq!(public_statement_binding(&statement), *blake3::hash(&bytes).as_bytes());

    let mut empty = SHA256_PUBLIC_STATEMENT_DOMAIN.as_bytes().to_vec();
    empty.extend_from_slice(&0u64.to_le_bytes());
    assert_eq!(public_statement_binding(&[]), *blake3::hash(&empty).as_bytes());
}

#[test]
fn chain_statement_binding_hashes_the_canonical_encoding() {
    let blocks = two_block_message();
    let statement = Sha256ChainStatement { blocks: blocks.to_vec(), digest: TWO_BLOCK_DIGEST };
    let mut bytes = CHAIN_PUBLIC_STATEMENT_DOMAIN.as_bytes().to_vec();
    for word in INITIAL_STATE {
        bytes.extend_from_slice(&word.to_le_bytes());
    }
    bytes.extend_from_slice(&2u64.to_le_bytes());
    for block in &blocks {
        for word in block {
            bytes.extend_from_slice(&word.to_le_bytes());
        }
    }
    for word in TWO_BLOCK_DIGEST {
        bytes.extend_from_slice(&word.to_le_bytes());
    }
    let binding = chain_statement_binding(INITIAL_STATE, &statement);
    assert_eq!(binding, *blake3::hash(&bytes).as_bytes());

    let mut wrong_digest = statement.clone();
    wrong_digest.digest[3] ^= 1 << 17;
    assert_ne!(chain_statement_binding(INITIAL_STATE, &wrong_digest), binding);
    let mut swapped = statement.clone();
    swapped.blocks.swap(0, 1);
    assert_ne!(chain_statement_binding(INITIAL_STATE, &swapped), binding);
    assert_ne!(chain_statement_binding([1, 2, 3, 4, 5, 6, 7, 8], &statement), binding);
}
