//! Native SHA-256 compression (FIPS 180-4 §6.2.2) on parsed words.

use vstd::prelude::*;
use vstd::string::StringSliceAdditionalSpecFns;

use vstd::arithmetic::power2::*;

use crate::binding::{
    BindingHasher, blake3_digest, extend_le, hash_usize, lemma_le_bytes_injective, le_bytes,
};

verus! {

/// The SHA-256 round constants `K_0, …, K_63` (FIPS 180-4 §4.2.2).
pub const ROUND_CONSTANTS: [u32; 64] = [
    0x428a2f98u32, 0x71374491u32, 0xb5c0fbcfu32, 0xe9b5dba5u32, 0x3956c25bu32, 0x59f111f1u32,
    0x923f82a4u32, 0xab1c5ed5u32, 0xd807aa98u32, 0x12835b01u32, 0x243185beu32, 0x550c7dc3u32,
    0x72be5d74u32, 0x80deb1feu32, 0x9bdc06a7u32, 0xc19bf174u32, 0xe49b69c1u32, 0xefbe4786u32,
    0x0fc19dc6u32, 0x240ca1ccu32, 0x2de92c6fu32, 0x4a7484aau32, 0x5cb0a9dcu32, 0x76f988dau32,
    0x983e5152u32, 0xa831c66du32, 0xb00327c8u32, 0xbf597fc7u32, 0xc6e00bf3u32, 0xd5a79147u32,
    0x06ca6351u32, 0x14292967u32, 0x27b70a85u32, 0x2e1b2138u32, 0x4d2c6dfcu32, 0x53380d13u32,
    0x650a7354u32, 0x766a0abbu32, 0x81c2c92eu32, 0x92722c85u32, 0xa2bfe8a1u32, 0xa81a664bu32,
    0xc24b8b70u32, 0xc76c51a3u32, 0xd192e819u32, 0xd6990624u32, 0xf40e3585u32, 0x106aa070u32,
    0x19a4c116u32, 0x1e376c08u32, 0x2748774cu32, 0x34b0bcb5u32, 0x391c0cb3u32, 0x4ed8aa4au32,
    0x5b9cca4fu32, 0x682e6ff3u32, 0x748f82eeu32, 0x78a5636fu32, 0x84c87814u32, 0x8cc70208u32,
    0x90befffau32, 0xa4506cebu32, 0xbef9a3f7u32, 0xc67178f2u32,
];

/// The standard SHA-256 initial chaining value `H^(0)` (FIPS 180-4 §5.3.3).
pub const INITIAL_STATE: [u32; 8] = [
    0x6a09e667u32, 0xbb67ae85u32, 0x3c6ef372u32, 0xa54ff53au32, 0x510e527fu32, 0x9b05688cu32,
    0x1f83d9abu32, 0x5be0cd19u32,
];

/// Right rotation of a 32-bit word by `n` positions, `0 < n < 32`.
pub open spec fn rotr(x: u32, n: u32) -> u32 {
    (x >> n) | (x << ((32 - n) as u32))
}

pub open spec fn small_sigma0(x: u32) -> u32 {
    rotr(x, 7) ^ rotr(x, 18) ^ (x >> 3u32)
}

pub open spec fn small_sigma1(x: u32) -> u32 {
    rotr(x, 17) ^ rotr(x, 19) ^ (x >> 10u32)
}

pub open spec fn big_sigma0(x: u32) -> u32 {
    rotr(x, 2) ^ rotr(x, 13) ^ rotr(x, 22)
}

pub open spec fn big_sigma1(x: u32) -> u32 {
    rotr(x, 6) ^ rotr(x, 11) ^ rotr(x, 25)
}

pub open spec fn choose_bits(e: u32, f: u32, g: u32) -> u32 {
    (e & f) ^ (!e & g)
}

pub open spec fn majority(a: u32, b: u32, c: u32) -> u32 {
    (a & b) ^ (a & c) ^ (b & c)
}

/// Message schedule word `W_i` of `block` (FIPS 180-4 §6.2.2 step 1).
pub open spec fn schedule_word(block: Seq<u32>, i: int) -> u32
    decreases i,
{
    if i < 16 {
        block[i]
    } else {
        schedule_word(block, i - 16).wrapping_add(small_sigma0(schedule_word(block, i - 15)))
            .wrapping_add(schedule_word(block, i - 7)).wrapping_add(
            small_sigma1(schedule_word(block, i - 2)),
        )
    }
}

/// One SHA-256 round on the working state `(a, …, h)` with constant `k`
/// and schedule word `w`.
pub open spec fn round(v: Seq<u32>, k: u32, w: u32) -> Seq<u32> {
    let t1 = v[7].wrapping_add(big_sigma1(v[4])).wrapping_add(choose_bits(v[4], v[5], v[6]))
        .wrapping_add(k).wrapping_add(w);
    let t2 = big_sigma0(v[0]).wrapping_add(majority(v[0], v[1], v[2]));
    seq![t1.wrapping_add(t2), v[0], v[1], v[2], v[3].wrapping_add(t1), v[4], v[5], v[6]]
}

/// The working state after the first `n` rounds started from `state`.
pub open spec fn working_state(state: Seq<u32>, block: Seq<u32>, n: nat) -> Seq<u32>
    decreases n,
{
    if n == 0 {
        state
    } else {
        round(
            working_state(state, block, (n - 1) as nat),
            ROUND_CONSTANTS[n - 1],
            schedule_word(block, n - 1),
        )
    }
}

/// `Compress(H, M) = H + V^(64) mod 2^32`, word by word.
pub open spec fn compress(state: Seq<u32>, block: Seq<u32>) -> Seq<u32> {
    Seq::new(8, |j: int| state[j].wrapping_add(working_state(state, block, 64)[j]))
}

fn rotate_right(x: u32, n: u32) -> (r: u32)
    requires
        0 < n < 32,
    ensures
        r == rotr(x, n),
{
    (x >> n) | (x << (32 - n))
}

/// One SHA-256 compression, natively (FIPS 180-4 §6.2.2), on parsed words.
pub fn sha256_compress(state: [u32; 8], block: [u32; 16]) -> (out: [u32; 8])
    ensures
        out@ == compress(state@, block@),
{
    let mut w = [0u32; 64];
    for i in 0..16
        invariant
            forall|j: int| 0 <= j < i ==> w[j] == schedule_word(block@, j),
    {
        w[i] = block[i];
    }
    for i in 16..64
        invariant
            forall|j: int| 0 <= j < i ==> w[j] == schedule_word(block@, j),
    {
        let s0 = rotate_right(w[i - 15], 7) ^ rotate_right(w[i - 15], 18) ^ (w[i - 15] >> 3);
        let s1 = rotate_right(w[i - 2], 17) ^ rotate_right(w[i - 2], 19) ^ (w[i - 2] >> 10);
        w[i] = w[i - 16].wrapping_add(s0).wrapping_add(w[i - 7]).wrapping_add(s1);
    }
    let mut a = state[0];
    let mut b = state[1];
    let mut c = state[2];
    let mut d = state[3];
    let mut e = state[4];
    let mut f = state[5];
    let mut g = state[6];
    let mut h = state[7];
    assert(working_state(state@, block@, 0) =~= seq![a, b, c, d, e, f, g, h]);
    for i in 0..64
        invariant
            forall|j: int| 0 <= j < 64 ==> w[j] == schedule_word(block@, j),
            working_state(state@, block@, i as nat) =~= seq![a, b, c, d, e, f, g, h],
    {
        let s1 = rotate_right(e, 6) ^ rotate_right(e, 11) ^ rotate_right(e, 25);
        let ch = (e & f) ^ (!e & g);
        let t1 = h.wrapping_add(s1).wrapping_add(ch).wrapping_add(ROUND_CONSTANTS[i]).wrapping_add(
            w[i],
        );
        let s0 = rotate_right(a, 2) ^ rotate_right(a, 13) ^ rotate_right(a, 22);
        let maj = (a & b) ^ (a & c) ^ (b & c);
        let t2 = s0.wrapping_add(maj);
        h = g;
        g = f;
        f = e;
        e = d.wrapping_add(t1);
        d = c;
        c = b;
        b = a;
        a = t1.wrapping_add(t2);
    }
    let out = [
        state[0].wrapping_add(a),
        state[1].wrapping_add(b),
        state[2].wrapping_add(c),
        state[3].wrapping_add(d),
        state[4].wrapping_add(e),
        state[5].wrapping_add(f),
        state[6].wrapping_add(g),
        state[7].wrapping_add(h),
    ];
    assert(out@ =~= compress(state@, block@));
    out
}


/// The chaining value after the first `n` blocks of a Merkle–Damgård chain
/// started at `initial`: `H_0 = initial`, `H_{i+1} = Compress(H_i, M_i)`.
pub open spec fn chain_value(initial: Seq<u32>, blocks: Seq<[u32; 16]>, n: nat) -> Seq<u32>
    decreases n,
{
    if n == 0 {
        initial
    } else {
        compress(chain_value(initial, blocks, (n - 1) as nat), blocks[n - 1]@)
    }
}

/// Runs a SHA-256 chain natively: `H_0 = initial_state` and
/// `H_{i+1} = Compress(H_i, M_i)`, returning `H_0, …, H_N`.
pub fn sha256_chain_states(initial_state: [u32; 8], blocks: &[[u32; 16]]) -> (states: Vec<[u32; 8]>)
    ensures
        states.len() == blocks.len() + 1,
        forall|i: int| 0 <= i <= blocks.len() ==> #[trigger] states[i]@ == chain_value(
            initial_state@,
            blocks@,
            i as nat,
        ),
        states[0] == initial_state,
        forall|i: int|
            0 <= i < blocks.len() ==> #[trigger] states[i + 1]@ == compress(
                states[i]@,
                blocks[i]@,
            ),
{
    let mut states: Vec<[u32; 8]> = Vec::new();
    states.push(initial_state);
    for i in 0..blocks.len()
        invariant
            states.len() == i + 1,
            forall|j: int| 0 <= j <= i ==> #[trigger] states[j]@ == chain_value(
                initial_state@,
                blocks@,
                j as nat,
            ),
    {
        let last = states[i];
        let next = sha256_compress(last, blocks[i]);
        states.push(next);
        assert(states[i + 1]@ == chain_value(initial_state@, blocks@, (i + 1) as nat));
    }
    states
}

/// Public claim of a chain batch: the blocks `M_0, …, M_{N-1}` and the
/// digest `H_N`, asserting `H_N = Compress(⋯Compress(H_0, M_0)⋯, M_{N-1})`
/// for the batch's initial state `H_0`.
#[derive(Clone, Debug, PartialEq, Eq)]
pub struct Sha256ChainStatement {
    /// One parsed 512-bit block per chained compression, in chain order.
    pub blocks: Vec<[u32; 16]>,
    /// The chaining value after the last block.
    pub digest: [u32; 8],
}

/// The public words of chain instance `instance`: its block, then the
/// terminal words (the digest at the last instance, zero elsewhere).
pub open spec fn chain_instance_words(
    blocks: Seq<[u32; 16]>,
    digest: Seq<u32>,
    instance: int,
) -> Seq<u32> {
    blocks[instance]@ + if instance + 1 == blocks.len() {
        digest
    } else {
        Seq::new(8, |j: int| 0u32)
    }
}

impl Sha256ChainStatement {
    /// The 24 public words of instance `instance`: its block, then the
    /// terminal words (the digest at the last instance, zero elsewhere).
    pub fn instance_words(&self, instance: usize) -> (words: Vec<u32>)
        requires
            instance < self.blocks.len(),
        ensures
            words@ == chain_instance_words(self.blocks@, self.digest@, instance as int),
            words@.len() == 24,
            forall|j: int| 0 <= j < 16 ==> #[trigger] words@[j] == self.blocks@[instance as int][j],
            forall|j: int|
                0 <= j < 8 ==> #[trigger] words@[16 + j] == if instance + 1 == self.blocks.len() {
                    self.digest[j]
                } else {
                    0u32
                },
    {
        let mut words: Vec<u32> = Vec::with_capacity(24);
        let block = self.blocks[instance];
        for j in 0..16
            invariant
                block == self.blocks@[instance as int],
                words@ == block@.take(j as int),
        {
            words.push(block[j]);
            assert(block@.take(j + 1) =~= block@.take(j as int).push(block[j as int]));
        }
        assert(block@.take(16) =~= block@);
        let last = instance + 1 == self.blocks.len();
        for j in 0..8
            invariant
                block == self.blocks@[instance as int],
                last == (instance + 1 == self.blocks.len()),
                words@ == block@ + (if last {
                    self.digest@
                } else {
                    Seq::new(8, |k: int| 0u32)
                }).take(j as int),
        {
            let word = if last {
                self.digest[j]
            } else {
                0u32
            };
            words.push(word);
            assert((if last {
                self.digest@
            } else {
                Seq::new(8, |k: int| 0u32)
            }).take(j + 1) =~= (if last {
                self.digest@
            } else {
                Seq::new(8, |k: int| 0u32)
            }).take(j as int).push(word));
        }
        assert((if last {
            self.digest@
        } else {
            Seq::new(8, |k: int| 0u32)
        }).take(8) =~= (if last {
            self.digest@
        } else {
            Seq::new(8, |k: int| 0u32)
        }));
        words
    }
}


/// One independent SHA-256 compression input: chaining state and message block.
pub type Sha256CompressionInput = ([u32; 8], [u32; 16]);

/// Public claim for one SHA-256 compression: `claimed_output =
/// Compress(state, block)`, with canonical public order `H`, `M`, `H_hat`.
#[derive(Clone, Copy, Debug, PartialEq, Eq)]
pub struct Sha256CompressionStatement {
    /// Initial chaining state `H = (H_0, ..., H_7)`.
    pub state: [u32; 8],
    /// One parsed 512-bit message block `M = (M_0, ..., M_15)`.
    pub block: [u32; 16],
    /// Claimed post-compression state `H_hat`.
    pub claimed_output: [u32; 8],
}

impl Sha256CompressionStatement {
    /// Builds a public compression statement from the circuit input and its
    /// claimed output.
    pub fn new(input: Sha256CompressionInput, claimed_output: [u32; 8]) -> (statement: Self)
        ensures
            statement.state == input.0,
            statement.block == input.1,
            statement.claimed_output == claimed_output,
    {
        Sha256CompressionStatement { state: input.0, block: input.1, claimed_output }
    }

    /// The statement's 32 words in canonical transcript order: state,
    /// block, output.
    pub fn words(&self) -> (words: Vec<u32>)
        ensures
            words@ == self.state@ + self.block@ + self.claimed_output@,
    {
        let mut words: Vec<u32> = Vec::with_capacity(32);
        for j in 0..8
            invariant
                words@ == self.state@.take(j as int),
        {
            words.push(self.state[j]);
            assert(self.state@.take(j + 1) =~= self.state@.take(j as int).push(self.state[j as int]));
        }
        assert(self.state@.take(8) =~= self.state@);
        for j in 0..16
            invariant
                words@ == self.state@ + self.block@.take(j as int),
        {
            words.push(self.block[j]);
            assert(self.block@.take(j + 1) =~= self.block@.take(j as int).push(self.block[j as int]));
        }
        assert(self.block@.take(16) =~= self.block@);
        for j in 0..8
            invariant
                words@ == self.state@ + self.block@ + self.claimed_output@.take(j as int),
        {
            words.push(self.claimed_output[j]);
            assert(self.claimed_output@.take(j + 1) =~= self.claimed_output@.take(j as int).push(
                self.claimed_output[j as int],
            ));
        }
        assert(self.claimed_output@.take(8) =~= self.claimed_output@);
        words
    }
}

/// Bit `b` (least significant first) of a 32-bit word.
pub open spec fn word_bit(x: u32, b: int) -> bool {
    (x >> (b as u32)) & 1u32 == 1u32
}

/// The circuit input bits of one compression: the 512 block bits, then
/// the 256 state bits, each word least-significant bit first.
pub open spec fn input_bit(state: Seq<u32>, block: Seq<u32>, index: int) -> bool {
    if index < 512 {
        word_bit(block[index / 32], index % 32)
    } else {
        word_bit(state[(index - 512) / 32], (index - 512) % 32)
    }
}

/// Number of circuit input bits of one compression.
pub const COMPRESSION_INPUT_BITS: usize = 768;

/// Decomposes `(state, block)` into the circuit's input bit order: block
/// words first, then state words, each least-significant bit first.
pub fn compression_input_bits(state: [u32; 8], block: [u32; 16]) -> (bits: Vec<bool>)
    ensures
        bits.len() == COMPRESSION_INPUT_BITS,
        forall|i: int| 0 <= i < 768 ==> #[trigger] bits[i] == input_bit(state@, block@, i),
{
    let mut bits: Vec<bool> = Vec::with_capacity(768);
    for index in 0..768usize
        invariant
            bits.len() == index,
            forall|i: int| 0 <= i < index ==> #[trigger] bits[i] == input_bit(state@, block@, i),
    {
        let word = if index < 512 {
            block[index / 32]
        } else {
            state[(index - 512) / 32]
        };
        let shift = (index % 32) as u32;
        bits.push((word >> shift) & 1 == 1);
    }
    bits
}

/// The word whose low `n` bits are `bits[0..n]` (least significant first)
/// and whose other bits are zero.
pub open spec fn word_from_bits(bits: Seq<bool>, n: nat) -> u32
    decreases n,
{
    if n == 0 {
        0u32
    } else {
        word_from_bits(bits, (n - 1) as nat) | ((if bits[n - 1] {
            1u32
        } else {
            0u32
        }) << ((n - 1) as u32))
    }
}

/// The low `n` bits of `x`, `n <= 32`.
pub open spec fn low_bits(x: u32, n: nat) -> u32 {
    (x as u64 & (((1u64 << (n as u64)) - 1) as u64)) as u32
}

proof fn lemma_low_bits_step(x: u32, n: u32)
    requires
        n < 32,
    ensures
        low_bits(x, (n + 1) as nat) == low_bits(x, n as nat) | ((if (x >> n) & 1u32 == 1u32 {
            1u32
        } else {
            0u32
        }) << n),
{
    let b: u32 = if (x >> n) & 1u32 == 1u32 {
        1u32
    } else {
        0u32
    };
    assert(b == (x >> n) & 1u32) by (bit_vector)
        requires
            b == if (x >> n) & 1u32 == 1u32 {
                1u32
            } else {
                0u32
            },
    ;
    assert((x as u64 & (((1u64 << ((n + 1) as u64)) - 1) as u64)) as u32 == (x as u64 & (((1u64
        << (n as u64)) - 1) as u64)) as u32 | (((x >> n) & 1u32) << n)) by (bit_vector)
        requires
            n < 32,
    ;
}

/// Reading back the bits of a word gives the word: the low `n` bits of
/// `word_from_bits` over the bits of `x` are the low `n` bits of `x`.
pub proof fn lemma_word_from_own_bits(x: u32, bits: Seq<bool>, n: nat)
    requires
        n <= 32,
        bits.len() >= n,
        forall|b: int| 0 <= b < n ==> bits[b] == word_bit(x, b),
    ensures
        word_from_bits(bits, n) == low_bits(x, n),
    decreases n,
{
    if n == 0 {
        assert((x as u64 & (((1u64 << 0u64) - 1) as u64)) as u32 == 0u32) by (bit_vector);
    } else {
        lemma_word_from_own_bits(x, bits, (n - 1) as nat);
        lemma_low_bits_step(x, (n - 1) as u32);
    }
}

/// Assembles the eight output words from their 256 bits (word-major,
/// least-significant bit first).
pub fn output_words_from_bits(bits: &[bool]) -> (words: [u32; 8])
    requires
        bits.len() >= 256,
    ensures
        forall|w: int| 0 <= w < 8 ==> #[trigger] words[w] == word_from_bits(
            bits@.subrange(32 * w, 32 * w + 32),
            32,
        ),
{
    let mut words = [0u32; 8];
    for w in 0..8usize
        invariant
            bits.len() >= 256,
            forall|v: int| 0 <= v < w ==> #[trigger] words[v] == word_from_bits(
                bits@.subrange(32 * v, 32 * v + 32),
                32,
            ),
    {
        let ghost word_bits = bits@.subrange(32 * w as int, 32 * w as int + 32);
        let mut value = 0u32;
        for b in 0..32usize
            invariant
                bits.len() >= 256,
                w < 8,
                word_bits == bits@.subrange(32 * w as int, 32 * w as int + 32),
                value == word_from_bits(word_bits, b as nat),
        {
            let bit: u32 = if bits[w * 32 + b] {
                1
            } else {
                0
            };
            value = value | (bit << (b as u32));
        }
        words[w] = value;
    }
    words
}

/// Decomposing a state into input bits and reassembling them recovers the
/// state: the state occupies input bits `[512, 768)` word by word.
pub proof fn lemma_input_bits_roundtrip_state(state: [u32; 8], block: [u32; 16], bits: Seq<bool>)
    requires
        bits.len() == COMPRESSION_INPUT_BITS,
        forall|i: int| 0 <= i < 768 ==> #[trigger] bits[i] == input_bit(state@, block@, i),
    ensures
        forall|w: int| 0 <= w < 8 ==> #[trigger] word_from_bits(
            bits.subrange(512 + 32 * w, 512 + 32 * w + 32),
            32,
        ) == state[w],
{
    assert forall|w: int| 0 <= w < 8 implies #[trigger] word_from_bits(
        bits.subrange(512 + 32 * w, 512 + 32 * w + 32),
        32,
    ) == state[w] by {
        let sub = bits.subrange(512 + 32 * w, 512 + 32 * w + 32);
        assert forall|b: int| 0 <= b < 32 implies sub[b] == word_bit(state[w], b) by {
            assert(sub[b] == bits[512 + 32 * w + b]);
            assert((512 + 32 * w + b - 512) / 32 == w);
            assert((512 + 32 * w + b - 512) % 32 == b);
        }
        lemma_word_from_own_bits(state[w], sub, 32);
        let x = state[w];
        assert((x as u64 & (((1u64 << 32u64) - 1) as u64)) as u32 == x) by (bit_vector);
    }
}


/// Live derived cells of one independent compression, including its
/// leading constant.
pub const SHA256_H_BAR_LIVE_BITS: usize = 20457;
/// Terminal rows appended to every chained instance's derived assignment.
pub const SHA256_CHAIN_TERMINAL_BITS: usize = 256;
/// Live derived cells of one chained compression, including its leading
/// constant: the independent assignment plus the terminal rows.
pub const SHA256_CHAIN_H_BAR_LIVE_BITS: usize = 20713;
/// Per-compression chained derived width after removing the shared
/// constant cell.
pub const SHA256_CHAIN_H_INSTANCE_BITS: usize = 20712;
/// Public slots per chained instance: 16 block words then 8 terminal
/// words, 32 bits each.
pub const CHAIN_PUBLIC_BITS: usize = 768;
/// Output word `w`, bit `b` of the independent circuit's source is column
/// `6881 + 33w + b`.
pub const OUTPUT_F_COLUMN_BASE: usize = 6881;
/// Stride between consecutive output words in the source layout.
pub const OUTPUT_WORD_STRIDE: usize = 33;

/// Committed source column of output word `word`, bit `bit` in the chained
/// layout (the independent layout minus its 256 state cells).
pub fn chain_output_f_column(word: usize, bit: usize) -> (column: usize)
    requires
        word < 8,
        bit < 32,
    ensures
        column == OUTPUT_F_COLUMN_BASE - 256 + OUTPUT_WORD_STRIDE * word + bit,
{
    OUTPUT_F_COLUMN_BASE - 256 + OUTPUT_WORD_STRIDE * word + bit
}

/// Derived column of public slot `slot` of a chained instance.
pub open spec fn public_h_column(slot: int) -> int {
    if slot < 512 {
        1 + 256 + slot
    } else {
        SHA256_H_BAR_LIVE_BITS + (slot - 512)
    }
}

/// Committed source column of public slot `slot` of a chained instance.
pub open spec fn public_f_column(slot: int) -> int {
    if slot < 512 {
        1 + slot
    } else {
        OUTPUT_F_COLUMN_BASE - 256 + OUTPUT_WORD_STRIDE * ((slot - 512) / 32) + (slot - 512) % 32
    }
}

/// Derived column of public slot `slot`: block bits `[0, 512)` sit at the
/// circuit's block lifts, terminal bits `[512, 768)` at the terminal rows.
pub fn chain_public_h_column(slot: usize) -> (column: usize)
    requires
        slot < CHAIN_PUBLIC_BITS,
    ensures
        column == public_h_column(slot as int),
        slot < 512 ==> column == 257 + slot,
        slot >= 512 ==> column == SHA256_H_BAR_LIVE_BITS + (slot - 512),
{
    if slot < 512 {
        1 + 256 + slot
    } else {
        SHA256_H_BAR_LIVE_BITS + (slot - 512)
    }
}

/// Committed source column of public slot `slot` (same order as
/// [`chain_public_h_column`]); terminal slots read the instance's own
/// output cells.
pub fn chain_public_f_column(slot: usize) -> (column: usize)
    requires
        slot < CHAIN_PUBLIC_BITS,
    ensures
        column == public_f_column(slot as int),
        slot < 512 ==> column == 1 + slot,
        slot >= 512 ==> column == OUTPUT_F_COLUMN_BASE - 256 + OUTPUT_WORD_STRIDE * ((slot - 512)
            / 32) + (slot - 512) % 32,
{
    if slot < 512 {
        1 + slot
    } else {
        let terminal = slot - 512;
        chain_output_f_column(terminal / 32, terminal % 32)
    }
}

/// Distinct public slots of a chained instance read distinct derived and
/// distinct source columns; the terminal slots land exactly on the
/// terminal rows, the block slots inside the independent assignment.
pub proof fn lemma_public_columns_are_distinct(slot1: int, slot2: int)
    requires
        0 <= slot1 < 768,
        0 <= slot2 < 768,
        slot1 != slot2,
    ensures
        public_h_column(slot1) != public_h_column(slot2),
        public_f_column(slot1) != public_f_column(slot2),
        slot1 >= 512 ==> SHA256_H_BAR_LIVE_BITS <= public_h_column(slot1)
            < SHA256_CHAIN_H_BAR_LIVE_BITS,
        slot1 < 512 ==> 0 < public_h_column(slot1) < SHA256_H_BAR_LIVE_BITS,
{
}

/// A chain starts at its initial state, and each chaining value is the
/// compression of the one immediately before it with the next block.
pub proof fn lemma_chain_value_step(initial: Seq<u32>, blocks: Seq<[u32; 16]>, n: nat)
    ensures
        chain_value(initial, blocks, 0) == initial,
        chain_value(initial, blocks, n + 1) == compress(
            chain_value(initial, blocks, n),
            blocks[n as int]@,
        ),
{
}

/// The public words of chain instance `i`: its 16 block words, then the
/// digest if `i` is the last instance and eight zero words otherwise.
pub proof fn lemma_chain_instance_words_layout(
    blocks: Seq<[u32; 16]>,
    digest: [u32; 8],
    i: int,
)
    requires
        0 <= i < blocks.len(),
    ensures
        chain_instance_words(blocks, digest@, i).len() == 24,
        forall|j: int|
            0 <= j < 16 ==> #[trigger] chain_instance_words(blocks, digest@, i)[j] == blocks[i][j],
        forall|j: int|
            0 <= j < 8 ==> #[trigger] chain_instance_words(blocks, digest@, i)[16 + j] == if i + 1
                == blocks.len() {
                digest[j]
            } else {
                0u32
            },
{
}

/// Block bit `b` of word `w` of a chained instance (public slot `32w + b`)
/// is read from source column `1 + 32w + b` and derived column
/// `257 + 32w + b`: consecutive bits of a word sit in consecutive columns,
/// and terminal bit `b` of digest word `w` sits at derived row
/// `SHA256_H_BAR_LIVE_BITS + 32w + b` and at the instance's output cell.
pub proof fn lemma_public_columns_layout(w: int, b: int)
    requires
        0 <= b < 32,
    ensures
        0 <= w < 16 ==> public_f_column(32 * w + b) == 1 + 32 * w + b,
        0 <= w < 16 ==> public_h_column(32 * w + b) == 257 + 32 * w + b,
        0 <= w < 8 ==> public_h_column(512 + 32 * w + b) == SHA256_H_BAR_LIVE_BITS + 32 * w + b,
        0 <= w < 8 ==> public_f_column(512 + 32 * w + b) == OUTPUT_F_COLUMN_BASE - 256
            + OUTPUT_WORD_STRIDE * w + b,
{
    if 0 <= w < 8 {
        vstd::arithmetic::div_mod::lemma_fundamental_div_mod_converse(32 * w + b, 32, w, b);
    }
}

/// Domain of the public-statement binding of an independent batch.
pub const SHA256_PUBLIC_STATEMENT_DOMAIN: &'static str = "f2z/spartan-sha256/public-statement/v1";

/// Domain of the public-statement binding of a chain.
pub const CHAIN_PUBLIC_STATEMENT_DOMAIN: &'static str =
    "f2z/spartan-sha256-chain/public-statement/v1";

/// Words as consecutive four-byte little-endian encodings.
pub open spec fn words_le(words: Seq<u32>) -> Seq<u8>
    decreases words.len(),
{
    if words.len() == 0 {
        Seq::empty()
    } else {
        words_le(words.drop_last()) + le_bytes(words.last() as nat, 4)
    }
}

/// The statements' words (state, block, output of each) in order.
pub open spec fn statements_le(statements: Seq<Sha256CompressionStatement>) -> Seq<u8>
    decreases statements.len(),
{
    if statements.len() == 0 {
        Seq::empty()
    } else {
        statements_le(statements.drop_last()) + words_le(
            statements.last().state@ + statements.last().block@ + statements.last().claimed_output@,
        )
    }
}

/// The blocks' words in chain order.
pub open spec fn blocks_le(blocks: Seq<[u32; 16]>) -> Seq<u8>
    decreases blocks.len(),
{
    if blocks.len() == 0 {
        Seq::empty()
    } else {
        blocks_le(blocks.drop_last()) + words_le(blocks.last()@)
    }
}

/// The bytes an independent batch's binding hashes: the domain, the
/// statement count, then every statement's words.
pub open spec fn public_statement_preimage(statements: Seq<Sha256CompressionStatement>) -> Seq<
    u8,
> {
    SHA256_PUBLIC_STATEMENT_DOMAIN.spec_bytes() + le_bytes(statements.len(), 8) + statements_le(
        statements,
    )
}

/// The bytes a chain's binding hashes: the domain, the initial state, the
/// block count, every block, and the digest.
pub open spec fn chain_statement_preimage(
    initial_state: Seq<u32>,
    blocks: Seq<[u32; 16]>,
    digest: Seq<u32>,
) -> Seq<u8> {
    CHAIN_PUBLIC_STATEMENT_DOMAIN.spec_bytes() + words_le(initial_state) + le_bytes(blocks.len(), 8)
        + blocks_le(blocks) + words_le(digest)
}

proof fn lemma_words_le_len(words: Seq<u32>)
    ensures
        words_le(words).len() == 4 * words.len(),
    decreases words.len(),
{
    if words.len() > 0 {
        lemma_words_le_len(words.drop_last());
    }
}

proof fn lemma_words_le_injective(a: Seq<u32>, b: Seq<u32>)
    requires
        a.len() == b.len(),
        words_le(a) == words_le(b),
    ensures
        a == b,
    decreases a.len(),
{
    if a.len() > 0 {
        let k = 4 * (a.len() - 1);
        lemma_words_le_len(a.drop_last());
        lemma_words_le_len(b.drop_last());
        assert(words_le(a.drop_last()) =~= words_le(a).subrange(0, k));
        assert(words_le(b.drop_last()) =~= words_le(b).subrange(0, k));
        assert(le_bytes(a.last() as nat, 4) =~= words_le(a).subrange(k, k + 4));
        assert(le_bytes(b.last() as nat, 4) =~= words_le(b).subrange(k, k + 4));
        assert(pow2(32) == 0x1_0000_0000) by {
            lemma2_to64();
        }
        lemma_le_bytes_injective(a.last() as nat, b.last() as nat, 4);
        lemma_words_le_injective(a.drop_last(), b.drop_last());
        assert(a =~= a.drop_last().push(a.last()));
        assert(b =~= b.drop_last().push(b.last()));
    }
}

proof fn lemma_statements_le_len(statements: Seq<Sha256CompressionStatement>)
    ensures
        statements_le(statements).len() == 128 * statements.len(),
    decreases statements.len(),
{
    if statements.len() > 0 {
        let last = statements.last();
        lemma_statements_le_len(statements.drop_last());
        lemma_words_le_len(last.state@ + last.block@ + last.claimed_output@);
    }
}

proof fn lemma_statements_le_injective(
    a: Seq<Sha256CompressionStatement>,
    b: Seq<Sha256CompressionStatement>,
)
    requires
        a.len() == b.len(),
        statements_le(a) == statements_le(b),
    ensures
        a == b,
    decreases a.len(),
{
    if a.len() > 0 {
        let k = 128 * (a.len() - 1);
        let x = a.last();
        let y = b.last();
        let xw = x.state@ + x.block@ + x.claimed_output@;
        let yw = y.state@ + y.block@ + y.claimed_output@;
        lemma_statements_le_len(a.drop_last());
        lemma_statements_le_len(b.drop_last());
        lemma_words_le_len(xw);
        lemma_words_le_len(yw);
        assert(statements_le(a.drop_last()) =~= statements_le(a).subrange(0, k));
        assert(statements_le(b.drop_last()) =~= statements_le(b).subrange(0, k));
        assert(words_le(xw) =~= statements_le(a).subrange(k, k + 128));
        assert(words_le(yw) =~= statements_le(b).subrange(k, k + 128));
        lemma_words_le_injective(xw, yw);
        assert(x.state@ =~= xw.subrange(0, 8) && y.state@ =~= yw.subrange(0, 8));
        assert(x.block@ =~= xw.subrange(8, 24) && y.block@ =~= yw.subrange(8, 24));
        assert(x.claimed_output@ =~= xw.subrange(24, 32) && y.claimed_output@ =~= yw.subrange(
            24,
            32,
        ));
        assert(x.state =~= y.state);
        assert(x.block =~= y.block);
        assert(x.claimed_output =~= y.claimed_output);
        lemma_statements_le_injective(a.drop_last(), b.drop_last());
        assert(a =~= a.drop_last().push(x));
        assert(b =~= b.drop_last().push(y));
    }
}

proof fn lemma_blocks_le_len(blocks: Seq<[u32; 16]>)
    ensures
        blocks_le(blocks).len() == 64 * blocks.len(),
    decreases blocks.len(),
{
    if blocks.len() > 0 {
        lemma_blocks_le_len(blocks.drop_last());
        lemma_words_le_len(blocks.last()@);
    }
}

proof fn lemma_blocks_le_injective(a: Seq<[u32; 16]>, b: Seq<[u32; 16]>)
    requires
        a.len() == b.len(),
        blocks_le(a) == blocks_le(b),
    ensures
        a == b,
    decreases a.len(),
{
    if a.len() > 0 {
        let k = 64 * (a.len() - 1);
        lemma_blocks_le_len(a.drop_last());
        lemma_blocks_le_len(b.drop_last());
        lemma_words_le_len(a.last()@);
        lemma_words_le_len(b.last()@);
        assert(blocks_le(a.drop_last()) =~= blocks_le(a).subrange(0, k));
        assert(blocks_le(b.drop_last()) =~= blocks_le(b).subrange(0, k));
        assert(words_le(a.last()@) =~= blocks_le(a).subrange(k, k + 64));
        assert(words_le(b.last()@) =~= blocks_le(b).subrange(k, k + 64));
        lemma_words_le_injective(a.last()@, b.last()@);
        assert(a.last() =~= b.last());
        lemma_blocks_le_injective(a.drop_last(), b.drop_last());
        assert(a =~= a.drop_last().push(a.last()));
        assert(b =~= b.drop_last().push(b.last()));
    }
}

/// The independent-batch binding covers every public component: equal
/// hashed bytes mean the same statements, in the same order.
pub proof fn lemma_public_statement_preimage_injective(
    a: Seq<Sha256CompressionStatement>,
    b: Seq<Sha256CompressionStatement>,
)
    requires
        a.len() < pow2(64),
        b.len() < pow2(64),
        public_statement_preimage(a) == public_statement_preimage(b),
    ensures
        a == b,
{
    let d = SHA256_PUBLIC_STATEMENT_DOMAIN.spec_bytes().len() as int;
    let pa = public_statement_preimage(a);
    let pb = public_statement_preimage(b);
    assert(le_bytes(a.len(), 8) =~= pa.subrange(d, d + 8));
    assert(le_bytes(b.len(), 8) =~= pb.subrange(d, d + 8));
    lemma_le_bytes_injective(a.len(), b.len(), 8);
    assert(statements_le(a) =~= pa.subrange(d + 8, pa.len() as int));
    assert(statements_le(b) =~= pb.subrange(d + 8, pb.len() as int));
    lemma_statements_le_injective(a, b);
}

/// The chain binding covers every public component: equal hashed bytes
/// mean the same initial state, the same blocks in the same order, and
/// the same digest.
pub proof fn lemma_chain_statement_preimage_injective(
    initial1: [u32; 8],
    blocks1: Seq<[u32; 16]>,
    digest1: [u32; 8],
    initial2: [u32; 8],
    blocks2: Seq<[u32; 16]>,
    digest2: [u32; 8],
)
    requires
        blocks1.len() < pow2(64),
        blocks2.len() < pow2(64),
        chain_statement_preimage(initial1@, blocks1, digest1@) == chain_statement_preimage(
            initial2@,
            blocks2,
            digest2@,
        ),
    ensures
        initial1 == initial2,
        blocks1 == blocks2,
        digest1 == digest2,
{
    let d = CHAIN_PUBLIC_STATEMENT_DOMAIN.spec_bytes().len() as int;
    let p1 = chain_statement_preimage(initial1@, blocks1, digest1@);
    let p2 = chain_statement_preimage(initial2@, blocks2, digest2@);
    lemma_words_le_len(initial1@);
    lemma_words_le_len(initial2@);
    lemma_words_le_len(digest1@);
    lemma_words_le_len(digest2@);
    lemma_blocks_le_len(blocks1);
    lemma_blocks_le_len(blocks2);
    assert(words_le(initial1@) =~= p1.subrange(d, d + 32));
    assert(words_le(initial2@) =~= p2.subrange(d, d + 32));
    lemma_words_le_injective(initial1@, initial2@);
    assert(initial1 =~= initial2);
    assert(le_bytes(blocks1.len(), 8) =~= p1.subrange(d + 32, d + 40));
    assert(le_bytes(blocks2.len(), 8) =~= p2.subrange(d + 32, d + 40));
    lemma_le_bytes_injective(blocks1.len(), blocks2.len(), 8);
    let e = d + 40 + 64 * blocks1.len();
    assert(blocks_le(blocks1) =~= p1.subrange(d + 40, e));
    assert(blocks_le(blocks2) =~= p2.subrange(d + 40, e));
    lemma_blocks_le_injective(blocks1, blocks2);
    assert(words_le(digest1@) =~= p1.subrange(e, e + 32));
    assert(words_le(digest2@) =~= p2.subrange(e, e + 32));
    lemma_words_le_injective(digest1@, digest2@);
    assert(digest1 =~= digest2);
}

fn absorb_words(hash: &mut BindingHasher, words: &[u32])
    ensures
        final(hash)@ == old(hash)@ + words_le(words@),
{
    let ghost start = hash@;
    for i in 0..words.len()
        invariant
            hash@ == start + words_le(words@.take(i as int)),
    {
        let mut bytes: Vec<u8> = Vec::new();
        extend_le(&mut bytes, words[i] as u128, 4);
        hash.update(bytes.as_slice());
        assert(words@.take(i + 1).drop_last() =~= words@.take(i as int));
        assert(hash@ =~= start + words_le(words@.take(i + 1)));
    }
    assert(words@.take(words.len() as int) =~= words@);
}

/// Binds an independent batch's public statements: the domain, the
/// statement count, then every statement's words in canonical order.
pub fn public_statement_binding(public_statement: &[Sha256CompressionStatement]) -> (digest: [u8; 32])
    ensures
        digest@ == blake3_digest(public_statement_preimage(public_statement@)),
{
    let mut hash = BindingHasher::new();
    hash.update(SHA256_PUBLIC_STATEMENT_DOMAIN.as_bytes());
    hash_usize(&mut hash, public_statement.len());
    let ghost prefix = hash@;
    for i in 0..public_statement.len()
        invariant
            hash@ == prefix + statements_le(public_statement@.take(i as int)),
    {
        let words = public_statement[i].words();
        absorb_words(&mut hash, words.as_slice());
        assert(public_statement@.take(i + 1).drop_last() =~= public_statement@.take(i as int));
        assert(hash@ =~= prefix + statements_le(public_statement@.take(i + 1)));
    }
    assert(public_statement@.take(public_statement.len() as int) =~= public_statement@);
    hash.finalize()
}

/// Binds a chain's public statement: the domain, the initial state, the
/// block count, every block, and the digest.
pub fn chain_statement_binding(initial_state: [u32; 8], statement: &Sha256ChainStatement) -> (digest:
    [u8; 32])
    ensures
        digest@ == blake3_digest(
            chain_statement_preimage(initial_state@, statement.blocks@, statement.digest@),
        ),
{
    let mut hash = BindingHasher::new();
    hash.update(CHAIN_PUBLIC_STATEMENT_DOMAIN.as_bytes());
    absorb_words(&mut hash, &initial_state);
    hash_usize(&mut hash, statement.blocks.len());
    let ghost prefix = hash@;
    for i in 0..statement.blocks.len()
        invariant
            hash@ == prefix + blocks_le(statement.blocks@.take(i as int)),
    {
        let block = statement.blocks[i];
        absorb_words(&mut hash, &block);
        assert(statement.blocks@.take(i + 1).drop_last() =~= statement.blocks@.take(i as int));
        assert(hash@ =~= prefix + blocks_le(statement.blocks@.take(i + 1)));
    }
    assert(statement.blocks@.take(statement.blocks.len() as int) =~= statement.blocks@);
    absorb_words(&mut hash, &statement.digest);
    hash.finalize()
}

} // verus!
