//! Canonical byte encodings bound into digests, and the BLAKE3 digest of
//! an absorbed byte string.

use vstd::arithmetic::power2::*;
use vstd::prelude::*;
use vstd::string::StringSliceAdditionalSpecFns;

use crate::profile::IopSecurityParams;

verus! {

/// Little-endian encoding of `v` in `n` bytes.
pub open spec fn le_bytes(v: nat, n: nat) -> Seq<u8> {
    Seq::new(n, |i: int| ((v / vstd::arithmetic::power2::pow2((8 * i) as nat)) % 256) as u8)
}

/// Appends the `n`-byte little-endian encoding of `v` (`v < 2^(8n)`).
pub fn extend_le(bytes: &mut Vec<u8>, v: u128, n: usize)
    requires
        n <= 16,
    ensures
        final(bytes)@ == old(bytes)@ + le_bytes(v as nat, n as nat),
{
    let ghost start = bytes@;
    for i in 0..n
        invariant
            n <= 16,
            bytes@ == start + le_bytes(v as nat, n as nat).take(i as int),
    {
        proof {
            vstd::bits::lemma_u128_shr_is_div(v, (8 * i) as u128);
            assert((v >> ((8 * i) as u128)) as u8 == (((v >> ((8 * i) as u128)) as nat) % 256) as u8)
                by {
                let w = v >> ((8 * i) as u128);
                assert(w as u8 == w % 256) by (bit_vector);
            }
        }
        bytes.push((v >> (8 * i) as u128) as u8);
        assert(le_bytes(v as nat, n as nat).take(i + 1) =~= le_bytes(v as nat, n as nat).take(
            i as int,
        ).push(le_bytes(v as nat, n as nat)[i as int]));
    }
    assert(le_bytes(v as nat, n as nat).take(n as int) =~= le_bytes(v as nat, n as nat));
}

proof fn lemma_le_bytes_step(v: nat, n: nat)
    requires
        n > 0,
    ensures
        le_bytes(v, n) =~= seq![(v % 256) as u8] + le_bytes(v / 256, (n - 1) as nat),
{
    assert forall|i: int| 0 <= i < n implies #[trigger] le_bytes(v, n)[i] == (seq![
        (v % 256) as u8,
    ] + le_bytes(v / 256, (n - 1) as nat))[i] by {
        if i == 0 {
            assert(pow2(0) == 1) by {
                lemma2_to64();
            }
        } else {
            lemma_pow2_adds(8, (8 * (i - 1)) as nat);
            assert(pow2(8) == 256) by {
                lemma2_to64();
            }
            lemma_pow2_pos((8 * (i - 1)) as nat);
            vstd::arithmetic::div_mod::lemma_div_denominator(
                v as int,
                256,
                pow2((8 * (i - 1)) as nat) as int,
            );
        }
    }
}

/// Little-endian encodings of values below `2^(8n)` are injective.
pub proof fn lemma_le_bytes_injective(a: nat, b: nat, n: nat)
    requires
        a < pow2(8 * n),
        b < pow2(8 * n),
        le_bytes(a, n) == le_bytes(b, n),
    ensures
        a == b,
    decreases n,
{
    if n == 0 {
        assert(pow2(0) == 1) by {
            lemma2_to64();
        }
    } else {
        lemma_le_bytes_step(a, n);
        lemma_le_bytes_step(b, n);
        assert(le_bytes(a, n)[0] == le_bytes(b, n)[0]);
        assert(le_bytes(a / 256, (n - 1) as nat) =~= le_bytes(a, n).subrange(1, n as int));
        assert(le_bytes(b / 256, (n - 1) as nat) =~= le_bytes(b, n).subrange(1, n as int));
        lemma_pow2_adds(8, (8 * (n - 1)) as nat);
        assert(pow2(8) == 256) by {
            lemma2_to64();
        }
        vstd::arithmetic::div_mod::lemma_multiply_divide_lt(
            a as int,
            256,
            pow2((8 * (n - 1)) as nat) as int,
        );
        vstd::arithmetic::div_mod::lemma_multiply_divide_lt(
            b as int,
            256,
            pow2((8 * (n - 1)) as nat) as int,
        );
        lemma_le_bytes_injective(a / 256, b / 256, (n - 1) as nat);
        vstd::arithmetic::div_mod::lemma_fundamental_div_mod(a as int, 256);
        vstd::arithmetic::div_mod::lemma_fundamental_div_mod(b as int, 256);
        assert((seq![(a % 256) as u8] + le_bytes(a / 256, (n - 1) as nat))[0] == (a % 256) as u8);
        assert((seq![(b % 256) as u8] + le_bytes(b / 256, (n - 1) as nat))[0] == (b % 256) as u8);
        assert(((a % 256) as u8) == ((b % 256) as u8));
        assert(a % 256 == b % 256);
        assert(a / 256 == b / 256);
        assert(a == 256 * (a / 256) + a % 256);
    }
}

/// The frame length prefix: a `usize` length as eight little-endian bytes.
pub open spec fn frame_len(len: nat) -> Seq<u8> {
    le_bytes(len, 8)
}

/// Appends the eight-byte little-endian frame length `len`.
pub fn extend_frame_len(frame: &mut Vec<u8>, len: usize)
    ensures
        final(frame)@ == old(frame)@ + frame_len(len as nat),
{
    extend_le(frame, len as u128, 8);
}

/// The BLAKE3 digest of a byte string.
pub uninterp spec fn blake3_digest(input: Seq<u8>) -> Seq<u8>;

/// Calls `blake3::hash` on `input` and returns the 32 digest bytes; the
/// contract names the digest as a function of the input bytes alone.
#[verifier::external_body]
fn blake3_hash(input: &[u8]) -> (digest: [u8; 32])
    ensures
        digest@ == blake3_digest(input@),
{
    *blake3::hash(input).as_bytes()
}

/// A digest under construction: the bytes absorbed so far. BLAKE3's
/// incremental hashing of a sequence of updates equals hashing their
/// concatenation, so the digest is that of the absorbed string.
pub struct BindingHasher {
    absorbed: Vec<u8>,
}

impl View for BindingHasher {
    type V = Seq<u8>;

    closed spec fn view(&self) -> Seq<u8> {
        self.absorbed@
    }
}

impl BindingHasher {
    /// An empty hasher.
    pub fn new() -> (hasher: Self)
        ensures
            hasher@ == Seq::<u8>::empty(),
    {
        BindingHasher { absorbed: Vec::new() }
    }

    /// Absorbs `bytes`.
    pub fn update(&mut self, bytes: &[u8])
        ensures
            final(self)@ == old(self)@ + bytes@,
    {
        let ghost start = self@;
        for i in 0..bytes.len()
            invariant
                self@ == start + bytes@.take(i as int),
        {
            self.absorbed.push(bytes[i]);
            assert(bytes@.take(i + 1) =~= bytes@.take(i as int).push(bytes[i as int]));
        }
        assert(bytes@.take(bytes.len() as int) =~= bytes@);
    }

    /// The 32-byte digest of everything absorbed.
    pub fn finalize(&self) -> (digest: [u8; 32])
        ensures
            digest@ == blake3_digest(self@),
    {
        blake3_hash(self.absorbed.as_slice())
    }
}

/// Absorbs `value` as eight little-endian bytes.
pub fn hash_usize(hash: &mut BindingHasher, value: usize)
    ensures
        final(hash)@ == old(hash)@ + le_bytes(value as nat, 8),
{
    let mut bytes: Vec<u8> = Vec::new();
    extend_le(&mut bytes, value as u128, 8);
    hash.update(bytes.as_slice());
}

/// The canonical encoding of instantiated security parameters: the
/// profile name, target, interval, grinding schedule and opening target.
pub open spec fn security_params_encoding(security: IopSecurityParams) -> Seq<u8> {
    le_bytes(security.profile_name.len() as nat, 8) + security.profile_name.spec_bytes()
        + le_bytes(security.lambda as nat, 4) + le_bytes(security.projection_min as nat, 16)
        + le_bytes(security.projection_max as nat, 16) + seq![
        if security.projection_full_width {
            1u8
        } else {
            0u8
        },
    ] + le_bytes(security.initial_grinding_bits as nat, 4) + le_bytes(
        security.piop_round_grinding_bits as nat,
        4,
    ) + le_bytes(security.terminal_grinding_bits as nat, 4) + reduction_encoding(security)
        + le_bytes(security.forest_round_grinding_bits as nat, 4) + le_bytes(
        security.ring_switch_grinding_bits as nat,
        4,
    ) + ood_encoding(security) + le_bytes(security.ligerito_target_bits as nat, 8)
}

/// `1 | min | max | grinding` for a reduction stage, `0` without one.
pub open spec fn reduction_encoding(security: IopSecurityParams) -> Seq<u8> {
    match security.reduction {
        Some(reduction) => seq![1u8] + le_bytes(reduction.min as nat, 16) + le_bytes(
            reduction.max as nat,
            16,
        ) + le_bytes(reduction.grinding_bits as nat, 4),
        None => seq![0u8],
    }
}

/// `1 | grinding` when the out-of-domain round runs, nothing otherwise.
pub open spec fn ood_encoding(security: IopSecurityParams) -> Seq<u8> {
    match security.ood {
        Some(ood) => seq![1u8] + le_bytes(ood.grinding_bits as nat, 4),
        None => Seq::<u8>::empty(),
    }
}

fn absorb_le(hash: &mut BindingHasher, value: u128, n: usize)
    requires
        n <= 16,
    ensures
        final(hash)@ == old(hash)@ + le_bytes(value as nat, n as nat),
{
    let mut bytes: Vec<u8> = Vec::new();
    extend_le(&mut bytes, value, n);
    hash.update(bytes.as_slice());
}

proof fn lemma_append_step(start: Seq<u8>, acc: Seq<u8>, x: Seq<u8>)
    ensures
        (start + acc) + x == start + (acc + x),
{
    assert((start + acc) + x =~= start + (acc + x));
}

/// Binds every instantiated security parameter (the profile name, target,
/// intervals, grinding schedule, and Ligerito target).
pub fn hash_security_params(hash: &mut BindingHasher, security: &IopSecurityParams)
    ensures
        final(hash)@ == old(hash)@ + security_params_encoding(*security),
{
    let ghost start = hash@;
    let name = security.profile_name.as_bytes();
    hash_usize(hash, security.profile_name.len());
    hash.update(name);
    let ghost acc = le_bytes(security.profile_name.len() as nat, 8)
        + security.profile_name.spec_bytes();
    assert(hash@ =~= start + acc);
    absorb_le(hash, security.lambda as u128, 4);
    proof {
        lemma_append_step(start, acc, le_bytes(security.lambda as nat, 4));
        acc = acc + le_bytes(security.lambda as nat, 4);
    }
    absorb_le(hash, security.projection_min, 16);
    proof {
        lemma_append_step(start, acc, le_bytes(security.projection_min as nat, 16));
        acc = acc + le_bytes(security.projection_min as nat, 16);
    }
    absorb_le(hash, security.projection_max, 16);
    proof {
        lemma_append_step(start, acc, le_bytes(security.projection_max as nat, 16));
        acc = acc + le_bytes(security.projection_max as nat, 16);
    }
    let flag: [u8; 1] = [if security.projection_full_width {
        1u8
    } else {
        0u8
    }];
    hash.update(&flag);
    proof {
        lemma_append_step(start, acc, seq![
            if security.projection_full_width {
                1u8
            } else {
                0u8
            },
        ]);
        acc = acc + seq![
            if security.projection_full_width {
                1u8
            } else {
                0u8
            },
        ];
    }
    absorb_le(hash, security.initial_grinding_bits as u128, 4);
    proof {
        lemma_append_step(start, acc, le_bytes(security.initial_grinding_bits as nat, 4));
        acc = acc + le_bytes(security.initial_grinding_bits as nat, 4);
    }
    absorb_le(hash, security.piop_round_grinding_bits as u128, 4);
    proof {
        lemma_append_step(start, acc, le_bytes(security.piop_round_grinding_bits as nat, 4));
        acc = acc + le_bytes(security.piop_round_grinding_bits as nat, 4);
    }
    absorb_le(hash, security.terminal_grinding_bits as u128, 4);
    proof {
        lemma_append_step(start, acc, le_bytes(security.terminal_grinding_bits as nat, 4));
        acc = acc + le_bytes(security.terminal_grinding_bits as nat, 4);
    }
    let ghost before_reduction = hash@;
    match security.reduction {
        Some(reduction) => {
            let one: [u8; 1] = [1u8];
            hash.update(&one);
            absorb_le(hash, reduction.min, 16);
            absorb_le(hash, reduction.max, 16);
            absorb_le(hash, reduction.grinding_bits as u128, 4);
        },
        None => {
            let zero: [u8; 1] = [0u8];
            hash.update(&zero);
        },
    }
    assert(hash@ =~= before_reduction + reduction_encoding(*security));
    proof {
        lemma_append_step(start, acc, reduction_encoding(*security));
        acc = acc + reduction_encoding(*security);
    }
    absorb_le(hash, security.forest_round_grinding_bits as u128, 4);
    proof {
        lemma_append_step(start, acc, le_bytes(security.forest_round_grinding_bits as nat, 4));
        acc = acc + le_bytes(security.forest_round_grinding_bits as nat, 4);
    }
    absorb_le(hash, security.ring_switch_grinding_bits as u128, 4);
    proof {
        lemma_append_step(start, acc, le_bytes(security.ring_switch_grinding_bits as nat, 4));
        acc = acc + le_bytes(security.ring_switch_grinding_bits as nat, 4);
    }
    let ghost before_ood = hash@;
    if let Some(ood) = security.ood {
        let one: [u8; 1] = [1u8];
        hash.update(&one);
        absorb_le(hash, ood.grinding_bits as u128, 4);
    }
    assert(hash@ =~= before_ood + ood_encoding(*security));
    proof {
        lemma_append_step(start, acc, ood_encoding(*security));
        acc = acc + ood_encoding(*security);
    }
    hash_usize(hash, security.ligerito_target_bits);
    proof {
        lemma_append_step(start, acc, le_bytes(security.ligerito_target_bits as nat, 8));
        acc = acc + le_bytes(security.ligerito_target_bits as nat, 8);
    }
    assert(acc == security_params_encoding(*security));
}

proof fn lemma_split<A>(a1: Seq<A>, a2: Seq<A>, b1: Seq<A>, b2: Seq<A>)
    requires
        a1 + a2 == b1 + b2,
        a1.len() == b1.len(),
    ensures
        a1 == b1,
        a2 == b2,
{
    assert(a1 =~= (a1 + a2).subrange(0, a1.len() as int));
    assert(b1 =~= (b1 + b2).subrange(0, b1.len() as int));
    assert(a2 =~= (a1 + a2).subrange(a1.len() as int, (a1 + a2).len() as int));
    assert(b2 =~= (b1 + b2).subrange(b1.len() as int, (b1 + b2).len() as int));
}

proof fn lemma_split_le(x: nat, y: nat, n: nat, a2: Seq<u8>, b2: Seq<u8>)
    requires
        x < pow2(8 * n),
        y < pow2(8 * n),
        le_bytes(x, n) + a2 == le_bytes(y, n) + b2,
    ensures
        x == y,
        a2 == b2,
{
    lemma_split(le_bytes(x, n), a2, le_bytes(y, n), b2);
    lemma_le_bytes_injective(x, y, n);
}

/// The parts of the security-parameter encoding after the name, nested
/// from the right.
spec fn security_suffix(security: IopSecurityParams) -> Seq<u8> {
    le_bytes(security.lambda as nat, 4) + (le_bytes(security.projection_min as nat, 16) + (le_bytes(
        security.projection_max as nat,
        16,
    ) + (seq![
        if security.projection_full_width {
            1u8
        } else {
            0u8
        },
    ] + (le_bytes(security.initial_grinding_bits as nat, 4) + (le_bytes(
        security.piop_round_grinding_bits as nat,
        4,
    ) + (le_bytes(security.terminal_grinding_bits as nat, 4) + security_tail(security)))))))
}

spec fn security_tail(security: IopSecurityParams) -> Seq<u8> {
    reduction_encoding(security) + (le_bytes(security.forest_round_grinding_bits as nat, 4) + (
    le_bytes(security.ring_switch_grinding_bits as nat, 4) + (ood_encoding(security) + le_bytes(
        security.ligerito_target_bits as nat,
        8,
    ))))
}

proof fn lemma_security_encoding_nested(security: IopSecurityParams)
    ensures
        security_params_encoding(security) == le_bytes(security.profile_name.len() as nat, 8) + (
        security.profile_name.spec_bytes() + security_suffix(security)),
{
    assert(security_params_encoding(security) =~= le_bytes(security.profile_name.len() as nat, 8)
        + (security.profile_name.spec_bytes() + security_suffix(security)));
}

/// The security-parameter binding covers every parameter: equal encodings
/// mean the same profile-name bytes, the same target, interval, grinding
/// schedule, reduction stage, out-of-domain round and opening target.
pub proof fn lemma_security_params_encoding_injective(a: IopSecurityParams, b: IopSecurityParams)
    requires
        a.profile_name.spec_bytes().len() <= usize::MAX,
        b.profile_name.spec_bytes().len() <= usize::MAX,
        security_params_encoding(a) == security_params_encoding(b),
    ensures
        a.profile_name.spec_bytes() == b.profile_name.spec_bytes(),
        a.lambda == b.lambda,
        a.projection_min == b.projection_min,
        a.projection_max == b.projection_max,
        a.projection_full_width == b.projection_full_width,
        a.initial_grinding_bits == b.initial_grinding_bits,
        a.piop_round_grinding_bits == b.piop_round_grinding_bits,
        a.terminal_grinding_bits == b.terminal_grinding_bits,
        a.reduction == b.reduction,
        a.forest_round_grinding_bits == b.forest_round_grinding_bits,
        a.ring_switch_grinding_bits == b.ring_switch_grinding_bits,
        a.ood == b.ood,
        a.ligerito_target_bits == b.ligerito_target_bits,
{
    lemma_pow2_values_small();
    lemma_security_encoding_nested(a);
    lemma_security_encoding_nested(b);
    lemma_security_suffix_injective(a, b);
}

proof fn lemma_security_suffix_injective(a: IopSecurityParams, b: IopSecurityParams)
    requires
        a.profile_name.spec_bytes().len() <= usize::MAX,
        b.profile_name.spec_bytes().len() <= usize::MAX,
        pow2(8 * 8) == 0x1_0000_0000_0000_0000,
        pow2(8 * 4) == 0x1_0000_0000,
        pow2(8 * 16) == 0x1_0000_0000_0000_0000_0000_0000_0000_0000,
        le_bytes(a.profile_name.len() as nat, 8) + (a.profile_name.spec_bytes() + security_suffix(a))
            == le_bytes(b.profile_name.len() as nat, 8) + (b.profile_name.spec_bytes()
            + security_suffix(b)),
    ensures
        a.profile_name.spec_bytes() == b.profile_name.spec_bytes(),
        a.lambda == b.lambda,
        a.projection_min == b.projection_min,
        a.projection_max == b.projection_max,
        a.projection_full_width == b.projection_full_width,
        a.initial_grinding_bits == b.initial_grinding_bits,
        a.piop_round_grinding_bits == b.piop_round_grinding_bits,
        a.terminal_grinding_bits == b.terminal_grinding_bits,
        a.reduction == b.reduction,
        a.forest_round_grinding_bits == b.forest_round_grinding_bits,
        a.ring_switch_grinding_bits == b.ring_switch_grinding_bits,
        a.ood == b.ood,
        a.ligerito_target_bits == b.ligerito_target_bits,
{
    let name_a = a.profile_name.spec_bytes();
    let name_b = b.profile_name.spec_bytes();
    lemma_split_le(
        a.profile_name.len() as nat,
        b.profile_name.len() as nat,
        8,
        name_a + security_suffix(a),
        name_b + security_suffix(b),
    );
    lemma_split(name_a, security_suffix(a), name_b, security_suffix(b));
    let fa = if a.projection_full_width {
        1u8
    } else {
        0u8
    };
    let fb = if b.projection_full_width {
        1u8
    } else {
        0u8
    };
    let s7a = le_bytes(a.terminal_grinding_bits as nat, 4) + security_tail(a);
    let s7b = le_bytes(b.terminal_grinding_bits as nat, 4) + security_tail(b);
    let s6a = le_bytes(a.piop_round_grinding_bits as nat, 4) + s7a;
    let s6b = le_bytes(b.piop_round_grinding_bits as nat, 4) + s7b;
    let s5a = le_bytes(a.initial_grinding_bits as nat, 4) + s6a;
    let s5b = le_bytes(b.initial_grinding_bits as nat, 4) + s6b;
    let s4a = seq![fa] + s5a;
    let s4b = seq![fb] + s5b;
    let s3a = le_bytes(a.projection_max as nat, 16) + s4a;
    let s3b = le_bytes(b.projection_max as nat, 16) + s4b;
    let s2a = le_bytes(a.projection_min as nat, 16) + s3a;
    let s2b = le_bytes(b.projection_min as nat, 16) + s3b;
    lemma_split_le(a.lambda as nat, b.lambda as nat, 4, s2a, s2b);
    lemma_split_le(a.projection_min as nat, b.projection_min as nat, 16, s3a, s3b);
    lemma_split_le(a.projection_max as nat, b.projection_max as nat, 16, s4a, s4b);
    lemma_split(seq![fa], s5a, seq![fb], s5b);
    assert(seq![fa][0] == seq![fb][0]);
    lemma_split_le(a.initial_grinding_bits as nat, b.initial_grinding_bits as nat, 4, s6a, s6b);
    lemma_split_le(a.piop_round_grinding_bits as nat, b.piop_round_grinding_bits as nat, 4, s7a, s7b);
    lemma_split_le(
        a.terminal_grinding_bits as nat,
        b.terminal_grinding_bits as nat,
        4,
        security_tail(a),
        security_tail(b),
    );
    lemma_security_tail_injective(a, b);
}

proof fn lemma_security_tail_injective(a: IopSecurityParams, b: IopSecurityParams)
    requires
        pow2(8 * 8) == 0x1_0000_0000_0000_0000,
        pow2(8 * 4) == 0x1_0000_0000,
        pow2(8 * 16) == 0x1_0000_0000_0000_0000_0000_0000_0000_0000,
        security_tail(a) == security_tail(b),
    ensures
        a.reduction == b.reduction,
        a.forest_round_grinding_bits == b.forest_round_grinding_bits,
        a.ring_switch_grinding_bits == b.ring_switch_grinding_bits,
        a.ood == b.ood,
        a.ligerito_target_bits == b.ligerito_target_bits,
{
    let ra = reduction_encoding(a);
    let rb = reduction_encoding(b);
    let la = le_bytes(a.ligerito_target_bits as nat, 8);
    let lb = le_bytes(b.ligerito_target_bits as nat, 8);
    let t3a = ood_encoding(a) + la;
    let t3b = ood_encoding(b) + lb;
    let t2a = le_bytes(a.ring_switch_grinding_bits as nat, 4) + t3a;
    let t2b = le_bytes(b.ring_switch_grinding_bits as nat, 4) + t3b;
    let t1a = le_bytes(a.forest_round_grinding_bits as nat, 4) + t2a;
    let t1b = le_bytes(b.forest_round_grinding_bits as nat, 4) + t2b;
    assert((ra + t1a)[0] == ra[0]);
    assert((rb + t1b)[0] == rb[0]);
    assert(a.reduction is Some == b.reduction is Some);
    if let Some(xa) = a.reduction {
        let xb = b.reduction.unwrap();
        let mina = le_bytes(xa.min as nat, 16);
        let minb = le_bytes(xb.min as nat, 16);
        let maxa = le_bytes(xa.max as nat, 16);
        let maxb = le_bytes(xb.max as nat, 16);
        let ga = le_bytes(xa.grinding_bits as nat, 4);
        let gb = le_bytes(xb.grinding_bits as nat, 4);
        assert(ra == seq![1u8] + (mina + maxa + ga));
        assert(rb == seq![1u8] + (minb + maxb + gb));
        lemma_split(ra, t1a, rb, t1b);
        lemma_split(seq![1u8], mina + maxa + ga, seq![1u8], minb + maxb + gb);
        lemma_split(mina + maxa, ga, minb + maxb, gb);
        lemma_split(mina, maxa, minb, maxb);
        lemma_le_bytes_injective(xa.min as nat, xb.min as nat, 16);
        lemma_le_bytes_injective(xa.max as nat, xb.max as nat, 16);
        lemma_le_bytes_injective(xa.grinding_bits as nat, xb.grinding_bits as nat, 4);
    } else {
        lemma_split(ra, t1a, rb, t1b);
    }
    lemma_split_le(
        a.forest_round_grinding_bits as nat,
        b.forest_round_grinding_bits as nat,
        4,
        t2a,
        t2b,
    );
    lemma_split_le(a.ring_switch_grinding_bits as nat, b.ring_switch_grinding_bits as nat, 4, t3a, t3b);
    // The out-of-domain round is told apart by the remaining length.
    assert(a.ood is Some == b.ood is Some);
    lemma_split(ood_encoding(a), la, ood_encoding(b), lb);
    lemma_le_bytes_injective(a.ligerito_target_bits as nat, b.ligerito_target_bits as nat, 8);
    if let Some(oa) = a.ood {
        let ob = b.ood.unwrap();
        lemma_split_le_tagged(oa.grinding_bits as nat, ob.grinding_bits as nat);
    }
}

proof fn lemma_split_le_tagged(x: nat, y: nat)
    requires
        pow2(8 * 4) == 0x1_0000_0000,
        x < 0x1_0000_0000,
        y < 0x1_0000_0000,
        seq![1u8] + le_bytes(x, 4) == seq![1u8] + le_bytes(y, 4),
    ensures
        x == y,
{
    lemma_split(seq![1u8], le_bytes(x, 4), seq![1u8], le_bytes(y, 4));
    lemma_le_bytes_injective(x, y, 4);
}

proof fn lemma_pow2_values_small()
    ensures
        pow2(32) == 0x1_0000_0000,
        pow2(64) == 0x1_0000_0000_0000_0000,
        pow2(128) == 0x1_0000_0000_0000_0000_0000_0000_0000_0000,
{
    lemma2_to64();
    lemma2_to64_rest();
    lemma_pow2_adds(64, 64);
}

} // verus!
