//! Security-profile parameters: the statement facts a profile consumes
//! and the instantiated intervals and grinding schedule it produces.

use vstd::arithmetic::power2::*;
use vstd::bits::*;
use vstd::prelude::*;

use crate::u128_mul::IntEvalParams;

verus! {

/// τ point arity of the repeated SHA-256 outer zerocheck: eight local
/// constraint variables plus one per batch doubling.
pub const SHA256_TAU_LOCAL_VARS: u32 = 8;

/// Public statement facts a security-profile derivation consumes.
#[derive(Clone, Copy, Debug, PartialEq, Eq, Structural)]
pub struct IopInstanceFacts {
    /// `log2` bound on the per-row integer defect.
    pub defect_log2_bound: u32,
    /// `log2` of the number of terms summed by the lift.
    pub lift_arity_log2: u32,
    /// Row variables of the opening.
    pub opening_t: u32,
    /// Bits per opened cell.
    pub opening_word_bits: u32,
    /// Whether the opening uses the direct exponent-fold path.
    pub direct_opening: bool,
    /// Arity of the τ challenge point.
    pub tau_arity: u32,
    /// Degree of the PIOP round polynomials.
    pub piop_degree: u32,
    /// `log2` magnitude bound of the Step-5.0 values.
    pub step50_magnitude_log2: u32,
}

/// The SHA-256 statement facts at batch exponent `t`.
pub open spec fn sha256_facts_spec(log_compressions: u32) -> IopInstanceFacts {
    IopInstanceFacts {
        defect_log2_bound: 96,
        lift_arity_log2: log_compressions,
        opening_t: log_compressions,
        opening_word_bits: 1,
        direct_opening: false,
        tau_arity: (SHA256_TAU_LOCAL_VARS + log_compressions) as u32,
        piop_degree: 3,
        step50_magnitude_log2: 0,
    }
}

/// The public statement facts for a `2^log_compressions` SHA-256 batch:
/// per-row defects `< 2^96`, a lift over `2^t` terms, the virtual opening
/// at `t` row variables, τ over `8 + t` variables, and a cubic PIOP.
pub fn sha256_instance_facts(log_compressions: u32) -> (facts: IopInstanceFacts)
    requires
        log_compressions <= u32::MAX - SHA256_TAU_LOCAL_VARS,
    ensures
        facts == sha256_facts_spec(log_compressions),
{
    IopInstanceFacts {
        defect_log2_bound: 96,
        lift_arity_log2: log_compressions,
        opening_t: log_compressions,
        opening_word_bits: 1,
        direct_opening: false,
        tau_arity: SHA256_TAU_LOCAL_VARS + log_compressions,
        piop_degree: 3,
        step50_magnitude_log2: 0,
    }
}

/// The public statement facts for a u128 multiplication batch: defects
/// below `2^258`, a lift over `2^t` terms, the direct opening, τ over
/// `max(row_vars, 1)` variables, and a cubic PIOP.
pub fn u128_mul_instance_facts(params: &IntEvalParams, row_vars: usize) -> (facts: IopInstanceFacts)
    ensures
        facts == (IopInstanceFacts {
            defect_log2_bound: 258,
            lift_arity_log2: params.t as u32,
            opening_t: params.t as u32,
            opening_word_bits: params.word_bits as u32,
            direct_opening: true,
            tau_arity: (if row_vars > 1 {
                row_vars
            } else {
                1
            }) as u32,
            piop_degree: 3,
            step50_magnitude_log2: 0,
        }),
{
    let tau = if row_vars > 1 {
        row_vars
    } else {
        1
    };
    IopInstanceFacts {
        defect_log2_bound: 258,
        lift_arity_log2: params.t as u32,
        opening_t: params.t as u32,
        opening_word_bits: params.word_bits as u32,
        direct_opening: true,
        tau_arity: tau as u32,
        piop_degree: 3,
        step50_magnitude_log2: 0,
    }
}

/// A second-prime reduction stage of a multi-prime profile.
#[derive(Clone, Copy, Debug, PartialEq, Eq, Structural)]
pub struct ReductionParams {
    pub min: u128,
    pub max: u128,
    pub grinding_bits: u32,
}

/// The out-of-domain sampling round of the opening, when it runs.
#[derive(Clone, Copy, Debug, PartialEq, Eq, Structural)]
pub struct OodParams {
    pub grinding_bits: u32,
}

/// Instantiated security parameters: the projection-prime interval, the
/// grinding schedule and the opening target.
#[derive(Clone, Copy, Debug, PartialEq, Eq)]
pub struct IopSecurityParams {
    pub profile_name: &'static str,
    pub lambda: u32,
    pub projection_min: u128,
    pub projection_max: u128,
    pub projection_full_width: bool,
    pub initial_grinding_bits: u32,
    pub piop_round_grinding_bits: u32,
    pub terminal_grinding_bits: u32,
    pub reduction: Option<ReductionParams>,
    pub forest_round_grinding_bits: u32,
    pub ring_switch_grinding_bits: u32,
    pub ood: Option<OodParams>,
    pub ligerito_target_bits: usize,
}

/// Uniform per-draw PIOP grinding difficulty (the τ/initial bound).
pub fn piop_wrap_bits(security: &IopSecurityParams) -> (bits: u32)
    ensures
        bits == if security.initial_grinding_bits >= security.piop_round_grinding_bits {
            security.initial_grinding_bits
        } else {
            security.piop_round_grinding_bits
        },
{
    if security.initial_grinding_bits >= security.piop_round_grinding_bits {
        security.initial_grinding_bits
    } else {
        security.piop_round_grinding_bits
    }
}


/// `b` is the bit length of `v`: `2^(b-1) <= v < 2^b` (and `b = 0` for 0).
pub open spec fn is_bit_length(v: nat, b: nat) -> bool {
    &&& v < pow2(b)
    &&& (b == 0 || pow2((b - 1) as nat) <= v)
}

/// `k` is the least exponent with `2^k >= n`.
pub open spec fn is_ceil_log2(n: nat, k: nat) -> bool {
    &&& n <= pow2(k)
    &&& (k == 0 || pow2((k - 1) as nat) < n)
}

proof fn lemma_pow2_128()
    ensures
        pow2(128) == u128::MAX as nat + 1,
{
    lemma_pow2_adds(64, 64);
    lemma2_to64_rest();
}

/// Bit length of a 128-bit value.
pub fn bit_length(v: u128) -> (b: u32)
    ensures
        b <= 128,
        is_bit_length(v as nat, b as nat),
{
    let mut rest = v;
    let mut b: u32 = 0;
    proof {
        lemma2_to64();
        lemma_pow2_128();
    }
    while rest > 0
        invariant
            b <= 128,
            rest as nat == (v as nat) / pow2(b as nat),
            b == 0 || pow2((b - 1) as nat) <= v,
            pow2(128) == u128::MAX as nat + 1,
        decreases rest,
    {
        proof {
            lemma_pow2_pos(b as nat);
            vstd::arithmetic::div_mod::lemma_fundamental_div_mod(v as int, pow2(b as nat) as int);
            vstd::arithmetic::div_mod::lemma_mod_bound(v as int, pow2(b as nat) as int);
            // rest >= 1, so v >= 2^b
            assert(v as int >= pow2(b as nat) as int) by (nonlinear_arith)
                requires
                    v as int == pow2(b as nat) * (rest as int) + (v as int) % (pow2(b as nat) as int),
                    rest >= 1,
                    (v as int) % (pow2(b as nat) as int) >= 0,
                    pow2(b as nat) > 0,
            ;
            if b == 128 {
                assert(false);
            }
            lemma_u128_shr_is_div(rest, 1);
            lemma2_to64();
            assert(pow2(1) == 2);
            vstd::arithmetic::div_mod::lemma_div_denominator(v as int, pow2(b as nat) as int, 2);
            lemma_pow2_unfold((b + 1) as nat);
            vstd::arithmetic::mul::lemma_mul_is_commutative(2, pow2(b as nat) as int);
        }
        rest = rest >> 1;
        b = b + 1;
    }
    proof {
        lemma_pow2_pos(b as nat);
        vstd::arithmetic::div_mod::lemma_fundamental_div_mod(v as int, pow2(b as nat) as int);
        vstd::arithmetic::div_mod::lemma_mod_bound(v as int, pow2(b as nat) as int);
        assert(rest == 0);
        assert((v as nat) / pow2(b as nat) == 0);
        assert(v as int == (v as int) % (pow2(b as nat) as int));
        assert(v < pow2(b as nat));
    }
    b
}


/// `2^k` for `k < 128`.
pub fn pow2_u128(k: u32) -> (p: u128)
    requires
        k < 128,
    ensures
        p == pow2(k as nat),
{
    let mut p: u128 = 1;
    proof {
        lemma2_to64();
        lemma_pow2_128();
    }
    for i in 0..k
        invariant
            k < 128,
            p == pow2(i as nat),
            pow2(128) == u128::MAX as nat + 1,
    {
        proof {
            lemma_pow2_unfold((i + 1) as nat);
            lemma_pow2_strictly_increases((i + 1) as nat, 128);
        }
        p = p * 2;
    }
    p
}

/// The bit length of `v`.
pub open spec fn bit_len(v: nat) -> nat {
    choose|b: nat| is_bit_length(v, b)
}

/// The least `k` with `2^k >= n`.
pub open spec fn ceil_log2(n: nat) -> nat {
    choose|k: nat| is_ceil_log2(n, k)
}

/// The bit length is unique, so `bit_len` is the computed one.
pub proof fn lemma_bit_len_is(v: nat, b: nat)
    requires
        is_bit_length(v, b),
    ensures
        bit_len(v) == b,
{
    let c = bit_len(v);
    assert(is_bit_length(v, c));
    if c < b {
        if c < (b - 1) as nat {
            lemma_pow2_strictly_increases(c, (b - 1) as nat);
        }
    } else if b < c {
        if b < (c - 1) as nat {
            lemma_pow2_strictly_increases(b, (c - 1) as nat);
        }
    }
}

/// The least exponent is unique, so `ceil_log2` is the computed one.
pub proof fn lemma_ceil_log2_is(n: nat, k: nat)
    requires
        is_ceil_log2(n, k),
    ensures
        ceil_log2(n) == k,
{
    let c = ceil_log2(n);
    assert(is_ceil_log2(n, c));
    if c < k {
        if c < (k - 1) as nat {
            lemma_pow2_strictly_increases(c, (k - 1) as nat);
        }
    } else if k < c {
        if k < (c - 1) as nat {
            lemma_pow2_strictly_increases(k, (c - 1) as nat);
        }
    }
}

/// The least `k` with `2^k >= n`.
pub fn ceil_log2_u32(n: u32) -> (k: u32)
    ensures
        k <= 32,
        k as nat == ceil_log2(n as nat),
{
    let mut p: u64 = 1;
    let mut k: u32 = 0;
    proof {
        lemma2_to64();
    }
    while p < n as u64
        invariant
            p == pow2(k as nat),
            k <= 32,
            k == 0 || pow2((k - 1) as nat) < n,
        decreases 32 - k,
    {
        proof {
            lemma_pow2_unfold((k + 1) as nat);
            if k == 32 {
                lemma2_to64();
                assert(false);
            }
            lemma_pow2_pos(k as nat);
        }
        p = p * 2;
        k = k + 1;
    }
    proof {
        lemma_ceil_log2_is(n as nat, k as nat);
    }
    k
}

/// The projection-prime upper endpoint of the legacy 128-bit design for
/// a lift over `2^lift` terms: the largest `q` with
/// `(q - 1)(2^lift + 1) < 2^128`, capped at `2^113 - 1`.
pub open spec fn legacy_projection_max(lift: nat) -> nat {
    let wrap = (u128::MAX as nat) / (pow2(lift) + 1) + 1;
    if wrap < pow2(113) - 1 {
        wrap
    } else {
        (pow2(113) - 1) as nat
    }
}

/// The lower endpoint: all interval members share the upper endpoint's
/// bit length.
pub open spec fn legacy_projection_min(lift: nat) -> nat {
    pow2((bit_len(legacy_projection_max(lift)) - 1) as nat)
}

/// Grinding bits that lift a Schwartz–Zippel error `multiplier / q` over
/// primes `q >= 2^(b-1)` to the 128-bit target.
pub open spec fn legacy_grinding(lift: nat, multiplier: nat) -> nat {
    (128 - (bit_len(legacy_projection_max(lift)) - 1) + ceil_log2(multiplier)) as nat
}

/// The legacy design applies when the lift's wrap bound is computable and
/// the interval holds an odd candidate above 2.
pub open spec fn legacy_supported(lift: nat) -> bool {
    &&& lift < 127
    &&& legacy_projection_min(lift) >= 2
    &&& legacy_projection_max(lift) > legacy_projection_min(lift)
}

/// The instantiated parameters of the legacy design for `facts`.
pub open spec fn legacy_params(facts: IopInstanceFacts) -> IopSecurityParams {
    let lift = facts.lift_arity_log2 as nat;
    IopSecurityParams {
        profile_name: "legacy-sha128",
        lambda: 128,
        projection_min: legacy_projection_min(lift) as u128,
        projection_max: legacy_projection_max(lift) as u128,
        projection_full_width: false,
        initial_grinding_bits: legacy_grinding(lift, facts.tau_arity as nat) as u32,
        piop_round_grinding_bits: legacy_grinding(lift, facts.piop_degree as nat) as u32,
        terminal_grinding_bits: legacy_grinding(lift, facts.opening_t as nat) as u32,
        reduction: None,
        forest_round_grinding_bits: 0,
        ring_switch_grinding_bits: 0,
        ood: None,
        ligerito_target_bits: 128,
    }
}

/// Failures in instantiating a security profile.
#[derive(Clone, Copy, Debug, PartialEq, Eq, Structural)]
pub enum ProfileError {
    /// The statement admits no projection prime under this profile.
    EmptyProjectionInterval,
}

/// The historical 128-bit SHA-256 design: a single projection prime from
/// the widest no-wrap interval of at most 113 bits, and grinding that
/// tops each sampled challenge up to 128 bits of security.
pub struct LegacySha128Design;

impl LegacySha128Design {
    /// Instantiates the design for `facts`.
    pub fn instantiate(facts: &IopInstanceFacts) -> (result: Result<IopSecurityParams, ProfileError>)
        ensures
            legacy_supported(facts.lift_arity_log2 as nat) ==> result == Ok::<
                IopSecurityParams,
                ProfileError,
            >(legacy_params(*facts)),
            !legacy_supported(facts.lift_arity_log2 as nat) ==> result == Err::<
                IopSecurityParams,
                ProfileError,
            >(ProfileError::EmptyProjectionInterval),
    {
        let lift = facts.lift_arity_log2;
        if lift >= 127 {
            return Err(ProfileError::EmptyProjectionInterval);
        }
        proof {
            lemma_pow2_128();
            lemma_pow2_strictly_increases(127, 128);
            if lift < 127 {
                lemma_pow2_strictly_increases(lift as nat, 127);
            }
            lemma_pow2_strictly_increases(113, 128);
            lemma_pow2_pos(lift as nat);
            lemma_pow2_strictly_increases(1, 113);
            lemma2_to64();
        }
        let divisor = pow2_u128(lift) + 1;
        proof {
            vstd::arithmetic::div_mod::lemma_div_is_ordered_by_denominator(
                u128::MAX as int,
                2,
                divisor as int,
            );
        }
        let wrap = u128::MAX / divisor + 1;
        let cap = pow2_u128(113) - 1;
        let max = if wrap < cap {
            wrap
        } else {
            cap
        };
        let bits = bit_length(max);
        proof {
            lemma_bit_len_is(max as nat, bits as nat);
            assert(max >= 1);
            if bits == 0 {
                assert(max < 1) by {
                    lemma2_to64();
                }
            }
            if bits > 114 {
                lemma_pow2_strictly_increases(113, (bits - 1) as nat);
            }
            assert(bits <= 113);
            lemma_pow2_strictly_increases((bits - 1) as nat, 128);
        }
        let min = pow2_u128(bits - 1);
        if !(min >= 2 && max > min) {
            return Err(ProfileError::EmptyProjectionInterval);
        }
        let slack = 128 - (bits - 1);
        let initial = slack + ceil_log2_u32(facts.tau_arity);
        let outer = slack + ceil_log2_u32(facts.piop_degree);
        let terminal = slack + ceil_log2_u32(facts.opening_t);
        let params = IopSecurityParams {
            profile_name: "legacy-sha128",
            lambda: 128,
            projection_min: min,
            projection_max: max,
            projection_full_width: false,
            initial_grinding_bits: initial,
            piop_round_grinding_bits: outer,
            terminal_grinding_bits: terminal,
            reduction: None,
            forest_round_grinding_bits: 0,
            ring_switch_grinding_bits: 0,
            ood: None,
            ligerito_target_bits: 128,
        };
        proof {
            reveal_strlit("legacy-sha128");
        }
        Ok(params)
    }
}


/// `a <= m / d` exactly when `a · d <= m`.
pub proof fn lemma_le_div_iff_mul_le(a: nat, m: nat, d: nat)
    requires
        d > 0,
    ensures
        a <= m / d <==> a * d <= m,
{
    vstd::arithmetic::div_mod::lemma_fundamental_div_mod(m as int, d as int);
    vstd::arithmetic::div_mod::lemma_mod_bound(m as int, d as int);
    let q = m / d;
    let r = m % d;
    if a <= q {
        vstd::arithmetic::mul::lemma_mul_inequality(a as int, q as int, d as int);
        vstd::arithmetic::mul::lemma_mul_is_commutative(q as int, d as int);
    } else {
        vstd::arithmetic::mul::lemma_mul_inequality((q + 1) as int, a as int, d as int);
        vstd::arithmetic::mul::lemma_mul_is_distributive_add_other_way(d as int, q as int, 1);
        vstd::arithmetic::mul::lemma_mul_is_commutative(q as int, d as int);
    }
}

proof fn lemma_pow2_values()
    ensures
        pow2(111) == 2596148429267413814265248164610048,
        pow2(112) == 5192296858534827628530496329220096,
        pow2(113) == 10384593717069655257060992658440192,
        pow2(128) == u128::MAX as nat + 1,
{
    lemma2_to64();
    lemma2_to64_rest();
    lemma_pow2_adds(64, 47);
    lemma_pow2_adds(64, 48);
    lemma_pow2_adds(64, 49);
    lemma_pow2_128();
}

proof fn lemma_supported_with_bits(t: nat, bits: nat)
    requires
        7 <= t <= 16,
        bits >= 2,
        is_bit_length(legacy_projection_max(t), bits),
        legacy_projection_max(t) > pow2((bits - 1) as nat),
    ensures
        legacy_supported(t),
{
    lemma_bit_len_is(legacy_projection_max(t), bits);
    lemma_pow2_strictly_increases(0, (bits - 1) as nat);
    lemma2_to64();
}

/// The legacy design supports every batch exponent from 7 to 16: up to
/// `t = 14` the interval is all 113-bit values, at `t = 15` and `t = 16`
/// the no-wrap bound trims it inside 113 and 112 bits.
pub proof fn lemma_legacy_supports_sha256_batches(t: nat)
    requires
        7 <= t <= 16,
    ensures
        legacy_supported(t),
{
    lemma_pow2_values();
    lemma2_to64();
    let d = pow2(t) + 1;
    let m = u128::MAX as nat;
    if t <= 14 {
        if t < 14 {
            lemma_pow2_strictly_increases(t, 14);
        }
        assert((pow2(113) - 2) * d <= m) by (nonlinear_arith)
            requires
                d <= 0x4001,
                pow2(113) == 10384593717069655257060992658440192,
                m == 340282366920938463463374607431768211455,
        ;
        lemma_le_div_iff_mul_le((pow2(113) - 2) as nat, m, d);
        lemma_supported_with_bits(t, 113);
    } else if t == 15 {
        let w: nat = 10384276814090709617729396912684801;
        lemma_le_div_iff_mul_le((w - 1) as nat, m, d);
        lemma_le_div_iff_mul_le(w, m, d);
        assert(legacy_projection_max(t) == w);
        lemma_supported_with_bits(t, 113);
    } else {
        let w: nat = 5192217631581220737344928932233216;
        lemma_le_div_iff_mul_le((w - 1) as nat, m, d);
        lemma_le_div_iff_mul_le(w, m, d);
        assert(legacy_projection_max(t) == w);
        lemma_supported_with_bits(t, 112);
    }
}


/// The legacy schedule at every supported SHA-256 batch `2^t`: an interval
/// of 113-bit primes (112-bit at `t = 16`) below `2^113` whose every member
/// `q` satisfies the no-wrap bound `(q - 1)(2^t + 1) < 2^128`, the full
/// 113-bit range up to `t = 14`, and grinding `initial 20|21|22`,
/// `outer 18|19`.
pub proof fn lemma_sha256_legacy_schedule(t: nat)
    requires
        7 <= t <= 16,
    ensures
        ({
            let p = legacy_params(sha256_facts_spec(t as u32));
            &&& p.projection_min <= p.projection_max
            &&& (p.projection_max as nat) < pow2(113)
            &&& (p.projection_max - 1) * (pow2(t) + 1) <= u128::MAX
            &&& bit_len(p.projection_min as nat) == if t == 16 {
                112nat
            } else {
                113nat
            }
            &&& t <= 14 ==> p.projection_max == pow2(113) - 1
            &&& t == 15 ==> p.projection_max < pow2(113) - 1
            &&& t == 16 ==> p.projection_max < pow2(112) - 1
            &&& p.initial_grinding_bits == if t <= 8 {
                20u32
            } else if t <= 15 {
                21u32
            } else {
                22u32
            }
            &&& p.piop_round_grinding_bits == if t <= 15 {
                18u32
            } else {
                19u32
            }
        }),
{
    lemma_legacy_supports_sha256_batches(t);
    lemma_pow2_values();
    lemma2_to64();
    let d = pow2(t) + 1;
    let m = u128::MAX as nat;
    let max = legacy_projection_max(t);
    let b: nat = if t == 16 {
        112
    } else {
        113
    };
    if t <= 14 {
        if t < 14 {
            lemma_pow2_strictly_increases(t, 14);
        }
        assert((pow2(113) - 2) * d <= m) by (nonlinear_arith)
            requires
                d <= 0x4001,
                pow2(113) == 10384593717069655257060992658440192,
                m == 340282366920938463463374607431768211455,
        ;
        lemma_le_div_iff_mul_le((pow2(113) - 2) as nat, m, d);
    } else if t == 15 {
        let w: nat = 10384276814090709617729396912684801;
        lemma_le_div_iff_mul_le((w - 1) as nat, m, d);
        lemma_le_div_iff_mul_le(w, m, d);
    } else {
        let w: nat = 5192217631581220737344928932233216;
        lemma_le_div_iff_mul_le((w - 1) as nat, m, d);
        lemma_le_div_iff_mul_le(w, m, d);
    }
    assert(is_bit_length(max, b));
    lemma_bit_len_is(max, b);
    // No wrap: max - 1 <= m / d.
    assert((max - 1) as nat <= m / d) by {
        assert(max - 1 <= m / d);
    }
    lemma_le_div_iff_mul_le((max - 1) as nat, m, d);
    // The lower endpoint has the same bit length.
    lemma_pow2_strictly_increases((b - 1) as nat, b);
    assert(is_bit_length(pow2((b - 1) as nat), b));
    lemma_bit_len_is(pow2((b - 1) as nat), b);
    // Grinding: 128 - (b - 1) plus the least exponents covering the multipliers.
    let tau = (8 + t) as nat;
    let kt: nat = if tau <= 16 {
        4
    } else {
        5
    };
    assert(is_ceil_log2(tau, kt));
    lemma_ceil_log2_is(tau, kt);
    assert(is_ceil_log2(3, 2));
    lemma_ceil_log2_is(3, 2);
}

} // verus!
