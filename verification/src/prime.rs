//! Transcript-derived prime-field parameters for the SHA-256 profile: the
//! batch-dependent interval the prime `q` is sampled from, the grinding
//! schedule, and the exact no-wrap acceptance test for a sampled `q`.

use vstd::arithmetic::power2::*;
use vstd::prelude::*;

use crate::profile::{
    IopSecurityParams, LegacySha128Design, bit_length, is_bit_length, pow2_u128,
    sha256_instance_facts,
};

verus! {

/// Smallest supported batch: `2^7` independent compressions.
pub const SHA256_MIN_LOG_COMPRESSIONS: usize = 7;
/// Largest supported batch: `2^16` independent compressions.
pub const SHA256_MAX_LOG_COMPRESSIONS: usize = 16;
/// Width of the fixed commitment/exponent field.
pub const SHA256_COMMITMENT_FIELD_BITS: usize = 128;

/// Errors in deriving the runtime-prime profile.
#[derive(Clone, Copy, Debug, PartialEq, Eq, Structural)]
pub enum Sha256PrimeError {
    /// Only batches of `2^7` to `2^16` compressions are supported.
    UnsupportedBatchExponent { actual: usize },
    /// The derived interval contains no candidate.
    EmptyPrimeInterval,
    /// The security profile is not a single-prime configuration.
    ProfileStrategyMismatch,
    /// A context was requested for a value outside the profile.
    PrimeOutsideProfile { q: u128 },
}

fn validate_batch_exponent(log_compressions: usize) -> (result: Result<u32, Sha256PrimeError>)
    ensures
        SHA256_MIN_LOG_COMPRESSIONS <= log_compressions <= SHA256_MAX_LOG_COMPRESSIONS ==> result
            == Ok::<u32, Sha256PrimeError>(log_compressions as u32),
        !(SHA256_MIN_LOG_COMPRESSIONS <= log_compressions <= SHA256_MAX_LOG_COMPRESSIONS)
            ==> result == Err::<u32, Sha256PrimeError>(
            Sha256PrimeError::UnsupportedBatchExponent { actual: log_compressions },
        ),
{
    if log_compressions < SHA256_MIN_LOG_COMPRESSIONS || log_compressions
        > SHA256_MAX_LOG_COMPRESSIONS {
        return Err(Sha256PrimeError::UnsupportedBatchExponent { actual: log_compressions });
    }
    Ok(log_compressions as u32)
}

/// Mathematical content of a prime profile.
pub struct PrimeProfileModel {
    pub log_compressions: nat,
    pub min_prime: nat,
    pub max_prime: nat,
    pub initial_grinding: nat,
    pub outer_grinding: nat,
    pub terminal_grinding: nat,
}

/// The profile adopted from instantiated security parameters.
pub open spec fn adopted(params: IopSecurityParams, log_compressions: nat) -> PrimeProfileModel {
    PrimeProfileModel {
        log_compressions,
        min_prime: params.projection_min as nat,
        max_prime: params.projection_max as nat,
        initial_grinding: params.initial_grinding_bits as nat,
        outer_grinding: params.piop_round_grinding_bits as nat,
        terminal_grinding: params.terminal_grinding_bits as nat,
    }
}

/// `q` is admissible for a profile: inside the interval, an odd value
/// above 2, and `(q - 1) · (2^t + 1)` fits in 128 bits.
pub open spec fn admissible(p: PrimeProfileModel, q: nat) -> bool {
    &&& p.min_prime <= q <= p.max_prime
    &&& q > 2
    &&& q % 2 == 1
    &&& (q - 1) * (pow2(p.log_compressions) + 1) <= u128::MAX
}

/// Public interval and grinding parameters determined by the batch size and
/// the selected security profile.
#[derive(Clone, Copy, Debug, PartialEq, Eq)]
pub struct Sha256PrimeProfile {
    log_compressions: usize,
    min_prime: u128,
    max_prime: u128,
    initial_grinding: usize,
    outer_grinding: usize,
    terminal_grinding: usize,
}

impl View for Sha256PrimeProfile {
    type V = PrimeProfileModel;

    closed spec fn view(&self) -> PrimeProfileModel {
        PrimeProfileModel {
            log_compressions: self.log_compressions as nat,
            min_prime: self.min_prime as nat,
            max_prime: self.max_prime as nat,
            initial_grinding: self.initial_grinding as nat,
            outer_grinding: self.outer_grinding as nat,
            terminal_grinding: self.terminal_grinding as nat,
        }
    }
}

impl Sha256PrimeProfile {
    #[verifier::type_invariant]
    closed spec fn supported_batch(self) -> bool {
        SHA256_MIN_LOG_COMPRESSIONS <= self.log_compressions <= SHA256_MAX_LOG_COMPRESSIONS
    }

    /// The 112/113-bit interval with the 128-bit design's grinding schedule,
    /// instantiated at this batch size.
    pub fn new(log_compressions: usize) -> (result: Result<Self, Sha256PrimeError>)
        ensures
            !(SHA256_MIN_LOG_COMPRESSIONS <= log_compressions <= SHA256_MAX_LOG_COMPRESSIONS)
                ==> result == Err::<Self, Sha256PrimeError>(
                Sha256PrimeError::UnsupportedBatchExponent { actual: log_compressions },
            ),
            SHA256_MIN_LOG_COMPRESSIONS <= log_compressions <= SHA256_MAX_LOG_COMPRESSIONS
                ==> (result matches Ok(p) && p@ == adopted(
                crate::profile::legacy_params(
                    crate::profile::sha256_facts_spec(log_compressions as u32),
                ),
                log_compressions as nat,
            )),
    {
        let exponent = validate_batch_exponent(log_compressions)?;
        let facts = sha256_instance_facts(exponent);
        let params = match LegacySha128Design::instantiate(&facts) {
            Ok(params) => params,
            Err(_) => {
                proof {
                    crate::profile::lemma_legacy_supports_sha256_batches(exponent as nat);
                }
                return Err(Sha256PrimeError::EmptyPrimeInterval);
            },
        };
        Ok(Self::adopt(&params, log_compressions))
    }

    /// Adopts an instantiated security profile (single-prime policy).
    pub fn from_security(params: &IopSecurityParams, log_compressions: usize) -> (result: Result<
        Self,
        Sha256PrimeError,
    >)
        ensures
            !(SHA256_MIN_LOG_COMPRESSIONS <= log_compressions <= SHA256_MAX_LOG_COMPRESSIONS)
                ==> result == Err::<Self, Sha256PrimeError>(
                Sha256PrimeError::UnsupportedBatchExponent { actual: log_compressions },
            ),
            SHA256_MIN_LOG_COMPRESSIONS <= log_compressions <= SHA256_MAX_LOG_COMPRESSIONS && (
            params.projection_full_width || params.reduction is Some) ==> result == Err::<
                Self,
                Sha256PrimeError,
            >(Sha256PrimeError::ProfileStrategyMismatch),
            SHA256_MIN_LOG_COMPRESSIONS <= log_compressions <= SHA256_MAX_LOG_COMPRESSIONS
                && !params.projection_full_width && params.reduction is None ==> (result matches Ok(
                p,
            ) && p@ == adopted(*params, log_compressions as nat)),
    {
        validate_batch_exponent(log_compressions)?;
        if params.projection_full_width || params.reduction.is_some() {
            return Err(Sha256PrimeError::ProfileStrategyMismatch);
        }
        Ok(Self::adopt(params, log_compressions))
    }

    fn adopt(params: &IopSecurityParams, log_compressions: usize) -> (profile: Self)
        requires
            SHA256_MIN_LOG_COMPRESSIONS <= log_compressions <= SHA256_MAX_LOG_COMPRESSIONS,
        ensures
            profile@ == adopted(*params, log_compressions as nat),
    {
        Self {
            log_compressions,
            min_prime: params.projection_min,
            max_prime: params.projection_max,
            initial_grinding: params.initial_grinding_bits as usize,
            outer_grinding: params.piop_round_grinding_bits as usize,
            terminal_grinding: params.terminal_grinding_bits as usize,
        }
    }

    /// `t` where the batch contains `2^t` compressions.
    pub fn log_compressions(self) -> (r: usize)
        ensures
            r == self@.log_compressions,
            SHA256_MIN_LOG_COMPRESSIONS <= r <= SHA256_MAX_LOG_COMPRESSIONS,
    {
        proof {
            use_type_invariant(&self);
        }
        self.log_compressions
    }

    /// Inclusive lower endpoint of the sampled-prime interval.
    pub fn min_prime(self) -> (r: u128)
        ensures
            r == self@.min_prime,
    {
        self.min_prime
    }

    /// Inclusive upper endpoint of the sampled-prime interval.
    pub fn max_prime(self) -> (r: u128)
        ensures
            r == self@.max_prime,
    {
        self.max_prime
    }

    /// Initial proof-of-work bits before sampling `q` and the Spartan point.
    pub fn initial_grinding_bits(self) -> (r: usize)
        ensures
            r == self@.initial_grinding,
    {
        self.initial_grinding
    }

    /// Proof-of-work bits before each cubic outer-sumcheck challenge.
    pub fn outer_round_grinding_bits(self) -> (r: usize)
        ensures
            r == self@.outer_grinding,
    {
        self.outer_grinding
    }

    /// Proof-of-work bits before the terminal opening challenges.
    pub fn terminal_grinding_bits(self) -> (r: usize)
        ensures
            r == self@.terminal_grinding,
    {
        self.terminal_grinding
    }

    /// Checks the exact 128-bit no-wrap inequality without overflowing.
    pub fn accepts_prime(self, q: u128) -> (accepted: bool)
        ensures
            accepted == admissible(self@, q as nat),
    {
        proof {
            use_type_invariant(&self);
            lemma2_to64();
            lemma_pow2_strictly_increases(self.log_compressions as nat, 17);
            assert(pow2(17) == 0x20000) by {
                lemma2_to64();
            }
        }
        let divisor = pow2_u128(self.log_compressions as u32) + 1;
        let accepted = q >= self.min_prime && q <= self.max_prime && q > 2 && q & 1 == 1 && q - 1
            <= u128::MAX / divisor;
        proof {
            assert(q & 1 == 1 <==> q % 2 == 1) by (bit_vector);
            if q > 2 {
                crate::profile::lemma_le_div_iff_mul_le((q - 1) as nat, u128::MAX as nat, divisor as nat);
            }
        }
        accepted
    }
}

/// Runtime arithmetic context of a sampled prime: the profile it was drawn
/// under, the prime itself and its bit length.
#[derive(Debug)]
pub struct Sha256ModQContext {
    profile: Sha256PrimeProfile,
    q: u128,
    q_bits: usize,
}

impl Sha256ModQContext {
    /// Validates `q` against the profile and records its bit length.
    pub fn new(profile: Sha256PrimeProfile, q: u128) -> (result: Result<Self, Sha256PrimeError>)
        ensures
            !admissible(profile@, q as nat) ==> result == Err::<Self, Sha256PrimeError>(
                Sha256PrimeError::PrimeOutsideProfile { q },
            ),
            admissible(profile@, q as nat) ==> (result matches Ok(ctx) && ctx.profile_spec()
                == profile && ctx.q_spec() == q && is_bit_length(q as nat, ctx.q_bits_spec())),
    {
        if !profile.accepts_prime(q) {
            return Err(Sha256PrimeError::PrimeOutsideProfile { q });
        }
        let q_bits = bit_length(q) as usize;
        Ok(Self { profile, q, q_bits })
    }

    /// The profile of this context.
    pub closed spec fn profile_spec(&self) -> Sha256PrimeProfile {
        self.profile
    }

    /// The prime of this context.
    pub closed spec fn q_spec(&self) -> u128 {
        self.q
    }

    /// The bit length of the prime.
    pub closed spec fn q_bits_spec(&self) -> nat {
        self.q_bits as nat
    }

    /// Public batch-dependent profile used to sample this modulus.
    pub fn profile(&self) -> (p: Sha256PrimeProfile)
        ensures
            p == self.profile_spec(),
    {
        self.profile
    }

    /// Sampled prime modulus in canonical integer form.
    pub fn q(&self) -> (q: u128)
        ensures
            q == self.q_spec(),
    {
        self.q
    }

    /// Actual bit length of `q`.
    pub fn q_bits(&self) -> (b: usize)
        ensures
            b == self.q_bits_spec(),
    {
        self.q_bits
    }
}

} // verus!
