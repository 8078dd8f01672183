//! Shape checks the SHA-256 prover and verifier run before touching a
//! transcript: grid parameters, packed rows, the shared constant cell,
//! public-statement lengths and the instance-variable count.

use vstd::arithmetic::power2::*;
use vstd::prelude::*;

use crate::packed_rows::{packed_shape, words_per_column};
use crate::prime::Sha256PrimeError;
use crate::profile::{ceil_log2, is_ceil_log2, lemma_ceil_log2_is};
use crate::sha256::{Sha256ChainStatement, Sha256CompressionStatement};
use crate::u128_mul::IntEvalParams;

verus! {

/// Packed variables fold `2^7 = 128` cells of a column.
pub const LOG_PACKING: usize = 7;

/// The flat cell holding the batch's shared leading one.
pub const SHA256_SHARED_CONSTANT_CELL: usize = 0;

/// Failures of the SHA-256 proving path that concern its inputs' shape.
#[derive(Clone, Copy, Debug, PartialEq, Eq, Structural)]
pub enum Sha256F2zError {
    /// The local relation, repeated map, witness, and grids disagree.
    InvalidGeometry,
    /// The packed native prefix kernel supports only `K = 0, …, max`.
    InvalidInnerPrefix { actual: usize, max: usize },
    /// The final inner-sumcheck claim did not match.
    InvalidInnerTerminalClaim,
    /// A canonical length did not fit its fixed-width encoding.
    BindingEncodingOverflow,
    /// The committed source assignment lacks its shared leading one.
    InvalidSharedConstant,
    /// One public statement is required per committed instance.
    InvalidPublicStatementLength { expected: usize, actual: usize },
    /// A chain statement disagrees with the witness.
    ChainStatementMismatch,
    /// An explicit opening configuration disagrees with the profile.
    MismatchedLigeritoConfig,
    /// Runtime-prime profile derivation failed.
    Prime(Sha256PrimeError),
}

/// A committed source grid is usable: one bit per cell, at least one
/// packed variable of rows, at most 126 variables, and both axes
/// addressable.
pub open spec fn source_params_ok(p: IntEvalParams) -> bool {
    &&& p.word_bits == 1
    &&& p.t >= LOG_PACKING
    &&& p.t + p.s <= 126
    &&& p.t < usize::BITS
    &&& p.s < usize::BITS
}

/// Checks a committed source grid's parameters.
pub fn validate_source_params(f_layout: &IntEvalParams) -> (result: Result<(), Sha256F2zError>)
    ensures
        source_params_ok(*f_layout) ==> result is Ok,
        !source_params_ok(*f_layout) ==> result == Err::<(), Sha256F2zError>(
            Sha256F2zError::InvalidGeometry,
        ),
{
    let host_bits = usize::BITS as usize;
    if f_layout.word_bits != 1 || f_layout.t < LOG_PACKING || f_layout.t.saturating_add(f_layout.s)
        > 126 || f_layout.t >= host_bits || f_layout.s >= host_bits {
        return Err(Sha256F2zError::InvalidGeometry);
    }
    Ok(())
}

/// Checks that packed rows have the grid's shape: `2^s` columns of
/// `⌈2^t / 64⌉` words.
pub fn validate_rows(p: &IntEvalParams, rows: &[Vec<u64>]) -> (result: Result<(), Sha256F2zError>)
    requires
        p.t < usize::BITS,
        p.s < usize::BITS,
    ensures
        packed_shape(rows@, p.t as nat, p.s as nat) ==> result is Ok,
        !packed_shape(rows@, p.t as nat, p.s as nat) ==> result == Err::<(), Sha256F2zError>(
            Sha256F2zError::InvalidGeometry,
        ),
{
    proof {
        vstd::bits::lemma_usize_pow2_no_overflow(p.t as nat);
        if p.t < usize::BITS - 1 {
            lemma_pow2_strictly_increases(p.t as nat, (usize::BITS - 1) as nat);
        }
        if usize::BITS == 64 {
            lemma2_to64_rest();
        } else {
            lemma2_to64();
        }
    }
    let row_bits = p.rows();
    let words = (row_bits + 63) / 64;
    if rows.len() != p.cols() {
        return Err(Sha256F2zError::InvalidGeometry);
    }
    for c in 0..rows.len()
        invariant
            words == words_per_column(p.t as nat),
            rows@.len() == pow2(p.s as nat),
            forall|d: int| 0 <= d < c ==> #[trigger] rows@[d]@.len() == words,
    {
        if rows[c].len() != words {
            return Err(Sha256F2zError::InvalidGeometry);
        }
    }
    Ok(())
}

/// Checks that flat cell 0 — the shared leading one — is set.
pub fn validate_shared_constant(rows: &[Vec<u64>]) -> (result: Result<(), Sha256F2zError>)
    ensures
        rows@.len() == 0 ==> result == Err::<(), Sha256F2zError>(Sha256F2zError::InvalidGeometry),
        rows@.len() > 0 && (rows@[0]@.len() == 0 || rows@[0]@[0] & 1u64 == 0u64) ==> result
            == Err::<(), Sha256F2zError>(Sha256F2zError::InvalidSharedConstant),
        rows@.len() > 0 && rows@[0]@.len() > 0 && rows@[0]@[0] & 1u64 != 0u64 ==> result is Ok,
{
    if rows.len() <= SHA256_SHARED_CONSTANT_CELL {
        return Err(Sha256F2zError::InvalidGeometry);
    }
    let packed = &rows[SHA256_SHARED_CONSTANT_CELL];
    if packed.len() == 0 || packed[0] & 1 == 0 {
        return Err(Sha256F2zError::InvalidSharedConstant);
    }
    Ok(())
}

/// Checks that there is one public statement per committed instance.
pub fn validate_public_statement(
    expected: usize,
    public_statement: &[Sha256CompressionStatement],
) -> (result: Result<(), Sha256F2zError>)
    ensures
        public_statement.len() == expected ==> result is Ok,
        public_statement.len() != expected ==> result == Err::<(), Sha256F2zError>(
            Sha256F2zError::InvalidPublicStatementLength {
                expected,
                actual: public_statement.len(),
            },
        ),
{
    if public_statement.len() != expected {
        return Err(
            Sha256F2zError::InvalidPublicStatementLength {
                expected,
                actual: public_statement.len(),
            },
        );
    }
    Ok(())
}

/// Checks that a chain statement has one block per prepared instance.
pub fn validate_chain_statement(instances: usize, statement: &Sha256ChainStatement) -> (result:
    Result<(), Sha256F2zError>)
    ensures
        statement.blocks.len() == instances ==> result is Ok,
        statement.blocks.len() != instances ==> result == Err::<(), Sha256F2zError>(
            Sha256F2zError::InvalidPublicStatementLength {
                expected: instances,
                actual: statement.blocks.len(),
            },
        ),
{
    if statement.blocks.len() != instances {
        return Err(
            Sha256F2zError::InvalidPublicStatementLength {
                expected: instances,
                actual: statement.blocks.len(),
            },
        );
    }
    Ok(())
}

/// Variables addressing `instances` padded to a power of two:
/// `⌈log2(instances)⌉`, or an error when that power overflows `usize`.
pub fn instance_vars(instances: usize) -> (result: Result<usize, Sha256F2zError>)
    ensures
        pow2(ceil_log2(instances as nat)) <= usize::MAX ==> result == Ok::<usize, Sha256F2zError>(
            ceil_log2(instances as nat) as usize,
        ),
        pow2(ceil_log2(instances as nat)) > usize::MAX ==> result == Err::<usize, Sha256F2zError>(
            Sha256F2zError::InvalidGeometry,
        ),
{
    let mut k: usize = 0;
    let mut p: usize = 1;
    proof {
        lemma2_to64();
    }
    while p < instances
        invariant
            p == pow2(k as nat),
            k < usize::BITS,
            k == 0 || pow2((k - 1) as nat) < instances,
        decreases usize::BITS - k,
    {
        proof {
            lemma_pow2_unfold((k + 1) as nat);
            vstd::bits::lemma_usize_pow2_no_overflow(k as nat);
        }
        if k + 1 == usize::BITS as usize {
            proof {
                // 2^k < instances and 2^(k+1) exceeds usize::MAX.
                assert(pow2((k + 1) as nat) > usize::MAX) by {
                    if usize::BITS == 64 {
                        lemma2_to64_rest();
                    } else {
                        lemma2_to64();
                    }
                }
                assert(is_ceil_log2(instances as nat, (k + 1) as nat));
                lemma_ceil_log2_is(instances as nat, (k + 1) as nat);
                if usize::BITS == 64 {
                    lemma2_to64_rest();
                }
            }
            return Err(Sha256F2zError::InvalidGeometry);
        }
        proof {
            vstd::bits::lemma_usize_pow2_no_overflow((k + 1) as nat);
        }
        p = p * 2;
        k = k + 1;
    }
    proof {
        assert(is_ceil_log2(instances as nat, k as nat));
        lemma_ceil_log2_is(instances as nat, k as nat);
    }
    Ok(k)
}

} // verus!
