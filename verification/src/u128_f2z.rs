//! Shape checks of the combined u128-multiplication Spartan/F2Z path:
//! powers of two addressable in `usize`, and committed bit rows of the
//! grid's shape.

use vstd::arithmetic::power2::*;
use vstd::prelude::*;

use crate::profile::ProfileError;
use crate::u128_mul::{IntEvalParams, U128MulError};

verus! {

/// Failures of the combined u128 multiplication path that concern its
/// inputs' shape and profile.
#[derive(Clone, Copy, Debug, PartialEq, Eq, Structural)]
pub enum U128MulSpartanF2zError {
    /// The relation could not be built.
    Relation(U128MulError),
    /// The runtime field modulus is not supported.
    UnsupportedFieldModulus,
    /// The relation and witness layouts differ.
    RelationWitnessLayoutMismatch,
    /// The committed bit rows do not have the grid's shape.
    InvalidBitRows,
    /// The F2Z parameters are inconsistent with the layout.
    InvalidF2zParameters,
    /// The F2Z parameters are outside the audited set.
    UnauditedF2zParameters,
    /// The commitment was made under another configuration.
    CommitmentConfigMismatch,
    /// The claim point has the wrong arity.
    InvalidClaimPoint,
    /// The claim uses another field.
    ClaimFieldMismatch,
    /// A constant-only claim is malformed.
    InvalidConstantOnlyClaim,
    /// A canonical length did not fit its fixed-width encoding.
    BindingEncodingOverflow,
    /// The security profile could not be instantiated at this shape.
    Profile(ProfileError),
    /// Only single-prime profiles are supported.
    UnsupportedProfile,
    /// The runtime prime produced a multi-chunk row functional.
    MultiChunkRuntimeWeights,
}

/// `2^exponent`, or an error when it does not fit in `usize`.
pub fn checked_pow2(exponent: usize) -> (result: Result<usize, U128MulSpartanF2zError>)
    ensures
        exponent < usize::BITS ==> (result matches Ok(value) && value == pow2(exponent as nat)),
        exponent >= usize::BITS ==> result == Err::<usize, U128MulSpartanF2zError>(
            U128MulSpartanF2zError::InvalidF2zParameters,
        ),
{
    if exponent >= usize::BITS as usize {
        return Err(U128MulSpartanF2zError::InvalidF2zParameters);
    }
    proof {
        vstd::bits::lemma_usize_pow2_no_overflow(exponent as nat);
        vstd::bits::lemma_usize_shl_is_mul(1, exponent);
    }
    Ok(1usize << exponent)
}

/// The committed bit rows fit the grid: `2^t` is a whole number of
/// 64-bit words, and there are `2^s` columns of `2^t / 64` words each.
pub open spec fn bit_rows_ok(params: IntEvalParams, rows: Seq<Vec<u64>>) -> bool {
    &&& params.t < usize::BITS
    &&& params.s < usize::BITS
    &&& pow2(params.t as nat) % 64 == 0
    &&& rows.len() == pow2(params.s as nat)
    &&& forall|c: int| 0 <= c < rows.len() ==> #[trigger] rows[c]@.len() == pow2(params.t as nat)
        / 64
}

/// Checks that committed bit rows fit the grid `params`.
pub fn validate_bit_rows(params: &IntEvalParams, rows: &[Vec<u64>]) -> (result: Result<
    (),
    U128MulSpartanF2zError,
>)
    ensures
        params.t >= usize::BITS || params.s >= usize::BITS ==> result == Err::<
            (),
            U128MulSpartanF2zError,
        >(U128MulSpartanF2zError::InvalidF2zParameters),
        params.t < usize::BITS && params.s < usize::BITS && !bit_rows_ok(*params, rows@) ==> result
            == Err::<(), U128MulSpartanF2zError>(U128MulSpartanF2zError::InvalidBitRows),
        bit_rows_ok(*params, rows@) ==> result is Ok,
{
    let row_count = match checked_pow2(params.t) {
        Ok(count) => count,
        Err(error) => return Err(error),
    };
    let col_count = match checked_pow2(params.s) {
        Ok(count) => count,
        Err(error) => return Err(error),
    };
    if row_count % 64 != 0 || rows.len() != col_count {
        return Err(U128MulSpartanF2zError::InvalidBitRows);
    }
    let words_per_col = row_count / 64;
    for c in 0..rows.len()
        invariant
            params.t < usize::BITS,
            params.s < usize::BITS,
            rows@.len() == col_count,
            words_per_col == pow2(params.t as nat) / 64,
            forall|d: int| 0 <= d < c ==> #[trigger] rows@[d]@.len() == words_per_col,
    {
        if rows[c].len() != words_per_col {
            return Err(U128MulSpartanF2zError::InvalidBitRows);
        }
    }
    Ok(())
}

} // verus!
