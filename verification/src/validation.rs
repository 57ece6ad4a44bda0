//! Input validation for metric computation.
//!
//! Callers that want a hard error instead of the metrics' silent edge
//! policies (zero for an empty list, zero for a bad persistence) can
//! validate inputs first; each check states exactly when it rejects.

use vstd::prelude::*;
use crate::binary::RelevantSet;
use crate::frac::Frac;

verus! {

/// Why a metric input was rejected.
#[derive(Clone, Copy, Debug, PartialEq, Eq, Structural)]
pub enum ValidationError {
    /// The cutoff is zero.
    KZero,
    /// The ranked list is empty.
    EmptyRanked,
    /// No relevant documents were supplied (when they were required).
    NoRelevant,
    /// An RBP persistence outside the open interval (0, 1).
    InvalidPersistence { persistence: Frac },
    /// A non-positive F-measure weight.
    InvalidBeta { beta: Frac },
}

/// Validate a ranked list, relevant set and cutoff: the cutoff must be
/// positive, the list non-empty, and — when `require_relevant` is set —
/// the relevant set non-empty. A cutoff beyond the list length is
/// fine (the metrics consume the shorter list).
pub fn validate_metric_inputs(
    ranked: &Vec<String>,
    relevant: &RelevantSet,
    k: usize,
    require_relevant: bool,
) -> (r: Result<(), ValidationError>)
    ensures
        r == if k == 0 {
            Result::<(), ValidationError>::Err(ValidationError::KZero)
        } else if ranked@.len() == 0 {
            Result::<(), ValidationError>::Err(ValidationError::EmptyRanked)
        } else if require_relevant && relevant.ids().len() == 0 {
            Result::<(), ValidationError>::Err(ValidationError::NoRelevant)
        } else {
            Result::<(), ValidationError>::Ok(())
        },
{
    if k == 0 {
        return Result::Err(ValidationError::KZero);
    }
    if ranked.len() == 0 {
        return Result::Err(ValidationError::EmptyRanked);
    }
    if require_relevant && relevant.is_empty() {
        return Result::Err(ValidationError::NoRelevant);
    }
    Result::Ok(())
}

/// Validate an RBP persistence: it must lie strictly between 0 and 1.
/// (The metric itself silently yields zero instead; this check is the
/// strict boundary for callers that prefer an error.)
pub fn validate_persistence(persistence: Frac) -> (r: Result<(), ValidationError>)
    requires
        persistence.wf(),
    ensures
        r == if persistence.num <= 0 || persistence.num >= persistence.den {
            Result::<(), ValidationError>::Err(
                ValidationError::InvalidPersistence { persistence },
            )
        } else {
            Result::<(), ValidationError>::Ok(())
        },
{
    if persistence.num <= 0 || persistence.num >= persistence.den {
        return Result::Err(ValidationError::InvalidPersistence { persistence });
    }
    Result::Ok(())
}

/// Validate an F-measure weight: it must be positive.
pub fn validate_beta(beta: Frac) -> (r: Result<(), ValidationError>)
    requires
        beta.wf(),
    ensures
        r == if beta.num <= 0 {
            Result::<(), ValidationError>::Err(ValidationError::InvalidBeta { beta })
        } else {
            Result::<(), ValidationError>::Ok(())
        },
{
    if beta.num <= 0 {
        return Result::Err(ValidationError::InvalidBeta { beta });
    }
    Result::Ok(())
}

} // verus!
