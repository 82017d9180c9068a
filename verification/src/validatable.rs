use vstd::prelude::*;

verus! {

/// The capability that the type of a guarded parameter offers: one operation
/// that inspects the value and reports either success or an error payload.
///
/// The error type `E` is the error type of the functions whose parameters are
/// guarded. What counts as valid is the implementor's decision alone.
pub trait Validatable<E> {
    /// Inspects `self`: `Ok(())` where it is valid, else the error to report.
    fn validate(&self) -> (outcome: Result<(), E>);
}

} // verus!
