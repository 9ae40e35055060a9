use vstd::prelude::*;

verus! {

/// The one way an operation on a shared queue can fail: the lock that guards
/// its contents was poisoned by a holder that terminated abnormally.
#[derive(Debug, Clone, Copy, PartialEq, Eq, Structural)]
pub enum PQError {
    LockError,
}

/// The poisoning signal of `std::sync`, carried through as an opaque value.
#[verifier::external_type_specification]
#[verifier::external_body]
#[verifier::reject_recursive_types(T)]
pub struct ExPoisonError<T>(std::sync::PoisonError<T>);

/// Any poisoning signal becomes `LockError`, whatever the guarded value.
impl<U> From<std::sync::PoisonError<U>> for PQError {
    fn from(_poison: std::sync::PoisonError<U>) -> (r: Self)
        ensures
            r == PQError::LockError,
    {
        PQError::LockError
    }
}

impl<U> vstd::std_specs::convert::FromSpecImpl<std::sync::PoisonError<U>> for PQError {
    open spec fn obeys_from_spec() -> bool {
        true
    }

    open spec fn from_spec(v: std::sync::PoisonError<U>) -> Self {
        PQError::LockError
    }
}

} // verus!
