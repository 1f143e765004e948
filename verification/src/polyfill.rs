//! Stand-ins for the unstable `Try` and `FromResidual` traits of the standard
//! library, with the same behaviour on `Option` and `Result`.
//!
//! A fallible step that was made explicit decomposes its value with
//! [`Try::branch`] and, where the step short-circuits, hands the residual to
//! [`FromResidual::from_residual`] of the type that the enclosing function
//! returns.

use core::convert::Infallible;
use core::ops::ControlFlow;
use vstd::prelude::*;
use vstd::std_specs::convert::FromSpec;

verus! {

/// Rebuilds a value of the implementing type from the residual that a
/// short-circuiting `branch` handed out.
pub trait FromResidual<R = <Self as Try>::Residual>: Sized {
    /// What `from_residual` may return for `residual`.
    spec fn from_residual_spec(residual: R, out: Self) -> bool;

    /// The value that short-circuits with `residual`.
    fn from_residual(residual: R) -> (out: Self)
        ensures
            Self::from_residual_spec(residual, out),
    ;
}

/// A type whose values either go on with an output or short-circuit with a
/// residual.
pub trait Try: FromResidual<Self::Residual> {
    /// The value with which the computation goes on.
    type Output;

    /// What is left where the computation short-circuits.
    type Residual;

    /// The value that goes on with `output`.
    spec fn from_output_spec(output: Self::Output) -> Self;

    /// The decomposition of a value.
    spec fn branch_spec(self) -> ControlFlow<Self::Residual, Self::Output>;

    /// The value that goes on with `output`.
    fn from_output(output: Self::Output) -> (out: Self)
        ensures
            out == Self::from_output_spec(output),
    ;

    /// Decomposes the value: `Continue` with the output where the
    /// computation goes on, `Break` with the residual where it
    /// short-circuits.
    fn branch(self) -> (flow: ControlFlow<Self::Residual, Self::Output>)
        ensures
            flow == self.branch_spec(),
    ;

    /// A value made from an output goes on with that output.
    proof fn law_output_goes_on(output: Self::Output)
        ensures
            Self::from_output_spec(output).branch_spec() == ControlFlow::<
                Self::Residual,
                Self::Output,
            >::Continue(output),
    ;
}

impl<T> Try for Option<T> {
    type Output = T;

    type Residual = Option<Infallible>;

    open spec fn from_output_spec(output: T) -> Option<T> {
        Some(output)
    }

    open spec fn branch_spec(self) -> ControlFlow<Option<Infallible>, T> {
        match self {
            Some(output) => ControlFlow::Continue(output),
            None => ControlFlow::Break(None),
        }
    }

    fn from_output(output: T) -> (out: Option<T>) {
        Some(output)
    }

    fn branch(self) -> (flow: ControlFlow<Option<Infallible>, T>) {
        match self {
            Some(output) => ControlFlow::Continue(output),
            None => ControlFlow::Break(None),
        }
    }

    proof fn law_output_goes_on(output: T) {
    }
}

impl<T, E> Try for Result<T, E> {
    type Output = T;

    type Residual = Result<Infallible, E>;

    open spec fn from_output_spec(output: T) -> Result<T, E> {
        Ok(output)
    }

    open spec fn branch_spec(self) -> ControlFlow<Result<Infallible, E>, T> {
        match self {
            Ok(output) => ControlFlow::Continue(output),
            Err(err) => ControlFlow::Break(Err(err)),
        }
    }

    fn from_output(output: T) -> (out: Result<T, E>) {
        Ok(output)
    }

    fn branch(self) -> (flow: ControlFlow<Result<Infallible, E>, T>) {
        match self {
            Ok(output) => ControlFlow::Continue(output),
            Err(err) => ControlFlow::Break(Err(err)),
        }
    }

    proof fn law_output_goes_on(output: T) {
    }
}

impl<T> FromResidual for Option<T> {
    open spec fn from_residual_spec(residual: Option<Infallible>, out: Option<T>) -> bool {
        out is None
    }

    fn from_residual(residual: Option<Infallible>) -> (out: Option<T>) {
        None
    }
}

impl<T, E, F: From<E>> FromResidual<Result<Infallible, E>> for Result<T, F> {
    open spec fn from_residual_spec(residual: Result<Infallible, E>, out: Result<T, F>) -> bool {
        match (residual, out) {
            (Err(from), Err(into)) => F::obeys_from_spec() ==> into == F::from_spec(from),
            _ => false,
        }
    }

    fn from_residual(residual: Result<Infallible, E>) -> (out: Result<T, F>) {
        Err(F::from(residual_error(residual)))
    }
}

/// The error that a residual holds.
pub open spec fn error_of<E>(residual: Result<Infallible, E>) -> Option<E> {
    match residual {
        Err(err) => Some(err),
        Ok(never) => None,
    }
}

/// `Result::unwrap_err` of the standard library, on a residual. The type of a
/// residual has no `Ok` value, so the call cannot panic: it is believed to
/// return the error that the residual holds.
#[verifier::external_body]
fn residual_error<E>(residual: Result<Infallible, E>) -> (held: E)
    ensures
        error_of(residual) == Some(held),
{
    residual.unwrap_err()
}

} // verus!
