//! The derivative order requested of an interpolant, checked against what its kernel provides.
use vstd::prelude::*;

verus! {

/// Why a requested derivative order was refused.
#[derive(Clone, Copy, Debug, PartialEq, Eq, Structural)]
pub enum OrderError {
    /// A derivative of higher order than the kernel's highest
    DerivativeTooHigh,
    /// An integral (negative order) of higher order than the kernel's highest
    IntegralTooHigh,
}

/// The integral order of a requested derivative order: −derivative for negative orders, 0 for
/// values (0) and derivatives (positive orders).
pub open spec fn integral_of(derivative: int) -> int {
    if derivative < 0 { -derivative } else { 0 }
}

/// Check a derivative order (0 for values, positive for derivatives, −m for the m-fold
/// integral) against the highest derivative and integral orders of a kernel, and return its
/// integral order m (0 for values and derivatives). Derivatives are checked first.
pub fn check_order(derivative: i32, max_derivative: i32, max_integral: i32) -> (r: Result<
    usize,
    OrderError,
>)
    ensures
        r == Err::<usize, OrderError>(OrderError::DerivativeTooHigh) <==> derivative
            > max_derivative,
        r == Err::<usize, OrderError>(OrderError::IntegralTooHigh) <==> derivative
            <= max_derivative && -derivative > max_integral,
        r is Ok <==> derivative <= max_derivative && -derivative <= max_integral,
        r matches Ok(m) ==> m == integral_of(derivative as int),
        r matches Ok(m) ==> (derivative < 0 ==> m + derivative == 0) && (derivative >= 0 ==> m
            == 0),
{
    if derivative > max_derivative {
        return Err(OrderError::DerivativeTooHigh);
    }
    // in i64, so that the order −i32::MIN is compared as the integer it is
    let negated: i64 = -(derivative as i64);
    if negated > max_integral as i64 {
        return Err(OrderError::IntegralTooHigh);
    }
    if derivative < 0 {
        Ok(negated as usize)
    } else {
        Ok(0)
    }
}

/// Law of the integral order: a negative derivative order −m is the m-fold integral, and values
/// and derivatives (orders 0 and above) have no integral.
pub proof fn lemma_integral_order(derivative: int)
    ensures
        derivative < 0 ==> integral_of(derivative) + derivative == 0,
        derivative >= 0 ==> integral_of(derivative) == 0,
        integral_of(derivative) >= 0,
{
}

} // verus!
