//! Calls whose outcome a contract speaks of.
use vstd::prelude::*;

verus! {

/// Calls `f`, and says that what it returned is an outcome of `f`.
pub(crate) fn call<B, F: FnOnce() -> B>(f: F) -> (outcome: B)
    requires
        call_requires(f, ()),
    ensures
        call_ensures(f, (), outcome),
{
    f()
}

/// Calls `f` on `argument`, and says that what it returned is an outcome of `f`.
pub(crate) fn call_with<A, B, F: FnOnce(A) -> B>(f: F, argument: A) -> (outcome: B)
    requires
        call_requires(f, (argument,)),
    ensures
        call_ensures(f, (argument,), outcome),
{
    f(argument)
}

} // verus!
