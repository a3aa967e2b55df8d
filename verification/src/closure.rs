//! Closures as mathematical functions.
//!
//! The library takes the arithmetic of amplitudes and of real numbers from
//! its caller, as closures. Its contracts speak of what such a closure
//! computes, so they ask that it accepts every argument and that its result
//! is determined by its arguments.
use vstd::prelude::*;

verus! {

/// `f` accepts every argument and is a function of it: two calls on the
/// same argument give the same result.
pub open spec fn is_map<X, Y, F: Fn(X) -> Y>(f: F) -> bool {
    &&& forall|a: X| call_requires(f, (a,))
    &&& forall|a: X, r: Y, s: Y| call_ensures(f, (a,), r) && call_ensures(f, (a,), s) ==> r == s
}

/// What `f` returns on `a`.
pub open spec fn value_of<X, Y, F: Fn(X) -> Y>(f: F, a: X) -> Y {
    choose|r: Y| call_ensures(f, (a,), r)
}

/// The closure `f` as a mathematical function.
pub open spec fn map_of<X, Y, F: Fn(X) -> Y>(f: F) -> spec_fn(X) -> Y {
    |a: X| value_of(f, a)
}

/// A value that a call of `f` returned is its value.
pub proof fn lemma_value_of<X, Y, F: Fn(X) -> Y>(f: F, a: X, r: Y)
    requires
        is_map(f),
        call_ensures(f, (a,), r),
    ensures
        r == value_of(f, a),
        r == map_of(f)(a),
{
}

/// `f` accepts every pair of arguments and is a function of them: two calls
/// on the same pair give the same result.
pub open spec fn is_operation<T, F: Fn(T, T) -> T>(f: F) -> bool {
    &&& forall|a: T, b: T| call_requires(f, (a, b))
    &&& forall|a: T, b: T, r: T, s: T|
        call_ensures(f, (a, b), r) && call_ensures(f, (a, b), s) ==> r == s
}

/// What the operation `f` returns on `a` and `b`.
pub open spec fn result_of<T, F: Fn(T, T) -> T>(f: F, a: T, b: T) -> T {
    choose|r: T| call_ensures(f, (a, b), r)
}

/// The operation `f` as a mathematical function.
pub open spec fn operation<T, F: Fn(T, T) -> T>(f: F) -> spec_fn(T, T) -> T {
    |a: T, b: T| result_of(f, a, b)
}

/// A value that a call of the operation `f` returned is its result.
pub proof fn lemma_result_of<T, F: Fn(T, T) -> T>(f: F, a: T, b: T, r: T)
    requires
        is_operation(f),
        call_ensures(f, (a, b), r),
    ensures
        r == result_of(f, a, b),
        r == operation(f)(a, b),
{
}

} // verus!
