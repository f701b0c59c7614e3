//! How contracts speak about caller-supplied arithmetic.

use vstd::prelude::*;

verus! {

/// The executable binary operation `f` computes the mathematical function `g`:
/// whatever a call of `f` returns is `g` of its arguments.
pub open spec fn computes2<V, F: Fn(V, V) -> V>(f: F, g: spec_fn(V, V) -> V) -> bool {
    forall|a: V, b: V, r: V| #[trigger] call_ensures(f, (a, b), r) ==> r == g(a, b)
}

/// The executable test `f` decides the predicate `g`.
pub open spec fn decides<V, F: Fn(V) -> bool>(f: F, g: spec_fn(V) -> bool) -> bool {
    forall|a: V, r: bool| #[trigger] call_ensures(f, (a,), r) ==> r == g(a)
}

/// `f` may be called on every pair of arguments.
pub open spec fn total2<V, F: Fn(V, V) -> V>(f: F) -> bool {
    forall|a: V, b: V| #[trigger] call_requires(f, (a, b))
}

/// `f` may be called on every argument.
pub open spec fn total1<V, F: Fn(V) -> bool>(f: F) -> bool {
    forall|a: V| #[trigger] call_requires(f, (a,))
}

/// The arithmetic that an evaluation runs on, as mathematical functions: the
/// scalar zero, sum, product, and the test for being greater than zero.
#[verifier::reject_recursive_types(V)]
pub struct Arith<V> {
    pub zero: V,
    pub plus: spec_fn(V, V) -> V,
    pub times: spec_fn(V, V) -> V,
    pub positive: spec_fn(V) -> bool,
}

impl<V> Arith<V> {
    /// The activation of a node with incoming sum `sum` and bias `bias`.
    pub open spec fn activate(self, sum: V, bias: V) -> V {
        relu_of((self.plus)(sum, bias), self.zero, self.positive)
    }
}

/// The executable operations compute the arithmetic `ar`.
pub open spec fn implements<V, A: Fn(V, V) -> V, M: Fn(V, V) -> V, P: Fn(V) -> bool>(
    ar: Arith<V>,
    zero: V,
    plus: A,
    times: M,
    positive: P,
) -> bool {
    &&& ar.zero == zero
    &&& computes2(plus, ar.plus)
    &&& computes2(times, ar.times)
    &&& decides(positive, ar.positive)
}

/// The rectifier: `x` where `x` is positive, `zero` otherwise.
pub open spec fn relu_of<V>(x: V, zero: V, positive: spec_fn(V) -> bool) -> V {
    if positive(x) {
        x
    } else {
        zero
    }
}

/// Rectified-linear activation. `positive` tells whether a scalar is strictly
/// greater than zero; a scalar that is not is replaced by `zero`.
pub fn relu<V, P: Fn(V) -> bool>(x: V, zero: V, positive: &P) -> (r: V)
    where V: Copy
    requires
        call_requires(*positive, (x,)),
    ensures
        forall|p: spec_fn(V) -> bool| decides(*positive, p) ==> r == #[trigger] relu_of(x, zero, p),
        r == x || r == zero,
{
    if positive(x) {
        x
    } else {
        zero
    }
}

} // verus!
