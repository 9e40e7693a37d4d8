//! What sums and products are worth where arithmetic is exact.
//!
//! A valuation gives the real number that an element stands for. Where it carries the operators
//! over to those of the real numbers, results can be stated as formulas. Rounded arithmetic has no
//! such valuation; what holds of it too is stated by the operations themselves.

use core::ops::{Add, Div, Mul, Sub};
use vstd::prelude::*;

verus! {

/// `v` carries sums over.
pub open spec fn adds<T: Add<Output = T>>(v: spec_fn(T) -> real) -> bool {
    forall|a: T, b: T, r: T| #[trigger] crate::num::is_sum(a, b, r) ==> v(r) == v(a) + v(b)
}

/// `v` carries differences over.
pub open spec fn subtracts<T: Sub<Output = T>>(v: spec_fn(T) -> real) -> bool {
    forall|a: T, b: T, r: T| #[trigger] crate::num::is_difference(a, b, r) ==> v(r) == v(a) - v(b)
}

/// `v` carries products over.
pub open spec fn multiplies<T: Mul<Output = T>>(v: spec_fn(T) -> real) -> bool {
    forall|a: T, b: T, r: T| #[trigger] crate::num::is_product(a, b, r) ==> v(r) == v(a) * v(b)
}

/// `v` carries quotients over, but for those by zero.
pub open spec fn divides<T: Div<Output = T>>(v: spec_fn(T) -> real) -> bool {
    forall|a: T, b: T, r: T| #[trigger]
        crate::num::is_quotient(a, b, r) && v(b) != 0real ==> v(r) == v(a) / v(b)
}

/// The sum of `f` over the numbers below `n`.
pub open spec fn total(n: nat, f: spec_fn(int) -> real) -> real
    decreases n,
{
    if n == 0 {
        0real
    } else {
        total((n - 1) as nat, f) + f(n - 1)
    }
}

/// Sums of the same terms are equal.
pub proof fn lemma_total_same(n: nat, f: spec_fn(int) -> real, g: spec_fn(int) -> real)
    requires
        forall|i: int| 0 <= i < n ==> #[trigger] f(i) == g(i),
    ensures
        total(n, f) == total(n, g),
    decreases n,
{
    if n > 0 {
        lemma_total_same((n - 1) as nat, f, g);
        assert(f(n - 1) == g(n - 1));
    }
}

/// A sum splits at every place.
pub proof fn lemma_total_splits(m: nat, n: nat, f: spec_fn(int) -> real)
    ensures
        total(m + n, f) == total(m, f) + total(n, |i: int| f(m + i)),
    decreases n,
{
    if n > 0 {
        lemma_total_splits(m, (n - 1) as nat, f);
        assert((m + n - 1) as nat == m + (n - 1) as nat);
    }
}

/// A sum of sums is the sum of both.
pub proof fn lemma_total_adds(n: nat, f: spec_fn(int) -> real, g: spec_fn(int) -> real)
    ensures
        total(n, |i: int| f(i) + g(i)) == total(n, f) + total(n, g),
    decreases n,
{
    if n > 0 {
        lemma_total_adds((n - 1) as nat, f, g);
    }
}

/// A common factor leaves a sum.
pub proof fn lemma_total_scaled(n: nat, f: spec_fn(int) -> real, c: real)
    ensures
        total(n, |i: int| f(i) * c) == total(n, f) * c,
    decreases n,
{
    if n > 0 {
        let m = (n - 1) as nat;
        lemma_total_scaled(m, f, c);
        let s = total(m, f);
        let x = f(n - 1);
        assert((s + x) * c == s * c + x * c) by (nonlinear_arith);
    } else {
        assert(0real * c == 0real) by (nonlinear_arith);
    }
}

/// Sums of equal pairs of neighbours: the terms of both halves, one of each in turn.
pub proof fn lemma_total_interleaved(n: nat, m: int, f: spec_fn(int) -> real)
    ensures
        total(2 * n, |k: int| f(k / 2 + m * (k % 2))) == total(n, f) + total(n, |i: int| f(i + m)),
    decreases n,
{
    let g = |k: int| f(k / 2 + m * (k % 2));
    if n > 0 {
        let p = (n - 1) as nat;
        lemma_total_interleaved(p, m, f);
        assert(total(2 * n, g) == total((2 * n - 1) as nat, g) + g(2 * n - 1));
        assert(total((2 * n - 1) as nat, g) == total(2 * p, g) + g(2 * n - 2));
        assert((2 * n - 1) / 2 == n - 1 && (2 * n - 1) % 2 == 1);
        assert((2 * n - 2) / 2 == n - 1 && (2 * n - 2) % 2 == 0);
        assert(m * 1 == m && m * 0 == 0) by (nonlinear_arith);
        assert(g(2 * n - 1) == f(n - 1 + m));
        assert(g(2 * n - 2) == f(n - 1));
    }
}

/// A sum without terms above zero is not above zero, one of them makes it positive.
pub proof fn lemma_total_positive(n: nat, f: spec_fn(int) -> real)
    requires
        forall|i: int| 0 <= i < n ==> #[trigger] f(i) > 0real,
    ensures
        total(n, f) >= 0real,
        n > 0 ==> total(n, f) > 0real,
    decreases n,
{
    if n > 0 {
        lemma_total_positive((n - 1) as nat, f);
        assert(f(n - 1) > 0real);
    }
}

/// The value of running totals.
proof fn lemma_running<T: Add<Output = T>>(
    v: spec_fn(T) -> real,
    init: T,
    terms: Seq<T>,
    sums: Seq<T>,
    n: nat,
)
    requires
        adds(v),
        crate::num::running_sums(init, terms, sums),
        n <= terms.len(),
    ensures
        v(sums[n as int]) == v(init) + total(n, |i: int| v(terms[i])),
    decreases n,
{
    if n > 0 {
        lemma_running(v, init, terms, sums, (n - 1) as nat);
        assert(crate::num::is_sum(sums[n - 1], terms[n - 1], sums[n - 1 + 1]));
    }
}

/// The value of a sum.
pub proof fn lemma_sum_value<T: Add<Output = T>>(
    v: spec_fn(T) -> real,
    init: T,
    terms: Seq<T>,
    r: T,
)
    requires
        adds(v),
        crate::num::sum_of(init, terms, r),
    ensures
        v(r) == v(init) + total(terms.len(), |i: int| v(terms[i])),
{
    let sums = choose|sums: Seq<T>| #[trigger]
        crate::num::running_sums(init, terms, sums) && sums.last() == r;
    lemma_running(v, init, terms, sums, terms.len());
}

/// A dot product is worth the sum of the products.
pub proof fn law_dot_is_sum_of_products<T: Add<Output = T> + Mul<Output = T>>(
    v: spec_fn(T) -> real,
    zero: T,
    a: Seq<T>,
    b: Seq<T>,
    r: T,
)
    requires
        adds(v),
        multiplies(v),
        v(zero) == 0real,
        crate::num::dot_of(zero, a, b, r),
    ensures
        v(r) == total(a.len(), |i: int| v(a[i]) * v(b[i])),
{
    let t = choose|t: Seq<T>| #[trigger]
        crate::num::products(a, b, t) && crate::num::sum_of(zero, t, r);
    lemma_sum_value(v, zero, t, r);
    let f = |i: int| v(t[i]);
    let g = |i: int| v(a[i]) * v(b[i]);
    assert forall|i: int| 0 <= i < a.len() implies #[trigger] f(i) == g(i) by {
        assert(crate::num::is_product(a[i], b[i], t[i]));
    }
    lemma_total_same(a.len(), f, g);
}

} // verus!
