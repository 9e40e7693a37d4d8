//! Arithmetic over an abstract element type.
//!
//! The element type is any `T` with the operators that a function uses. Nothing is assumed
//! of an operator but that it accepts its operands: a contract says which operations, on which
//! operands and in which order, lead to a result. So it holds of rounded arithmetic too.

use vstd::prelude::*;
use vstd::std_specs::ops::{AddSpec, DivSpec, MulSpec, SubSpec};
use core::ops::{Add, Div, Mul, Sub};

verus! {

/// `+` accepts any two elements.
pub open spec fn total_add<T: Add<Output = T>>() -> bool {
    forall|a: T, b: T| #[trigger] a.add_req(b)
}

/// `-` accepts any two elements.
pub open spec fn total_sub<T: Sub<Output = T>>() -> bool {
    forall|a: T, b: T| #[trigger] a.sub_req(b)
}

/// `*` accepts any two elements.
pub open spec fn total_mul<T: Mul<Output = T>>() -> bool {
    forall|a: T, b: T| #[trigger] a.mul_req(b)
}

/// `/` accepts any two elements.
pub open spec fn total_div<T: Div<Output = T>>() -> bool {
    forall|a: T, b: T| #[trigger] a.div_req(b)
}

/// `r` is what `a + b` gave.
pub open spec fn is_sum<T: Add<Output = T>>(a: T, b: T, r: T) -> bool {
    call_ensures(T::add, (a, b), r)
}

/// `r` is what `a - b` gave.
pub open spec fn is_difference<T: Sub<Output = T>>(a: T, b: T, r: T) -> bool {
    call_ensures(T::sub, (a, b), r)
}

/// `r` is what `a * b` gave.
pub open spec fn is_product<T: Mul<Output = T>>(a: T, b: T, r: T) -> bool {
    call_ensures(T::mul, (a, b), r)
}

/// `r` is what `a / b` gave.
pub open spec fn is_quotient<T: Div<Output = T>>(a: T, b: T, r: T) -> bool {
    call_ensures(T::div, (a, b), r)
}

/// `sums` are the running totals of adding `terms`, left to right, to `init`.
pub open spec fn running_sums<T: Add<Output = T>>(init: T, terms: Seq<T>, sums: Seq<T>) -> bool {
    &&& sums.len() == terms.len() + 1
    &&& sums[0] == init
    &&& forall|i: int| 0 <= i < terms.len() ==> is_sum(sums[i], #[trigger] terms[i], sums[i + 1])
}

/// `r` is the result of adding `terms`, left to right, to `init`.
pub open spec fn sum_of<T: Add<Output = T>>(init: T, terms: Seq<T>, r: T) -> bool {
    exists|sums: Seq<T>| #[trigger] running_sums(init, terms, sums) && sums.last() == r
}

/// `t` holds the products of `a` and `b`, place by place.
pub open spec fn products<T: Mul<Output = T>>(a: Seq<T>, b: Seq<T>, t: Seq<T>) -> bool {
    &&& t.len() == a.len()
    &&& forall|i: int| 0 <= i < t.len() ==> is_product(a[i], b[i], #[trigger] t[i])
}

/// `r` is the dot product of `a` and `b`: their products, added left to right to `zero`.
pub open spec fn dot_of<T: Add<Output = T> + Mul<Output = T>>(
    zero: T,
    a: Seq<T>,
    b: Seq<T>,
    r: T,
) -> bool {
    exists|t: Seq<T>| #[trigger] products(a, b, t) && sum_of(zero, t, r)
}

/// Nothing added to `init` leaves `init`.
pub proof fn lemma_sum_of_none<T: Add<Output = T>>(init: T)
    ensures
        sum_of(init, Seq::<T>::empty(), init),
{
    assert(running_sums(init, Seq::<T>::empty(), seq![init]));
}

/// One more term extends a sum.
pub proof fn lemma_sum_of_push<T: Add<Output = T>>(init: T, terms: Seq<T>, r: T, x: T, s: T)
    requires
        sum_of(init, terms, r),
        is_sum(r, x, s),
    ensures
        sum_of(init, terms.push(x), s),
{
    let sums = choose|sums: Seq<T>| #[trigger] running_sums(init, terms, sums) && sums.last() == r;
    let more = sums.push(s);
    assert forall|i: int| 0 <= i < terms.push(x).len() implies is_sum(
        more[i],
        #[trigger] terms.push(x)[i],
        more[i + 1],
    ) by {
        if i < terms.len() {
            assert(is_sum(sums[i], terms[i], sums[i + 1]));
        }
    }
    assert(running_sums(init, terms.push(x), more));
}

/// Each of `+`, `-` and `*` gives one result for its operands.
pub open spec fn single_valued<
    T: Add<Output = T> + Sub<Output = T> + Mul<Output = T>,
>() -> bool {
    &&& forall|a: T, b: T, r: T, s: T|
        #![trigger is_sum(a, b, r), is_sum(a, b, s)]
        is_sum(a, b, r) && is_sum(a, b, s) ==> r == s
    &&& forall|a: T, b: T, r: T, s: T|
        #![trigger is_difference(a, b, r), is_difference(a, b, s)]
        is_difference(a, b, r) && is_difference(a, b, s) ==> r == s
    &&& forall|a: T, b: T, r: T, s: T|
        #![trigger is_product(a, b, r), is_product(a, b, s)]
        is_product(a, b, r) && is_product(a, b, s) ==> r == s
}

/// The dot product of two rows of equal length.
pub fn dot<T: Copy + Add<Output = T> + Mul<Output = T>>(a: &[T], b: &[T], zero: T) -> (r: T)
    requires
        a@.len() == b@.len(),
        total_add::<T>(),
        total_mul::<T>(),
    ensures
        dot_of(zero, a@, b@, r),
{
    let mut acc: T = zero;
    let mut i: usize = 0;
    let ghost mut terms: Seq<T> = Seq::empty();
    proof {
        lemma_sum_of_none(zero);
    }
    while i < a.len()
        invariant
            i <= a@.len(),
            a@.len() == b@.len(),
            total_add::<T>(),
            total_mul::<T>(),
            terms.len() == i,
            forall|j: int| 0 <= j < i ==> is_product(a@[j], b@[j], #[trigger] terms[j]),
            sum_of(zero, terms, acc),
        decreases a@.len() - i,
    {
        let p: T = a[i] * b[i];
        let ghost before = acc;
        acc = acc + p;
        proof {
            lemma_sum_of_push(zero, terms, before, p, acc);
            terms = terms.push(p);
        }
        i = i + 1;
    }
    assert(products(a@, b@, terms));
    acc
}

/// `tops` are the running maxima of `e` above `lowest`, as `larger` picks them.
pub open spec fn running_tops<T, M: Fn(T, T) -> T>(
    larger: M,
    lowest: T,
    e: Seq<T>,
    tops: Seq<T>,
) -> bool {
    &&& tops.len() == e.len() + 1
    &&& tops[0] == lowest
    &&& forall|i: int|
        0 <= i < e.len() ==> call_ensures(larger, (tops[i], #[trigger] e[i]), tops[i + 1])
}

/// `top` is the maximum of `e` above `lowest`, as `larger` picks it.
pub open spec fn is_top<T, M: Fn(T, T) -> T>(larger: M, lowest: T, e: Seq<T>, top: T) -> bool {
    exists|tops: Seq<T>| #[trigger] running_tops(larger, lowest, e, tops) && tops.last() == top
}

/// The maximum of `e` above `lowest`, as `larger` picks it.
pub fn find_top<T: Copy, M: Fn(T, T) -> T>(larger: &M, lowest: T, e: &[T]) -> (top: T)
    requires
        forall|a: T, b: T| #[trigger] call_requires(*larger, (a, b)),
    ensures
        is_top(*larger, lowest, e@, top),
{
    let mut top: T = lowest;
    let ghost mut tops: Seq<T> = seq![lowest];
    let mut i: usize = 0;
    while i < e.len()
        invariant
            i <= e@.len(),
            forall|a: T, b: T| #[trigger] call_requires(*larger, (a, b)),
            tops.len() == i + 1,
            tops[0] == lowest,
            tops[i as int] == top,
            forall|j: int|
                0 <= j < i ==> call_ensures(*larger, (tops[j], #[trigger] e@[j]), tops[j + 1]),
        decreases e@.len() - i,
    {
        top = larger(top, e[i]);
        proof {
            tops = tops.push(top);
        }
        i = i + 1;
    }
    assert(running_tops(*larger, lowest, e@, tops));
    top
}

/// The sum of `terms`, added left to right to `zero`.
pub fn sum<T: Copy + Add<Output = T>>(terms: &[T], zero: T) -> (r: T)
    requires
        total_add::<T>(),
    ensures
        sum_of(zero, terms@, r),
{
    let mut acc: T = zero;
    let mut i: usize = 0;
    proof {
        lemma_sum_of_none(zero);
        assert(terms@.take(0) =~= Seq::empty());
    }
    while i < terms.len()
        invariant
            i <= terms@.len(),
            total_add::<T>(),
            sum_of(zero, terms@.take(i as int), acc),
        decreases terms@.len() - i,
    {
        let ghost before = acc;
        acc = acc + terms[i];
        proof {
            lemma_sum_of_push(zero, terms@.take(i as int), before, terms@[i as int], acc);
            assert(terms@.take(i as int).push(terms@[i as int]) =~= terms@.take(i + 1));
        }
        i = i + 1;
    }
    assert(terms@.take(i as int) =~= terms@);
    acc
}

} // verus!
