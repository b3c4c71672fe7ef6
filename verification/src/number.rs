//! The arithmetic that forecasts are computed in.
//!
//! Averages, confidences and distances are computed in a number type that the
//! caller chooses by implementing [`Number`]. The library decides which
//! operation is applied to which values and in what order, and its contracts
//! say exactly that, through the relations below: each relates the arguments of
//! one operation to a value that the operation may return for them. What an
//! operation returns is the implementor's business, so no contract assumes
//! anything of it. What follows where equal operands give equal results
//! ([`is_deterministic`]), or where nothing is rounded ([`crate::exact`]), is
//! stated in laws that say so.

use vstd::prelude::*;

verus! {

/// A number type: conversion from and to whole numbers, the arithmetic and the
/// comparisons that the forecasts need, and decimal text.
pub trait Number: Copy {
    /// The number that stands for `value`.
    fn from_u64(value: u64) -> Self;

    /// `self + other`.
    fn plus(self, other: Self) -> Self;

    /// `self - other`.
    fn minus(self, other: Self) -> Self;

    /// `self * other`.
    fn times(self, other: Self) -> Self;

    /// `self / other`.
    fn over(self, other: Self) -> Self;

    /// The square root of `self`.
    fn root(self) -> Self;

    /// The natural logarithm of `self`.
    fn log(self) -> Self;

    /// The absolute value of `self`.
    fn magnitude(self) -> Self;

    /// Whether `self >= other`.
    fn reaches(self, other: Self) -> bool;

    /// Whether `self > other`.
    fn exceeds(self, other: Self) -> bool;

    /// `self` without its fraction, brought into the range of `u64`.
    fn to_u64(self) -> u64;

    /// `self` in decimal, with `decimals` digits behind the point.
    fn text(self, decimals: usize) -> String;
}

/// `r` stands for the whole number `value`.
pub open spec fn is_whole<N: Number>(value: u64, r: N) -> bool {
    call_ensures(N::from_u64, (value,), r)
}

/// `r` is a value of `a + b`.
pub open spec fn is_sum<N: Number>(a: N, b: N, r: N) -> bool {
    call_ensures(N::plus, (a, b), r)
}

/// `r` is a value of `a - b`.
pub open spec fn is_difference<N: Number>(a: N, b: N, r: N) -> bool {
    call_ensures(N::minus, (a, b), r)
}

/// `r` is a value of `a * b`.
pub open spec fn is_product<N: Number>(a: N, b: N, r: N) -> bool {
    call_ensures(N::times, (a, b), r)
}

/// `r` is a value of `a / b`.
pub open spec fn is_quotient<N: Number>(a: N, b: N, r: N) -> bool {
    call_ensures(N::over, (a, b), r)
}

/// `r` is a value of the square root of `a`.
pub open spec fn is_root<N: Number>(a: N, r: N) -> bool {
    call_ensures(N::root, (a,), r)
}

/// `r` is a value of the natural logarithm of `a`.
pub open spec fn is_log<N: Number>(a: N, r: N) -> bool {
    call_ensures(N::log, (a,), r)
}

/// `r` is a value of the absolute value of `a`.
pub open spec fn is_magnitude<N: Number>(a: N, r: N) -> bool {
    call_ensures(N::magnitude, (a,), r)
}

/// `outcome` is an answer to `a >= b`.
pub open spec fn compares_reaching<N: Number>(a: N, b: N, outcome: bool) -> bool {
    call_ensures(N::reaches, (a, b), outcome)
}

/// `outcome` is an answer to `a > b`.
pub open spec fn compares_exceeding<N: Number>(a: N, b: N, outcome: bool) -> bool {
    call_ensures(N::exceeds, (a, b), outcome)
}

/// `r` is `a` brought to a whole number.
pub open spec fn is_truncated<N: Number>(a: N, r: u64) -> bool {
    call_ensures(N::to_u64, (a,), r)
}

/// `shown` is a decimal text of `a` with `decimals` digits behind the point.
pub open spec fn is_text<N: Number>(a: N, decimals: usize, shown: Seq<char>) -> bool {
    exists|text: String| #[trigger] call_ensures(N::text, (a, decimals), text) && text@ == shown
}

/// `r` is the fraction `numerator / denominator` of two whole numbers.
pub open spec fn is_fraction<N: Number>(numerator: u64, denominator: u64, r: N) -> bool {
    exists|a: N, b: N|
        is_whole(numerator, a) && is_whole(denominator, b) && #[trigger] is_quotient(a, b, r)
}

/// `r` is what adding up `values`, from zero and from the left, gives.
pub open spec fn is_total<N: Number>(values: Seq<N>, r: N) -> bool
    decreases values.len(),
{
    if values.len() == 0 {
        is_whole(0, r)
    } else {
        exists|before: N|
            is_total(values.drop_last(), before) && #[trigger] is_sum(before, values.last(), r)
    }
}

/// Equal operands give equal results.
pub open spec fn is_deterministic<N: Number>() -> bool {
    &&& forall|n: u64, r: N, s: N| #[trigger] is_whole(n, r) && #[trigger] is_whole(n, s) ==> r == s
    &&& forall|a: N, b: N, r: N, s: N| #[trigger]
        is_sum(a, b, r) && #[trigger] is_sum(a, b, s) ==> r == s
    &&& forall|a: N, b: N, r: N, s: N| #[trigger]
        is_difference(a, b, r) && #[trigger] is_difference(a, b, s) ==> r == s
    &&& forall|a: N, b: N, r: N, s: N| #[trigger]
        is_product(a, b, r) && #[trigger] is_product(a, b, s) ==> r == s
    &&& forall|a: N, b: N, r: N, s: N| #[trigger]
        is_quotient(a, b, r) && #[trigger] is_quotient(a, b, s) ==> r == s
    &&& forall|a: N, r: N, s: N| #[trigger] is_root(a, r) && #[trigger] is_root(a, s) ==> r == s
    &&& forall|a: N, r: N, s: N| #[trigger] is_log(a, r) && #[trigger] is_log(a, s) ==> r == s
    &&& forall|a: N, r: N, s: N| #[trigger]
        is_magnitude(a, r) && #[trigger] is_magnitude(a, s) ==> r == s
    &&& forall|a: N, b: N, r: bool, s: bool| #[trigger]
        compares_reaching(a, b, r) && #[trigger] compares_reaching(a, b, s) ==> r == s
    &&& forall|a: N, b: N, r: bool, s: bool| #[trigger]
        compares_exceeding(a, b, r) && #[trigger] compares_exceeding(a, b, s) ==> r == s
    &&& forall|a: N, r: u64, s: u64| #[trigger]
        is_truncated(a, r) && #[trigger] is_truncated(a, s) ==> r == s
    &&& forall|a: N, decimals: usize, r: Seq<char>, s: Seq<char>| #[trigger]
        is_text(a, decimals, r) && #[trigger] is_text(a, decimals, s) ==> r == s
}

/// The fraction of two whole numbers.
pub(crate) fn fraction<N: Number>(numerator: u64, denominator: u64) -> (r: N)
    ensures
        is_fraction(numerator, denominator, r),
{
    let a = N::from_u64(numerator);
    let b = N::from_u64(denominator);
    let r = a.over(b);
    assert(is_whole(numerator, a) && is_whole(denominator, b) && is_quotient(a, b, r));
    r
}

/// Adds up `values`, from zero and from the left.
pub(crate) fn total<N: Number>(values: &Vec<N>) -> (r: N)
    ensures
        is_total(values@, r),
{
    let mut sum = N::from_u64(0);
    assert(values@.take(0) =~= Seq::<N>::empty());
    for i in 0..values.len()
        invariant
            is_total(values@.take(i as int), sum),
    {
        let next = sum.plus(values[i]);
        proof {
            let shorter = values@.take(i as int);
            let longer = values@.take(i + 1);
            assert(longer.drop_last() =~= shorter);
            assert(longer.last() == values@[i as int]);
            assert(is_total(longer.drop_last(), sum) && is_sum(sum, longer.last(), next));
        }
        sum = next;
    }
    assert(values@.take(values@.len() as int) =~= values@);
    sum
}

/// The decimal text of `a`.
pub(crate) fn shown<N: Number>(a: N, decimals: usize) -> (text: String)
    ensures
        is_text(a, decimals, text@),
{
    let text = a.text(decimals);
    assert(call_ensures(N::text, (a, decimals), text));
    text
}

/// Each relation is what the operation that it is named after may return.
pub proof fn law_relations_are_the_operations<N: Number>(
    n: u64,
    a: N,
    b: N,
    r: N,
    outcome: bool,
    whole: u64,
    decimals: usize,
    text: String,
    shown: Seq<char>,
)
    ensures
        is_whole(n, r) <==> call_ensures(N::from_u64, (n,), r),
        is_sum(a, b, r) <==> call_ensures(N::plus, (a, b), r),
        is_difference(a, b, r) <==> call_ensures(N::minus, (a, b), r),
        is_product(a, b, r) <==> call_ensures(N::times, (a, b), r),
        is_quotient(a, b, r) <==> call_ensures(N::over, (a, b), r),
        is_root(a, r) <==> call_ensures(N::root, (a,), r),
        is_log(a, r) <==> call_ensures(N::log, (a,), r),
        is_magnitude(a, r) <==> call_ensures(N::magnitude, (a,), r),
        compares_reaching(a, b, outcome) <==> call_ensures(N::reaches, (a, b), outcome),
        compares_exceeding(a, b, outcome) <==> call_ensures(N::exceeds, (a, b), outcome),
        is_truncated(a, whole) <==> call_ensures(N::to_u64, (a,), whole),
        call_ensures(N::text, (a, decimals), text) ==> is_text(a, decimals, text@),
        is_text(a, decimals, shown) ==> exists|t: String| #[trigger]
            call_ensures(N::text, (a, decimals), t) && t@ == shown,
{
}

} // verus!
