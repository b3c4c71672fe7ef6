//! Exponential moving averages.

use crate::exact::is_exact;
use crate::number::{is_difference, is_product, is_sum, is_whole, Number};
use vstd::prelude::*;

verus! {

/// `r` is the part of `before` that an average with the weight `alpha` keeps:
/// `(1 - alpha) * before`.
pub open spec fn is_kept<N: Number>(alpha: N, before: N, r: N) -> bool {
    exists|one: N, rest: N|
        is_whole(1, one) && #[trigger] is_difference(one, alpha, rest) && #[trigger] is_product(
            rest,
            before,
            r,
        )
}

/// `r` is the average `before` moved towards `x`:
/// `alpha * x + (1 - alpha) * before`.
pub open spec fn is_moved<N: Number>(alpha: N, x: u64, before: N, r: N) -> bool {
    exists|value: N, fresh: N, kept: N|
        is_whole(x, value) && #[trigger] is_product(alpha, value, fresh) && is_kept(
            alpha,
            before,
            kept,
        ) && #[trigger] is_sum(fresh, kept, r)
}

/// `r` is the variance `before` moved towards the squared deviation of `x` from
/// `mean`: `alpha * (x - mean) * (x - mean) + (1 - alpha) * before`.
pub open spec fn is_moved_variance<N: Number>(
    alpha: N,
    x: u64,
    mean: N,
    before: N,
    r: N,
) -> bool {
    exists|value: N, deviation: N, scaled: N, fresh: N, kept: N|
        is_whole(x, value) && #[trigger] is_difference(value, mean, deviation)
            && #[trigger] is_product(alpha, deviation, scaled) && #[trigger] is_product(
            scaled,
            deviation,
            fresh,
        ) && is_kept(alpha, before, kept) && #[trigger] is_sum(fresh, kept, r)
}

/// Without rounding, a moved average is `alpha * x + (1 - alpha) * before`, which
/// for a weight between zero and one lies between `before` and `x`. The weight
/// one gives `x`, and the weight zero keeps `before`.
pub proof fn law_moved_lies_between<N: Number>(
    value: spec_fn(N) -> real,
    alpha: N,
    x: u64,
    before: N,
    r: N,
)
    requires
        is_exact(value),
        value(alpha) >= 0 as real,
        value(alpha) <= 1 as real,
        is_moved(alpha, x, before, r),
    ensures
        value(r) == value(alpha) * x as real + (1 as real - value(alpha)) * value(before),
        x as real <= value(before) ==> x as real <= value(r) <= value(before),
        x as real >= value(before) ==> x as real >= value(r) >= value(before),
        value(alpha) == 1 as real ==> value(r) == x as real,
        value(alpha) == 0 as real ==> value(r) == value(before),
{
    let (fresh, kept) = choose|fresh: N, kept: N|
        (exists|whole: N| is_whole(x, whole) && #[trigger] is_product(alpha, whole, fresh))
            && is_kept(alpha, before, kept) && #[trigger] is_sum(fresh, kept, r);
    let a = value(alpha);
    let b = value(before);
    let c = x as real;
    assert(b <= c ==> b <= a * c + (1 as real - a) * b <= c) by (nonlinear_arith)
        requires
            a >= 0 as real,
            a <= 1 as real,
    ;
    assert(c <= b ==> c <= a * c + (1 as real - a) * b <= b) by (nonlinear_arith)
        requires
            a >= 0 as real,
            a <= 1 as real,
    ;
    assert((1 as real) * c + (1 as real - 1 as real) * b == c) by (nonlinear_arith);
    assert((0 as real) * c + (1 as real - 0 as real) * b == b) by (nonlinear_arith);
}

/// Without rounding, a moved variance is not negative if it was not before. The
/// weight one gives the squared deviation, and the weight zero keeps `before`.
pub proof fn law_variance_is_not_negative<N: Number>(
    value: spec_fn(N) -> real,
    alpha: N,
    x: u64,
    mean: N,
    before: N,
    r: N,
)
    requires
        is_exact(value),
        value(alpha) >= 0 as real,
        value(alpha) <= 1 as real,
        value(before) >= 0 as real,
        is_moved_variance(alpha, x, mean, before, r),
    ensures
        value(r) >= 0 as real,
        value(alpha) == 1 as real ==> value(r) == (x as real - value(mean)) * (x as real - value(
            mean,
        )),
        value(alpha) == 0 as real ==> value(r) == value(before),
{
    let a = value(alpha);
    let b = value(before);
    let d = x as real - value(mean);
    assert(value(r) == a * d * d + (1 as real - a) * b);
    assert(a * d * d + (1 as real - a) * b >= 0 as real) by (nonlinear_arith)
        requires
            a >= 0 as real,
            a <= 1 as real,
            b >= 0 as real,
    ;
    assert((1 as real) * d * d + (1 as real - 1 as real) * b == d * d) by (nonlinear_arith);
    assert((0 as real) * d * d + (1 as real - 0 as real) * b == b) by (nonlinear_arith);
}

fn kept_part<N: Number>(alpha: N, before: N) -> (r: N)
    ensures
        is_kept(alpha, before, r),
{
    let one = N::from_u64(1);
    let rest = one.minus(alpha);
    let r = rest.times(before);
    assert(is_whole(1, one) && is_difference(one, alpha, rest) && is_product(rest, before, r));
    r
}

/// The average `before`, moved towards `x`.
pub fn moved<N: Number>(alpha: N, x: u64, before: N) -> (r: N)
    ensures
        is_moved(alpha, x, before, r),
{
    let value = N::from_u64(x);
    let fresh = alpha.times(value);
    let kept = kept_part(alpha, before);
    let r = fresh.plus(kept);
    assert(is_whole(x, value) && is_product(alpha, value, fresh) && is_sum(fresh, kept, r));
    r
}

/// The variance `before`, moved towards the squared deviation of `x` from
/// `mean`.
pub fn moved_variance<N: Number>(alpha: N, x: u64, mean: N, before: N) -> (r: N)
    ensures
        is_moved_variance(alpha, x, mean, before, r),
{
    let value = N::from_u64(x);
    let deviation = value.minus(mean);
    let scaled = alpha.times(deviation);
    let fresh = scaled.times(deviation);
    let kept = kept_part(alpha, before);
    let r = fresh.plus(kept);
    assert(is_whole(x, value) && is_difference(value, mean, deviation) && is_product(
        alpha,
        deviation,
        scaled,
    ) && is_product(scaled, deviation, fresh) && is_sum(fresh, kept, r));
    r
}

/// Without rounding, and whatever the weight, a moved average is
/// `alpha * x + (1 - alpha) * before`.
pub proof fn law_moved_is_the_weighted_mean<N: Number>(
    value: spec_fn(N) -> real,
    alpha: N,
    x: u64,
    before: N,
    r: N,
)
    requires
        is_exact(value),
        is_moved(alpha, x, before, r),
    ensures
        value(r) == value(alpha) * x as real + (1 as real - value(alpha)) * value(before),
{
}

/// Without rounding, and whatever the weight, a moved variance is the weighted
/// mean of the squared deviation and the variance before.
pub proof fn law_moved_variance_is_the_weighted_mean<N: Number>(
    value: spec_fn(N) -> real,
    alpha: N,
    x: u64,
    mean: N,
    before: N,
    r: N,
)
    requires
        is_exact(value),
        is_moved_variance(alpha, x, mean, before, r),
    ensures
        ({
            let deviation = x as real - value(mean);
            value(r) == value(alpha) * deviation * deviation + (1 as real - value(alpha)) * value(
                before,
            )
        }),
{
}

} // verus!
