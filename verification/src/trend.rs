//! The trend of equally spaced measurements: the slope of the line that fits
//! them best.

use crate::exact::{
    add_up, is_exact, lemma_sum_covers, lemma_sum_is_scaled, lemma_sum_of_constant,
    lemma_sum_reversed, lemma_sums_combine, lemma_total_is_exact, values_of,
};
use crate::number::{
    compares_exceeding, fraction, is_difference, is_fraction, is_magnitude, is_product,
    is_quotient, is_total, is_whole, total, Number,
};
use vstd::prelude::*;

verus! {

/// A spread of places below one part in this is taken for none.
pub const FLATNESS: u64 = 100_000_000_000_000;

/// `r` is the mean of the places `0` to `len - 1`: `(len - 1) / 2`.
pub open spec fn is_middle<N: Number>(len: u64, r: N) -> bool {
    exists|size: N, one: N, two: N, top: N|
        is_whole(len, size) && is_whole(1, one) && is_whole(2, two) && #[trigger] is_difference(
            size,
            one,
            top,
        ) && #[trigger] is_quotient(top, two, r)
}

/// `r` is the mean of `values`.
pub open spec fn is_mean<N: Number>(values: Seq<N>, r: N) -> bool {
    exists|size: N, sum: N|
        is_whole(values.len() as u64, size) && is_total(values, sum) && #[trigger] is_quotient(
            sum,
            size,
            r,
        )
}

/// `r` is how far the place `i` lies from `middle`.
pub open spec fn is_offset<N: Number>(i: u64, middle: N, r: N) -> bool {
    exists|place: N| is_whole(i, place) && #[trigger] is_difference(place, middle, r)
}

/// `r` is the product of how far the place `i` lies from `middle` and `value`
/// from `mean`.
pub open spec fn is_moment<N: Number>(i: u64, middle: N, value: N, mean: N, r: N) -> bool {
    exists|across: N, up: N|
        is_offset(i, middle, across) && is_difference(value, mean, up) && #[trigger] is_product(
            across,
            up,
            r,
        )
}

/// `r` is the square of how far the place `i` lies from `middle`.
pub open spec fn is_square_offset<N: Number>(i: u64, middle: N, r: N) -> bool {
    exists|across: N| is_offset(i, middle, across) && #[trigger] is_product(across, across, r)
}

/// `moments` are the moments of `values` about `middle` and `mean`.
pub open spec fn are_moments<N: Number>(
    values: Seq<N>,
    middle: N,
    mean: N,
    moments: Seq<N>,
) -> bool {
    &&& moments.len() == values.len()
    &&& forall|i: int|
        0 <= i < values.len() ==> is_moment(i as u64, middle, values[i], mean, #[trigger] moments[i])
}

/// `squares` are the squared offsets of the places `0` to `len - 1`.
pub open spec fn are_square_offsets<N: Number>(len: nat, middle: N, squares: Seq<N>) -> bool {
    &&& squares.len() == len
    &&& forall|i: int|
        0 <= i < len ==> is_square_offset(i as u64, middle, #[trigger] squares[i])
}

/// `outcome` says whether `spread` is too small to divide by.
pub open spec fn is_flat<N: Number>(spread: N, outcome: bool) -> bool {
    exists|size: N, limit: N|
        is_magnitude(spread, size) && is_fraction(1, FLATNESS, limit)
            && #[trigger] compares_exceeding(limit, size, outcome)
}

/// `r` is the slope of the line that fits the two or more `values` best, where
/// `rise` is the sum of their `moments` and `run` that of the squared offsets.
pub open spec fn is_fitted_slope_by<N: Number>(
    values: Seq<N>,
    middle: N,
    mean: N,
    moments: Seq<N>,
    squares: Seq<N>,
    rise: N,
    run: N,
    r: N,
) -> bool {
    &&& is_middle(values.len() as u64, middle)
    &&& is_mean(values, mean)
    &&& are_moments(values, middle, mean, moments)
    &&& are_square_offsets(values.len(), middle, squares)
    &&& is_total(moments, rise)
    &&& is_total(squares, run)
    &&& is_flat(run, true) && is_whole(0, r) || is_flat(run, false) && is_quotient(rise, run, r)
}

/// `r` is the slope of the line that fits the two or more `values` best: the sum
/// of their moments over the sum of the squared offsets.
pub open spec fn is_fitted_slope<N: Number>(values: Seq<N>, r: N) -> bool {
    exists|middle: N, mean: N, moments: Seq<N>, squares: Seq<N>, rise: N, run: N| #[trigger]
        is_fitted_slope_by(values, middle, mean, moments, squares, rise, run, r)
}

/// `r` is the trend of `values`: the slope of the line that fits them best, and
/// zero for fewer than two.
pub open spec fn is_slope<N: Number>(values: Seq<N>, r: N) -> bool {
    if values.len() < 2 {
        is_whole(0, r)
    } else {
        is_fitted_slope(values, r)
    }
}

fn middle_of<N: Number>(len: u64) -> (r: N)
    ensures
        is_middle(len, r),
{
    let size = N::from_u64(len);
    let one = N::from_u64(1);
    let two = N::from_u64(2);
    let top = size.minus(one);
    let r = top.over(two);
    assert(is_whole(len, size) && is_whole(1, one) && is_whole(2, two) && is_difference(
        size,
        one,
        top,
    ) && is_quotient(top, two, r));
    r
}

fn mean_of<N: Number>(values: &Vec<N>) -> (r: N)
    ensures
        is_mean(values@, r),
{
    let size = N::from_u64(values.len() as u64);
    let sum = total(values);
    let r = sum.over(size);
    assert(is_whole(values@.len() as u64, size) && is_total(values@, sum) && is_quotient(
        sum,
        size,
        r,
    ));
    r
}

fn flat<N: Number>(spread: N) -> (outcome: bool)
    ensures
        is_flat(spread, outcome),
{
    let size = spread.magnitude();
    let limit: N = fraction(1, FLATNESS);
    let outcome = limit.exceeds(size);
    assert(is_magnitude(spread, size) && is_fraction(1, FLATNESS, limit) && compares_exceeding(
        limit,
        size,
        outcome,
    ));
    outcome
}

/// The trend of `values`, which is positive where they grow.
pub fn slope<N: Number>(values: &Vec<N>) -> (r: N)
    ensures
        is_slope(values@, r),
{
    let len = values.len();
    if len < 2 {
        let zero = N::from_u64(0);
        assert(is_whole(0, zero));
        return zero;
    }
    let middle: N = middle_of(len as u64);
    let mean = mean_of(values);
    let mut moments: Vec<N> = Vec::new();
    let mut squares: Vec<N> = Vec::new();
    for i in 0..len
        invariant
            len == values@.len(),
            moments@.len() == i,
            squares@.len() == i,
            forall|j: int|
                0 <= j < i ==> is_moment(
                    j as u64,
                    middle,
                    values@[j],
                    mean,
                    #[trigger] moments@[j],
                ),
            forall|j: int|
                0 <= j < i ==> is_square_offset(j as u64, middle, #[trigger] squares@[j]),
    {
        let place = N::from_u64(i as u64);
        let across = place.minus(middle);
        let up = values[i].minus(mean);
        let moment = across.times(up);
        let square = across.times(across);
        proof {
            assert(is_whole(i as u64, place) && is_difference(place, middle, across));
            assert(is_offset(i as u64, middle, across));
            assert(is_difference(values@[i as int], mean, up) && is_product(across, up, moment));
            assert(is_product(across, across, square));
        }
        moments.push(moment);
        squares.push(square);
    }
    let rise = total(&moments);
    let run = total(&squares);
    assert(are_moments(values@, middle, mean, moments@));
    assert(are_square_offsets(values@.len(), middle, squares@));
    let r = if flat(run) {
        let zero = N::from_u64(0);
        assert(is_whole(0, zero));
        zero
    } else {
        let quotient = rise.over(run);
        assert(is_quotient(rise, run, quotient));
        quotient
    };
    assert(is_fitted_slope_by(values@, middle, mean, moments@, squares@, rise, run, r));
    r
}

/// How far the place `i` of `len` places lies from their mean.
pub open spec fn offset(len: nat, i: int) -> real {
    i as real - (len as real - 1 as real) / 2 as real
}

/// The mean of real numbers.
pub open spec fn average_of(terms: Seq<real>) -> real {
    add_up(terms) / terms.len() as real
}

/// The moments of real numbers about the means of their places and of
/// themselves.
pub open spec fn moments_of(terms: Seq<real>) -> Seq<real> {
    Seq::new(
        terms.len(),
        |i: int| offset(terms.len(), i) * (terms[i] - average_of(terms)),
    )
}

/// The squared offsets of `len` places.
pub open spec fn square_offsets(len: nat) -> Seq<real> {
    Seq::new(len, |i: int| offset(len, i) * offset(len, i))
}

/// The slope of the line that fits two or more real numbers best.
pub open spec fn exact_slope(terms: Seq<real>) -> real {
    add_up(moments_of(terms)) / add_up(square_offsets(terms.len()))
}

proof fn lemma_squares_are_positive(len: nat)
    requires
        len >= 2,
    ensures
        add_up(square_offsets(len)) >= 1 as real / 4 as real,
{
    let squares = square_offsets(len);
    assert forall|i: int| 0 <= i < len implies #[trigger] squares[i] >= 0 as real by {
        let d = offset(len, i);
        assert(d * d >= 0 as real) by (nonlinear_arith);
    }
    lemma_sum_covers(squares, 0);
    let d = offset(len, 0);
    assert(d <= 0 as real - 1 as real / 2 as real);
    assert(d * d >= 1 as real / 4 as real) by (nonlinear_arith)
        requires
            d <= 0 as real - 1 as real / 2 as real,
    ;
    assert(squares[0] == d * d);
}

/// Without rounding, the trend of two or more values is the slope of the line
/// that fits them best.
pub proof fn law_slope_fits_best<N: Number>(value: spec_fn(N) -> real, values: Seq<N>, r: N)
    requires
        is_exact(value),
        2 <= values.len() <= u64::MAX,
        is_slope(values, r),
    ensures
        value(r) == exact_slope(values_of(value, values)),
{
    let len = values.len();
    let terms = values_of(value, values);
    let (middle, mean, moments, squares, rise, run) = choose|
        middle: N,
        mean: N,
        moments: Seq<N>,
        squares: Seq<N>,
        rise: N,
        run: N,
    | #[trigger]
        is_fitted_slope_by(values, middle, mean, moments, squares, rise, run, r);
    assert(value(middle) == (len as real - 1 as real) / 2 as real);
    let (size, sum) = choose|size: N, sum: N|
        is_whole(values.len() as u64, size) && is_total(values, sum) && #[trigger] is_quotient(
            sum,
            size,
            mean,
        );
    lemma_total_is_exact(value, values, sum);
    assert(value(mean) == average_of(terms));
    lemma_total_is_exact(value, moments, rise);
    lemma_total_is_exact(value, squares, run);
    assert forall|i: int| 0 <= i < len implies #[trigger] values_of(value, moments)[i]
        == moments_of(terms)[i] by {
        assert(is_moment(i as u64, middle, values[i], mean, moments[i]));
    }
    assert(values_of(value, moments) =~= moments_of(terms));
    assert forall|i: int| 0 <= i < len implies #[trigger] values_of(value, squares)[i]
        == square_offsets(len)[i] by {
        assert(is_square_offset(i as u64, middle, squares[i]));
    }
    assert(values_of(value, squares) =~= square_offsets(len));
    lemma_squares_are_positive(len);
    if is_flat(run, true) {
        let (size, limit) = choose|size: N, limit: N|
            is_magnitude(run, size) && is_fraction(1, FLATNESS, limit)
                && #[trigger] compares_exceeding(limit, size, true);
        assert(value(limit) == 1 as real / FLATNESS as real);
        assert(1 as real / FLATNESS as real <= 1 as real / 4 as real) by (nonlinear_arith)
            requires
                FLATNESS as real >= 4 as real,
        ;
        assert(value(limit) > value(size));
    }
}

/// Without rounding, adding the same to all values leaves their trend as it is.
pub proof fn law_slope_keeps_under_a_shift<N: Number>(
    value: spec_fn(N) -> real,
    values: Seq<N>,
    r: N,
    shifted: Seq<N>,
    s: N,
    shift: real,
)
    requires
        is_exact(value),
        values.len() == shifted.len(),
        values.len() <= u64::MAX,
        forall|i: int|
            0 <= i < values.len() ==> value(#[trigger] shifted[i]) == value(values[i]) + shift,
        is_slope(values, r),
        is_slope(shifted, s),
    ensures
        value(s) == value(r),
{
    if values.len() >= 2 {
        law_slope_fits_best(value, values, r);
        law_slope_fits_best(value, shifted, s);
        let a = values_of(value, values);
        let b = values_of(value, shifted);
        let constant = Seq::new(a.len(), |i: int| shift);
        assert forall|i: int| 0 <= i < b.len() implies #[trigger] b[i] == a[i] + 1 as real
            * constant[i] by {
            assert(value(shifted[i]) == value(values[i]) + shift);
            assert((1 as real) * shift == shift) by (nonlinear_arith);
        }
        lemma_sums_combine(a, constant, b, 1 as real);
        lemma_sum_of_constant(constant, shift);
        let n = a.len() as real;
        let x = add_up(a);
        assert((x + 1 as real * (n * shift)) / n == x / n + shift) by (nonlinear_arith)
            requires
                n > 0 as real,
        ;
        assert forall|i: int| 0 <= i < a.len() implies #[trigger] moments_of(b)[i] == moments_of(
            a,
        )[i] by {
            assert(b[i] == a[i] + 1 as real * constant[i]);
            assert((1 as real) * shift == shift) by (nonlinear_arith);
        }
        assert(moments_of(b) =~= moments_of(a));
    }
}

/// Without rounding, multiplying all values by the same factor multiplies their
/// trend by it.
pub proof fn law_slope_scales<N: Number>(
    value: spec_fn(N) -> real,
    values: Seq<N>,
    r: N,
    scaled: Seq<N>,
    s: N,
    factor: real,
)
    requires
        is_exact(value),
        values.len() == scaled.len(),
        values.len() <= u64::MAX,
        forall|i: int|
            0 <= i < values.len() ==> value(#[trigger] scaled[i]) == factor * value(values[i]),
        is_slope(values, r),
        is_slope(scaled, s),
    ensures
        value(s) == factor * value(r),
{
    if values.len() >= 2 {
        law_slope_fits_best(value, values, r);
        law_slope_fits_best(value, scaled, s);
        let a = values_of(value, values);
        let b = values_of(value, scaled);
        assert forall|i: int| 0 <= i < b.len() implies #[trigger] b[i] == factor * a[i] by {
            assert(value(scaled[i]) == factor * value(values[i]));
        }
        lemma_sum_is_scaled(a, b, factor);
        let n = a.len() as real;
        let x = add_up(a);
        let mean = average_of(a);
        assert((factor * x) / n == factor * (x / n)) by (nonlinear_arith)
            requires
                n > 0 as real,
        ;
        assert forall|i: int| 0 <= i < a.len() implies #[trigger] moments_of(b)[i] == factor
            * moments_of(a)[i] by {
            let d = offset(a.len(), i);
            let y = a[i];
            assert(b[i] == factor * y);
            assert(d * (factor * y - factor * mean) == factor * (d * (y - mean)))
                by (nonlinear_arith);
        }
        lemma_sum_is_scaled(moments_of(a), moments_of(b), factor);
        lemma_squares_are_positive(a.len());
        let rise = add_up(moments_of(a));
        let run = add_up(square_offsets(a.len()));
        assert((factor * rise) / run == factor * (rise / run)) by (nonlinear_arith)
            requires
                run > 0 as real,
        ;
    } else {
        assert(is_whole(0, r) && is_whole(0, s));
        assert(factor * (0 as real) == 0 as real) by (nonlinear_arith);
    }
}

proof fn lemma_reversed_moments(a: Seq<real>)
    requires
        a.len() > 0,
    ensures
        add_up(moments_of(a.reverse())) == 0 as real - add_up(moments_of(a)),
        average_of(a.reverse()) == average_of(a),
{
    let b = a.reverse();
    lemma_sum_reversed(a);
    let back = moments_of(a).reverse();
    let minus = 0 as real - 1 as real;
    assert forall|i: int| 0 <= i < a.len() implies #[trigger] moments_of(b)[i] == minus
        * back[i] by {
        let j = a.len() - 1 - i;
        let d = offset(a.len(), i);
        let e = offset(a.len(), j);
        let y = a[j] - average_of(a);
        assert(d == 0 as real - e);
        assert((0 as real - e) * y == (0 as real - 1 as real) * (e * y)) by (nonlinear_arith);
        assert(back[i] == e * y);
    }
    lemma_sum_is_scaled(back, moments_of(b), minus);
    lemma_sum_reversed(moments_of(a));
    let x = add_up(moments_of(a));
    assert((0 as real - 1 as real) * x == 0 as real - x) by (nonlinear_arith);
}

/// Without rounding, the trend of values in reverse order is the opposite of
/// their trend.
pub proof fn law_slope_turns_under_reversal<N: Number>(
    value: spec_fn(N) -> real,
    values: Seq<N>,
    r: N,
    reversed: Seq<N>,
    s: N,
)
    requires
        is_exact(value),
        values.len() <= u64::MAX,
        reversed == values.reverse(),
        is_slope(values, r),
        is_slope(reversed, s),
    ensures
        value(s) == 0 as real - value(r),
{
    if values.len() >= 2 {
        law_slope_fits_best(value, values, r);
        law_slope_fits_best(value, reversed, s);
        let a = values_of(value, values);
        assert(values_of(value, reversed) =~= a.reverse());
        lemma_reversed_moments(a);
        lemma_squares_are_positive(a.len());
        let rise = add_up(moments_of(a));
        let run = add_up(square_offsets(a.len()));
        assert((0 as real - rise) / run == 0 as real - rise / run) by (nonlinear_arith)
            requires
                run > 0 as real,
        ;
    } else {
        assert(is_whole(0, r) && is_whole(0, s));
    }
}

/// Without rounding, the trend of values of which each is larger than the one
/// before is positive.
pub proof fn law_slope_of_growth_is_positive<N: Number>(
    value: spec_fn(N) -> real,
    values: Seq<N>,
    r: N,
)
    requires
        is_exact(value),
        2 <= values.len() <= u64::MAX,
        forall|i: int, j: int|
            0 <= i < j < values.len() ==> value(#[trigger] values[i]) < value(#[trigger] values[j]),
        is_slope(values, r),
    ensures
        value(r) > 0 as real,
{
    law_slope_fits_best(value, values, r);
    let a = values_of(value, values);
    let n = a.len();
    let b = a.reverse();
    lemma_reversed_moments(a);
    let twice = Seq::new(n, |i: int| offset(n, i) * (a[i] - b[i]));
    let minus = 0 as real - 1 as real;
    assert forall|i: int| 0 <= i < n implies #[trigger] twice[i] == moments_of(a)[i] + minus
        * moments_of(b)[i] by {
        let d = offset(n, i);
        let x = a[i];
        let y = b[i];
        let m = average_of(a);
        assert(d * (x - y) == d * (x - m) + (0 as real - 1 as real) * (d * (y - m)))
            by (nonlinear_arith);
    }
    lemma_sums_combine(moments_of(a), moments_of(b), twice, minus);
    let rise = add_up(moments_of(a));
    assert((0 as real - 1 as real) * (0 as real - rise) == rise) by (nonlinear_arith);
    assert forall|i: int| 0 <= i < n implies #[trigger] twice[i] >= 0 as real && (i == 0
        ==> twice[i] > 0 as real) by {
        let j = n - 1 - i;
        let d = offset(n, i);
        let gap = a[i] - b[i];
        assert(b[i] == a[j]);
        if i < j {
            assert(value(values[i]) < value(values[j]));
            assert(d < 0 as real);
            assert(d * gap > 0 as real) by (nonlinear_arith)
                requires
                    d < 0 as real,
                    gap < 0 as real,
            ;
        } else if j < i {
            assert(value(values[j]) < value(values[i]));
            assert(d > 0 as real);
            assert(d * gap > 0 as real) by (nonlinear_arith)
                requires
                    d > 0 as real,
                    gap > 0 as real,
            ;
        } else {
            assert(d * gap >= 0 as real) by (nonlinear_arith)
                requires
                    gap == 0 as real,
            ;
        }
    }
    assert(twice[0] > 0 as real);
    lemma_sum_covers(twice, 0);
    lemma_squares_are_positive(n);
    let run = add_up(square_offsets(n));
    assert(rise / run > 0 as real) by (nonlinear_arith)
        requires
            rise > 0 as real,
            run > 0 as real,
    ;
}

proof fn lemma_offsets_cancel(len: nat)
    requires
        len > 0,
    ensures
        add_up(Seq::new(len, |i: int| offset(len, i))) == 0 as real,
{
    let offsets = Seq::new(len, |i: int| offset(len, i));
    let back = offsets.reverse();
    let minus = 0 as real - 1 as real;
    assert forall|i: int| 0 <= i < len implies #[trigger] back[i] == minus * offsets[i] by {
        let d = offset(len, i);
        assert((0 as real - 1 as real) * d == 0 as real - d) by (nonlinear_arith);
        assert(back[i] == offset(len, len - 1 - i));
    }
    lemma_sum_is_scaled(offsets, back, minus);
    lemma_sum_reversed(offsets);
    let x = add_up(offsets);
    assert((0 as real - 1 as real) * x == 0 as real - x) by (nonlinear_arith);
}

/// Without rounding, the trend of two or more values solves the equation of the
/// line that fits them best: with each place taken from the mean of the places,
/// the trend times the sum of the squared places is the sum of the places times
/// the values. Fewer than two values have the trend zero.
pub proof fn law_slope_solves_least_squares<N: Number>(
    value: spec_fn(N) -> real,
    values: Seq<N>,
    r: N,
)
    requires
        is_exact(value),
        values.len() <= u64::MAX,
        is_slope(values, r),
    ensures
        values.len() < 2 ==> value(r) == 0 as real,
        values.len() >= 2 ==> ({
            let middle = (values.len() as real - 1 as real) / 2 as real;
            value(r) * add_up(
                Seq::new(
                    values.len(),
                    |i: int| (i as real - middle) * (i as real - middle),
                ),
            ) == add_up(
                Seq::new(values.len(), |i: int| (i as real - middle) * value(values[i])),
            )
        }),
        values.len() >= 2 ==> ({
            let middle = (values.len() as real - 1 as real) / 2 as real;
            add_up(
                Seq::new(
                    values.len(),
                    |i: int| (i as real - middle) * (i as real - middle),
                ),
            ) > 0 as real
        }),
{
    let n = values.len();
    if n < 2 {
        assert(is_whole(0, r));
    } else {
        let middle = (n as real - 1 as real) / 2 as real;
        let a = values_of(value, values);
        law_slope_fits_best(value, values, r);
        lemma_squares_are_positive(n);
        lemma_offsets_cancel(n);
        let squares = Seq::new(n, |i: int| (i as real - middle) * (i as real - middle));
        assert(squares =~= square_offsets(n));
        let products = Seq::new(n, |i: int| (i as real - middle) * value(values[i]));
        let offsets = Seq::new(n, |i: int| offset(n, i));
        let mean = average_of(a);
        let s = 0 as real - mean;
        assert forall|i: int| 0 <= i < n implies #[trigger] moments_of(a)[i] == products[i] + s
            * offsets[i] by {
            let d = offset(n, i);
            let y = a[i];
            assert(d * (y - mean) == d * y + (0 as real - mean) * d) by (nonlinear_arith);
        }
        lemma_sums_combine(products, offsets, moments_of(a), s);
        assert(s * (0 as real) == 0 as real) by (nonlinear_arith);
        let rise = add_up(products);
        let run = add_up(squares);
        assert((rise / run) * run == rise) by (nonlinear_arith)
            requires
                run > 0 as real,
        ;
    }
}

/// Without rounding, the trend of two or more values on a line is its slope.
pub proof fn law_slope_of_a_line<N: Number>(
    value: spec_fn(N) -> real,
    values: Seq<N>,
    r: N,
    start: real,
    step: real,
)
    requires
        is_exact(value),
        2 <= values.len() <= u64::MAX,
        forall|i: int|
            0 <= i < values.len() ==> value(#[trigger] values[i]) == start + step * i as real,
        is_slope(values, r),
    ensures
        value(r) == step,
{
    let n = values.len();
    let middle = (n as real - 1 as real) / 2 as real;
    law_slope_solves_least_squares(value, values, r);
    lemma_offsets_cancel(n);
    let squares = Seq::new(n, |i: int| (i as real - middle) * (i as real - middle));
    let products = Seq::new(n, |i: int| (i as real - middle) * value(values[i]));
    let offsets = Seq::new(n, |i: int| offset(n, i));
    let lifted = Seq::new(n, |i: int| (start + step * middle) * offsets[i]);
    let level = start + step * middle;
    lemma_sum_is_scaled(offsets, lifted, level);
    assert(level * (0 as real) == 0 as real) by (nonlinear_arith);
    assert forall|i: int| 0 <= i < n implies #[trigger] products[i] == lifted[i] + step
        * squares[i] by {
        let d = i as real - middle;
        let x = i as real;
        assert(value(values[i]) == start + step * i as real);
        assert(d * (start + step * x) == (start + step * middle) * d + step * (d * d))
            by (nonlinear_arith)
            requires
                d == x - middle,
        ;
    }
    lemma_sums_combine(lifted, squares, products, step);
    let run = add_up(squares);
    let slope = value(r);
    assert(slope == step) by (nonlinear_arith)
        requires
            slope * run == step * run,
            run > 0 as real,
    ;
}

} // verus!
