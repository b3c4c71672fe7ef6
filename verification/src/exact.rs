//! Arithmetic without rounding, as a premise of laws.
//!
//! Where every number stands for a real number and the operations compute as
//! the operations on real numbers do, the forecasts have the properties that
//! their formulas have. A number type that rounds has them up to rounding.

use crate::number::{
    compares_exceeding, compares_reaching, is_difference, is_log, is_magnitude, is_product,
    is_quotient, is_root, is_sum, is_total, is_truncated, is_whole, Number,
};
use vstd::prelude::*;

verus! {

/// The absolute value of a real number.
pub open spec fn size_of(x: real) -> real {
    if x < 0 as real {
        0 as real - x
    } else {
        x
    }
}

/// Comparisons of numbers for which `proper` holds go by the real numbers that
/// `value` gives them. Of doubles this holds with all but those that are no
/// number, since no comparison is rounded.
pub open spec fn orders<N: Number>(
    value: spec_fn(N) -> real,
    proper: spec_fn(N) -> bool,
) -> bool {
    &&& forall|a: N, b: N, outcome: bool| #[trigger]
        compares_reaching(a, b, outcome) && proper(a) && proper(b) ==> outcome == (value(a)
            >= value(b))
    &&& forall|a: N, b: N, outcome: bool| #[trigger]
        compares_exceeding(a, b, outcome) && proper(a) && proper(b) ==> outcome == (value(a)
            > value(b))
}

/// Each number stands for the real number `value` of it, and operations and
/// comparisons are those of real numbers. Of the logarithm it is only said that
/// `ln(x)` lies above `1 - 1 / x`, and meets it at one alone.
pub open spec fn is_exact<N: Number>(value: spec_fn(N) -> real) -> bool {
    &&& forall|n: u64, r: N| #[trigger] is_whole(n, r) ==> value(r) == n as real
    &&& forall|a: N, b: N, r: N| #[trigger] is_sum(a, b, r) ==> value(r) == value(a) + value(b)
    &&& forall|a: N, b: N, r: N| #[trigger]
        is_difference(a, b, r) ==> value(r) == value(a) - value(b)
    &&& forall|a: N, b: N, r: N| #[trigger] is_product(a, b, r) ==> value(r) == value(a) * value(b)
    &&& forall|a: N, b: N, r: N| #[trigger]
        is_quotient(a, b, r) && value(b) != 0 as real ==> value(r) == value(a) / value(b)
    &&& forall|a: N, r: N| #[trigger]
        is_root(a, r) && value(a) >= 0 as real ==> value(r) >= 0 as real && value(r) * value(r)
            == value(a)
    &&& forall|a: N, r: N| #[trigger]
        is_log(a, r) && value(a) > 0 as real ==> {
            let bound = 1 as real - 1 as real / value(a);
            value(r) >= bound && (value(r) == bound <==> value(a) == 1 as real)
        }
    &&& forall|a: N, r: N| #[trigger] is_magnitude(a, r) ==> value(r) == size_of(value(a))
    &&& forall|a: N, r: u64| #[trigger]
        is_truncated(a, r) ==> if value(a) < 0 as real {
            r == 0
        } else if value(a) > u64::MAX as real {
            r == u64::MAX
        } else {
            r as real <= value(a) && value(a) < r as real + 1 as real
        }
    &&& orders(value, |a: N| true)
}

/// The real numbers that `numbers` stand for.
pub open spec fn values_of<N>(value: spec_fn(N) -> real, numbers: Seq<N>) -> Seq<real> {
    Seq::new(numbers.len(), |i: int| value(numbers[i]))
}

/// The sum of real numbers.
pub open spec fn add_up(terms: Seq<real>) -> real
    decreases terms.len(),
{
    if terms.len() == 0 {
        0 as real
    } else {
        add_up(terms.drop_last()) + terms.last()
    }
}

/// `numbers` stand for probabilities that sum to one.
pub open spec fn is_distribution<N>(value: spec_fn(N) -> real, numbers: Seq<N>) -> bool {
    &&& forall|i: int| 0 <= i < numbers.len() ==> value(#[trigger] numbers[i]) >= 0 as real
    &&& add_up(values_of(value, numbers)) == 1 as real
}

/// Two lists of numbers stand for the same real numbers.
pub open spec fn are_same<N>(value: spec_fn(N) -> real, a: Seq<N>, b: Seq<N>) -> bool {
    &&& a.len() == b.len()
    &&& forall|i: int|
        0 <= i < a.len() ==> value(#[trigger] a[i]) == value(#[trigger] b[i])
}

pub(crate) proof fn lemma_total_is_exact<N: Number>(
    value: spec_fn(N) -> real,
    numbers: Seq<N>,
    r: N,
)
    requires
        is_exact(value),
        is_total(numbers, r),
    ensures
        value(r) == add_up(values_of(value, numbers)),
    decreases numbers.len(),
{
    if numbers.len() > 0 {
        let before = choose|before: N|
            is_total(numbers.drop_last(), before) && #[trigger] is_sum(before, numbers.last(), r);
        lemma_total_is_exact(value, numbers.drop_last(), before);
        assert(values_of(value, numbers).drop_last() =~= values_of(value, numbers.drop_last()));
    } else {
        assert(is_whole(0, r));
    }
}

pub(crate) proof fn lemma_sums_combine(a: Seq<real>, b: Seq<real>, c: Seq<real>, s: real)
    requires
        a.len() == c.len(),
        b.len() == c.len(),
        forall|i: int| 0 <= i < c.len() ==> #[trigger] c[i] == a[i] + s * b[i],
    ensures
        add_up(c) == add_up(a) + s * add_up(b),
    decreases c.len(),
{
    if c.len() > 0 {
        assert forall|i: int| 0 <= i < c.len() - 1 implies #[trigger] c.drop_last()[i]
            == a.drop_last()[i] + s * b.drop_last()[i] by {
            assert(c[i] == a[i] + s * b[i]);
        }
        lemma_sums_combine(a.drop_last(), b.drop_last(), c.drop_last(), s);
        let x = add_up(b.drop_last());
        let y = b.last();
        assert(s * (x + y) == s * x + s * y) by (nonlinear_arith);
        assert(c.last() == a.last() + s * b.last());
    } else {
        assert(s * (0 as real) == 0 as real) by (nonlinear_arith);
    }
}

pub(crate) proof fn lemma_sum_is_scaled(a: Seq<real>, c: Seq<real>, s: real)
    requires
        a.len() == c.len(),
        forall|i: int| 0 <= i < c.len() ==> #[trigger] c[i] == s * a[i],
    ensures
        add_up(c) == s * add_up(a),
    decreases c.len(),
{
    if c.len() > 0 {
        assert forall|i: int| 0 <= i < c.len() - 1 implies #[trigger] c.drop_last()[i] == s
            * a.drop_last()[i] by {
            assert(c[i] == s * a[i]);
        }
        lemma_sum_is_scaled(a.drop_last(), c.drop_last(), s);
        let x = add_up(a.drop_last());
        let y = a.last();
        assert(s * (x + y) == s * x + s * y) by (nonlinear_arith);
        assert(c.last() == s * a.last());
    } else {
        assert(s * (0 as real) == 0 as real) by (nonlinear_arith);
    }
}

pub(crate) proof fn lemma_sum_of_constant(a: Seq<real>, c: real)
    requires
        forall|i: int| 0 <= i < a.len() ==> #[trigger] a[i] == c,
    ensures
        add_up(a) == a.len() as real * c,
    decreases a.len(),
{
    if a.len() > 0 {
        lemma_sum_of_constant(a.drop_last(), c);
        let before = (a.len() - 1) as real;
        let after = a.len() as real;
        assert(after * c == before * c + c) by (nonlinear_arith)
            requires
                after == before + 1 as real,
        ;
        assert(a.last() == c);
    } else {
        assert((0 as real) * c == 0 as real) by (nonlinear_arith);
    }
}

/// The sum of numbers that are not negative is at least each of them.
pub(crate) proof fn lemma_sum_covers(a: Seq<real>, i: int)
    requires
        forall|j: int| 0 <= j < a.len() ==> #[trigger] a[j] >= 0 as real,
    ensures
        add_up(a) >= 0 as real,
        0 <= i < a.len() ==> add_up(a) >= a[i],
    decreases a.len(),
{
    if a.len() > 0 {
        assert forall|j: int| 0 <= j < a.len() - 1 implies #[trigger] a.drop_last()[j]
            >= 0 as real by {
            assert(a[j] >= 0 as real);
        }
        lemma_sum_covers(a.drop_last(), i);
        assert(a.last() >= 0 as real);
    }
}

pub(crate) proof fn lemma_sum_is_bounded(a: Seq<real>, bound: real)
    requires
        forall|j: int| 0 <= j < a.len() ==> #[trigger] a[j] <= bound,
    ensures
        add_up(a) <= a.len() as real * bound,
    decreases a.len(),
{
    if a.len() > 0 {
        assert forall|j: int| 0 <= j < a.len() - 1 implies #[trigger] a.drop_last()[j] <= bound by {
            assert(a[j] <= bound);
        }
        lemma_sum_is_bounded(a.drop_last(), bound);
        let before = (a.len() - 1) as real;
        let after = a.len() as real;
        assert(after * bound == before * bound + bound) by (nonlinear_arith)
            requires
                after == before + 1 as real,
        ;
        assert(a.last() <= bound);
    } else {
        assert((0 as real) * bound == 0 as real) by (nonlinear_arith);
    }
}

pub(crate) proof fn lemma_sum_splits_first(a: Seq<real>)
    requires
        a.len() > 0,
    ensures
        add_up(a) == a.first() + add_up(a.drop_first()),
    decreases a.len(),
{
    if a.len() > 1 {
        lemma_sum_splits_first(a.drop_last());
        assert(a.drop_last().drop_first() =~= a.drop_first().drop_last());
    } else {
        assert(a.drop_first() =~= Seq::<real>::empty());
        assert(a.drop_last() =~= Seq::<real>::empty());
    }
}

pub(crate) proof fn lemma_sum_reversed(a: Seq<real>)
    ensures
        add_up(a.reverse()) == add_up(a),
    decreases a.len(),
{
    if a.len() > 0 {
        lemma_sum_reversed(a.drop_last());
        assert(a.reverse().drop_first() =~= a.drop_last().reverse());
        lemma_sum_splits_first(a.reverse());
    } else {
        assert(a.reverse() =~= a);
    }
}

/// A sum grows by each term that is added to it, from zero, and the size of a
/// number is the number or its opposite, whichever is not negative.
pub proof fn law_sums_and_sizes(terms: Seq<real>, term: real, x: real)
    ensures
        add_up(Seq::<real>::empty()) == 0 as real,
        add_up(terms.push(term)) == add_up(terms) + term,
        size_of(x) >= 0 as real,
        size_of(x) == x || size_of(x) + x == 0 as real,
{
    assert(terms.push(term).drop_last() =~= terms);
}

/// The real numbers that a list of numbers stands for, one for each.
pub proof fn law_values_stand_for_numbers<N>(value: spec_fn(N) -> real, numbers: Seq<N>, i: int)
    ensures
        values_of(value, numbers).len() == numbers.len(),
        0 <= i < numbers.len() ==> values_of(value, numbers)[i] == value(numbers[i]),
{
}

/// Logarithms are values of the one function `ln` of real numbers.
pub open spec fn logs_by<N: Number>(
    value: spec_fn(N) -> real,
    ln: spec_fn(real) -> real,
) -> bool {
    forall|a: N, r: N| #[trigger]
        is_log(a, r) && value(a) > 0 as real ==> value(r) == ln(value(a))
}

/// Without rounding, what numbers are added up to is the sum of what they stand
/// for.
pub proof fn law_total_is_the_sum<N: Number>(
    value: spec_fn(N) -> real,
    numbers: Seq<N>,
    r: N,
)
    requires
        is_exact(value),
        is_total(numbers, r),
    ensures
        value(r) == add_up(Seq::new(numbers.len(), |i: int| value(numbers[i]))),
{
    lemma_total_is_exact(value, numbers, r);
    assert(values_of(value, numbers) =~= Seq::new(numbers.len(), |i: int| value(numbers[i])));
}

} // verus!
