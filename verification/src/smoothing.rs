//! Laplace smoothing: turning the transition counts out of a state into
//! probabilities, none of them zero.

use crate::exact::{
    add_up, is_distribution, is_exact, lemma_sum_is_scaled, lemma_total_is_exact, values_of,
};
use crate::model::{keys_of, sum_of};
use crate::number::{is_quotient, is_product, is_sum, is_total, is_whole, total, Number};
use crate::ranking::{is_ranking, outranks};
use vstd::prelude::*;

verus! {

/// The smoothed probability of the step to `j` is this over
/// [`share_denominator`]: its count, raised by one.
pub open spec fn share_numerator(counts: Seq<u64>, j: int) -> nat {
    (counts[j] + 1) as nat
}

/// The sum of all counts, each raised by one.
pub open spec fn share_denominator(counts: Seq<u64>) -> nat {
    sum_of(counts) + counts.len()
}

/// The sum of the numerators of the first `len` steps.
pub open spec fn share_sum(counts: Seq<u64>, len: nat) -> nat
    decreases len,
{
    if len == 0 {
        0
    } else {
        share_sum(counts, (len - 1) as nat) + share_numerator(counts, len - 1)
    }
}

proof fn lemma_share_sum(counts: Seq<u64>, len: nat)
    requires
        len <= counts.len(),
    ensures
        share_sum(counts, len) == sum_of(counts.take(len as int)) + len,
    decreases len,
{
    if len > 0 {
        lemma_share_sum(counts, (len - 1) as nat);
        assert(counts.take(len as int).drop_last() =~= counts.take(len - 1));
    } else {
        assert(counts.take(0) =~= Seq::<u64>::empty());
    }
}

proof fn lemma_share_within(counts: Seq<u64>, len: nat, j: int)
    requires
        0 <= j < len <= counts.len(),
    ensures
        share_numerator(counts, j) <= share_sum(counts, len),
    decreases len,
{
    if j < len - 1 {
        lemma_share_within(counts, (len - 1) as nat, j);
    }
}

/// The smoothed probabilities out of a state sum to one.
pub proof fn law_shares_sum_to_one(counts: Seq<u64>)
    ensures
        share_sum(counts, counts.len()) == share_denominator(counts),
{
    lemma_share_sum(counts, counts.len());
    assert(counts.take(counts.len() as int) =~= counts);
}

/// Every smoothed probability is above zero and at most one.
pub proof fn law_shares_are_positive(counts: Seq<u64>, j: int)
    requires
        0 <= j < counts.len(),
    ensures
        0 < share_numerator(counts, j) <= share_denominator(counts),
{
    law_shares_sum_to_one(counts);
    lemma_share_within(counts, counts.len(), j);
}

/// A ranking by counts is one by smoothed probabilities: of two states, the
/// earlier one has a probability that is not smaller.
pub proof fn law_ranking_descends_in_probability(
    counts: Seq<u64>,
    order: Seq<usize>,
    earlier: int,
    later: int,
)
    requires
        is_ranking(keys_of(counts), order),
        0 <= earlier < later < order.len(),
    ensures
        share_numerator(counts, order[earlier] as int) >= share_numerator(
            counts,
            order[later] as int,
        ),
{
    assert(outranks(keys_of(counts), order[earlier] as int, order[later] as int));
}

/// `r` is the share `(count + 1) / denominator`.
pub open spec fn is_share<N: Number>(count: u64, denominator: N, r: N) -> bool {
    exists|counted: N, one: N, numerator: N|
        is_whole(count, counted) && is_whole(1, one) && #[trigger] is_sum(counted, one, numerator)
            && #[trigger] is_quotient(numerator, denominator, r)
}

/// `values` stand for the whole numbers `counts`.
pub open spec fn are_wholes<N: Number>(counts: Seq<u64>, values: Seq<N>) -> bool {
    &&& values.len() == counts.len()
    &&& forall|j: int| 0 <= j < counts.len() ==> is_whole(counts[j], #[trigger] values[j])
}

/// `r` is the sum of `counts`, each raised by one: the `sum` of the `values` that
/// stand for them, and a `raise` by their number.
pub open spec fn is_smoothed_total_by<N: Number>(
    counts: Seq<u64>,
    values: Seq<N>,
    sum: N,
    one: N,
    size: N,
    raise: N,
    r: N,
) -> bool {
    &&& are_wholes(counts, values)
    &&& is_total(values, sum)
    &&& is_whole(1, one)
    &&& is_whole(counts.len() as u64, size)
    &&& is_product(one, size, raise)
    &&& is_sum(sum, raise, r)
}

/// `r` is the sum of `counts`, each raised by one.
pub open spec fn is_smoothed_total<N: Number>(counts: Seq<u64>, r: N) -> bool {
    exists|values: Seq<N>, sum: N, one: N, size: N, raise: N| #[trigger]
        is_smoothed_total_by(counts, values, sum, one, size, raise, r)
}

/// `row` holds the smoothed probabilities of `counts`: each count raised by
/// one, over the sum of all of them.
pub open spec fn is_smoothed<N: Number>(counts: Seq<u64>, row: Seq<N>) -> bool {
    &&& row.len() == counts.len()
    &&& exists|denominator: N| #[trigger]
        is_smoothed_total(counts, denominator) && forall|j: int|
            0 <= j < counts.len() ==> is_share(counts[j], denominator, #[trigger] row[j])
}

/// Without rounding, the smoothed total is [`share_denominator`].
proof fn lemma_exact_total<N: Number>(value: spec_fn(N) -> real, counts: Seq<u64>, r: N)
    requires
        is_exact(value),
        counts.len() <= u64::MAX,
        is_smoothed_total(counts, r),
    ensures
        value(r) == share_denominator(counts) as real,
{
    let (values, sum, one, size, raise) = choose|
        values: Seq<N>,
        sum: N,
        one: N,
        size: N,
        raise: N,
    | #[trigger]
        is_smoothed_total_by(counts, values, sum, one, size, raise, r);
    lemma_total_is_exact(value, values, sum);
    lemma_exact_sum(value, counts, values);
    let n = value(size);
    assert((1 as real) * n == n) by (nonlinear_arith);
    assert(value(one) == 1 as real);
}

proof fn lemma_exact_sum<N: Number>(
    value: spec_fn(N) -> real,
    counts: Seq<u64>,
    values: Seq<N>,
)
    requires
        is_exact(value),
        are_wholes(counts, values),
    ensures
        add_up(values_of(value, values)) == sum_of(counts) as real,
    decreases counts.len(),
{
    if counts.len() > 0 {
        let fewer = counts.drop_last();
        assert forall|j: int| 0 <= j < fewer.len() implies is_whole(
            fewer[j],
            #[trigger] values.drop_last()[j],
        ) by {
            assert(is_whole(counts[j], values[j]));
        }
        lemma_exact_sum(value, fewer, values.drop_last());
        assert(values_of(value, values).drop_last() =~= values_of(value, values.drop_last()));
        assert(is_whole(counts[counts.len() - 1], values[counts.len() - 1]));
    }
}

/// Without rounding, the smoothed probability of the step to `j` is the quotient
/// of [`share_numerator`] and [`share_denominator`], and so above zero.
pub proof fn law_smoothed_is_the_share<N: Number>(
    value: spec_fn(N) -> real,
    counts: Seq<u64>,
    row: Seq<N>,
    j: int,
)
    requires
        is_exact(value),
        counts.len() <= u64::MAX,
        is_smoothed(counts, row),
        0 <= j < counts.len(),
    ensures
        value(row[j]) == share_numerator(counts, j) as real / share_denominator(counts) as real,
        value(row[j]) > 0 as real,
{
    let denominator = choose|denominator: N| #[trigger]
        is_smoothed_total(counts, denominator) && forall|j: int|
            0 <= j < counts.len() ==> is_share(counts[j], denominator, #[trigger] row[j]);
    lemma_exact_total(value, counts, denominator);
    assert(is_share(counts[j], denominator, row[j]));
    law_shares_are_positive(counts, j);
    let a = share_numerator(counts, j) as real;
    let b = share_denominator(counts) as real;
    assert(a / b > 0 as real) by (nonlinear_arith)
        requires
            a > 0 as real,
            b > 0 as real,
    ;
}

/// Without rounding, the smoothed probabilities out of a state are a
/// distribution.
pub proof fn law_smoothed_is_a_distribution<N: Number>(
    value: spec_fn(N) -> real,
    counts: Seq<u64>,
    row: Seq<N>,
)
    requires
        is_exact(value),
        0 < counts.len() <= u64::MAX,
        is_smoothed(counts, row),
    ensures
        is_distribution(value, row),
{
    let b = share_denominator(counts) as real;
    let numerators = Seq::new(counts.len(), |j: int| share_numerator(counts, j) as real);
    let s = 1 as real / b;
    law_shares_are_positive(counts, 0);
    assert forall|j: int| 0 <= j < row.len() implies value(#[trigger] row[j]) >= 0 as real by {
        law_smoothed_is_the_share(value, counts, row, j);
    }
    let shares = values_of(value, row);
    assert forall|j: int| 0 <= j < shares.len() implies #[trigger] shares[j] == s
        * numerators[j] by {
        law_smoothed_is_the_share(value, counts, row, j);
        let a = numerators[j];
        assert(a / b == (1 as real / b) * a) by (nonlinear_arith)
            requires
                b > 0 as real,
        ;
    }
    lemma_sum_is_scaled(numerators, shares, s);
    lemma_numerators_add_up(counts, counts.len());
    assert(numerators.take(counts.len() as int) =~= numerators);
    law_shares_sum_to_one(counts);
    assert((1 as real / b) * b == 1 as real) by (nonlinear_arith)
        requires
            b > 0 as real,
    ;
}

proof fn lemma_numerators_add_up(counts: Seq<u64>, len: nat)
    requires
        len <= counts.len(),
    ensures
        add_up(
            Seq::new(counts.len(), |j: int| share_numerator(counts, j) as real).take(len as int),
        ) == share_sum(counts, len) as real,
    decreases len,
{
    let numerators = Seq::new(counts.len(), |j: int| share_numerator(counts, j) as real);
    if len > 0 {
        lemma_numerators_add_up(counts, (len - 1) as nat);
        assert(numerators.take(len as int).drop_last() =~= numerators.take(len - 1));
    } else {
        assert(numerators.take(0) =~= Seq::<real>::empty());
    }
}

/// The smoothed probabilities of `counts`.
pub fn smoothed<N: Number>(counts: &Vec<u64>) -> (row: Vec<N>)
    ensures
        is_smoothed(counts@, row@),
{
    let n = counts.len();
    let mut values: Vec<N> = Vec::new();
    for j in 0..n
        invariant
            n == counts@.len(),
            values@.len() == j,
            forall|i: int| 0 <= i < j ==> is_whole(counts@[i], #[trigger] values@[i]),
    {
        let value = N::from_u64(counts[j]);
        assert(is_whole(counts@[j as int], value));
        values.push(value);
    }
    let one = N::from_u64(1);
    let size = N::from_u64(n as u64);
    let sum = total(&values);
    let raise = one.times(size);
    let denominator = sum.plus(raise);
    proof {
        assert(are_wholes(counts@, values@));
        assert(is_whole(1, one) && is_whole(counts@.len() as u64, size));
        assert(is_product(one, size, raise) && is_sum(sum, raise, denominator));
        assert(is_smoothed_total_by(counts@, values@, sum, one, size, raise, denominator));
        assert(is_smoothed_total(counts@, denominator));
    }
    let mut row: Vec<N> = Vec::new();
    for j in 0..n
        invariant
            n == counts@.len(),
            are_wholes(counts@, values@),
            is_whole(1, one),
            row@.len() == j,
            forall|i: int|
                0 <= i < j ==> is_share(counts@[i], denominator, #[trigger] row@[i]),
    {
        let numerator = values[j].plus(one);
        let share = numerator.over(denominator);
        proof {
            assert(is_whole(counts@[j as int], values@[j as int]));
            assert(is_sum(values@[j as int], one, numerator));
            assert(is_quotient(numerator, denominator, share));
            assert(is_share(counts@[j as int], denominator, share));
        }
        row.push(share);
    }
    row
}

proof fn lemma_sum_is_added_up(counts: Seq<u64>)
    ensures
        add_up(Seq::new(counts.len(), |j: int| counts[j] as real)) == sum_of(counts) as real,
    decreases counts.len(),
{
    let terms = Seq::new(counts.len(), |j: int| counts[j] as real);
    if counts.len() > 0 {
        let fewer = counts.drop_last();
        lemma_sum_is_added_up(fewer);
        assert(terms.drop_last() =~= Seq::new(fewer.len(), |j: int| fewer[j] as real));
    }
}

/// Without rounding, a smoothed probability is the count plus one over the sum of
/// all counts plus their number.
pub proof fn law_smoothed_adds_one<N: Number>(
    value: spec_fn(N) -> real,
    counts: Seq<u64>,
    row: Seq<N>,
    j: int,
)
    requires
        is_exact(value),
        counts.len() <= u64::MAX,
        is_smoothed(counts, row),
        0 <= j < counts.len(),
    ensures
        row.len() == counts.len(),
        value(row[j]) == (counts[j] as real + 1 as real) / (add_up(
            Seq::new(counts.len(), |k: int| counts[k] as real),
        ) + counts.len() as real),
{
    law_smoothed_is_the_share(value, counts, row, j);
    lemma_sum_is_added_up(counts);
}

} // verus!
