//! Distances between two distributions over the same states.

use crate::exact::{
    add_up, are_same, is_distribution, is_exact, lemma_sum_covers, lemma_sum_is_bounded,
    lemma_total_is_exact, logs_by, size_of, values_of,
};
use crate::number::{
    compares_exceeding, is_difference, is_log, is_magnitude, is_product, is_quotient, is_sum,
    is_total, is_whole, Number,
};
use vstd::prelude::*;

verus! {

/// The number of states that two distributions both cover.
pub open spec fn shared_len<N>(row: Seq<N>, base: Seq<N>) -> nat {
    if row.len() < base.len() {
        row.len()
    } else {
        base.len()
    }
}

fn shared_length<N: Number>(row: &Vec<N>, base: &Vec<N>) -> (len: usize)
    ensures
        len == shared_len(row@, base@),
{
    if row.len() < base.len() {
        row.len()
    } else {
        base.len()
    }
}

/// `r` is `before + p * ln(p / q)`.
pub open spec fn adds_surprise<N: Number>(before: N, p: N, q: N, r: N) -> bool {
    exists|ratio: N, log: N, term: N|
        is_quotient(p, q, ratio) && #[trigger] is_log(ratio, log) && #[trigger] is_product(
            p,
            log,
            term,
        ) && is_sum(before, term, r)
}

/// `outcome` is an answer to `a > 0`.
pub open spec fn is_positive<N: Number>(a: N, outcome: bool) -> bool {
    exists|zero: N| is_whole(0, zero) && #[trigger] compares_exceeding(a, zero, outcome)
}

/// `r` is what one state adds to the divergence `before`: `p * ln(p / q)` where
/// both probabilities are positive, and nothing elsewhere.
pub open spec fn is_divergence_step<N: Number>(before: N, p: N, q: N, r: N) -> bool {
    ||| is_positive(p, true) && is_positive(q, true) && adds_surprise(before, p, q, r)
    ||| (is_positive(p, false) || is_positive(q, false)) && r == before
}

/// `r` is the sum of `p * ln(p / q)` over the first `len` states.
pub open spec fn is_divergence_upto<N: Number>(
    row: Seq<N>,
    base: Seq<N>,
    len: nat,
    r: N,
) -> bool
    decreases len,
{
    if len == 0 {
        is_whole(0, r)
    } else {
        exists|before: N|
            is_divergence_upto(row, base, (len - 1) as nat, before) && #[trigger] is_divergence_step(
                before,
                row[len - 1],
                base[len - 1],
                r,
            )
    }
}

/// `r` is the Kullback-Leibler divergence of `row` from `base`.
pub open spec fn is_divergence<N: Number>(row: Seq<N>, base: Seq<N>, r: N) -> bool {
    is_divergence_upto(row, base, shared_len(row, base), r)
}

fn positive<N: Number>(a: N) -> (outcome: bool)
    ensures
        is_positive(a, outcome),
{
    let zero = N::from_u64(0);
    let outcome = a.exceeds(zero);
    assert(is_whole(0, zero) && compares_exceeding(a, zero, outcome));
    outcome
}

/// The Kullback-Leibler divergence of `row` from `base`.
pub fn divergence<N: Number>(row: &Vec<N>, base: &Vec<N>) -> (r: N)
    ensures
        is_divergence(row@, base@, r),
{
    let len = shared_length(row, base);
    let mut kl = N::from_u64(0);
    assert(is_divergence_upto(row@, base@, 0, kl));
    for j in 0..len
        invariant
            len <= row@.len(),
            len <= base@.len(),
            is_divergence_upto(row@, base@, j as nat, kl),
    {
        let ghost before = kl;
        let p = row[j];
        let q = base[j];
        if positive(p) && positive(q) {
            let ratio = p.over(q);
            let log = ratio.log();
            let term = p.times(log);
            kl = kl.plus(term);
            assert(is_quotient(p, q, ratio) && is_log(ratio, log) && is_product(p, log, term)
                && is_sum(before, term, kl));
            assert(adds_surprise(before, p, q, kl));
        }
        proof {
            let upto = (j + 1) as nat;
            assert(is_divergence_upto(row@, base@, (upto - 1) as nat, before));
            assert(is_divergence_step(before, row@[upto - 1], base@[upto - 1], kl));
        }
    }
    kl
}

/// `r` is `before + (p - q)`.
pub open spec fn adds_difference<N: Number>(before: N, p: N, q: N, r: N) -> bool {
    exists|step: N| #[trigger] is_difference(p, q, step) && is_sum(before, step, r)
}

/// `gaps` are the differences of the two cumulative distributions, one for each
/// of the first `len` states, each reached from the one before it.
pub open spec fn are_gaps<N: Number>(row: Seq<N>, base: Seq<N>, gaps: Seq<N>, len: nat) -> bool {
    &&& gaps.len() == len + 1
    &&& is_whole(0, gaps[0])
    &&& forall|j: int|
        0 <= j < len ==> adds_difference(#[trigger] gaps[j], row[j], base[j], gaps[j + 1])
}

/// `sizes` are the absolute values of `gaps` but for the first.
pub open spec fn are_sizes<N: Number>(gaps: Seq<N>, sizes: Seq<N>) -> bool {
    &&& sizes.len() + 1 == gaps.len()
    &&& forall|j: int| 0 <= j < sizes.len() ==> is_magnitude(gaps[j + 1], #[trigger] sizes[j])
}

/// `r` is the Wasserstein-1 distance of two distributions over ordered states:
/// the sum of the absolute differences of their cumulative distributions.
pub open spec fn is_transport<N: Number>(row: Seq<N>, base: Seq<N>, r: N) -> bool {
    exists|gaps: Seq<N>, sizes: Seq<N>|
        are_gaps(row, base, gaps, shared_len(row, base)) && #[trigger] are_sizes(gaps, sizes)
            && #[trigger] is_total(sizes, r)
}

/// The Wasserstein-1 distance of two distributions over ordered states.
pub fn transport<N: Number>(row: &Vec<N>, base: &Vec<N>) -> (r: N)
    ensures
        is_transport(row@, base@, r),
{
    let len = shared_length(row, base);
    let mut gap = N::from_u64(0);
    let mut distance = N::from_u64(0);
    let ghost mut gaps: Seq<N> = seq![gap];
    let ghost mut sizes: Seq<N> = Seq::empty();
    assert(is_whole(0, gaps[0]));
    assert(is_total(sizes, distance));
    for j in 0..len
        invariant
            len <= row@.len(),
            len <= base@.len(),
            are_gaps(row@, base@, gaps, j as nat),
            are_sizes(gaps, sizes),
            gap == gaps[j as int],
            is_total(sizes, distance),
    {
        let step = row[j].minus(base[j]);
        let next = gap.plus(step);
        let size = next.magnitude();
        let sum = distance.plus(size);
        proof {
            assert(is_difference(row@[j as int], base@[j as int], step) && is_sum(gap, step, next));
            assert(is_magnitude(next, size));
            let more_gaps = gaps.push(next);
            let more_sizes = sizes.push(size);
            assert forall|i: int| 0 <= i < j + 1 implies adds_difference(
                #[trigger] more_gaps[i],
                row@[i],
                base@[i],
                more_gaps[i + 1],
            ) by {
                if i < j {
                    assert(more_gaps[i] == gaps[i] && more_gaps[i + 1] == gaps[i + 1]);
                }
            }
            assert forall|i: int| 0 <= i < more_sizes.len() implies is_magnitude(
                more_gaps[i + 1],
                #[trigger] more_sizes[i],
            ) by {
                if i < sizes.len() {
                    assert(more_sizes[i] == sizes[i] && more_gaps[i + 1] == gaps[i + 1]);
                }
            }
            assert(more_sizes.drop_last() =~= sizes);
            assert(more_sizes.last() == size);
            assert(is_sum(distance, more_sizes.last(), sum));
            assert(is_total(more_sizes.drop_last(), distance));
            gaps = more_gaps;
            sizes = more_sizes;
        }
        gap = next;
        distance = sum;
    }
    distance
}

/// How far the divergence over the first `len` states lies above the difference
/// of the two sums.
proof fn lemma_divergence_bound<N: Number>(
    value: spec_fn(N) -> real,
    row: Seq<N>,
    base: Seq<N>,
    len: nat,
    r: N,
)
    requires
        is_exact(value),
        row.len() == base.len(),
        len <= row.len(),
        forall|j: int| 0 <= j < row.len() ==> value(#[trigger] row[j]) > 0 as real,
        forall|j: int| 0 <= j < base.len() ==> value(#[trigger] base[j]) > 0 as real,
        is_divergence_upto(row, base, len, r),
    ensures
        value(r) >= add_up(values_of(value, row.take(len as int))) - add_up(
            values_of(value, base.take(len as int)),
        ),
        value(r) == add_up(values_of(value, row.take(len as int))) - add_up(
            values_of(value, base.take(len as int)),
        ) <==> are_same(value, row.take(len as int), base.take(len as int)),
    decreases len,
{
    let rows = row.take(len as int);
    let bases = base.take(len as int);
    if len > 0 {
        let last = len - 1;
        let before = choose|before: N|
            is_divergence_upto(row, base, last as nat, before) && #[trigger] is_divergence_step(
                before,
                row[last],
                base[last],
                r,
            );
        lemma_divergence_bound(value, row, base, last as nat, before);
        assert(values_of(value, rows).drop_last() =~= values_of(value, row.take(last)));
        assert(values_of(value, bases).drop_last() =~= values_of(value, base.take(last)));
        let p = value(row[last]);
        let q = value(base[last]);
        assert(p > 0 as real && q > 0 as real);
        assert(adds_surprise(before, row[last], base[last], r));
        let (ratio, log, term) = choose|ratio: N, log: N, term: N|
            is_quotient(row[last], base[last], ratio) && #[trigger] is_log(ratio, log)
                && #[trigger] is_product(row[last], log, term) && is_sum(before, term, r);
        let l = value(log);
        assert(p / q > 0 as real) by (nonlinear_arith)
            requires
                p > 0 as real,
                q > 0 as real,
        ;
        let bound = 1 as real - 1 as real / (p / q);
        assert(l >= bound && (l == bound <==> p / q == 1 as real));
        assert(p * bound == p - q) by (nonlinear_arith)
            requires
                p > 0 as real,
                q > 0 as real,
                bound == 1 as real - 1 as real / (p / q),
        ;
        assert(p * l >= p * bound && (p * l == p * bound <==> l == bound)) by (nonlinear_arith)
            requires
                p > 0 as real,
                l >= bound,
        ;
        assert(p / q == 1 as real <==> p == q) by (nonlinear_arith)
            requires
                q > 0 as real,
        ;
        let shorter_rows = row.take(last);
        let shorter_bases = base.take(last);
        if are_same(value, shorter_rows, shorter_bases) && p == q {
            assert forall|i: int| 0 <= i < rows.len() implies value(#[trigger] rows[i]) == value(
                #[trigger] bases[i],
            ) by {
                if i < last {
                    assert(value(shorter_rows[i]) == value(shorter_bases[i]));
                }
            }
        }
        if are_same(value, rows, bases) {
            assert(value(rows[last]) == value(bases[last]));
            assert forall|i: int| 0 <= i < shorter_rows.len() implies value(
                #[trigger] shorter_rows[i],
            ) == value(#[trigger] shorter_bases[i]) by {
                assert(value(rows[i]) == value(bases[i]));
            }
        }
    } else {
        assert(is_whole(0, r));
    }
}

/// Without rounding, the divergence of one distribution from another, neither
/// with a zero, is not negative, and it is zero if and only if they are the
/// same.
pub proof fn law_divergence_is_not_negative<N: Number>(
    value: spec_fn(N) -> real,
    row: Seq<N>,
    base: Seq<N>,
    r: N,
)
    requires
        is_exact(value),
        row.len() == base.len(),
        is_distribution(value, row),
        is_distribution(value, base),
        forall|j: int| 0 <= j < row.len() ==> value(#[trigger] row[j]) > 0 as real,
        forall|j: int| 0 <= j < base.len() ==> value(#[trigger] base[j]) > 0 as real,
        is_divergence(row, base, r),
    ensures
        value(r) >= 0 as real,
        value(r) == 0 as real <==> are_same(value, row, base),
{
    lemma_divergence_bound(value, row, base, row.len(), r);
    assert(row.take(row.len() as int) =~= row);
    assert(base.take(base.len() as int) =~= base);
}

/// Each gap is the difference of two partial sums.
proof fn lemma_gap_is_difference<N: Number>(
    value: spec_fn(N) -> real,
    row: Seq<N>,
    base: Seq<N>,
    gaps: Seq<N>,
    len: nat,
    j: int,
)
    requires
        is_exact(value),
        len <= row.len(),
        len <= base.len(),
        are_gaps(row, base, gaps, len),
        0 <= j <= len,
    ensures
        value(gaps[j]) == add_up(values_of(value, row).take(j)) - add_up(
            values_of(value, base).take(j),
        ),
    decreases j,
{
    let p = values_of(value, row);
    let q = values_of(value, base);
    if j > 0 {
        lemma_gap_is_difference(value, row, base, gaps, len, j - 1);
        assert(adds_difference(gaps[j - 1], row[j - 1], base[j - 1], gaps[j]));
        assert(p.take(j).drop_last() =~= p.take(j - 1));
        assert(q.take(j).drop_last() =~= q.take(j - 1));
    } else {
        assert(is_whole(0, gaps[0]));
    }
}

/// A partial sum of a distribution lies between zero and one.
proof fn lemma_partial_sum(p: Seq<real>, j: int)
    requires
        forall|i: int| 0 <= i < p.len() ==> #[trigger] p[i] >= 0 as real,
        0 <= j <= p.len(),
    ensures
        add_up(p.take(j)) >= 0 as real,
        add_up(p.take(j)) <= add_up(p),
    decreases p.len() - j,
{
    if j < p.len() {
        lemma_partial_sum(p, j + 1);
        assert(p.take(j + 1).drop_last() =~= p.take(j));
        assert(p[j] >= 0 as real);
    } else {
        assert(p.take(j) =~= p);
    }
    lemma_sum_covers(p.take(j), 0);
}

/// Without rounding, the Wasserstein-1 distance of two distributions over `n`
/// states lies between zero and `n - 1`, and it is zero if and only if they are
/// the same.
pub proof fn law_transport_is_bounded<N: Number>(
    value: spec_fn(N) -> real,
    row: Seq<N>,
    base: Seq<N>,
    r: N,
)
    requires
        is_exact(value),
        row.len() == base.len(),
        is_distribution(value, row),
        is_distribution(value, base),
        is_transport(row, base, r),
    ensures
        value(r) >= 0 as real,
        value(r) <= (row.len() - 1) as real,
        value(r) == 0 as real <==> are_same(value, row, base),
{
    let n = row.len();
    let p = values_of(value, row);
    let q = values_of(value, base);
    let (gaps, sizes) = choose|gaps: Seq<N>, sizes: Seq<N>|
        are_gaps(row, base, gaps, shared_len(row, base)) && #[trigger] are_sizes(gaps, sizes)
            && #[trigger] is_total(sizes, r);
    lemma_total_is_exact(value, sizes, r);
    if n == 0 {
        assert(p =~= Seq::<real>::empty());
        assert(false);
    }
    assert forall|i: int| 0 <= i < n implies #[trigger] p[i] >= 0 as real by {
        assert(value(row[i]) >= 0 as real);
    }
    assert forall|i: int| 0 <= i < n implies #[trigger] q[i] >= 0 as real by {
        assert(value(base[i]) >= 0 as real);
    }
    let terms = values_of(value, sizes);
    assert forall|j: int| 0 <= j < n implies #[trigger] terms[j] >= 0 as real && terms[j]
        <= 1 as real && terms[j] == size_of(
        add_up(p.take(j + 1)) - add_up(q.take(j + 1)),
    ) by {
        assert(is_magnitude(gaps[j + 1], sizes[j]));
        lemma_gap_is_difference(value, row, base, gaps, n, j + 1);
        lemma_partial_sum(p, j + 1);
        lemma_partial_sum(q, j + 1);
    }
    assert(p.take(n as int) =~= p && q.take(n as int) =~= q);
    assert(terms[n - 1] == 0 as real);
    let rest = terms.drop_last();
    assert forall|j: int| 0 <= j < rest.len() implies #[trigger] rest[j] <= 1 as real by {
        assert(terms[j] <= 1 as real);
    }
    lemma_sum_is_bounded(rest, 1 as real);
    assert((n - 1) as real * (1 as real) == (n - 1) as real) by (nonlinear_arith);
    lemma_sum_covers(terms, 0);
    if value(r) == 0 as real {
        assert forall|i: int| 0 <= i < n implies value(#[trigger] row[i]) == value(
            #[trigger] base[i],
        ) by {
            lemma_sum_covers(terms, i);
            assert(terms[i] == 0 as real);
            if i > 0 {
                lemma_sum_covers(terms, i - 1);
                assert(terms[i - 1] == 0 as real);
            } else {
                assert(p.take(0) =~= Seq::<real>::empty());
                assert(q.take(0) =~= Seq::<real>::empty());
            }
            assert(p.take(i + 1).drop_last() =~= p.take(i));
            assert(q.take(i + 1).drop_last() =~= q.take(i));
            assert(p.take(i + 1).last() == value(row[i]));
            assert(q.take(i + 1).last() == value(base[i]));
        }
    }
    if are_same(value, row, base) {
        assert forall|i: int| 0 <= i < n implies p[i] == q[i] by {
            assert(value(row[i]) == value(base[i]));
        }
        assert(p =~= q);
        assert forall|j: int| 0 <= j < terms.len() implies #[trigger] terms[j] <= 0 as real by {
        }
        lemma_sum_is_bounded(terms, 0 as real);
        assert(n as real * (0 as real) == 0 as real) by (nonlinear_arith);
    }
}

/// What the state `j` adds to the divergence of `row` from `base`: `p * ln(p / q)`
/// where both probabilities are above zero, and nothing elsewhere.
pub open spec fn surprise<N: Number>(
    value: spec_fn(N) -> real,
    ln: spec_fn(real) -> real,
    row: Seq<N>,
    base: Seq<N>,
    j: int,
) -> real {
    let p = value(row[j]);
    let q = value(base[j]);
    if p > 0 as real && q > 0 as real {
        p * ln(p / q)
    } else {
        0 as real
    }
}

proof fn lemma_divergence_sum<N: Number>(
    value: spec_fn(N) -> real,
    ln: spec_fn(real) -> real,
    row: Seq<N>,
    base: Seq<N>,
    len: nat,
    r: N,
)
    requires
        is_exact(value),
        logs_by(value, ln),
        len <= row.len(),
        len <= base.len(),
        is_divergence_upto(row, base, len, r),
    ensures
        value(r) == add_up(Seq::new(len, |j: int| surprise(value, ln, row, base, j))),
    decreases len,
{
    let terms = Seq::new(len, |j: int| surprise(value, ln, row, base, j));
    if len > 0 {
        let last = len - 1;
        let a = row[last];
        let b = base[last];
        let before = choose|before: N|
            is_divergence_upto(row, base, last as nat, before) && #[trigger] is_divergence_step(
                before,
                a,
                b,
                r,
            );
        lemma_divergence_sum(value, ln, row, base, last as nat, before);
        assert(terms.drop_last() =~= Seq::new(
            last as nat,
            |j: int| surprise(value, ln, row, base, j),
        ));
        assert(is_positive(a, true) ==> value(a) > 0 as real);
        assert(is_positive(b, true) ==> value(b) > 0 as real);
        assert(is_positive(a, false) ==> !(value(a) > 0 as real));
        assert(is_positive(b, false) ==> !(value(b) > 0 as real));
        if is_positive(a, true) && is_positive(b, true) && adds_surprise(before, a, b, r) {
            let (ratio, log, term) = choose|ratio: N, log: N, term: N|
                is_quotient(a, b, ratio) && #[trigger] is_log(ratio, log) && #[trigger] is_product(
                    a,
                    log,
                    term,
                ) && is_sum(before, term, r);
            let p = value(a);
            let q = value(b);
            assert(p / q > 0 as real) by (nonlinear_arith)
                requires
                    p > 0 as real,
                    q > 0 as real,
            ;
            assert(is_sum(before, term, r));
        }
    } else {
        assert(is_whole(0, r));
    }
}

/// Without rounding, the divergence is the sum of `p * ln(p / q)` over all states
/// that both distributions cover and give a probability above zero.
pub proof fn law_divergence_is_the_sum<N: Number>(
    value: spec_fn(N) -> real,
    ln: spec_fn(real) -> real,
    row: Seq<N>,
    base: Seq<N>,
    r: N,
    n: nat,
)
    requires
        is_exact(value),
        logs_by(value, ln),
        n == row.len() && n <= base.len() || n == base.len() && n <= row.len(),
        is_divergence(row, base, r),
    ensures
        value(r) == add_up(
            Seq::new(
                n,
                |j: int|
                    if value(row[j]) > 0 as real && value(base[j]) > 0 as real {
                        value(row[j]) * ln(value(row[j]) / value(base[j]))
                    } else {
                        0 as real
                    },
            ),
        ),
{
    lemma_divergence_sum(value, ln, row, base, n, r);
    assert(Seq::new(n, |j: int| surprise(value, ln, row, base, j)) =~= Seq::new(
        n,
        |j: int|
            if value(row[j]) > 0 as real && value(base[j]) > 0 as real {
                value(row[j]) * ln(value(row[j]) / value(base[j]))
            } else {
                0 as real
            },
    ));
}

/// Without rounding, each further state adds its `p * ln(p / q)` to the divergence
/// over the states before it.
pub proof fn law_divergence_grows_state_by_state<N: Number>(
    value: spec_fn(N) -> real,
    ln: spec_fn(real) -> real,
    row: Seq<N>,
    base: Seq<N>,
    p: N,
    q: N,
    before: N,
    after: N,
)
    requires
        is_exact(value),
        logs_by(value, ln),
        row.len() == base.len(),
        value(p) > 0 as real,
        value(q) > 0 as real,
        is_divergence(row, base, before),
        is_divergence(row.push(p), base.push(q), after),
    ensures
        value(after) == value(before) + value(p) * ln(value(p) / value(q)),
        row.len() == 0 ==> value(before) == 0 as real,
{
    let n = row.len();
    let longer = Seq::new(
        n + 1,
        |j: int| surprise(value, ln, row.push(p), base.push(q), j),
    );
    lemma_divergence_sum(value, ln, row, base, n, before);
    lemma_divergence_sum(value, ln, row.push(p), base.push(q), n + 1, after);
    assert forall|j: int| 0 <= j < n implies surprise(
        value,
        ln,
        row.push(p),
        base.push(q),
        j,
    ) == surprise(value, ln, row, base, j) by {
        assert(row.push(p)[j] == row[j] && base.push(q)[j] == base[j]);
    }
    assert(longer.drop_last() =~= Seq::new(n, |j: int| surprise(value, ln, row, base, j)));
}

/// Without rounding, the Wasserstein-1 distance is the sum over all states that
/// both distributions cover of how far the sums of their first entries, up to the
/// state, lie apart.
pub proof fn law_transport_is_the_sum<N: Number>(
    value: spec_fn(N) -> real,
    row: Seq<N>,
    base: Seq<N>,
    r: N,
    n: nat,
)
    requires
        is_exact(value),
        n == row.len() && n <= base.len() || n == base.len() && n <= row.len(),
        is_transport(row, base, r),
    ensures
        value(r) == add_up(
            Seq::new(
                n,
                |j: int|
                    size_of(
                        add_up(values_of(value, row.take(j + 1))) - add_up(
                            values_of(value, base.take(j + 1)),
                        ),
                    ),
            ),
        ),
{
    let p = values_of(value, row);
    let q = values_of(value, base);
    let (gaps, sizes) = choose|gaps: Seq<N>, sizes: Seq<N>|
        are_gaps(row, base, gaps, shared_len(row, base)) && #[trigger] are_sizes(gaps, sizes)
            && #[trigger] is_total(sizes, r);
    lemma_total_is_exact(value, sizes, r);
    let terms = Seq::new(
        n,
        |j: int|
            size_of(
                add_up(values_of(value, row.take(j + 1))) - add_up(
                    values_of(value, base.take(j + 1)),
                ),
            ),
    );
    assert forall|j: int| 0 <= j < n implies values_of(value, sizes)[j] == terms[j] by {
        assert(is_magnitude(gaps[j + 1], sizes[j]));
        lemma_gap_is_difference(value, row, base, gaps, n, j + 1);
        assert(values_of(value, row.take(j + 1)) =~= p.take(j + 1));
        assert(values_of(value, base.take(j + 1)) =~= q.take(j + 1));
    }
    assert(values_of(value, sizes) =~= terms);
}

/// Without rounding, each further state adds to the Wasserstein-1 distance over
/// the states before it how far the two sums lie apart with it.
pub proof fn law_transport_grows_state_by_state<N: Number>(
    value: spec_fn(N) -> real,
    row: Seq<N>,
    base: Seq<N>,
    p: N,
    q: N,
    before: N,
    after: N,
)
    requires
        is_exact(value),
        row.len() == base.len(),
        is_transport(row, base, before),
        is_transport(row.push(p), base.push(q), after),
    ensures
        ({
            let gap = add_up(values_of(value, row)) + value(p) - add_up(values_of(value, base))
                - value(q);
            value(after) - value(before) == if gap < 0 as real {
                0 as real - gap
            } else {
                gap
            }
        }),
        row.len() == 0 ==> value(before) == 0 as real,
{
    let n = row.len();
    let rows = row.push(p);
    let bases = base.push(q);
    law_transport_is_the_sum(value, row, base, before, n);
    law_transport_is_the_sum(value, rows, bases, after, n + 1);
    let shorter = Seq::new(
        n,
        |j: int|
            size_of(
                add_up(values_of(value, row.take(j + 1))) - add_up(
                    values_of(value, base.take(j + 1)),
                ),
            ),
    );
    let longer = Seq::new(
        n + 1,
        |j: int|
            size_of(
                add_up(values_of(value, rows.take(j + 1))) - add_up(
                    values_of(value, bases.take(j + 1)),
                ),
            ),
    );
    assert forall|j: int| 0 <= j < n implies longer.drop_last()[j] == shorter[j] by {
        assert(rows.take(j + 1) =~= row.take(j + 1));
        assert(bases.take(j + 1) =~= base.take(j + 1));
    }
    assert(longer.drop_last() =~= shorter);
    assert(rows.take(n + 1 as int) =~= rows && bases.take(n + 1 as int) =~= bases);
    assert(values_of(value, rows).drop_last() =~= values_of(value, row));
    assert(values_of(value, bases).drop_last() =~= values_of(value, base));
    assert(longer.last() == size_of(add_up(values_of(value, rows)) - add_up(values_of(value, bases))));
}

} // verus!
