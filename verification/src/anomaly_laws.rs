//! What holds of every measurement of a workflow, and of what is made of it.

use crate::chain::{is_stationary_of, ChainNumber, MAX_STATES};
use crate::command_predictor::{is_rebuilt, is_transition_row};
use crate::distance::{law_divergence_is_the_sum, law_transport_is_the_sum};
use crate::exact::{add_up, is_exact, logs_by, orders, size_of, values_of};
use crate::model::Model;
use crate::number::{is_quotient, is_text, is_whole, Number};
use crate::prediction_laws::law_row_entries;
use crate::trend::law_slope_solves_least_squares;
use crate::workflow_anomaly::{
    is_basis, is_divergence_of, is_kl, is_kl_in, is_transport_of, is_trend, is_wasserstein_in,
    recent_divergences, AnomalyRecord, DistanceRecord, Severity, WorkflowAnomaly,
};
use ergodic_transport::MarkovChain;
use vstd::prelude::*;

verus! {

/// The divergences that a trend is taken of are as many as the smaller of the
/// window and the number of measurements, and they are those of the latest that
/// many measurements, in their order.
pub proof fn law_window_takes_the_latest<N>(
    history: Seq<DistanceRecord<N>>,
    window: usize,
    i: int,
)
    ensures
        window <= history.len() ==> recent_divergences(history, window).len() == window,
        window >= history.len() ==> recent_divergences(history, window).len() == history.len(),
        0 <= i < recent_divergences(history, window).len() ==> recent_divergences(
            history,
            window,
        )[i] == history[history.len() - recent_divergences(history, window).len()
            + i].kl_divergence,
{
}

/// Without rounding, the trend over a window of two or more measurements solves
/// the equation of the line that fits the divergences of the latest `n` of them
/// best, where `n` is the smaller of the window and the number of measurements.
/// With fewer than two measurements in the window, it is zero.
pub proof fn law_trend_is_over_the_whole_window<N: Number>(
    value: spec_fn(N) -> real,
    history: Seq<DistanceRecord<N>>,
    window: usize,
    n: nat,
    r: N,
)
    requires
        is_exact(value),
        history.len() <= u64::MAX,
        n == window && window <= history.len() || n == history.len() && history.len() <= window,
        is_trend(history, window, r),
    ensures
        n < 2 ==> value(r) == 0 as real,
        n >= 2 ==> ({
            let middle = (n as real - 1 as real) / 2 as real;
            &&& add_up(Seq::new(n, |i: int| (i as real - middle) * (i as real - middle)))
                > 0 as real
            &&& value(r) * add_up(
                Seq::new(n, |i: int| (i as real - middle) * (i as real - middle)),
            ) == add_up(
                Seq::new(
                    n,
                    |i: int|
                        (i as real - middle) * value(history[history.len() - n + i].kl_divergence),
                ),
            )
        }),
{
    let recent = recent_divergences(history, window);
    law_slope_solves_least_squares(value, recent, r);
    if n >= 2 {
        let middle = (n as real - 1 as real) / 2 as real;
        assert(Seq::new(n, |i: int| (i as real - middle) * value(recent[i])) =~= Seq::new(
            n,
            |i: int| (i as real - middle) * value(history[history.len() - n + i].kl_divergence),
        ));
    }
}

/// A measurement is put behind those that are kept, and the oldest one is dropped
/// only if there are then more than the maximum. The limits stay as they are.
pub proof fn law_measurement_is_kept<N: Number>(
    before: WorkflowAnomaly<N>,
    kl: N,
    w1: N,
    timestamp_secs: u64,
    after: WorkflowAnomaly<N>,
    i: int,
)
    requires
        after.has_measured(before, kl, w1, timestamp_secs),
    ensures
        after.max_history == before.max_history,
        after.mild_threshold == before.mild_threshold,
        after.significant_threshold == before.significant_threshold,
        after.dramatic_threshold == before.dramatic_threshold,
        before.history@.len() < before.max_history ==> after.history@.len() == before.history@.len()
            + 1,
        before.history@.len() >= before.max_history ==> after.history@.len()
            == before.history@.len(),
        after.history@.len() > 0 ==> after.history@.last().kl_divergence == kl
            && after.history@.last().wasserstein_distance == w1
            && after.history@.last().timestamp_secs == timestamp_secs,
        0 <= i < after.history@.len() - 1 ==> after.history@[i] == before.history@[i + 1
            + before.history@.len() - after.history@.len()],
{
}

/// Where comparisons go by an order, the severity is that of the highest
/// threshold that the divergence reaches, and normal if it reaches none.
pub proof fn law_severity_is_by_thresholds<N: Number>(
    value: spec_fn(N) -> real,
    proper: spec_fn(N) -> bool,
    detector: WorkflowAnomaly<N>,
    kl: N,
    severity: Severity,
)
    requires
        orders(value, proper),
        proper(kl),
        proper(detector.mild_threshold),
        proper(detector.significant_threshold),
        proper(detector.dramatic_threshold),
        detector.is_severity(kl, severity),
    ensures
        severity == Severity::Dramatic <==> value(kl) >= value(detector.dramatic_threshold),
        severity == Severity::Significant <==> value(kl) < value(detector.dramatic_threshold)
            && value(kl) >= value(detector.significant_threshold),
        severity == Severity::Mild <==> value(kl) < value(detector.dramatic_threshold) && value(kl)
            < value(detector.significant_threshold) && value(kl) >= value(detector.mild_threshold),
        severity == Severity::Normal <==> value(kl) < value(detector.dramatic_threshold) && value(
            kl,
        ) < value(detector.significant_threshold) && value(kl) < value(detector.mild_threshold),
{
}

/// Without rounding, a new detector finds a divergence of one half mild, one of
/// three halves significant and one of three dramatic; it has measured nothing,
/// and keeps a thousand measurements.
pub proof fn law_default_thresholds<N: Number>(
    value: spec_fn(N) -> real,
    detector: WorkflowAnomaly<N>,
)
    requires
        is_exact(value),
        detector.is_default(),
    ensures
        value(detector.mild_threshold) * 2 as real == 1 as real,
        value(detector.significant_threshold) * 2 as real == 3 as real,
        value(detector.dramatic_threshold) == 3 as real,
        detector.history@.len() == 0,
        detector.max_history == 1000,
{
    let mild = detector.mild_threshold;
    let significant = detector.significant_threshold;
    let (a, b) = choose|a: N, b: N|
        is_whole(1, a) && is_whole(2, b) && #[trigger] is_quotient(a, b, mild);
    let (c, d) = choose|a: N, b: N|
        is_whole(3, a) && is_whole(2, b) && #[trigger] is_quotient(a, b, significant);
    assert(value(mild) == 1 as real / 2 as real);
    assert(value(significant) == 3 as real / 2 as real);
}

/// A report is due if and only if the divergence is not normal. It tells the
/// command, both distances, the time and the severity, and describes these in
/// words, the distances with two decimals.
pub proof fn law_report_tells_the_measurement<N: Number>(
    value: spec_fn(N) -> real,
    proper: spec_fn(N) -> bool,
    detector: WorkflowAnomaly<N>,
    command: Seq<char>,
    kl: N,
    w1: N,
    timestamp_secs: u64,
    anomaly: Option<AnomalyRecord<N>>,
)
    requires
        orders(value, proper),
        proper(kl),
        proper(detector.mild_threshold),
        proper(detector.significant_threshold),
        proper(detector.dramatic_threshold),
        detector.is_report(command, kl, w1, timestamp_secs, anomaly),
    ensures
        anomaly is Some <==> value(kl) >= value(detector.dramatic_threshold) || value(kl) >= value(
            detector.significant_threshold,
        ) || value(kl) >= value(detector.mild_threshold),
        anomaly matches Some(record) ==> {
            &&& record.command@ == command
            &&& record.kl_divergence == kl
            &&& record.wasserstein_distance == w1
            &&& record.timestamp_secs == timestamp_secs
            &&& record.severity == if value(kl) >= value(detector.dramatic_threshold) {
                Severity::Dramatic
            } else if value(kl) >= value(detector.significant_threshold) {
                Severity::Significant
            } else {
                Severity::Mild
            }
            &&& match record.severity {
                Severity::Dramatic => exists|a: Seq<char>, b: Seq<char>| #[trigger]
                    is_text(kl, 2, a) && #[trigger] is_text(w1, 2, b) && record.description@
                        == "Dramatic workflow change! Completely different command pattern. (KL="@
                        + a + ", W₁="@ + b + ")"@,
                Severity::Significant => exists|a: Seq<char>, b: Seq<char>| #[trigger]
                    is_text(kl, 2, a) && #[trigger] is_text(w1, 2, b) && record.description@
                        == "Command pattern just shifted — did you start a new task? (KL="@ + a
                        + ", W₁="@ + b + ")"@,
                _ => exists|a: Seq<char>| #[trigger]
                    is_text(kl, 2, a) && record.description@
                        == "Mild workflow shift detected (KL="@ + a
                        + "). You might be switching context."@,
            }
        },
{
}

/// Every stationary distribution that is found of `chain` is `base`.
pub open spec fn settles_at<N: ChainNumber>(chain: MarkovChain, base: Seq<N>) -> bool {
    forall|found: Option<Vec<N>>| #[trigger]
        is_stationary_of(chain, found) ==> found is Some && found->0@ == base
}

/// `shares` are the probabilities of the steps out of state `i`: the count of each
/// plus one over all counts plus the number of states. An index that no state has
/// has zeros.
pub open spec fn are_shares(model: Model, i: int, shares: Seq<real>) -> bool {
    let n = model.names.len();
    let all = add_up(Seq::new(n, |k: int| model.counts[i * MAX_STATES + k] as real));
    &&& shares.len() == n
    &&& forall|j: int|
        0 <= j < n ==> if i < n {
            #[trigger] shares[j] * (all + n as real) == model.counts[i * MAX_STATES + j] as real
                + 1 as real
        } else {
            shares[j] == 0 as real
        }
}

proof fn lemma_row_has_shares<N: Number>(
    value: spec_fn(N) -> real,
    model: Model,
    i: int,
    row: Seq<N>,
    shares: Seq<real>,
)
    requires
        is_exact(value),
        model.fits(),
        0 <= i,
        is_transition_row(model, i, row),
        are_shares(model, i, shares),
    ensures
        row.len() == model.names.len(),
        values_of(value, row) == shares,
{
    let n = model.names.len();
    let all = add_up(Seq::new(n, |k: int| model.counts[i * MAX_STATES + k] as real));
    law_row_entries(value, model, i, row, 0);
    assert forall|j: int| 0 <= j < n implies value(#[trigger] row[j]) == shares[j] by {
        law_row_entries(value, model, i, row, j);
        if i < n {
            let c = model.counts[i * MAX_STATES + j] as real;
            let d = all + n as real;
            let x = value(row[j]);
            let y = shares[j];
            assert(y * d == c + 1 as real);
            assert(x == y) by (nonlinear_arith)
                requires
                    x * d == c + 1 as real,
                    y * d == c + 1 as real,
                    d > 0 as real,
            ;
        } else {
            assert(shares[j] == 0 as real);
        }
    }
    assert(values_of(value, row) =~= shares);
}

/// Without rounding, the divergence of what follows a known command is the sum
/// of `p * ln(p / q)`, where `p` is the share of a command among what follows and
/// `q` its share in the stationary distribution. Without such a distribution, and
/// for a command that is not known, it is zero.
pub proof fn law_kl_of_a_command<N: ChainNumber>(
    value: spec_fn(N) -> real,
    ln: spec_fn(real) -> real,
    model: Model,
    command: Seq<char>,
    chain: MarkovChain,
    base: Seq<N>,
    shares: Seq<real>,
    r: N,
)
    requires
        is_exact(value),
        logs_by(value, ln),
        model.fits(),
        is_kl_in(model, command, chain, r),
        are_shares(model, model.index[command] as int, shares),
        base.len() == model.names.len(),
    ensures
        !model.known(command) ==> value(r) == 0 as real,
        (forall|found: Option<Vec<N>>| #[trigger] is_stationary_of(chain, found) ==> found is None)
            ==> value(r) == 0 as real,
        model.known(command) && model.names.len() > 0 && settles_at(chain, base) ==> value(r)
            == add_up(
            Seq::new(
                model.names.len(),
                |j: int|
                    if shares[j] > 0 as real && value(base[j]) > 0 as real {
                        shares[j] * ln(shares[j] / value(base[j]))
                    } else {
                        0 as real
                    },
            ),
        ),
{
    let n = model.names.len();
    if model.known(command) && n > 0 {
        let basis = choose|basis: Option<(Vec<N>, Vec<N>)>| #[trigger]
            is_basis(model, command, chain, basis) && is_divergence_of(basis, r);
        match basis {
            Some((row, found)) => {
                assert(is_stationary_of(chain, Some(found)));
                lemma_row_has_shares(
                    value,
                    model,
                    model.index[command] as int,
                    row@,
                    shares,
                );
                if settles_at(chain, base) {
                    assert(found@ == base);
                    law_divergence_is_the_sum(value, ln, row@, base, r, n);
                    let terms = Seq::new(
                        n,
                        |j: int|
                            if value(row@[j]) > 0 as real && value(base[j]) > 0 as real {
                                value(row@[j]) * ln(value(row@[j]) / value(base[j]))
                            } else {
                                0 as real
                            },
                    );
                    assert forall|j: int| 0 <= j < n implies #[trigger] terms[j] == if shares[j]
                        > 0 as real && value(base[j]) > 0 as real {
                        shares[j] * ln(shares[j] / value(base[j]))
                    } else {
                        0 as real
                    } by {
                        assert(values_of(value, row@)[j] == value(row@[j]));
                    }
                    assert(terms =~= Seq::new(
                        n,
                        |j: int|
                            if shares[j] > 0 as real && value(base[j]) > 0 as real {
                                shares[j] * ln(shares[j] / value(base[j]))
                            } else {
                                0 as real
                            },
                    ));
                }
            },
            None => {
                assert(is_whole(0, r));
                assert(is_stationary_of(chain, None::<Vec<N>>));
            },
        }
    } else {
        assert(is_whole(0, r));
    }
}

/// Without rounding, the Wasserstein-1 distance of what follows a known command
/// is the sum of how far its shares and those of the stationary distribution,
/// added up to each state, lie apart. Without such a distribution, and for a
/// command that is not known, it is zero.
pub proof fn law_wasserstein_of_a_command<N: ChainNumber>(
    value: spec_fn(N) -> real,
    model: Model,
    command: Seq<char>,
    chain: MarkovChain,
    base: Seq<N>,
    shares: Seq<real>,
    r: N,
)
    requires
        is_exact(value),
        model.fits(),
        is_wasserstein_in(model, command, chain, r),
        are_shares(model, model.index[command] as int, shares),
        base.len() == model.names.len(),
    ensures
        !model.known(command) ==> value(r) == 0 as real,
        (forall|found: Option<Vec<N>>| #[trigger] is_stationary_of(chain, found) ==> found is None)
            ==> value(r) == 0 as real,
        model.known(command) && model.names.len() > 0 && settles_at(chain, base) ==> value(r)
            == add_up(
            Seq::new(
                model.names.len(),
                |j: int|
                    size_of(
                        add_up(shares.take(j + 1)) - add_up(values_of(value, base.take(j + 1))),
                    ),
            ),
        ),
{
    let n = model.names.len();
    if model.known(command) && n > 0 {
        let basis = choose|basis: Option<(Vec<N>, Vec<N>)>| #[trigger]
            is_basis(model, command, chain, basis) && is_transport_of(basis, r);
        match basis {
            Some((row, found)) => {
                assert(is_stationary_of(chain, Some(found)));
                lemma_row_has_shares(
                    value,
                    model,
                    model.index[command] as int,
                    row@,
                    shares,
                );
                if settles_at(chain, base) {
                    assert(found@ == base);
                    law_transport_is_the_sum(value, row@, base, r, n);
                    let terms = Seq::new(
                        n,
                        |j: int|
                            size_of(
                                add_up(values_of(value, row@.take(j + 1))) - add_up(
                                    values_of(value, base.take(j + 1)),
                                ),
                            ),
                    );
                    assert forall|j: int| 0 <= j < n implies #[trigger] terms[j] == size_of(
                        add_up(shares.take(j + 1)) - add_up(values_of(value, base.take(j + 1))),
                    ) by {
                        assert(values_of(value, row@.take(j + 1)) =~= values_of(value, row@).take(
                            j + 1,
                        ));
                    }
                    assert(terms =~= Seq::new(
                        n,
                        |j: int|
                            size_of(
                                add_up(shares.take(j + 1)) - add_up(
                                    values_of(value, base.take(j + 1)),
                                ),
                            ),
                    ));
                }
            },
            None => {
                assert(is_whole(0, r));
                assert(is_stationary_of(chain, None::<Vec<N>>));
            },
        }
    } else {
        assert(is_whole(0, r));
    }
}

/// Without rounding, what is detected at a known command is judged by its
/// divergence: there is a report if and only if that reaches a threshold, and the
/// report and the measurement that is kept tell the divergence and the
/// Wasserstein-1 distance, each in its place.
pub proof fn law_detection_judges_the_divergence<N: ChainNumber>(
    value: spec_fn(N) -> real,
    ln: spec_fn(real) -> real,
    before: WorkflowAnomaly<N>,
    model: Model,
    command: Seq<char>,
    chain: MarkovChain,
    base: Seq<N>,
    shares: Seq<real>,
    timestamp_secs: u64,
    after: WorkflowAnomaly<N>,
    anomaly: Option<AnomalyRecord<N>>,
)
    requires
        is_exact(value),
        logs_by(value, ln),
        model.fits(),
        model.known(command),
        model.names.len() > 0,
        before.is_detection(model, command, chain, timestamp_secs, after, anomaly),
        are_shares(model, model.index[command] as int, shares),
        base.len() == model.names.len(),
        forall|c: MarkovChain| #[trigger] is_rebuilt::<N>(model, c) ==> settles_at(c, base),
    ensures
        ({
            let kl = add_up(
                Seq::new(
                    model.names.len(),
                    |j: int|
                        if shares[j] > 0 as real && value(base[j]) > 0 as real {
                            shares[j] * ln(shares[j] / value(base[j]))
                        } else {
                            0 as real
                        },
                ),
            );
            let w1 = add_up(
                Seq::new(
                    model.names.len(),
                    |j: int|
                        size_of(
                            add_up(shares.take(j + 1)) - add_up(
                                values_of(value, base.take(j + 1)),
                            ),
                        ),
                ),
            );
            &&& anomaly is Some <==> kl >= value(before.dramatic_threshold) || kl >= value(
                before.significant_threshold,
            ) || kl >= value(before.mild_threshold)
            &&& anomaly matches Some(record) ==> {
                &&& record.command@ == command
                &&& value(record.kl_divergence) == kl
                &&& value(record.wasserstein_distance) == w1
                &&& record.timestamp_secs == timestamp_secs
                &&& record.severity == Severity::Dramatic <==> kl >= value(
                    before.dramatic_threshold,
                )
                &&& record.severity == Severity::Significant <==> kl < value(
                    before.dramatic_threshold,
                ) && kl >= value(before.significant_threshold)
            }
            &&& after.history@.len() > 0 ==> {
                &&& value(after.history@.last().kl_divergence) == kl
                &&& value(after.history@.last().wasserstein_distance) == w1
                &&& after.history@.last().timestamp_secs == timestamp_secs
            }
            &&& before.history@.len() < before.max_history ==> after.history@.len()
                == before.history@.len() + 1
        }),
{
    let (kl, w1) = choose|kl: N, w1: N| #[trigger]
        is_kl(model, command, kl) && #[trigger] is_wasserstein_in(model, command, chain, w1)
            && after.has_measured(before, kl, w1, timestamp_secs) && before.is_report(
            command,
            kl,
            w1,
            timestamp_secs,
            anomaly,
        );
    let c = choose|c: MarkovChain| #[trigger] is_kl_in(model, command, c, kl);
    let basis = choose|basis: Option<(Vec<N>, Vec<N>)>| #[trigger]
        is_basis(model, command, c, basis) && is_divergence_of(basis, kl);
    assert(is_rebuilt::<N>(model, c));
    let other = choose|basis: Option<(Vec<N>, Vec<N>)>| #[trigger]
        is_basis(model, command, chain, basis) && is_transport_of(basis, w1);
    assert(is_rebuilt::<N>(model, chain));
    law_kl_of_a_command(value, ln, model, command, c, base, shares, kl);
    law_wasserstein_of_a_command(value, model, command, chain, base, shares, w1);
    law_report_tells_the_measurement(
        value,
        |a: N| true,
        before,
        command,
        kl,
        w1,
        timestamp_secs,
        anomaly,
    );
    law_measurement_is_kept(before, kl, w1, timestamp_secs, after, 0);
}

/// Without rounding, what is detected where there is nothing to compare, at a
/// command that is not known or without a stationary distribution, is a
/// divergence and a distance of zero.
pub proof fn law_detection_without_a_basis<N: ChainNumber>(
    value: spec_fn(N) -> real,
    before: WorkflowAnomaly<N>,
    model: Model,
    command: Seq<char>,
    chain: MarkovChain,
    timestamp_secs: u64,
    after: WorkflowAnomaly<N>,
    anomaly: Option<AnomalyRecord<N>>,
)
    requires
        is_exact(value),
        before.is_detection(model, command, chain, timestamp_secs, after, anomaly),
        !model.known(command) || model.names.len() == 0 || forall|
            c: MarkovChain,
            found: Option<Vec<N>>,
        | #[trigger]
            is_stationary_of(c, found) ==> found is None,
    ensures
        anomaly is Some <==> value(before.dramatic_threshold) <= 0 as real || value(
            before.significant_threshold,
        ) <= 0 as real || value(before.mild_threshold) <= 0 as real,
        after.history@.len() > 0 ==> value(after.history@.last().kl_divergence) == 0 as real
            && value(after.history@.last().wasserstein_distance) == 0 as real
            && after.history@.last().timestamp_secs == timestamp_secs,
{
    let (kl, w1) = choose|kl: N, w1: N| #[trigger]
        is_kl(model, command, kl) && #[trigger] is_wasserstein_in(model, command, chain, w1)
            && after.has_measured(before, kl, w1, timestamp_secs) && before.is_report(
            command,
            kl,
            w1,
            timestamp_secs,
            anomaly,
        );
    let c = choose|c: MarkovChain| #[trigger] is_kl_in(model, command, c, kl);
    if model.known(command) && model.names.len() > 0 {
        let a = choose|a: Option<(Vec<N>, Vec<N>)>| #[trigger]
            is_basis(model, command, c, a) && is_divergence_of(a, kl);
        let b = choose|b: Option<(Vec<N>, Vec<N>)>| #[trigger]
            is_basis(model, command, chain, b) && is_transport_of(b, w1);
        assert(a is None && b is None);
    }
    assert(is_whole(0, kl) && is_whole(0, w1));
    law_report_tells_the_measurement(
        value,
        |a: N| true,
        before,
        command,
        kl,
        w1,
        timestamp_secs,
        anomaly,
    );
    law_measurement_is_kept(before, kl, w1, timestamp_secs, after, 0);
}

} // verus!
