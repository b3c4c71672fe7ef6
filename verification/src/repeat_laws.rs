//! What holds where equal operands give equal results: the same question has the
//! same answer, now and after what is known was stored and restored.

use crate::average::{is_kept, is_moved, is_moved_variance};
use crate::chain::{
    are_answered_alike, are_same_shares, chain_edges, is_chain_deterministic, is_chain_of,
    is_mixing_time_of, is_stationary_of, ChainNumber,
};
use crate::command_predictor::{
    comparable_rows, is_completion, is_entry_or_zero, is_prediction, is_prediction_by, is_ranked,
    is_rebuilt, is_stationary_prob, is_transition_matrix, is_transition_row, matrix_row, Snapshot,
    MIXING_STEPS,
};
use crate::distance::{
    adds_difference, adds_surprise, are_gaps, are_sizes, is_divergence, is_divergence_step,
    is_divergence_upto, is_positive, is_transport, shared_len,
};
use crate::model::Model;
use crate::number::{
    is_deterministic, is_fraction, is_magnitude, is_quotient, is_root, is_sum, is_text,
    is_total, is_truncated, is_whole, Number,
};
use crate::prediction::{commands_of, confidences_of, PredictionResult};
use crate::ranking::law_descent_is_unique;
use crate::resource_predictor::{
    is_batch, is_bytes_text, is_first, is_forecast, is_further, is_observed_trace, is_updated,
    is_warning_text, ResourceAvailability, ResourceModel, ResourceObservation, ResourcePrediction,
    StatsView, GIGABYTE,
};
use crate::smoothing::{is_share, is_smoothed, is_smoothed_total, is_smoothed_total_by};
use crate::trend::{
    is_fitted_slope_by, is_flat, is_mean, is_moment, is_slope, is_square_offset,
};
use crate::workflow_anomaly::{
    is_basis, is_divergence_of, is_kl_in, is_transport_of, is_trend, is_wasserstein_in,
    recent_divergences, DistanceRecord,
};
use ergodic_transport::MarkovChain;
use vstd::prelude::*;

verus! {

proof fn lemma_total_repeats<N: Number>(values: Seq<N>, r: N, s: N)
    requires
        is_deterministic::<N>(),
        is_total(values, r),
        is_total(values, s),
    ensures
        r == s,
    decreases values.len(),
{
    if values.len() > 0 {
        let a = choose|a: N|
            is_total(values.drop_last(), a) && #[trigger] is_sum(a, values.last(), r);
        let b = choose|b: N|
            is_total(values.drop_last(), b) && #[trigger] is_sum(b, values.last(), s);
        lemma_total_repeats(values.drop_last(), a, b);
    } else {
        assert(is_whole(0, r) && is_whole(0, s));
    }
}

proof fn lemma_smoothed_total_repeats<N: Number>(counts: Seq<u64>, r: N, s: N)
    requires
        is_deterministic::<N>(),
        is_smoothed_total(counts, r),
        is_smoothed_total(counts, s),
    ensures
        r == s,
{
    let (values, sum, one, size, raise) = choose|
        values: Seq<N>,
        sum: N,
        one: N,
        size: N,
        raise: N,
    | #[trigger]
        is_smoothed_total_by(counts, values, sum, one, size, raise, r);
    let (values2, sum2, one2, size2, raise2) = choose|
        values: Seq<N>,
        sum: N,
        one: N,
        size: N,
        raise: N,
    | #[trigger]
        is_smoothed_total_by(counts, values, sum, one, size, raise, s);
    assert forall|j: int| 0 <= j < values.len() implies values[j] == values2[j] by {
        assert(is_whole(counts[j], values[j]) && is_whole(counts[j], values2[j]));
    }
    assert(values =~= values2);
    lemma_total_repeats(values, sum, sum2);
}

proof fn lemma_smoothed_repeats<N: Number>(counts: Seq<u64>, row: Seq<N>, other: Seq<N>)
    requires
        is_deterministic::<N>(),
        is_smoothed(counts, row),
        is_smoothed(counts, other),
    ensures
        row == other,
{
    let d = choose|d: N| #[trigger]
        is_smoothed_total(counts, d) && forall|j: int|
            0 <= j < counts.len() ==> is_share(counts[j], d, #[trigger] row[j]);
    let e = choose|e: N| #[trigger]
        is_smoothed_total(counts, e) && forall|j: int|
            0 <= j < counts.len() ==> is_share(counts[j], e, #[trigger] other[j]);
    lemma_smoothed_total_repeats(counts, d, e);
    assert forall|j: int| 0 <= j < row.len() implies row[j] == other[j] by {
        assert(is_share(counts[j], d, row[j]) && is_share(counts[j], d, other[j]));
    }
    assert(row =~= other);
}

/// The probabilities of the steps out of a state are the same each time.
pub proof fn law_rows_repeat<N: Number>(model: Model, i: int, row: Seq<N>, other: Seq<N>)
    requires
        is_deterministic::<N>(),
        is_transition_row(model, i, row),
        is_transition_row(model, i, other),
    ensures
        row == other,
{
    if i < model.names.len() {
        lemma_smoothed_repeats(model.row(i), row, other);
    } else {
        assert forall|j: int| 0 <= j < row.len() implies row[j] == other[j] by {
            assert(is_whole(0, row[j]) && is_whole(0, other[j]));
        }
        assert(row =~= other);
    }
}

/// Two results predict the same.
pub open spec fn are_alike<N: Number>(
    first: PredictionResult<N>,
    second: PredictionResult<N>,
) -> bool {
    &&& first.current_command@ == second.current_command@
    &&& first.num_states == second.num_states
    &&& first.total_transitions == second.total_transitions
    &&& commands_of(first.predictions@) == commands_of(second.predictions@)
    &&& confidences_of(first.predictions@) == confidences_of(second.predictions@)
}

/// Asking for more predictions only adds to the end of the list.
pub proof fn law_predictions_extend<N: Number>(
    model: Model,
    current: Seq<char>,
    fewer: usize,
    fewer_result: PredictionResult<N>,
    more: usize,
    more_result: PredictionResult<N>,
)
    requires
        is_deterministic::<N>(),
        comparable_rows::<N>(model, model.index[current] as int),
        fewer <= more,
        is_prediction(model, current, fewer, fewer_result),
        is_prediction(model, current, more, more_result),
    ensures
        commands_of(fewer_result.predictions@).is_prefix_of(commands_of(more_result.predictions@)),
        confidences_of(fewer_result.predictions@).is_prefix_of(
            confidences_of(more_result.predictions@),
        ),
{
    let (order, row) = choose|order: Seq<usize>, row: Seq<N>| #[trigger]
        is_prediction_by(model, current, fewer, order, row, fewer_result);
    let (other, other_row) = choose|order: Seq<usize>, row: Seq<N>| #[trigger]
        is_prediction_by(model, current, more, order, row, more_result);
    law_rows_repeat(model, model.index[current] as int, row, other_row);
    law_descent_is_unique(row, order, other);
    let few = fewer_result.predictions@;
    let many = more_result.predictions@;
    assert forall|r: int| 0 <= r < few.len() implies (#[trigger] few[r]).command@
        == many[r].command@ && few[r].confidence == many[r].confidence by {
        assert(is_ranked(model, order, row, r, few[r]));
        assert(is_ranked(model, order, row, r, many[r]));
    }
    assert(commands_of(few) =~= commands_of(many).subrange(0, few.len() as int));
    assert(confidences_of(few) =~= confidences_of(many).subrange(0, few.len() as int));
}

/// Predictors that know the same predict the same: when asked again, and after
/// one was restored from what was kept of the other.
pub proof fn law_equal_models_predict_alike<N: Number>(
    model: Model,
    current: Seq<char>,
    k: usize,
    first: PredictionResult<N>,
    second: PredictionResult<N>,
)
    requires
        is_deterministic::<N>(),
        comparable_rows::<N>(model, model.index[current] as int),
        is_prediction(model, current, k, first),
        is_prediction(model, current, k, second),
    ensures
        are_alike(first, second),
{
    law_predictions_extend(model, current, k, first, k, second);
    assert(commands_of(first.predictions@) =~= commands_of(second.predictions@));
    assert(confidences_of(first.predictions@) =~= confidences_of(second.predictions@));
}

/// A predictor that is restored from the snapshot of another predicts what that
/// one predicted.
pub proof fn law_restored_predicts_alike<N: Number>(
    snapshot: Snapshot,
    kept: Model,
    restored: Model,
    current: Seq<char>,
    k: usize,
    first: PredictionResult<N>,
    second: PredictionResult<N>,
)
    requires
        is_deterministic::<N>(),
        snapshot.restores(kept),
        snapshot.restores(restored),
        comparable_rows::<N>(kept, kept.index[current] as int),
        is_prediction(kept, current, k, first),
        is_prediction(restored, current, k, second),
    ensures
        are_alike(first, second),
{
    law_equal_models_predict_alike(kept, current, k, first, second);
}

/// The completion of a command is its first prediction.
pub proof fn law_completion_is_first_prediction<N: Number>(
    model: Model,
    current: Seq<char>,
    k: usize,
    result: PredictionResult<N>,
    completion: Seq<char>,
)
    requires
        is_deterministic::<N>(),
        comparable_rows::<N>(model, model.index[current] as int),
        k > 0,
        is_prediction(model, current, k, result),
        is_completion::<N>(model, current, completion),
    ensures
        result.predictions@.len() > 0,
        completion == result.predictions@[0].command@,
{
    let single = choose|single: PredictionResult<N>| #[trigger]
        is_prediction(model, current, 1, single) && single.predictions@.len() == 1
            && single.predictions@[0].command@ == completion;
    law_predictions_extend(model, current, 1, single, k, result);
    let head = commands_of(single.predictions@);
    let whole = commands_of(result.predictions@);
    assert(head[0] == completion);
    assert(whole[0] == head[0]);
}

proof fn lemma_divergence_repeats<N: Number>(row: Seq<N>, base: Seq<N>, len: nat, r: N, s: N)
    requires
        is_deterministic::<N>(),
        is_divergence_upto(row, base, len, r),
        is_divergence_upto(row, base, len, s),
    ensures
        r == s,
    decreases len,
{
    if len > 0 {
        let last = len - 1;
        let p = row[last];
        let q = base[last];
        let a = choose|a: N|
            is_divergence_upto(row, base, last as nat, a) && #[trigger] is_divergence_step(
                a,
                p,
                q,
                r,
            );
        let b = choose|b: N|
            is_divergence_upto(row, base, last as nat, b) && #[trigger] is_divergence_step(
                b,
                p,
                q,
                s,
            );
        lemma_divergence_repeats(row, base, last as nat, a, b);
        assert(!(is_positive(p, true) && is_positive(p, false)));
        assert(!(is_positive(q, true) && is_positive(q, false)));
        if adds_surprise(a, p, q, r) && adds_surprise(a, p, q, s) {
            assert(r == s);
        }
    } else {
        assert(is_whole(0, r) && is_whole(0, s));
    }
}

/// The divergence of the same distributions is the same each time.
pub proof fn law_divergence_repeats<N: Number>(row: Seq<N>, base: Seq<N>, r: N, s: N)
    requires
        is_deterministic::<N>(),
        is_divergence(row, base, r),
        is_divergence(row, base, s),
    ensures
        r == s,
{
    lemma_divergence_repeats(row, base, shared_len(row, base), r, s);
}

proof fn lemma_gap_repeats<N: Number>(
    row: Seq<N>,
    base: Seq<N>,
    gaps: Seq<N>,
    others: Seq<N>,
    len: nat,
    j: int,
)
    requires
        is_deterministic::<N>(),
        are_gaps(row, base, gaps, len),
        are_gaps(row, base, others, len),
        0 <= j <= len,
    ensures
        gaps[j] == others[j],
    decreases j,
{
    if j > 0 {
        lemma_gap_repeats(row, base, gaps, others, len, j - 1);
        assert(adds_difference(gaps[j - 1], row[j - 1], base[j - 1], gaps[j]));
        assert(adds_difference(others[j - 1], row[j - 1], base[j - 1], others[j]));
    } else {
        assert(is_whole(0, gaps[0]) && is_whole(0, others[0]));
    }
}

/// The Wasserstein-1 distance of the same distributions is the same each time.
pub proof fn law_transport_repeats<N: Number>(row: Seq<N>, base: Seq<N>, r: N, s: N)
    requires
        is_deterministic::<N>(),
        is_transport(row, base, r),
        is_transport(row, base, s),
    ensures
        r == s,
{
    let len = shared_len(row, base);
    let (gaps, sizes) = choose|gaps: Seq<N>, sizes: Seq<N>|
        are_gaps(row, base, gaps, len) && #[trigger] are_sizes(gaps, sizes) && #[trigger] is_total(
            sizes,
            r,
        );
    let (others, other_sizes) = choose|gaps: Seq<N>, sizes: Seq<N>|
        are_gaps(row, base, gaps, len) && #[trigger] are_sizes(gaps, sizes) && #[trigger] is_total(
            sizes,
            s,
        );
    assert forall|j: int| 0 <= j < sizes.len() implies sizes[j] == other_sizes[j] by {
        lemma_gap_repeats(row, base, gaps, others, len, j + 1);
        assert(is_magnitude(gaps[j + 1], sizes[j]) && is_magnitude(others[j + 1], other_sizes[j]));
    }
    assert(sizes =~= other_sizes);
    lemma_total_repeats(sizes, r, s);
}

/// The trend of the same values is the same each time.
pub proof fn law_slope_repeats<N: Number>(values: Seq<N>, r: N, s: N)
    requires
        is_deterministic::<N>(),
        is_slope(values, r),
        is_slope(values, s),
    ensures
        r == s,
{
    if values.len() < 2 {
        assert(is_whole(0, r) && is_whole(0, s));
    } else {
        let (middle, mean, moments, squares, rise, run) = choose|
            middle: N,
            mean: N,
            moments: Seq<N>,
            squares: Seq<N>,
            rise: N,
            run: N,
        | #[trigger]
            is_fitted_slope_by(values, middle, mean, moments, squares, rise, run, r);
        let (middle2, mean2, moments2, squares2, rise2, run2) = choose|
            middle: N,
            mean: N,
            moments: Seq<N>,
            squares: Seq<N>,
            rise: N,
            run: N,
        | #[trigger]
            is_fitted_slope_by(values, middle, mean, moments, squares, rise, run, s);
        assert(middle == middle2);
        lemma_mean_repeats(values, mean, mean2);
        assert forall|i: int| 0 <= i < moments.len() implies moments[i] == moments2[i] by {
            assert(is_moment(i as u64, middle, values[i], mean, moments[i]));
            assert(is_moment(i as u64, middle, values[i], mean, moments2[i]));
        }
        assert(moments =~= moments2);
        assert forall|i: int| 0 <= i < squares.len() implies squares[i] == squares2[i] by {
            assert(is_square_offset(i as u64, middle, squares[i]));
            assert(is_square_offset(i as u64, middle, squares2[i]));
        }
        assert(squares =~= squares2);
        lemma_total_repeats(moments, rise, rise2);
        lemma_total_repeats(squares, run, run2);
        assert(!(is_flat(run, true) && is_flat(run, false)));
    }
}

proof fn lemma_mean_repeats<N: Number>(values: Seq<N>, r: N, s: N)
    requires
        is_deterministic::<N>(),
        is_mean(values, r),
        is_mean(values, s),
    ensures
        r == s,
{
    let (size, sum) = choose|size: N, sum: N|
        is_whole(values.len() as u64, size) && is_total(values, sum) && #[trigger] is_quotient(
            sum,
            size,
            r,
        );
    let (size2, sum2) = choose|size: N, sum: N|
        is_whole(values.len() as u64, size) && is_total(values, sum) && #[trigger] is_quotient(
            sum,
            size,
            s,
        );
    lemma_total_repeats(values, sum, sum2);
}

/// Two histories with the same divergences in the window have the same trend:
/// older measurements, times and Wasserstein-1 distances play no part.
pub proof fn law_equal_windows_trend_alike<N: Number>(
    history: Seq<DistanceRecord<N>>,
    window: usize,
    r: N,
    other: Seq<DistanceRecord<N>>,
    other_window: usize,
    s: N,
)
    requires
        is_deterministic::<N>(),
        recent_divergences(history, window) == recent_divergences(other, other_window),
        is_trend(history, window, r),
        is_trend(other, other_window, s),
    ensures
        r == s,
{
    law_slope_repeats(recent_divergences(history, window), r, s);
}

/// The text of a warning.
pub open spec fn warning_of(prediction: ResourcePrediction) -> Option<Seq<char>> {
    match prediction.warning_message {
        Some(message) => Some(message@),
        None => None,
    }
}

/// What is available changes nothing of what a run is predicted to use, only
/// whether there is a warning; and of it only the free memory counts.
pub proof fn law_availability_only_warns<N: Number>(
    command: Seq<char>,
    stats: StatsView<N>,
    available: Option<ResourceAvailability>,
    p: ResourcePrediction,
    other: Option<ResourceAvailability>,
    q: ResourcePrediction,
)
    requires
        is_deterministic::<N>(),
        is_forecast(command, stats, available, p),
        is_forecast(command, stats, other, q),
    ensures
        p.command@ == q.command@,
        p.predicted_memory_bytes == q.predicted_memory_bytes,
        p.predicted_cpu_ms == q.predicted_cpu_ms,
        p.predicted_duration_ms == q.predicted_duration_ms,
        p.observation_count == q.observation_count,
        available is None ==> !p.is_warning,
        (available is Some <==> other is Some) && (available is Some
            ==> available->0.free_memory_bytes == other->0.free_memory_bytes) ==> p.is_warning
            == q.is_warning && warning_of(p) == warning_of(q),
{
    let (deviation, sum) = choose|deviation: N, sum: N| #[trigger]
        is_root(stats.memory_var, deviation) && #[trigger] is_sum(
            stats.memory_ema,
            deviation,
            sum,
        ) && is_truncated(sum, p.predicted_memory_bytes);
    let (deviation2, sum2) = choose|deviation: N, sum: N| #[trigger]
        is_root(stats.memory_var, deviation) && #[trigger] is_sum(
            stats.memory_ema,
            deviation,
            sum,
        ) && is_truncated(sum, q.predicted_memory_bytes);
    assert(is_truncated(sum, p.predicted_memory_bytes) && is_truncated(
        sum2,
        q.predicted_memory_bytes,
    ));
    assert(is_truncated(stats.cpu_ema, p.predicted_cpu_ms) && is_truncated(
        stats.cpu_ema,
        q.predicted_cpu_ms,
    ));
    assert(is_truncated(stats.duration_ema, p.predicted_duration_ms) && is_truncated(
        stats.duration_ema,
        q.predicted_duration_ms,
    ));
    if p.warning_message is Some && q.warning_message is Some
        && available->0.free_memory_bytes == other->0.free_memory_bytes {
        lemma_warning_repeats::<N>(
            p.predicted_memory_bytes,
            available->0.free_memory_bytes,
            p.warning_message->0@,
            q.warning_message->0@,
        );
    }
}

proof fn lemma_bytes_text_repeats<N: Number>(bytes: u64, r: Seq<char>, s: Seq<char>)
    requires
        is_deterministic::<N>(),
        is_bytes_text::<N>(bytes, GIGABYTE, r),
        is_bytes_text::<N>(bytes, GIGABYTE, s),
    ensures
        r == s,
{
    let a = choose|a: N| #[trigger] is_fraction(bytes, GIGABYTE, a) && is_text(a, 1, r);
    let b = choose|b: N| #[trigger] is_fraction(bytes, GIGABYTE, b) && is_text(b, 1, s);
    assert(a == b);
    assert(is_text(a, 1, r) && is_text(b, 1, s));
}

proof fn lemma_warning_repeats<N: Number>(predicted: u64, free: u64, r: Seq<char>, s: Seq<char>)
    requires
        is_deterministic::<N>(),
        is_warning_text::<N>(predicted, free, r),
        is_warning_text::<N>(predicted, free, s),
    ensures
        r == s,
{
    let (a, b) = choose|a: Seq<char>, b: Seq<char>| #[trigger]
        is_bytes_text::<N>(predicted, GIGABYTE, a) && #[trigger] is_bytes_text::<N>(
            free,
            GIGABYTE,
            b,
        ) && r == "This build typically uses "@ + a + " GB. You have "@ + b + " GB free."@;
    let (c, d) = choose|a: Seq<char>, b: Seq<char>| #[trigger]
        is_bytes_text::<N>(predicted, GIGABYTE, a) && #[trigger] is_bytes_text::<N>(
            free,
            GIGABYTE,
            b,
        ) && s == "This build typically uses "@ + a + " GB. You have "@ + b + " GB free."@;
    lemma_bytes_text_repeats::<N>(predicted, a, c);
    lemma_bytes_text_repeats::<N>(free, b, d);
}

proof fn lemma_moved_repeats<N: Number>(alpha: N, x: u64, before: N, r: N, s: N)
    requires
        is_deterministic::<N>(),
        is_moved(alpha, x, before, r),
        is_moved(alpha, x, before, s),
    ensures
        r == s,
{
    assert(forall|k: N, l: N|
        #[trigger] is_kept(alpha, before, k) && #[trigger] is_kept(alpha, before, l) ==> k == l);
}

proof fn lemma_moved_variance_repeats<N: Number>(
    alpha: N,
    x: u64,
    mean: N,
    before: N,
    r: N,
    s: N,
)
    requires
        is_deterministic::<N>(),
        is_moved_variance(alpha, x, mean, before, r),
        is_moved_variance(alpha, x, mean, before, s),
    ensures
        r == s,
{
    assert(forall|k: N, l: N|
        #[trigger] is_kept(alpha, before, k) && #[trigger] is_kept(alpha, before, l) ==> k == l);
}

/// Observing the same run gives the same each time.
pub proof fn law_observing_repeats<N: Number>(
    before: ResourceModel<N>,
    command: Seq<char>,
    obs: ResourceObservation,
    first: ResourceModel<N>,
    second: ResourceModel<N>,
)
    requires
        is_deterministic::<N>(),
        before.is_observed(command, obs, first),
        before.is_observed(command, obs, second),
    ensures
        first == second,
{
    let known = before.stats_of(command);
    let a = choose|stats: StatsView<N>| #[trigger]
        is_updated(before.alpha, command, known, obs, stats) && first == before.with_stats(
            command,
            stats,
        );
    let b = choose|stats: StatsView<N>| #[trigger]
        is_updated(before.alpha, command, known, obs, stats) && second == before.with_stats(
            command,
            stats,
        );
    if known is Some && known->0.observation_count > 0 {
        let stats = known->0;
        assert(is_further(before.alpha, stats, obs, a) && is_further(
            before.alpha,
            stats,
            obs,
            b,
        ));
        lemma_moved_repeats(
            before.alpha,
            obs.memory_bytes,
            stats.memory_ema,
            a.memory_ema,
            b.memory_ema,
        );
        lemma_moved_repeats(before.alpha, obs.cpu_time_ms, stats.cpu_ema, a.cpu_ema, b.cpu_ema);
        lemma_moved_repeats(
            before.alpha,
            obs.duration_ms,
            stats.duration_ema,
            a.duration_ema,
            b.duration_ema,
        );
        lemma_moved_variance_repeats(
            before.alpha,
            obs.memory_bytes,
            a.memory_ema,
            stats.memory_var,
            a.memory_var,
            b.memory_var,
        );
    } else {
        assert(is_first(obs, a) && is_first(obs, b));
    }
    assert(a =~= b);
}

proof fn lemma_trace_repeats<N: Number>(
    command: Seq<char>,
    observations: Seq<ResourceObservation>,
    models: Seq<ResourceModel<N>>,
    others: Seq<ResourceModel<N>>,
    i: int,
)
    requires
        is_deterministic::<N>(),
        is_observed_trace(command, observations, models),
        is_observed_trace(command, observations, others),
        models[0] == others[0],
        0 <= i <= observations.len(),
    ensures
        models[i] == others[i],
    decreases i,
{
    if i > 0 {
        lemma_trace_repeats(command, observations, models, others, i - 1);
        assert(models[i - 1].is_observed(command, observations[i - 1], models[i - 1 + 1]));
        assert(others[i - 1].is_observed(command, observations[i - 1], others[i - 1 + 1]));
        law_observing_repeats(
            models[i - 1],
            command,
            observations[i - 1],
            models[i],
            others[i],
        );
    }
}

/// Observing the same runs gives the same each time.
pub proof fn law_batches_repeat<N: Number>(
    before: ResourceModel<N>,
    command: Seq<char>,
    observations: Seq<ResourceObservation>,
    first: ResourceModel<N>,
    second: ResourceModel<N>,
)
    requires
        is_deterministic::<N>(),
        is_batch(before, command, observations, first),
        is_batch(before, command, observations, second),
    ensures
        first == second,
{
    let a = choose|models: Seq<ResourceModel<N>>| #[trigger]
        is_observed_trace(command, observations, models) && models.first() == before
            && models.last() == first;
    let b = choose|models: Seq<ResourceModel<N>>| #[trigger]
        is_observed_trace(command, observations, models) && models.first() == before
            && models.last() == second;
    lemma_trace_repeats(command, observations, a, b, observations.len() as int);
}

/// The transition matrix is the same each time.
pub proof fn law_matrices_repeat<N: Number>(model: Model, flat: Seq<N>, other: Seq<N>)
    requires
        is_deterministic::<N>(),
        is_transition_matrix(model, flat),
        is_transition_matrix(model, other),
    ensures
        flat == other,
{
    let n = model.names.len() as int;
    assert forall|c: int| 0 <= c < flat.len() implies flat[c] == other[c] by {
        let i = c / n;
        let j = c % n;
        assert(0 <= i < n && 0 <= j < n && c == i * n + j) by (nonlinear_arith)
            requires
                0 <= c < n * n,
                n >= 0,
                i == c / n,
                j == c % n,
        ;
        assert(0 <= i * n && i * n + n <= n * n) by (nonlinear_arith)
            requires
                0 <= i < n,
        ;
        lemma_smoothed_repeats(
            model.row(i),
            matrix_row(flat, n, i),
            matrix_row(other, n, i),
        );
        assert(matrix_row(flat, n, i)[j] == flat[c]);
        assert(matrix_row(other, n, i)[j] == other[c]);
    }
    assert(flat =~= other);
}

/// Chains that are rebuilt from the same counts are answered alike: they have the
/// same stationary distribution and the same mixing times.
pub proof fn law_rebuilt_chains_are_answered_alike<N: ChainNumber>(
    model: Model,
    first: MarkovChain,
    second: MarkovChain,
)
    requires
        is_deterministic::<N>(),
        is_chain_deterministic::<N>(),
        is_rebuilt::<N>(model, first),
        is_rebuilt::<N>(model, second),
    ensures
        are_answered_alike::<N>(first, second),
{
    if model.names.len() > 0 {
        let n = model.names.len() as usize;
        let a = choose|flat: Vec<N>|
            is_transition_matrix(model, flat@) && #[trigger] is_chain_of(n, flat, first);
        let b = choose|flat: Vec<N>|
            is_transition_matrix(model, flat@) && #[trigger] is_chain_of(n, flat, second);
        law_matrices_repeat(model, a@, b@);
    } else {
        assert(chain_edges(first).len() == 0 && chain_edges(second).len() == 0);
    }
}

/// The stationary distribution of the same counts is the same each time.
pub proof fn law_stationary_distribution_repeats<N: ChainNumber>(
    model: Model,
    first: MarkovChain,
    a: Option<Vec<N>>,
    second: MarkovChain,
    b: Option<Vec<N>>,
)
    requires
        is_deterministic::<N>(),
        is_chain_deterministic::<N>(),
        is_rebuilt::<N>(model, first),
        is_stationary_of(first, a),
        is_rebuilt::<N>(model, second),
        is_stationary_of(second, b),
    ensures
        are_same_shares(a, b),
{
    law_rebuilt_chains_are_answered_alike::<N>(model, first, second);
}

/// The stationary probability of a command is the same each time.
pub proof fn law_stationary_prob_repeats<N: ChainNumber>(
    model: Model,
    command: Seq<char>,
    first: MarkovChain,
    r: N,
    second: MarkovChain,
    s: N,
)
    requires
        is_deterministic::<N>(),
        is_chain_deterministic::<N>(),
        is_rebuilt::<N>(model, first),
        is_stationary_prob(model, first, command, r),
        is_rebuilt::<N>(model, second),
        is_stationary_prob(model, second, command, s),
    ensures
        r == s,
{
    if model.names.len() < 2 {
        assert(is_whole(0, r) && is_whole(0, s));
    } else {
        let idx = model.index[command] as int;
        let a = choose|a: Option<Vec<N>>| #[trigger]
            is_stationary_of(first, a) && is_entry_or_zero(a, idx, r);
        let b = choose|b: Option<Vec<N>>| #[trigger]
            is_stationary_of(second, b) && is_entry_or_zero(b, idx, s);
        law_stationary_distribution_repeats(model, first, a, second, b);
        assert(is_entry_or_zero(a, idx, r) && is_entry_or_zero(b, idx, s));
    }
}

/// The mixing time of the same counts is the same each time.
pub proof fn law_mixing_time_repeats<N: ChainNumber>(
    model: Model,
    epsilon: N,
    first: MarkovChain,
    a: Option<usize>,
    second: MarkovChain,
    b: Option<usize>,
)
    requires
        is_deterministic::<N>(),
        is_chain_deterministic::<N>(),
        is_rebuilt::<N>(model, first),
        is_mixing_time_of(first, epsilon, MIXING_STEPS, a),
        is_rebuilt::<N>(model, second),
        is_mixing_time_of(second, epsilon, MIXING_STEPS, b),
    ensures
        a == b,
{
    law_rebuilt_chains_are_answered_alike::<N>(model, first, second);
}

proof fn lemma_bases_repeat<N: ChainNumber>(
    model: Model,
    command: Seq<char>,
    first: MarkovChain,
    a: Option<(Vec<N>, Vec<N>)>,
    second: MarkovChain,
    b: Option<(Vec<N>, Vec<N>)>,
)
    requires
        is_deterministic::<N>(),
        is_chain_deterministic::<N>(),
        is_basis(model, command, first, a),
        is_basis(model, command, second, b),
    ensures
        match (a, b) {
            (Some((row, base)), Some((other_row, other_base))) => row@ == other_row@ && base@
                == other_base@,
            (None, None) => true,
            _ => false,
        },
{
    let idx = model.index[command] as int;
    let x = choose|x: Option<Vec<N>>| #[trigger]
        is_stationary_of(first, x) && match a {
            Some((row, base)) => x == Some(base) && is_transition_row(model, idx, row@),
            None => x is None,
        };
    let y = choose|y: Option<Vec<N>>| #[trigger]
        is_stationary_of(second, y) && match b {
            Some((row, base)) => y == Some(base) && is_transition_row(model, idx, row@),
            None => y is None,
        };
    law_stationary_distribution_repeats(model, first, x, second, y);
    if let (Some((row, base)), Some((other_row, other_base))) = (a, b) {
        law_rows_repeat(model, idx, row@, other_row@);
    }
}

/// The divergence of what follows a command is the same each time.
pub proof fn law_kl_repeats<N: ChainNumber>(
    model: Model,
    command: Seq<char>,
    first: MarkovChain,
    r: N,
    second: MarkovChain,
    s: N,
)
    requires
        is_deterministic::<N>(),
        is_chain_deterministic::<N>(),
        is_kl_in(model, command, first, r),
        is_kl_in(model, command, second, s),
    ensures
        r == s,
{
    if model.known(command) && model.names.len() > 0 {
        let a = choose|a: Option<(Vec<N>, Vec<N>)>| #[trigger]
            is_basis(model, command, first, a) && is_divergence_of(a, r);
        let b = choose|b: Option<(Vec<N>, Vec<N>)>| #[trigger]
            is_basis(model, command, second, b) && is_divergence_of(b, s);
        lemma_bases_repeat(model, command, first, a, second, b);
        assert(is_divergence_of(a, r) && is_divergence_of(b, s));
        match a {
            Some((row, base)) => law_divergence_repeats(row@, base@, r, s),
            None => assert(is_whole(0, r) && is_whole(0, s)),
        }
    } else {
        assert(is_whole(0, r) && is_whole(0, s));
    }
}

/// The Wasserstein-1 distance of what follows a command is the same each time.
pub proof fn law_wasserstein_repeats<N: ChainNumber>(
    model: Model,
    command: Seq<char>,
    first: MarkovChain,
    r: N,
    second: MarkovChain,
    s: N,
)
    requires
        is_deterministic::<N>(),
        is_chain_deterministic::<N>(),
        is_wasserstein_in(model, command, first, r),
        is_wasserstein_in(model, command, second, s),
    ensures
        r == s,
{
    if model.known(command) && model.names.len() > 0 {
        let a = choose|a: Option<(Vec<N>, Vec<N>)>| #[trigger]
            is_basis(model, command, first, a) && is_transport_of(a, r);
        let b = choose|b: Option<(Vec<N>, Vec<N>)>| #[trigger]
            is_basis(model, command, second, b) && is_transport_of(b, s);
        lemma_bases_repeat(model, command, first, a, second, b);
        assert(is_transport_of(a, r) && is_transport_of(b, s));
        match a {
            Some((row, base)) => law_transport_repeats(row@, base@, r, s),
            None => assert(is_whole(0, r) && is_whole(0, s)),
        }
    } else {
        assert(is_whole(0, r) && is_whole(0, s));
    }
}

} // verus!
