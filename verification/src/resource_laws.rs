//! What holds of every resource predictor, whatever was observed.

use crate::average::{
    law_moved_is_the_weighted_mean, law_moved_lies_between,
    law_moved_variance_is_the_weighted_mean, law_variance_is_not_negative,
};
use crate::exact::{add_up, is_exact, lemma_total_is_exact, orders, values_of};
use crate::names::{entries_map, entries_order};
use crate::number::{
    compares_reaching, is_fraction, is_quotient, is_root, is_sum, is_truncated, is_whole, Number,
};
use crate::resource_predictor::{
    is_batch, is_cv, is_first, is_forecast, is_further, is_in_unit, is_memory_text,
    is_observed_trace,
    is_total_variance, is_updated, is_without_memory, model_of, ResourceAvailability, ResourceModel, ResourceObservation, ResourcePrediction,
    ResourceStats, StatsView,
};
use vstd::prelude::*;

verus! {

/// Observing a run of a command counts it once, and changes nothing of any other
/// command.
pub proof fn law_observing_counts_once<N: Number>(
    before: ResourceModel<N>,
    command: Seq<char>,
    obs: ResourceObservation,
    after: ResourceModel<N>,
    other: Seq<char>,
)
    requires
        before.is_observed(command, obs, after),
        before.observations(command) < u64::MAX,
    ensures
        after.observations(command) == before.observations(command) + 1,
        after.alpha == before.alpha,
        other != command ==> after.stats_of(other) == before.stats_of(other),
{
}

/// After a run was observed, its memory lies between the least and the most
/// memory of its command, and so does all that lay there before.
pub proof fn law_observing_widens_the_bounds<N: Number>(
    before: ResourceModel<N>,
    command: Seq<char>,
    obs: ResourceObservation,
    after: ResourceModel<N>,
)
    requires
        before.is_observed(command, obs, after),
    ensures
        after.known(command),
        after.stats[command].memory_min <= obs.memory_bytes <= after.stats[command].memory_max,
        before.known(command) ==> after.stats[command].memory_min
            <= before.stats[command].memory_min && before.stats[command].memory_max
            <= after.stats[command].memory_max,
{
}

/// After several runs of a command were observed, each has been counted, the
/// memory of each lies between the least and the most memory of the command, and
/// nothing has changed of any other command.
pub proof fn law_batch_counts_every_run<N: Number>(
    command: Seq<char>,
    observations: Seq<ResourceObservation>,
    models: Seq<ResourceModel<N>>,
    other: Seq<char>,
)
    requires
        is_observed_trace(command, observations, models),
        models.first().observations(command) + observations.len() <= u64::MAX,
    ensures
        models.last().observations(command) == models.first().observations(command)
            + observations.len(),
        models.last().alpha == models.first().alpha,
        other != command ==> models.last().stats_of(other) == models.first().stats_of(other),
        forall|i: int|
            0 <= i < observations.len() ==> models.last().known(command)
                && models.last().stats[command].memory_min <= (
            #[trigger] observations[i]).memory_bytes <= models.last().stats[command].memory_max,
    decreases observations.len(),
{
    if observations.len() > 0 {
        let last = observations.len() - 1;
        let fewer = observations.drop_last();
        let earlier = models.drop_last();
        assert forall|i: int| 0 <= i < fewer.len() implies (#[trigger] earlier[i]).is_observed(
            command,
            fewer[i],
            earlier[i + 1],
        ) by {
            assert(models[i].is_observed(command, observations[i], models[i + 1]));
        }
        law_batch_counts_every_run(command, fewer, earlier, other);
        assert(models[last].is_observed(command, observations[last], models[last + 1]));
        assert(earlier.last() == models[last]);
        law_observing_counts_once(models[last], command, observations[last], models.last(), other);
        law_observing_widens_the_bounds(models[last], command, observations[last], models.last());
        assert forall|i: int| 0 <= i < observations.len() implies models.last().known(command)
            && models.last().stats[command].memory_min <= (
        #[trigger] observations[i]).memory_bytes <= models.last().stats[command].memory_max by {
            if i < last {
                assert(fewer[i] == observations[i]);
            }
        }
    }
}

/// A predictor that is restored from the entries of another, with the same
/// weight, knows what that one knew.
pub proof fn law_entries_restore_the_model<N: Number>(
    entries: Seq<(String, ResourceStats<N>)>,
    kept: ResourceModel<N>,
    restored: ResourceModel<N>,
)
    requires
        kept == model_of(kept.alpha, entries),
        restored == model_of(kept.alpha, entries),
    ensures
        restored == kept,
{
}

proof fn lemma_traces_join<N: Number>(
    command: Seq<char>,
    first: Seq<ResourceObservation>,
    left: Seq<ResourceModel<N>>,
    second: Seq<ResourceObservation>,
    right: Seq<ResourceModel<N>>,
)
    requires
        is_observed_trace(command, first, left),
        is_observed_trace(command, second, right),
        left.last() == right.first(),
    ensures
        is_observed_trace(command, first + second, left + right.drop_first()),
        (left + right.drop_first()).first() == left.first(),
        (left + right.drop_first()).last() == right.last(),
{
    let models = left + right.drop_first();
    let all = first + second;
    assert forall|i: int| 0 <= i < all.len() implies (#[trigger] models[i]).is_observed(
        command,
        all[i],
        models[i + 1],
    ) by {
        if i < first.len() {
            assert(left[i].is_observed(command, first[i], left[i + 1]));
            assert(models[i] == left[i] && models[i + 1] == left[i + 1] && all[i] == first[i]);
        } else {
            let j = i - first.len();
            assert(right[j].is_observed(command, second[j], right[j + 1]));
            assert(models[i + 1] == right[j + 1] && all[i] == second[j]);
            assert(models[i] == right[j]);
        }
    }
}

proof fn lemma_trace_splits<N: Number>(
    command: Seq<char>,
    first: Seq<ResourceObservation>,
    second: Seq<ResourceObservation>,
    models: Seq<ResourceModel<N>>,
)
    requires
        is_observed_trace(command, first + second, models),
    ensures
        is_observed_trace(command, first, models.take((first.len() + 1) as int)),
        is_observed_trace(command, second, models.skip(first.len() as int)),
{
    let all = first + second;
    let left = models.take((first.len() + 1) as int);
    let right = models.skip(first.len() as int);
    assert forall|i: int| 0 <= i < first.len() implies (#[trigger] left[i]).is_observed(
        command,
        first[i],
        left[i + 1],
    ) by {
        assert(models[i].is_observed(command, all[i], models[i + 1]));
        assert(left[i] == models[i] && left[i + 1] == models[i + 1] && all[i] == first[i]);
    }
    assert forall|i: int| 0 <= i < second.len() implies (#[trigger] right[i]).is_observed(
        command,
        second[i],
        right[i + 1],
    ) by {
        let j = first.len() + i;
        assert(models[j].is_observed(command, all[j], models[j + 1]));
        assert(right[i] == models[j] && right[i + 1] == models[j + 1] && all[j] == second[i]);
    }
}

/// Observing two batches one after the other is observing them as one.
pub proof fn law_batches_join<N: Number>(
    before: ResourceModel<N>,
    command: Seq<char>,
    first: Seq<ResourceObservation>,
    between: ResourceModel<N>,
    second: Seq<ResourceObservation>,
    after: ResourceModel<N>,
)
    requires
        is_batch(before, command, first, between),
        is_batch(between, command, second, after),
    ensures
        is_batch(before, command, first + second, after),
{
    let left = choose|models: Seq<ResourceModel<N>>| #[trigger]
        is_observed_trace(command, first, models) && models.first() == before && models.last()
            == between;
    let right = choose|models: Seq<ResourceModel<N>>| #[trigger]
        is_observed_trace(command, second, models) && models.first() == between && models.last()
            == after;
    lemma_traces_join(command, first, left, second, right);
}

/// Observing a batch is observing its beginning and then the rest.
pub proof fn law_batch_splits<N: Number>(
    before: ResourceModel<N>,
    command: Seq<char>,
    first: Seq<ResourceObservation>,
    second: Seq<ResourceObservation>,
    after: ResourceModel<N>,
)
    requires
        is_batch(before, command, first + second, after),
    ensures
        exists|between: ResourceModel<N>| #[trigger]
            is_batch(before, command, first, between) && is_batch(
                between,
                command,
                second,
                after,
            ),
{
    let models = choose|models: Seq<ResourceModel<N>>| #[trigger]
        is_observed_trace(command, first + second, models) && models.first() == before
            && models.last() == after;
    lemma_trace_splits(command, first, second, models);
    let between = models[first.len() as int];
    let left = models.take((first.len() + 1) as int);
    let right = models.skip(first.len() as int);
    assert(left.first() == before && left.last() == between);
    assert(right.first() == between && right.last() == after);
    assert(is_batch(before, command, first, between));
}

/// The weight lies between zero and one. Of every command that is known there is
/// an observation, its name is right, its average memory lies between the least
/// and the most memory observed, and its variance is not negative.
pub open spec fn is_sound<N: Number>(value: spec_fn(N) -> real, model: ResourceModel<N>) -> bool {
    &&& value(model.alpha) >= 0 as real
    &&& value(model.alpha) <= 1 as real
    &&& forall|command: Seq<char>| #[trigger]
        model.known(command) ==> is_sound_of(value, command, model.stats[command])
}

/// What [`is_sound`] says of one command.
pub open spec fn is_sound_of<N: Number>(
    value: spec_fn(N) -> real,
    command: Seq<char>,
    stats: StatsView<N>,
) -> bool {
    &&& stats.command == command
    &&& stats.observation_count > 0
    &&& stats.memory_min as real <= value(stats.memory_ema)
    &&& value(stats.memory_ema) <= stats.memory_max as real
    &&& value(stats.memory_var) >= 0 as real
}

/// Where comparisons go by an order, and zero and one are what they are called, a
/// weight is accepted if and only if it lies between zero and one.
pub proof fn law_weights_in_unit_are_accepted<N: Number>(
    value: spec_fn(N) -> real,
    proper: spec_fn(N) -> bool,
    alpha: N,
    accepted: bool,
)
    requires
        orders(value, proper),
        forall|zero: N| #[trigger] is_whole(0, zero) ==> proper(zero) && value(zero) == 0 as real,
        forall|one: N| #[trigger] is_whole(1, one) ==> proper(one) && value(one) == 1 as real,
        proper(alpha),
        is_in_unit(alpha, accepted),
    ensures
        accepted <==> value(alpha) >= 0 as real && value(alpha) <= 1 as real,
{
    let (zero, one) = choose|zero: N, one: N| #[trigger]
        is_whole(0, zero) && #[trigger] is_whole(1, one) && if accepted {
            compares_reaching(alpha, zero, true) && compares_reaching(one, alpha, true)
        } else {
            compares_reaching(alpha, zero, false) || compares_reaching(one, alpha, false)
        };
    assert(value(zero) == 0 as real && value(one) == 1 as real);
}

/// Without rounding, a predictor that has observed nothing is sound, with the
/// default weight and with any that is accepted.
pub proof fn law_new_predictor_is_sound<N: Number>(value: spec_fn(N) -> real, alpha: N)
    requires
        is_exact(value),
        is_fraction(3, 10, alpha) || is_in_unit(alpha, true),
    ensures
        is_sound(value, ResourceModel::<N>::empty(alpha)),
{
    if is_fraction(3, 10, alpha) {
        let (a, b) = choose|a: N, b: N|
            is_whole(3, a) && is_whole(10, b) && #[trigger] is_quotient(a, b, alpha);
        assert(value(alpha) == 3 as real / 10 as real);
    } else {
        law_weights_in_unit_are_accepted(value, |a: N| true, alpha, true);
    }
}

proof fn lemma_update_is_sound<N: Number>(
    value: spec_fn(N) -> real,
    alpha: N,
    command: Seq<char>,
    before: Option<StatsView<N>>,
    obs: ResourceObservation,
    after: StatsView<N>,
)
    requires
        is_exact(value),
        value(alpha) >= 0 as real,
        value(alpha) <= 1 as real,
        before matches Some(stats) ==> is_sound_of(value, command, stats)
            && stats.observation_count < u64::MAX,
        is_updated(alpha, command, before, obs, after),
    ensures
        is_sound_of(value, command, after),
        before is None || value(alpha) == 1 as real ==> value(after.memory_ema)
            == obs.memory_bytes as real && value(after.cpu_ema) == obs.cpu_time_ms as real
            && value(after.duration_ema) == obs.duration_ms as real && value(after.memory_var)
            == 0 as real,
        before matches Some(stats) ==> value(alpha) == 0 as real ==> value(after.memory_ema)
            == value(stats.memory_ema) && value(after.cpu_ema) == value(stats.cpu_ema) && value(
            after.duration_ema,
        ) == value(stats.duration_ema) && value(after.memory_var) == value(stats.memory_var),
{
    match before {
        None => {
            assert(is_first(obs, after));
            assert(is_whole(0, after.memory_var));
        },
        Some(stats) => {
            assert(is_further(alpha, stats, obs, after));
            law_moved_lies_between(
                value,
                alpha,
                obs.memory_bytes,
                stats.memory_ema,
                after.memory_ema,
            );
            law_moved_lies_between(value, alpha, obs.cpu_time_ms, stats.cpu_ema, after.cpu_ema);
            law_moved_lies_between(
                value,
                alpha,
                obs.duration_ms,
                stats.duration_ema,
                after.duration_ema,
            );
            law_variance_is_not_negative(
                value,
                alpha,
                obs.memory_bytes,
                after.memory_ema,
                stats.memory_var,
                after.memory_var,
            );
            assert((0 as real) * (0 as real) == 0 as real) by (nonlinear_arith);
        },
    }
}

/// Without rounding, observing a run keeps a predictor sound.
pub proof fn law_observing_keeps_soundness<N: Number>(
    value: spec_fn(N) -> real,
    before: ResourceModel<N>,
    command: Seq<char>,
    obs: ResourceObservation,
    after: ResourceModel<N>,
)
    requires
        is_exact(value),
        is_sound(value, before),
        before.observations(command) < u64::MAX,
        before.is_observed(command, obs, after),
    ensures
        is_sound(value, after),
{
    let stats = choose|stats: StatsView<N>| #[trigger]
        is_updated(before.alpha, command, before.stats_of(command), obs, stats) && after
            == before.with_stats(command, stats);
    lemma_update_is_sound(
        value,
        before.alpha,
        command,
        before.stats_of(command),
        obs,
        stats,
    );
    assert forall|other: Seq<char>| #[trigger] after.known(other) implies is_sound_of(
        value,
        other,
        after.stats[other],
    ) by {
        if other != command {
            assert(before.known(other));
        }
    }
}

/// Without rounding, the weight one follows the latest run: the averages are what
/// it used, and there is no variance.
pub proof fn law_weight_one_follows_the_latest<N: Number>(
    value: spec_fn(N) -> real,
    before: ResourceModel<N>,
    command: Seq<char>,
    obs: ResourceObservation,
    after: ResourceModel<N>,
)
    requires
        is_exact(value),
        is_sound(value, before),
        value(before.alpha) == 1 as real,
        before.observations(command) < u64::MAX,
        before.is_observed(command, obs, after),
    ensures
        value(after.stats[command].memory_ema) == obs.memory_bytes as real,
        value(after.stats[command].cpu_ema) == obs.cpu_time_ms as real,
        value(after.stats[command].duration_ema) == obs.duration_ms as real,
        value(after.stats[command].memory_var) == 0 as real,
{
    let stats = choose|stats: StatsView<N>| #[trigger]
        is_updated(before.alpha, command, before.stats_of(command), obs, stats) && after
            == before.with_stats(command, stats);
    lemma_update_is_sound(
        value,
        before.alpha,
        command,
        before.stats_of(command),
        obs,
        stats,
    );
}

/// Without rounding, the weight zero keeps to the first run: it sets the averages
/// to what it used, without a variance, and no further run changes them.
pub proof fn law_weight_zero_keeps_the_first<N: Number>(
    value: spec_fn(N) -> real,
    before: ResourceModel<N>,
    command: Seq<char>,
    obs: ResourceObservation,
    after: ResourceModel<N>,
)
    requires
        is_exact(value),
        is_sound(value, before),
        value(before.alpha) == 0 as real,
        before.observations(command) < u64::MAX,
        before.is_observed(command, obs, after),
    ensures
        !before.known(command) ==> value(after.stats[command].memory_ema)
            == obs.memory_bytes as real && value(after.stats[command].cpu_ema)
            == obs.cpu_time_ms as real && value(after.stats[command].duration_ema)
            == obs.duration_ms as real && value(after.stats[command].memory_var) == 0 as real,
        before.known(command) ==> value(after.stats[command].memory_ema) == value(
            before.stats[command].memory_ema,
        ) && value(after.stats[command].cpu_ema) == value(before.stats[command].cpu_ema) && value(
            after.stats[command].duration_ema,
        ) == value(before.stats[command].duration_ema) && value(after.stats[command].memory_var)
            == value(before.stats[command].memory_var),
{
    let stats = choose|stats: StatsView<N>| #[trigger]
        is_updated(before.alpha, command, before.stats_of(command), obs, stats) && after
            == before.with_stats(command, stats);
    lemma_update_is_sound(
        value,
        before.alpha,
        command,
        before.stats_of(command),
        obs,
        stats,
    );
}

/// `models` are the models between the first and the last of `runs`, each of a
/// command of its own.
pub open spec fn is_history<N: Number>(
    runs: Seq<(Seq<char>, ResourceObservation)>,
    models: Seq<ResourceModel<N>>,
) -> bool {
    &&& models.len() == runs.len() + 1
    &&& forall|i: int|
        0 <= i < runs.len() ==> (#[trigger] models[i]).is_observed(
            runs[i].0,
            runs[i].1,
            models[i + 1],
        )
}

/// What was observed of `command` among `runs`, in their order.
pub open spec fn runs_of(
    runs: Seq<(Seq<char>, ResourceObservation)>,
    command: Seq<char>,
) -> Seq<ResourceObservation>
    decreases runs.len(),
{
    if runs.len() == 0 {
        Seq::empty()
    } else {
        let before = runs_of(runs.drop_last(), command);
        if runs.last().0 == command {
            before.push(runs.last().1)
        } else {
            before
        }
    }
}

/// `observations` as runs of `command`.
pub open spec fn runs_with(
    command: Seq<char>,
    observations: Seq<ResourceObservation>,
) -> Seq<(Seq<char>, ResourceObservation)> {
    Seq::new(observations.len(), |i: int| (command, observations[i]))
}

/// What is observed in a batch is a history of runs of one command.
pub proof fn law_batch_is_a_history<N: Number>(
    command: Seq<char>,
    observations: Seq<ResourceObservation>,
    models: Seq<ResourceModel<N>>,
)
    requires
        is_observed_trace(command, observations, models),
    ensures
        is_history(runs_with(command, observations), models),
        runs_of(runs_with(command, observations), command) == observations,
    decreases observations.len(),
{
    let runs = runs_with(command, observations);
    assert forall|i: int| 0 <= i < runs.len() implies (#[trigger] models[i]).is_observed(
        runs[i].0,
        runs[i].1,
        models[i + 1],
    ) by {
        assert(models[i].is_observed(command, observations[i], models[i + 1]));
    }
    lemma_runs_with(command, observations);
}

proof fn lemma_runs_with(command: Seq<char>, observations: Seq<ResourceObservation>)
    ensures
        runs_of(runs_with(command, observations), command) == observations,
    decreases observations.len(),
{
    let runs = runs_with(command, observations);
    if observations.len() > 0 {
        assert(runs.drop_last() =~= runs_with(command, observations.drop_last()));
        lemma_runs_with(command, observations.drop_last());
        assert(observations =~= observations.drop_last().push(observations.last()));
    } else {
        assert(observations =~= Seq::<ResourceObservation>::empty());
    }
}

proof fn lemma_history_shortened<N: Number>(
    runs: Seq<(Seq<char>, ResourceObservation)>,
    models: Seq<ResourceModel<N>>,
)
    requires
        is_history(runs, models),
        runs.len() > 0,
    ensures
        is_history(runs.drop_last(), models.drop_last()),
        models.drop_last().first() == models.first(),
        models.drop_last().last().is_observed(runs.last().0, runs.last().1, models.last()),
{
    let fewer = runs.drop_last();
    let earlier = models.drop_last();
    let last = runs.len() - 1;
    assert forall|i: int| 0 <= i < fewer.len() implies (#[trigger] earlier[i]).is_observed(
        fewer[i].0,
        fewer[i].1,
        earlier[i + 1],
    ) by {
        assert(models[i].is_observed(runs[i].0, runs[i].1, models[i + 1]));
    }
    assert(models[last].is_observed(runs[last].0, runs[last].1, models[last + 1]));
}

proof fn lemma_runs_of_are_few(runs: Seq<(Seq<char>, ResourceObservation)>, command: Seq<char>)
    ensures
        runs_of(runs, command).len() <= runs.len(),
    decreases runs.len(),
{
    if runs.len() > 0 {
        lemma_runs_of_are_few(runs.drop_last(), command);
    }
}

/// Whatever else was observed between them, the runs of a command that was not
/// known before are counted, and the least and the most memory of the command
/// are the least and the most that they used.
pub proof fn law_history_counts_every_run<N: Number>(
    runs: Seq<(Seq<char>, ResourceObservation)>,
    models: Seq<ResourceModel<N>>,
    command: Seq<char>,
)
    requires
        is_history(runs, models),
        !models.first().known(command),
        runs.len() <= u64::MAX,
    ensures
        models.last().alpha == models.first().alpha,
        models.last().known(command) <==> runs_of(runs, command).len() > 0,
        models.last().observations(command) == runs_of(runs, command).len(),
        models.last().known(command) ==> models.last().stats[command].command == command,
        forall|i: int|
            0 <= i < runs_of(runs, command).len() ==> models.last().stats[command].memory_min <= (
            #[trigger] runs_of(runs, command)[i]).memory_bytes
                <= models.last().stats[command].memory_max,
        runs_of(runs, command).len() > 0 ==> exists|i: int|
            0 <= i < runs_of(runs, command).len() && (#[trigger] runs_of(
                runs,
                command,
            )[i]).memory_bytes == models.last().stats[command].memory_min,
        runs_of(runs, command).len() > 0 ==> exists|i: int|
            0 <= i < runs_of(runs, command).len() && (#[trigger] runs_of(
                runs,
                command,
            )[i]).memory_bytes == models.last().stats[command].memory_max,
    decreases runs.len(),
{
    if runs.len() > 0 {
        let before = models.drop_last().last();
        let after = models.last();
        let (name, obs) = runs.last();
        let earlier = runs_of(runs.drop_last(), command);
        let seen = runs_of(runs, command);
        lemma_history_shortened(runs, models);
        law_history_counts_every_run(runs.drop_last(), models.drop_last(), command);
        lemma_runs_of_are_few(runs.drop_last(), command);
        let stats = choose|stats: StatsView<N>| #[trigger]
            is_updated(before.alpha, name, before.stats_of(name), obs, stats) && after
                == before.with_stats(name, stats);
        if name == command {
            assert(after.stats[command] == stats);
            assert(seen == earlier.push(obs));
            assert(seen[earlier.len() as int] == obs);
            assert forall|i: int| 0 <= i < seen.len() implies stats.memory_min <= (
            #[trigger] seen[i]).memory_bytes <= stats.memory_max by {
                if i < earlier.len() {
                    assert(seen[i] == earlier[i]);
                }
            }
            if earlier.len() > 0 {
                let least = choose|i: int|
                    0 <= i < earlier.len() && (#[trigger] earlier[i]).memory_bytes
                        == before.stats[command].memory_min;
                let most = choose|i: int|
                    0 <= i < earlier.len() && (#[trigger] earlier[i]).memory_bytes
                        == before.stats[command].memory_max;
                assert(seen[least] == earlier[least] && seen[most] == earlier[most]);
            }
        } else {
            assert(seen == earlier);
            assert(after.stats_of(command) == before.stats_of(command));
        }
    }
}

/// Without rounding, a predictor that starts with nothing observed is sound
/// whatever runs it observes.
pub proof fn law_history_is_sound<N: Number>(
    value: spec_fn(N) -> real,
    runs: Seq<(Seq<char>, ResourceObservation)>,
    models: Seq<ResourceModel<N>>,
)
    requires
        is_exact(value),
        is_history(runs, models),
        is_sound(value, models.first()),
        models.first().stats.dom().is_empty(),
        runs.len() <= u64::MAX,
    ensures
        is_sound(value, models.last()),
        models.last().alpha == models.first().alpha,
    decreases runs.len(),
{
    if runs.len() > 0 {
        let (name, obs) = runs.last();
        lemma_history_shortened(runs, models);
        law_history_is_sound(value, runs.drop_last(), models.drop_last());
        assert(!models.first().known(name));
        law_history_counts_every_run(runs.drop_last(), models.drop_last(), name);
        lemma_runs_of_are_few(runs.drop_last(), name);
        law_observing_keeps_soundness(
            value,
            models.drop_last().last(),
            name,
            obs,
            models.last(),
        );
    }
}

/// The averages of `stats` are what `obs` used, without a variance.
pub open spec fn are_averages_of<N: Number>(
    value: spec_fn(N) -> real,
    stats: StatsView<N>,
    obs: ResourceObservation,
) -> bool {
    &&& value(stats.memory_ema) == obs.memory_bytes as real
    &&& value(stats.cpu_ema) == obs.cpu_time_ms as real
    &&& value(stats.duration_ema) == obs.duration_ms as real
    &&& value(stats.memory_var) == 0 as real
}

/// Without rounding, and whatever else was observed between them, the weight one
/// makes the averages of a command what its latest run used, and the weight zero
/// what its first run used; either way there is no variance.
pub proof fn law_history_by_weight<N: Number>(
    value: spec_fn(N) -> real,
    runs: Seq<(Seq<char>, ResourceObservation)>,
    models: Seq<ResourceModel<N>>,
    command: Seq<char>,
)
    requires
        is_exact(value),
        is_history(runs, models),
        is_sound(value, models.first()),
        models.first().stats.dom().is_empty(),
        runs.len() <= u64::MAX,
        runs_of(runs, command).len() > 0,
    ensures
        value(models.first().alpha) == 1 as real ==> are_averages_of(
            value,
            models.last().stats[command],
            runs_of(runs, command).last(),
        ),
        value(models.first().alpha) == 0 as real ==> are_averages_of(
            value,
            models.last().stats[command],
            runs_of(runs, command).first(),
        ),
    decreases runs.len(),
{
    let before = models.drop_last().last();
    let after = models.last();
    let (name, obs) = runs.last();
    let earlier = runs_of(runs.drop_last(), command);
    lemma_history_shortened(runs, models);
    law_history_is_sound(value, runs.drop_last(), models.drop_last());
    assert(!models.first().known(command));
    law_history_counts_every_run(runs.drop_last(), models.drop_last(), command);
    lemma_runs_of_are_few(runs.drop_last(), command);
    if earlier.len() > 0 {
        law_history_by_weight(value, runs.drop_last(), models.drop_last(), command);
    }
    if name == command {
        if value(before.alpha) == 1 as real {
            law_weight_one_follows_the_latest(value, before, command, obs, after);
        }
        if value(before.alpha) == 0 as real {
            law_weight_zero_keeps_the_first(value, before, command, obs, after);
        }
    } else {
        assert(after.stats_of(command) == before.stats_of(command));
        assert(after.stats[command] == before.stats[command]);
    }
}

/// Without rounding, the predicted memory is the average and one standard
/// deviation, cut to a whole number, and so never below the average.
pub proof fn law_prediction_covers_the_average<N: Number>(
    value: spec_fn(N) -> real,
    command: Seq<char>,
    stats: StatsView<N>,
    available: Option<ResourceAvailability>,
    prediction: ResourcePrediction,
    average: u64,
    deviation: real,
)
    requires
        is_exact(value),
        is_forecast(command, stats, available, prediction),
        value(stats.memory_var) >= 0 as real,
        is_truncated(stats.memory_ema, average),
        deviation >= 0 as real,
        deviation * deviation == value(stats.memory_var),
    ensures
        prediction.predicted_memory_bytes >= average,
        ({
            let expected = value(stats.memory_ema) + deviation;
            let bytes = prediction.predicted_memory_bytes;
            &&& expected < 0 as real ==> bytes == 0
            &&& expected > u64::MAX as real ==> bytes == u64::MAX
            &&& expected >= 0 as real && expected <= u64::MAX as real ==> bytes as real <= expected
                && expected < bytes as real + 1 as real
        }),
{
    let (root, sum) = choose|root: N, sum: N| #[trigger]
        is_root(stats.memory_var, root) && #[trigger] is_sum(stats.memory_ema, root, sum)
            && is_truncated(sum, prediction.predicted_memory_bytes);
    let d = value(root);
    assert(d == deviation) by (nonlinear_arith)
        requires
            d >= 0 as real,
            deviation >= 0 as real,
            d * d == deviation * deviation,
    ;
    assert(is_truncated(sum, prediction.predicted_memory_bytes));
    let bytes = prediction.predicted_memory_bytes;
    if bytes < average {
        assert(bytes as real + 1 as real <= average as real);
    }
}

/// Without rounding, the predicted CPU time is the average CPU time and the
/// predicted duration the average duration, each cut to a whole number and
/// whatever the other is. The prediction tells its command and the number of
/// observations, and warns if and only if more memory is needed than is free.
pub proof fn law_prediction_tells_the_averages<N: Number>(
    value: spec_fn(N) -> real,
    command: Seq<char>,
    stats: StatsView<N>,
    available: Option<ResourceAvailability>,
    prediction: ResourcePrediction,
)
    requires
        is_exact(value),
        is_forecast(command, stats, available, prediction),
    ensures
        prediction.command@ == command,
        prediction.observation_count == stats.observation_count,
        ({
            let cpu = prediction.predicted_cpu_ms;
            &&& value(stats.cpu_ema) < 0 as real ==> cpu == 0
            &&& value(stats.cpu_ema) > u64::MAX as real ==> cpu == u64::MAX
            &&& value(stats.cpu_ema) >= 0 as real && value(stats.cpu_ema) <= u64::MAX as real
                ==> cpu as real <= value(stats.cpu_ema) && value(stats.cpu_ema) < cpu as real
                + 1 as real
        }),
        ({
            let duration = prediction.predicted_duration_ms;
            &&& value(stats.duration_ema) < 0 as real ==> duration == 0
            &&& value(stats.duration_ema) > u64::MAX as real ==> duration == u64::MAX
            &&& value(stats.duration_ema) >= 0 as real && value(stats.duration_ema)
                <= u64::MAX as real ==> duration as real <= value(stats.duration_ema) && value(
                stats.duration_ema,
            ) < duration as real + 1 as real
        }),
        available is None ==> !prediction.is_warning,
        available matches Some(a) ==> (prediction.is_warning
            <==> prediction.predicted_memory_bytes > a.free_memory_bytes),
        prediction.warning_message is Some <==> prediction.is_warning,
{
}

/// Without rounding, what is predicted after the first run of a command is what
/// that run used, and with the weight one what the latest run used.
pub proof fn law_prediction_after_a_run<N: Number>(
    value: spec_fn(N) -> real,
    before: ResourceModel<N>,
    command: Seq<char>,
    obs: ResourceObservation,
    after: ResourceModel<N>,
    available: Option<ResourceAvailability>,
    prediction: ResourcePrediction,
)
    requires
        is_exact(value),
        is_sound(value, before),
        before.observations(command) < u64::MAX,
        before.is_observed(command, obs, after),
        !before.known(command) || value(before.alpha) == 1 as real,
        is_forecast(command, after.stats[command], available, prediction),
    ensures
        prediction.predicted_memory_bytes == obs.memory_bytes,
        prediction.predicted_cpu_ms == obs.cpu_time_ms,
        prediction.predicted_duration_ms == obs.duration_ms,
        prediction.observation_count == before.observations(command) + 1,
{
    let stats = choose|stats: StatsView<N>| #[trigger]
        is_updated(before.alpha, command, before.stats_of(command), obs, stats) && after
            == before.with_stats(command, stats);
    lemma_update_is_sound(
        value,
        before.alpha,
        command,
        before.stats_of(command),
        obs,
        stats,
    );
    let (root, sum) = choose|root: N, sum: N| #[trigger]
        is_root(stats.memory_var, root) && #[trigger] is_sum(stats.memory_ema, root, sum)
            && is_truncated(sum, prediction.predicted_memory_bytes);
    let d = value(root);
    assert(d == 0 as real) by (nonlinear_arith)
        requires
            d >= 0 as real,
            d * d == 0 as real,
    ;
    assert(is_truncated(sum, prediction.predicted_memory_bytes));
    law_observing_counts_once(before, command, obs, after, command);
}

/// Without rounding, a run of a command moves its averages by the weight and its
/// variance by the deviation from the average just moved; the first run sets them.
/// It is counted, the bounds follow, a new command comes last in the order, and
/// nothing else changes.
pub proof fn law_observing_moves_the_averages<N: Number>(
    value: spec_fn(N) -> real,
    before: ResourceModel<N>,
    command: Seq<char>,
    obs: ResourceObservation,
    after: ResourceModel<N>,
    other: Seq<char>,
)
    requires
        is_exact(value),
        before.observations(command) < u64::MAX,
        before.is_observed(command, obs, after),
    ensures
        after.known(command),
        after.alpha == before.alpha,
        before.known(command) ==> after.order == before.order,
        !before.known(command) ==> after.order == before.order.push(command),
        other != command ==> (after.known(other) <==> before.known(other)),
        other != command && before.known(other) ==> after.stats[other] == before.stats[other],
        after.stats[command].observation_count == before.observations(command) + 1,
        !before.known(command) ==> {
            let s = after.stats[command];
            s.command == command && s.memory_min == obs.memory_bytes && s.memory_max
                == obs.memory_bytes
        },
        before.known(command) ==> {
            let s = after.stats[command];
            let t = before.stats[command];
            &&& s.command == t.command
            &&& s.memory_min <= obs.memory_bytes && s.memory_min <= t.memory_min
            &&& s.memory_min == obs.memory_bytes || s.memory_min == t.memory_min
            &&& s.memory_max >= obs.memory_bytes && s.memory_max >= t.memory_max
            &&& s.memory_max == obs.memory_bytes || s.memory_max == t.memory_max
        },
        before.observations(command) == 0 ==> {
            let s = after.stats[command];
            &&& value(s.memory_ema) == obs.memory_bytes as real
            &&& value(s.cpu_ema) == obs.cpu_time_ms as real
            &&& value(s.duration_ema) == obs.duration_ms as real
            &&& value(s.memory_var) == 0 as real
        },
        before.observations(command) > 0 ==> {
            let s = after.stats[command];
            let t = before.stats[command];
            let a = value(before.alpha);
            let rest = 1 as real - a;
            let deviation = obs.memory_bytes as real - value(s.memory_ema);
            &&& value(s.memory_ema) == a * obs.memory_bytes as real + rest * value(t.memory_ema)
            &&& value(s.cpu_ema) == a * obs.cpu_time_ms as real + rest * value(t.cpu_ema)
            &&& value(s.duration_ema) == a * obs.duration_ms as real + rest * value(t.duration_ema)
            &&& value(s.memory_var) == a * deviation * deviation + rest * value(t.memory_var)
        },
{
    let s = choose|s: StatsView<N>| #[trigger]
        is_updated(before.alpha, command, before.stats_of(command), obs, s) && after
            == before.with_stats(command, s);
    if before.observations(command) > 0 {
        let t = before.stats[command];
        assert(is_further(before.alpha, t, obs, s));
        law_moved_is_the_weighted_mean(
            value,
            before.alpha,
            obs.memory_bytes,
            t.memory_ema,
            s.memory_ema,
        );
        law_moved_is_the_weighted_mean(value, before.alpha, obs.cpu_time_ms, t.cpu_ema, s.cpu_ema);
        law_moved_is_the_weighted_mean(
            value,
            before.alpha,
            obs.duration_ms,
            t.duration_ema,
            s.duration_ema,
        );
        law_moved_variance_is_the_weighted_mean(
            value,
            before.alpha,
            obs.memory_bytes,
            s.memory_ema,
            t.memory_var,
            s.memory_var,
        );
    } else {
        assert(is_first(obs, s));
        assert(is_whole(0, s.memory_var));
    }
}

/// A batch of no runs changes nothing, and a batch of one is the observation of
/// that run.
pub proof fn law_small_batches<N: Number>(
    before: ResourceModel<N>,
    command: Seq<char>,
    obs: ResourceObservation,
    after: ResourceModel<N>,
)
    ensures
        is_batch(before, command, Seq::empty(), after) <==> after == before,
        is_batch(before, command, seq![obs], after) <==> before.is_observed(command, obs, after),
{
    let none = Seq::<ResourceObservation>::empty();
    if after == before {
        let models = seq![before];
        assert(is_observed_trace(command, none, models));
        assert(models.first() == before && models.last() == after);
    }
    if before.is_observed(command, obs, after) {
        let models = seq![before, after];
        assert(is_observed_trace(command, seq![obs], models));
        assert(models.first() == before && models.last() == after);
    }
    if is_batch(before, command, seq![obs], after) {
        let models = choose|models: Seq<ResourceModel<N>>| #[trigger]
            is_observed_trace(command, seq![obs], models) && models.first() == before
                && models.last() == after;
        assert(models[0].is_observed(command, seq![obs][0], models[1]));
    }
}

/// Without rounding, there is a coefficient of variation if and only if the
/// average memory is above zero and there are two observations or more; and then
/// its product with the average is the standard deviation.
pub proof fn law_variation_is_deviation_over_average<N: Number>(
    value: spec_fn(N) -> real,
    stats: StatsView<N>,
    cv: Option<N>,
)
    requires
        is_exact(value),
        value(stats.memory_var) >= 0 as real,
        is_cv(stats, cv),
    ensures
        cv is Some <==> value(stats.memory_ema) > 0 as real && stats.observation_count >= 2,
        cv matches Some(r) ==> {
            let deviation = value(r) * value(stats.memory_ema);
            value(r) >= 0 as real && deviation * deviation == value(stats.memory_var)
        },
{
    assert(is_without_memory(stats, true) ==> value(stats.memory_ema) <= 0 as real);
    assert(is_without_memory(stats, false) ==> value(stats.memory_ema) > 0 as real);
    if let Some(r) = cv {
        let deviation = choose|deviation: N| #[trigger]
            is_root(stats.memory_var, deviation) && is_quotient(deviation, stats.memory_ema, r);
        assert(is_quotient(deviation, stats.memory_ema, r));
        let d = value(deviation);
        let m = value(stats.memory_ema);
        assert(d / m * m == d && d / m >= 0 as real) by (nonlinear_arith)
            requires
                m > 0 as real,
                d >= 0 as real,
        ;
    }
}

proof fn lemma_variances_add_up<N: Number>(
    value: spec_fn(N) -> real,
    model: ResourceModel<N>,
    len: nat,
)
    ensures
        add_up(values_of(value, model.variances(len))) == add_up(
            Seq::new(
                len,
                |i: int|
                    if model.stats[model.order[i]].observation_count > 1 {
                        value(model.stats[model.order[i]].memory_var)
                    } else {
                        0 as real
                    },
            ),
        ),
    decreases len,
{
    let terms = Seq::new(
        len,
        |i: int|
            if model.stats[model.order[i]].observation_count > 1 {
                value(model.stats[model.order[i]].memory_var)
            } else {
                0 as real
            },
    );
    if len > 0 {
        let last = (len - 1) as nat;
        let stats = model.stats[model.order[len - 1]];
        lemma_variances_add_up(value, model, last);
        assert(terms.drop_last() =~= Seq::new(
            last,
            |i: int|
                if model.stats[model.order[i]].observation_count > 1 {
                    value(model.stats[model.order[i]].memory_var)
                } else {
                    0 as real
                },
        ));
        if stats.observation_count > 1 {
            let longer = values_of(value, model.variances(len));
            assert(longer.drop_last() =~= values_of(value, model.variances(last)));
            assert(longer.last() == value(stats.memory_var));
        }
    } else {
        assert(values_of(value, model.variances(0)) =~= Seq::<real>::empty());
        assert(terms =~= Seq::<real>::empty());
    }
}

/// Without rounding, the total variance is the sum of the variances of all
/// commands with two observations or more.
pub proof fn law_total_variance_is_the_sum<N: Number>(
    value: spec_fn(N) -> real,
    model: ResourceModel<N>,
    sum: N,
)
    requires
        is_exact(value),
        is_total_variance(model, sum),
    ensures
        value(sum) == add_up(
            Seq::new(
                model.order.len(),
                |i: int|
                    if model.stats[model.order[i]].observation_count >= 2 {
                        value(model.stats[model.order[i]].memory_var)
                    } else {
                        0 as real
                    },
            ),
        ),
{
    lemma_total_is_exact(value, model.variances(model.order.len()), sum);
    lemma_variances_add_up(value, model, model.order.len());
    assert(Seq::new(
        model.order.len(),
        |i: int|
            if model.stats[model.order[i]].observation_count > 1 {
                value(model.stats[model.order[i]].memory_var)
            } else {
                0 as real
            },
    ) =~= Seq::new(
        model.order.len(),
        |i: int|
            if model.stats[model.order[i]].observation_count >= 2 {
                value(model.stats[model.order[i]].memory_var)
            } else {
                0 as real
            },
    ));
}

/// What is known of a command is what was kept of it, and the weight and the
/// order of the commands are those that were kept.
pub proof fn law_entries_are_what_is_known<N: Number>(
    alpha: N,
    entries: Seq<(String, ResourceStats<N>)>,
    command: Seq<char>,
)
    ensures
        model_of(alpha, entries).alpha == alpha,
        model_of(alpha, entries).order == entries_order(entries),
        model_of(alpha, entries).known(command) <==> entries_map(entries).contains_key(command),
        entries_map(entries).contains_key(command) ==> model_of(alpha, entries).stats[command]
            == entries_map(entries)[command]@,
        !ResourceModel::<N>::empty(alpha).known(command),
        ResourceModel::<N>::empty(alpha).order.len() == 0,
        ResourceModel::<N>::empty(alpha).alpha == alpha,
{
}

/// Without rounding, a new predictor gives a new observation three tenths of the
/// weight, and knows no command.
pub proof fn law_default_weight<N: Number>(
    value: spec_fn(N) -> real,
    model: ResourceModel<N>,
    command: Seq<char>,
)
    requires
        is_exact(value),
        model.is_default(),
    ensures
        value(model.alpha) * 10 as real == 3 as real,
        !model.known(command),
        model.order.len() == 0,
{
    let (a, b) = choose|a: N, b: N|
        is_whole(3, a) && is_whole(10, b) && #[trigger] is_quotient(a, b, model.alpha);
    assert(value(model.alpha) == 3 as real / 10 as real);
}

/// What is known of a command is told field by field, and only of commands that
/// are known.
pub proof fn law_stats_tell_what_is_known<N: Number>(
    model: ResourceModel<N>,
    command: Seq<char>,
    stats: ResourceStats<N>,
)
    ensures
        model.known(command) <==> model.stats.contains_key(command),
        model.known(command) ==> model.stats_of(command) == Some(model.stats[command]),
        !model.known(command) ==> model.stats_of(command) is None,
        model.known(command) ==> model.observations(command)
            == model.stats[command].observation_count,
        !model.known(command) ==> model.observations(command) == 0,
        stats@.command == stats.command@,
        stats@.observation_count == stats.observation_count,
        stats@.memory_ema == stats.memory_ema,
        stats@.cpu_ema == stats.cpu_ema,
        stats@.duration_ema == stats.duration_ema,
        stats@.memory_var == stats.memory_var,
        stats@.memory_min == stats.memory_min,
        stats@.memory_max == stats.memory_max,
{
}

/// A command has a prediction if and only if it was observed, and a description
/// and perhaps a coefficient of variation only if it is known; each is that of
/// what is known of the command.
pub proof fn law_observed_commands_are_answered<N: Number>(
    model: ResourceModel<N>,
    command: Seq<char>,
    available: Option<ResourceAvailability>,
    prediction: Option<ResourcePrediction>,
    message: Option<String>,
    cv: Option<N>,
)
    requires
        model.is_predicted(command, available, prediction),
        model.is_delta_described(command, message),
        model.has_variation(command, cv),
    ensures
        prediction is Some <==> model.known(command) && model.stats[command].observation_count
            >= 1,
        prediction matches Some(p) ==> is_forecast(command, model.stats[command], available, p),
        message is Some <==> model.known(command),
        message matches Some(text) ==> is_memory_text(command, model.stats[command], text@),
        !model.known(command) ==> cv is None,
        model.known(command) ==> is_cv(model.stats[command], cv),
{
}

} // verus!
