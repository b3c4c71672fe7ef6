//! Predicting what a command will use.
//!
//! For each command the memory, CPU time and duration of its runs are averaged,
//! recent runs weighing more. From the averages and the variance of the memory
//! it is predicted what the next run needs, with a warning if that is more than
//! there is.

use crate::average::{is_moved, is_moved_variance, moved, moved_variance};
use crate::decimal::{decimal, decimal_text};
use crate::names::{entries_map, entries_order, spelled, NameMap};
use crate::number::{
    compares_reaching, fraction, is_fraction, is_quotient, is_root, is_sum, is_text, is_total,
    is_truncated, is_whole, shown, total, Number,
};
use vstd::prelude::*;

verus! {

/// What one run of a command used.
#[derive(Debug, Clone, Copy)]
pub struct ResourceObservation {
    /// Memory in bytes.
    pub memory_bytes: u64,
    /// CPU time in milliseconds.
    pub cpu_time_ms: u64,
    /// Wall-clock time in milliseconds.
    pub duration_ms: u64,
}

/// What is known of the runs of a command.
#[derive(Debug)]
pub struct ResourceStats<N> {
    /// The command.
    pub command: String,
    /// The number of runs observed.
    pub observation_count: u64,
    /// The moving average of the memory, in bytes.
    pub memory_ema: N,
    /// The moving average of the CPU time, in milliseconds.
    pub cpu_ema: N,
    /// The moving average of the duration, in milliseconds.
    pub duration_ema: N,
    /// The moving variance of the memory.
    pub memory_var: N,
    /// The least memory observed.
    pub memory_min: u64,
    /// The most memory observed.
    pub memory_max: u64,
}

/// What is known of the runs of a command, as a mathematical value.
#[verifier::ext_equal]
pub struct StatsView<N> {
    /// The command.
    pub command: Seq<char>,
    /// The number of runs observed.
    pub observation_count: u64,
    /// The moving average of the memory.
    pub memory_ema: N,
    /// The moving average of the CPU time.
    pub cpu_ema: N,
    /// The moving average of the duration.
    pub duration_ema: N,
    /// The moving variance of the memory.
    pub memory_var: N,
    /// The least memory observed.
    pub memory_min: u64,
    /// The most memory observed.
    pub memory_max: u64,
}

impl<N> View for ResourceStats<N> {
    type V = StatsView<N>;

    open spec fn view(&self) -> StatsView<N> {
        StatsView {
            command: self.command@,
            observation_count: self.observation_count,
            memory_ema: self.memory_ema,
            cpu_ema: self.cpu_ema,
            duration_ema: self.duration_ema,
            memory_var: self.memory_var,
            memory_min: self.memory_min,
            memory_max: self.memory_max,
        }
    }
}

impl<N: Copy> Clone for ResourceStats<N> {
    fn clone(&self) -> (copy: Self)
        ensures
            copy@ == self@,
    {
        ResourceStats {
            command: self.command.clone(),
            observation_count: self.observation_count,
            memory_ema: self.memory_ema,
            cpu_ema: self.cpu_ema,
            duration_ema: self.duration_ema,
            memory_var: self.memory_var,
            memory_min: self.memory_min,
            memory_max: self.memory_max,
        }
    }
}

/// What the next run of a command is predicted to use.
#[derive(Debug, Clone)]
pub struct ResourcePrediction {
    /// The command.
    pub command: String,
    /// Memory in bytes: the average and one standard deviation.
    pub predicted_memory_bytes: u64,
    /// CPU time in milliseconds.
    pub predicted_cpu_ms: u64,
    /// Wall-clock time in milliseconds.
    pub predicted_duration_ms: u64,
    /// The number of runs that the prediction rests on.
    pub observation_count: u64,
    /// Whether more memory is needed than there is.
    pub is_warning: bool,
    /// The warning, if there is one.
    pub warning_message: Option<String>,
}

/// What the system has to offer.
#[derive(Debug, Clone, Copy)]
pub struct ResourceAvailability {
    /// Available memory in bytes.
    pub free_memory_bytes: u64,
    /// Physical memory in bytes.
    pub total_memory_bytes: u64,
    /// The number of logical CPU cores.
    pub cpu_cores: usize,
}

impl Default for ResourceAvailability {
    fn default() -> (availability: Self)
        ensures
            availability.free_memory_bytes == 0,
            availability.total_memory_bytes == 0,
            availability.cpu_cores == 0,
    {
        ResourceAvailability { free_memory_bytes: 0, total_memory_bytes: 0, cpu_cores: 0 }
    }
}

/// Predicts what commands use from what their runs used.
#[derive(Debug)]
pub struct ResourcePredictor<N> {
    /// What is known of each command.
    stats: NameMap<ResourceStats<N>>,
    /// The weight of a new observation in the averages, between zero and one.
    alpha: N,
}

/// What a resource predictor knows, as a mathematical value.
#[verifier::ext_equal]
pub struct ResourceModel<N> {
    /// The commands, in the order of their first observation.
    pub order: Seq<Seq<char>>,
    /// What is known of each command.
    pub stats: Map<Seq<char>, StatsView<N>>,
    /// The weight of a new observation.
    pub alpha: N,
}

impl<N> View for ResourcePredictor<N> {
    type V = ResourceModel<N>;

    closed spec fn view(&self) -> ResourceModel<N> {
        ResourceModel {
            order: self.stats.order(),
            stats: self.stats@.map_values(|s: ResourceStats<N>| s@),
            alpha: self.alpha,
        }
    }
}

/// The bytes in a gigabyte.
pub const GIGABYTE: u64 = 1_000_000_000;

/// The bytes in a megabyte.
pub const MEGABYTE: u64 = 1_000_000;

impl<N: Number> ResourceModel<N> {
    /// Nothing is known of any command.
    pub open spec fn empty(alpha: N) -> ResourceModel<N> {
        ResourceModel { order: Seq::empty(), stats: Map::empty(), alpha }
    }

    /// Nothing is known of any command, and the weight is the default one.
    pub open spec fn is_default(self) -> bool {
        &&& is_fraction(3, 10, self.alpha)
        &&& self == ResourceModel::empty(self.alpha)
    }

    /// `command` has been observed.
    pub open spec fn known(self, command: Seq<char>) -> bool {
        self.stats.contains_key(command)
    }

    /// What is known of `command`.
    pub open spec fn stats_of(self, command: Seq<char>) -> Option<StatsView<N>> {
        if self.known(command) {
            Some(self.stats[command])
        } else {
            None
        }
    }

    /// How often `command` was observed.
    pub open spec fn observations(self, command: Seq<char>) -> nat {
        if self.known(command) {
            self.stats[command].observation_count as nat
        } else {
            0
        }
    }

    /// The model with `stats` as what is known of `command`.
    pub open spec fn with_stats(
        self,
        command: Seq<char>,
        stats: StatsView<N>,
    ) -> ResourceModel<N> {
        ResourceModel {
            order: if self.known(command) {
                self.order
            } else {
                self.order.push(command)
            },
            stats: self.stats.insert(command, stats),
            ..self
        }
    }

    /// `after` is the model after a run of `command` was observed.
    pub open spec fn is_observed(
        self,
        command: Seq<char>,
        obs: ResourceObservation,
        after: ResourceModel<N>,
    ) -> bool {
        exists|stats: StatsView<N>| #[trigger]
            is_updated(self.alpha, command, self.stats_of(command), obs, stats) && after
                == self.with_stats(command, stats)
    }

    /// `prediction` is what the next run of `command` is predicted to use, if
    /// there is an observation of it.
    pub open spec fn is_predicted(
        self,
        command: Seq<char>,
        available: Option<ResourceAvailability>,
        prediction: Option<ResourcePrediction>,
    ) -> bool {
        &&& prediction is Some <==> self.observations(command) > 0
        &&& prediction matches Some(p) ==> is_forecast(
            command,
            self.stats[command],
            available,
            p,
        )
    }

    /// `message` says what a run of `command` does to the memory, if it is known.
    pub open spec fn is_delta_described(
        self,
        command: Seq<char>,
        message: Option<String>,
    ) -> bool {
        &&& message is Some <==> self.known(command)
        &&& message matches Some(text) ==> is_memory_text(command, self.stats[command], text@)
    }

    /// `cv` is the coefficient of variation of the memory of `command`, if it has
    /// one.
    pub open spec fn has_variation(self, command: Seq<char>, cv: Option<N>) -> bool {
        match self.stats_of(command) {
            Some(stats) => is_cv(stats, cv),
            None => cv is None,
        }
    }

    /// The variances of the commands with more than one observation, in the
    /// order of their first observation.
    pub open spec fn variances(self, len: nat) -> Seq<N>
        decreases len,
    {
        if len == 0 {
            Seq::empty()
        } else {
            let stats = self.stats[self.order[len - 1]];
            let before = self.variances((len - 1) as nat);
            if stats.observation_count > 1 {
                before.push(stats.memory_var)
            } else {
                before
            }
        }
    }
}

/// `sum` is the sum of the variances of all commands with more than one
/// observation.
pub open spec fn is_total_variance<N: Number>(model: ResourceModel<N>, sum: N) -> bool {
    is_total(model.variances(model.order.len()), sum)
}

/// `models` are the models between the first and the last of `observations`.
pub open spec fn is_observed_trace<N: Number>(
    command: Seq<char>,
    observations: Seq<ResourceObservation>,
    models: Seq<ResourceModel<N>>,
) -> bool {
    &&& models.len() == observations.len() + 1
    &&& forall|i: int|
        0 <= i < observations.len() ==> (#[trigger] models[i]).is_observed(
            command,
            observations[i],
            models[i + 1],
        )
}

/// `after` is the model after `observations` of runs of `command`, one after the
/// other.
pub open spec fn is_batch<N: Number>(
    before: ResourceModel<N>,
    command: Seq<char>,
    observations: Seq<ResourceObservation>,
    after: ResourceModel<N>,
) -> bool {
    exists|models: Seq<ResourceModel<N>>| #[trigger]
        is_observed_trace(command, observations, models) && models.first() == before
            && models.last() == after
}

/// `after` is what is known of `command` after a run of it was observed, where
/// `before` was known. The first run sets the averages, and any other moves
/// them.
pub open spec fn is_updated<N: Number>(
    alpha: N,
    command: Seq<char>,
    before: Option<StatsView<N>>,
    obs: ResourceObservation,
    after: StatsView<N>,
) -> bool {
    match before {
        None => {
            &&& after.command == command
            &&& after.observation_count == 1
            &&& after.memory_min == obs.memory_bytes
            &&& after.memory_max == obs.memory_bytes
            &&& is_first(obs, after)
        },
        Some(stats) => {
            &&& after.command == stats.command
            &&& after.observation_count == stats.observation_count + 1
            &&& after.memory_min == if obs.memory_bytes < stats.memory_min {
                obs.memory_bytes
            } else {
                stats.memory_min
            }
            &&& after.memory_max == if obs.memory_bytes > stats.memory_max {
                obs.memory_bytes
            } else {
                stats.memory_max
            }
            &&& if stats.observation_count == 0 {
                is_first(obs, after)
            } else {
                is_further(alpha, stats, obs, after)
            }
        },
    }
}

/// The averages of `after` are those of a first run.
pub open spec fn is_first<N: Number>(obs: ResourceObservation, after: StatsView<N>) -> bool {
    &&& is_whole(obs.memory_bytes, after.memory_ema)
    &&& is_whole(obs.cpu_time_ms, after.cpu_ema)
    &&& is_whole(obs.duration_ms, after.duration_ema)
    &&& is_whole(0, after.memory_var)
}

/// The averages of `after` are those of `before`, moved by a further run; the
/// deviation of its memory is taken from the average that was just moved.
pub open spec fn is_further<N: Number>(
    alpha: N,
    before: StatsView<N>,
    obs: ResourceObservation,
    after: StatsView<N>,
) -> bool {
    &&& is_moved(alpha, obs.memory_bytes, before.memory_ema, after.memory_ema)
    &&& is_moved(alpha, obs.cpu_time_ms, before.cpu_ema, after.cpu_ema)
    &&& is_moved(alpha, obs.duration_ms, before.duration_ema, after.duration_ema)
    &&& is_moved_variance(
        alpha,
        obs.memory_bytes,
        after.memory_ema,
        before.memory_var,
        after.memory_var,
    )
}

/// `bytes` is the memory to be expected: the average and one standard
/// deviation, as a whole number.
pub open spec fn is_expected_memory<N: Number>(stats: StatsView<N>, bytes: u64) -> bool {
    exists|deviation: N, sum: N| #[trigger]
        is_root(stats.memory_var, deviation) && #[trigger] is_sum(
            stats.memory_ema,
            deviation,
            sum,
        ) && is_truncated(sum, bytes)
}

/// `text` shows `bytes` in units of `unit` bytes.
pub open spec fn is_bytes_text<N: Number>(bytes: u64, unit: u64, text: Seq<char>) -> bool {
    exists|amount: N| #[trigger] is_fraction(bytes, unit, amount) && is_text(amount, 1, text)
}

/// `message` warns that a run needs `predicted` bytes where `free` are there.
pub open spec fn is_warning_text<N: Number>(predicted: u64, free: u64, message: Seq<char>) -> bool {
    exists|predicted_text: Seq<char>, free_text: Seq<char>| #[trigger]
        is_bytes_text::<N>(predicted, GIGABYTE, predicted_text) && #[trigger] is_bytes_text::<N>(
            free,
            GIGABYTE,
            free_text,
        ) && message == "This build typically uses "@ + predicted_text + " GB. You have "@
            + free_text + " GB free."@
}

/// `prediction` is what the next run of `command` is predicted to use, with a
/// warning if and only if that is more memory than is available.
pub open spec fn is_forecast<N: Number>(
    command: Seq<char>,
    stats: StatsView<N>,
    available: Option<ResourceAvailability>,
    prediction: ResourcePrediction,
) -> bool {
    &&& prediction.command@ == command
    &&& is_expected_memory(stats, prediction.predicted_memory_bytes)
    &&& is_truncated(stats.cpu_ema, prediction.predicted_cpu_ms)
    &&& is_truncated(stats.duration_ema, prediction.predicted_duration_ms)
    &&& prediction.observation_count == stats.observation_count
    &&& prediction.is_warning <==> exceeds_available(
        prediction.predicted_memory_bytes,
        available,
    )
    &&& prediction.is_warning <==> prediction.warning_message is Some
    &&& prediction.warning_message matches Some(message) ==> is_warning_text::<N>(
        prediction.predicted_memory_bytes,
        available->0.free_memory_bytes,
        message@,
    )
}

/// It is known how much memory is free, and it is less than `bytes`.
pub open spec fn exceeds_available(bytes: u64, available: Option<ResourceAvailability>) -> bool {
    available is Some && bytes > available->0.free_memory_bytes
}

/// `message` says what a run of `command` does to the memory.
pub open spec fn is_memory_text<N: Number>(
    command: Seq<char>,
    stats: StatsView<N>,
    message: Seq<char>,
) -> bool {
    exists|mega: N, amount: N, text: Seq<char>|
        is_whole(MEGABYTE, mega) && #[trigger] is_quotient(stats.memory_ema, mega, amount)
            && #[trigger] is_text(amount, 0, text) && message == "When you run `"@ + command
            + "`, memory usage increases by ~"@ + text + " MB"@
}

/// `outcome` is an answer to whether the average memory is zero or less.
pub open spec fn is_without_memory<N: Number>(stats: StatsView<N>, outcome: bool) -> bool {
    exists|zero: N|
        is_whole(0, zero) && #[trigger] compares_reaching(zero, stats.memory_ema, outcome)
}

/// `r` is the standard deviation of the memory over its average.
pub open spec fn is_variation<N: Number>(stats: StatsView<N>, r: N) -> bool {
    exists|deviation: N| #[trigger]
        is_root(stats.memory_var, deviation) && is_quotient(deviation, stats.memory_ema, r)
}

/// `answer` is the coefficient of variation of the memory. There is none
/// without an average above zero or with fewer than two observations.
pub open spec fn is_cv<N: Number>(stats: StatsView<N>, answer: Option<N>) -> bool {
    match answer {
        None => is_without_memory(stats, true) || stats.observation_count < 2,
        Some(r) => {
            &&& is_without_memory(stats, false)
            &&& stats.observation_count >= 2
            &&& is_variation(stats, r)
        },
    }
}

/// `outcome` is an answer to whether `alpha` lies between zero and one.
pub open spec fn is_in_unit<N: Number>(alpha: N, outcome: bool) -> bool {
    exists|zero: N, one: N| #[trigger]
        is_whole(0, zero) && #[trigger] is_whole(1, one) && if outcome {
            compares_reaching(alpha, zero, true) && compares_reaching(one, alpha, true)
        } else {
            compares_reaching(alpha, zero, false) || compares_reaching(one, alpha, false)
        }
}

/// The bytes as a decimal text in units of `unit`.
fn bytes_text<N: Number>(bytes: u64, unit: u64) -> (text: String)
    ensures
        is_bytes_text::<N>(bytes, unit, text@),
{
    let amount: N = fraction(bytes, unit);
    shown(amount, 1)
}

impl ResourcePrediction {
    /// `text` shows the prediction and its warning.
    pub open spec fn is_shown_as<N: Number>(self, text: Seq<char>) -> bool {
        exists|amount: Seq<char>| #[trigger]
            is_bytes_text::<N>(self.predicted_memory_bytes, GIGABYTE, amount) && self.is_line(
                amount,
                text,
            )
    }

    /// How many observations the prediction rests on, in words.
    pub open spec fn basis_text(self) -> Seq<char> {
        if self.observation_count > 0 {
            " (based on "@ + decimal_text(self.observation_count as nat) + " observations)"@
        } else {
            Seq::empty()
        }
    }

    /// The line of the warning, if there is one.
    pub open spec fn warning_text(self) -> Seq<char> {
        match self.warning_message {
            Some(message) => "\n⚠️ "@ + message@,
            None => Seq::empty(),
        }
    }

    /// `text` shows the prediction, with `amount` as the gigabytes needed.
    pub open spec fn is_line(self, amount: Seq<char>, text: Seq<char>) -> bool {
        text == "`"@ + self.command@ + "` typically needs "@ + amount + " GB RAM"@
            + self.basis_text() + self.warning_text()
    }

    /// The prediction in words, with its warning on a line of its own.
    pub fn to_text<N: Number>(&self) -> (text: String)
        ensures
            self.is_shown_as::<N>(text@),
    {
        let amount = bytes_text::<N>(self.predicted_memory_bytes, GIGABYTE);
        let mut text = "`".to_owned();
        text.append(self.command.as_str());
        text.append("` typically needs ");
        text.append(amount.as_str());
        text.append(" GB RAM");
        let ghost need = text@;
        if self.observation_count > 0 {
            let count = decimal(self.observation_count);
            text.append(" (based on ");
            text.append(count.as_str());
            text.append(" observations)");
        }
        let ghost told = text@;
        if let Some(message) = &self.warning_message {
            text.append("\n⚠️ ");
            text.append(message.as_str());
        }
        proof {
            assert(told =~= need + self.basis_text());
            assert(text@ =~= need + self.basis_text() + self.warning_text());
            assert(self.is_line(amount@, text@));
        }
        text
    }
}

impl<N: Number> ResourcePredictor<N> {
    /// No command occurs twice.
    pub closed spec fn wf(&self) -> bool {
        self.stats.wf()
    }

    /// A predictor that gives a new observation the weight three tenths.
    pub fn new() -> (predictor: Self)
        ensures
            predictor.wf(),
            predictor@.is_default(),
    {
        let predictor = ResourcePredictor { stats: NameMap::new(), alpha: fraction(3, 10) };
        assert(predictor@.stats =~= Map::<Seq<char>, StatsView<N>>::empty());
        predictor
    }

    /// A predictor that gives a new observation the weight `alpha`, which must
    /// lie between zero and one: there is none for any other.
    pub fn with_alpha(alpha: N) -> (predictor: Option<Self>)
        ensures
            is_in_unit(alpha, predictor is Some),
            predictor matches Some(p) ==> p.wf() && p@ == ResourceModel::empty(alpha),
    {
        let zero = N::from_u64(0);
        let one = N::from_u64(1);
        assert(is_whole(0, zero) && is_whole(1, one));
        let above = alpha.reaches(zero);
        assert(compares_reaching(alpha, zero, above));
        if !above {
            return None;
        }
        let below = one.reaches(alpha);
        assert(compares_reaching(one, alpha, below));
        if !below {
            return None;
        }
        let predictor = ResourcePredictor { stats: NameMap::new(), alpha };
        assert(predictor@.stats =~= Map::<Seq<char>, StatsView<N>>::empty());
        Some(predictor)
    }

    /// What is known of `command` after a run of it, where `before` was known.
    fn updated(
        &self,
        command: &str,
        before: Option<&ResourceStats<N>>,
        obs: ResourceObservation,
    ) -> (after: ResourceStats<N>)
        requires
            before matches Some(stats) ==> stats.observation_count < u64::MAX,
        ensures
            is_updated(
                self@.alpha,
                command@,
                match before {
                    Some(stats) => Some(stats@),
                    None => None,
                },
                obs,
                after@,
            ),
    {
        let (name, count, min, max) = match before {
            Some(stats) => (
                stats.command.clone(),
                stats.observation_count,
                if obs.memory_bytes < stats.memory_min {
                    obs.memory_bytes
                } else {
                    stats.memory_min
                },
                if obs.memory_bytes > stats.memory_max {
                    obs.memory_bytes
                } else {
                    stats.memory_max
                },
            ),
            None => (command.to_owned(), 0, obs.memory_bytes, obs.memory_bytes),
        };
        match before {
            Some(stats) if stats.observation_count > 0 => {
                let memory_ema = moved(self.alpha, obs.memory_bytes, stats.memory_ema);
                ResourceStats {
                    command: name,
                    observation_count: count + 1,
                    memory_ema,
                    cpu_ema: moved(self.alpha, obs.cpu_time_ms, stats.cpu_ema),
                    duration_ema: moved(self.alpha, obs.duration_ms, stats.duration_ema),
                    memory_var: moved_variance(
                        self.alpha,
                        obs.memory_bytes,
                        memory_ema,
                        stats.memory_var,
                    ),
                    memory_min: min,
                    memory_max: max,
                }
            },
            _ => {
                let memory = N::from_u64(obs.memory_bytes);
                let cpu = N::from_u64(obs.cpu_time_ms);
                let duration = N::from_u64(obs.duration_ms);
                let zero = N::from_u64(0);
                assert(is_whole(obs.memory_bytes, memory) && is_whole(obs.cpu_time_ms, cpu)
                    && is_whole(obs.duration_ms, duration) && is_whole(0, zero));
                ResourceStats {
                    command: name,
                    observation_count: count + 1,
                    memory_ema: memory,
                    cpu_ema: cpu,
                    duration_ema: duration,
                    memory_var: zero,
                    memory_min: min,
                    memory_max: max,
                }
            },
        }
    }

    /// Observes a run of `command`.
    pub fn observe(&mut self, command: &str, obs: ResourceObservation)
        requires
            old(self).wf(),
            old(self)@.observations(command@) < u64::MAX,
        ensures
            final(self).wf(),
            old(self)@.is_observed(command@, obs, final(self)@),
    {
        let before = self.stats.get(command);
        let stats = self.updated(command, before, obs);
        let ghost seen = stats@;
        self.stats.put(command, stats);
        proof {
            assert(is_updated(
                old(self)@.alpha,
                command@,
                old(self)@.stats_of(command@),
                obs,
                seen,
            ));
            assert(self@.stats =~= old(self)@.stats.insert(command@, seen));
            assert(self@ =~= old(self)@.with_stats(command@, seen));
        }
    }

    /// Observes several runs of `command`, one after the other.
    pub fn observe_batch(&mut self, command: &str, observations: &[ResourceObservation])
        requires
            old(self).wf(),
            old(self)@.observations(command@) + observations@.len() <= u64::MAX,
        ensures
            final(self).wf(),
            is_batch(old(self)@, command@, observations@, final(self)@),
    {
        let ghost mut models: Seq<ResourceModel<N>> = seq![self@];
        for i in 0..observations.len()
            invariant
                self.wf(),
                self@.observations(command@) + observations@.len() - i <= u64::MAX,
                is_observed_trace(command@, observations@.take(i as int), models),
                models.first() == old(self)@,
                models.last() == self@,
        {
            let ghost before = self@;
            self.observe(command, observations[i]);
            proof {
                let longer = models.push(self@);
                assert forall|j: int| 0 <= j < i + 1 implies (
                #[trigger] longer[j]).is_observed(
                    command@,
                    observations@.take(i + 1)[j],
                    longer[j + 1],
                ) by {
                    if j < i {
                        assert(longer[j] == models[j] && longer[j + 1] == models[j + 1]);
                        assert(observations@.take(i as int)[j] == observations@.take(i + 1)[j]);
                    }
                }
                models = longer;
            }
        }
        assert(observations@.take(observations@.len() as int) =~= observations@);
    }

    /// Predicts what the next run of `command` will use. Where it is known what
    /// is available, the prediction warns of needing more.
    ///
    /// Returns `None` if `command` has no observations.
    pub fn predict(&self, command: &str, available: Option<&ResourceAvailability>) -> (prediction:
        Option<ResourcePrediction>)
        requires
            self.wf(),
        ensures
            self@.is_predicted(
                command@,
                match available {
                    Some(a) => Some(*a),
                    None => None,
                },
                prediction,
            ),
    {
        let stats = match self.stats.get(command) {
            Some(stats) => stats,
            None => return None,
        };
        if stats.observation_count == 0 {
            return None;
        }
        let deviation = stats.memory_var.root();
        let sum = stats.memory_ema.plus(deviation);
        let memory = sum.to_u64();
        let cpu = stats.cpu_ema.to_u64();
        let duration = stats.duration_ema.to_u64();
        proof {
            assert(is_root(stats@.memory_var, deviation));
            assert(is_sum(stats@.memory_ema, deviation, sum));
            assert(is_truncated(sum, memory));
            assert(is_expected_memory(stats@, memory));
            assert(is_truncated(stats@.cpu_ema, cpu));
            assert(is_truncated(stats@.duration_ema, duration));
        }
        let warning_message = match available {
            Some(a) if memory > a.free_memory_bytes => {
                let predicted_text = bytes_text::<N>(memory, GIGABYTE);
                let free_text = bytes_text::<N>(a.free_memory_bytes, GIGABYTE);
                let mut message = "This build typically uses ".to_owned();
                message.append(predicted_text.as_str());
                message.append(" GB. You have ");
                message.append(free_text.as_str());
                message.append(" GB free.");
                assert(is_warning_text::<N>(memory, a.free_memory_bytes, message@));
                Some(message)
            },
            _ => None,
        };
        Some(
            ResourcePrediction {
                command: command.to_owned(),
                predicted_memory_bytes: memory,
                predicted_cpu_ms: cpu,
                predicted_duration_ms: duration,
                observation_count: stats.observation_count,
                is_warning: warning_message.is_some(),
                warning_message,
            },
        )
    }

    /// What is known of `command`.
    pub fn stats_for(&self, command: &str) -> (stats: Option<&ResourceStats<N>>)
        requires
            self.wf(),
        ensures
            match stats {
                Some(s) => self@.stats_of(command@) == Some(s@),
                None => self@.stats_of(command@) is None,
            },
    {
        self.stats.get(command)
    }

    /// What a run of `command` does to the memory, in words.
    pub fn memory_delta_description(&self, command: &str) -> (message: Option<String>)
        requires
            self.wf(),
        ensures
            self@.is_delta_described(command@, message),
    {
        let stats = match self.stats.get(command) {
            Some(stats) => stats,
            None => return None,
        };
        let mega = N::from_u64(MEGABYTE);
        let amount = stats.memory_ema.over(mega);
        let amount_text = shown(amount, 0);
        let mut text = "When you run `".to_owned();
        text.append(command);
        text.append("`, memory usage increases by ~");
        text.append(amount_text.as_str());
        text.append(" MB");
        proof {
            assert(is_whole(MEGABYTE, mega));
            assert(is_quotient(stats@.memory_ema, mega, amount));
            assert(is_text(amount, 0, amount_text@));
            assert(is_memory_text(command@, stats@, text@));
        }
        Some(text)
    }

    /// The coefficient of variation of the memory of `command`: the standard
    /// deviation over the average.
    ///
    /// Returns `None` if `command` is not known, was observed less than twice,
    /// or does not use memory on average.
    pub fn memory_cv(&self, command: &str) -> (cv: Option<N>)
        requires
            self.wf(),
        ensures
            self@.has_variation(command@, cv),
    {
        let stats = match self.stats.get(command) {
            Some(stats) => stats,
            None => return None,
        };
        let zero = N::from_u64(0);
        let without = zero.reaches(stats.memory_ema);
        assert(is_whole(0, zero) && compares_reaching(zero, stats@.memory_ema, without));
        assert(is_without_memory(stats@, without));
        if without || stats.observation_count < 2 {
            return None;
        }
        let deviation = stats.memory_var.root();
        let cv = deviation.over(stats.memory_ema);
        assert(is_root(stats@.memory_var, deviation) && is_quotient(
            deviation,
            stats@.memory_ema,
            cv,
        ));
        assert(is_variation(stats@, cv));
        Some(cv)
    }

    /// The commands, in the order of their first observation.
    pub fn commands(&self) -> (commands: Vec<String>)
        requires
            self.wf(),
        ensures
            spelled(commands@) == self@.order,
            self@.order.no_duplicates(),
            forall|name: Seq<char>| #[trigger]
                self@.known(name) <==> self@.order.contains(name),
    {
        let mut commands: Vec<String> = Vec::new();
        let len = self.stats.len();
        for i in 0..len
            invariant
                self.wf(),
                len == self@.order.len(),
                commands@.len() == i,
                forall|j: int| 0 <= j < i ==> (#[trigger] commands@[j])@ == self@.order[j],
        {
            commands.push(self.stats.name_at(i).clone());
        }
        proof {
            assert(spelled(commands@) =~= self@.order);
            self.stats.lemma_order();
            assert forall|name: Seq<char>| #[trigger] self@.known(name)
                <==> self@.order.contains(name) by {
                assert(self.stats@.contains_key(name) <==> self.stats.order().contains(name));
            }
        }
        commands
    }

    /// The sum of the memory variances of all commands with more than one
    /// observation.
    pub fn total_variance(&self) -> (sum: N)
        requires
            self.wf(),
        ensures
            is_total_variance(self@, sum),
    {
        let mut variances: Vec<N> = Vec::new();
        let len = self.stats.len();
        for i in 0..len
            invariant
                self.wf(),
                len == self@.order.len(),
                variances@ == self@.variances(i as nat),
        {
            let stats = self.stats.value_at(i);
            if stats.observation_count > 1 {
                variances.push(stats.memory_var);
            }
        }
        total(&variances)
    }

    /// The number of commands observed.
    pub fn num_commands(&self) -> (len: usize)
        requires
            self.wf(),
        ensures
            len == self@.order.len(),
            len == self@.stats.dom().len(),
    {
        proof {
            self.stats.lemma_order();
            assert(self@.stats.dom() =~= self.stats@.dom());
        }
        self.stats.len()
    }

    /// The weight of a new observation.
    pub fn alpha(&self) -> (alpha: N)
        ensures
            alpha == self@.alpha,
    {
        self.alpha
    }

    /// What is known of each command, in the order of their first observation.
    pub fn entries(&self) -> (entries: Vec<(String, ResourceStats<N>)>)
        requires
            self.wf(),
        ensures
            self@ == model_of(self@.alpha, entries@),
            entries@.len() == self@.order.len(),
    {
        let mut entries: Vec<(String, ResourceStats<N>)> = Vec::new();
        let len = self.stats.len();
        proof {
            self.stats.lemma_order();
        }
        for i in 0..len
            invariant
                self.wf(),
                self@.order.no_duplicates(),
                len == self@.order.len(),
                entries@.len() == i,
                entries_order(entries@) == self@.order.take(i as int),
                forall|name: Seq<char>| #[trigger]
                    entries_map(entries@).contains_key(name) <==> self@.order.take(
                        i as int,
                    ).contains(name),
                forall|name: Seq<char>| #[trigger]
                    entries_map(entries@).contains_key(name) ==> entries_map(entries@)[name]@
                        == self@.stats[name],
        {
            let ghost before = entries@;
            let name = self.stats.name_at(i).clone();
            let stats = self.stats.value_at(i).clone();
            let ghost entry = (name, stats);
            entries.push((name, stats));
            proof {
                let order = self@.order;
                let shorter = order.take(i as int);
                let longer = order.take(i + 1);
                assert(entries@.drop_last() =~= before);
                assert(entries@.last() == entry);
                assert(entries_map(entries@) == entries_map(before).insert(name@, stats));
                assert(longer =~= shorter.push(name@));
                assert(!shorter.contains(name@)) by {
                    if shorter.contains(name@) {
                        let j = shorter.index_of(name@);
                        assert(order[j] == order[i as int]);
                    }
                }
                assert forall|other: Seq<char>| #[trigger]
                    entries_map(entries@).contains_key(other) <==> longer.contains(other) by {
                    if shorter.contains(other) {
                        let j = shorter.index_of(other);
                        assert(longer[j] == other);
                    }
                    assert(longer[i as int] == name@);
                    if longer.contains(other) && other != name@ {
                        let j = longer.index_of(other);
                        assert(shorter[j] == other);
                    }
                }
            }
        }
        proof {
            let order = self@.order;
            assert(order.take(order.len() as int) =~= order);
            assert(self@.stats =~= model_of(self@.alpha, entries@).stats);
            assert(self@ =~= model_of(self@.alpha, entries@));
        }
        entries
    }

    /// The predictor with the weight `alpha` that knows what `entries` say, a
    /// later entry replacing an earlier one of the same command.
    pub fn from_entries(alpha: N, entries: Vec<(String, ResourceStats<N>)>) -> (predictor: Self)
        ensures
            predictor.wf(),
            predictor@ == model_of(alpha, entries@),
    {
        let mut stats: NameMap<ResourceStats<N>> = NameMap::new();
        for i in 0..entries.len()
            invariant
                stats.wf(),
                stats.order() == entries_order(entries@.take(i as int)),
                stats@.dom() == entries_map(entries@.take(i as int)).dom(),
                forall|name: Seq<char>| #[trigger]
                    stats@.contains_key(name) ==> stats@[name]@ == entries_map(
                        entries@.take(i as int),
                    )[name]@,
        {
            let ghost shorter = entries@.take(i as int);
            let ghost longer = entries@.take(i + 1);
            let ghost before = stats@;
            let copy = entries[i].1.clone();
            stats.put(entries[i].0.as_str(), copy);
            proof {
                assert(longer.drop_last() =~= shorter);
                assert(longer.last() == entries@[i as int]);
                let name = entries@[i as int].0@;
                assert(before.contains_key(name) <==> entries_map(shorter).contains_key(name));
                assert(stats@.dom() =~= entries_map(longer).dom());
                assert forall|other: Seq<char>| #[trigger]
                    stats@.contains_key(other) implies stats@[other]@ == entries_map(
                    longer,
                )[other]@ by {
                    if other != name {
                        assert(before.contains_key(other));
                    }
                }
            }
        }
        assert(entries@.take(entries@.len() as int) =~= entries@);
        let predictor = ResourcePredictor { stats, alpha };
        proof {
            assert(predictor@.stats =~= model_of(alpha, entries@).stats);
            assert(predictor@ =~= model_of(alpha, entries@));
        }
        predictor
    }
}

/// The model that a weight and a list of entries describe.
pub open spec fn model_of<N: Number>(
    alpha: N,
    entries: Seq<(String, ResourceStats<N>)>,
) -> ResourceModel<N> {
    ResourceModel {
        order: entries_order(entries),
        stats: entries_map(entries).map_values(|s: ResourceStats<N>| s@),
        alpha,
    }
}

impl<N: Number> Clone for ResourcePredictor<N> {
    fn clone(&self) -> (copy: Self)
        ensures
            self.wf() ==> copy.wf() && copy@ == self@,
    {
        let copy = ResourcePredictor { stats: self.stats.clone(), alpha: self.alpha };
        proof {
            if self.wf() {
                assert(copy@.stats =~= self@.stats);
                assert(copy@ =~= self@);
            }
        }
        copy
    }
}

impl<N: Number> Default for ResourcePredictor<N> {
    fn default() -> (predictor: Self)
        ensures
            predictor.wf(),
            predictor@.is_default(),
    {
        Self::new()
    }
}

} // verus!
