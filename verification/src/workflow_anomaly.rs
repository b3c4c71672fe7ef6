//! Detecting shifts in the command pattern.
//!
//! What follows a command is compared with the long-run share of each command:
//! the more the two differ, the more the command stands for a new workflow. Two
//! distances are taken, the Kullback-Leibler divergence, by which a shift is
//! judged, and the Wasserstein-1 distance.

use crate::chain::{is_stationary_of, ChainNumber};
use crate::command_predictor::{is_rebuilt, is_transition_row, CommandPredictor};
use crate::distance::{
    divergence, is_divergence, is_transport, law_divergence_is_not_negative,
    law_transport_is_bounded, transport,
};
use crate::exact::{are_same, is_distribution, is_exact, orders};
use crate::model::Model;
use crate::number::{
    compares_reaching, fraction, is_fraction, is_text, is_whole, shown, Number,
};
use crate::smoothing::{law_smoothed_is_a_distribution, law_smoothed_is_the_share};
use crate::trend::{is_slope, slope};
use ergodic_transport::MarkovChain;
use vstd::prelude::*;

verus! {

/// How far a command is off the usual pattern.
#[derive(Debug, Clone, Copy, PartialEq, Eq, PartialOrd, Ord, Structural)]
pub enum Severity {
    /// Within normal variation.
    Normal,
    /// A mild shift: possibly another context.
    Mild,
    /// A significant shift: likely a new task.
    Significant,
    /// A dramatic shift: another workflow altogether.
    Dramatic,
}

impl Severity {
    /// The word for a severity.
    pub open spec fn word(self) -> Seq<char> {
        match self {
            Severity::Normal => "normal"@,
            Severity::Mild => "mild"@,
            Severity::Significant => "significant"@,
            Severity::Dramatic => "dramatic"@,
        }
    }

    /// How severe it is, from zero on.
    pub open spec fn rank(self) -> nat {
        match self {
            Severity::Normal => 0,
            Severity::Mild => 1,
            Severity::Significant => 2,
            Severity::Dramatic => 3,
        }
    }

    /// The word for the severity.
    pub fn to_text(&self) -> (text: String)
        ensures
            text@ == self.word(),
    {
        match self {
            Severity::Normal => "normal".to_owned(),
            Severity::Mild => "mild".to_owned(),
            Severity::Significant => "significant".to_owned(),
            Severity::Dramatic => "dramatic".to_owned(),
        }
    }
}

/// A detected workflow shift.
#[derive(Debug, Clone, PartialEq)]
pub struct AnomalyRecord<N> {
    /// The command that it was detected at.
    pub command: String,
    /// The Kullback-Leibler divergence from the stationary distribution.
    pub kl_divergence: N,
    /// The Wasserstein-1 distance from the stationary distribution.
    pub wasserstein_distance: N,
    /// How far off the usual pattern it is.
    pub severity: Severity,
    /// When it was detected, in seconds since the epoch.
    pub timestamp_secs: u64,
    /// What was detected, in words.
    pub description: String,
}

/// A measurement of both distances.
#[derive(Debug, Clone)]
pub struct DistanceRecord<N> {
    /// When it was taken, in seconds since the epoch.
    pub timestamp_secs: u64,
    /// The Kullback-Leibler divergence.
    pub kl_divergence: N,
    /// The Wasserstein-1 distance.
    pub wasserstein_distance: N,
}

/// Detects workflow shifts, and keeps the measurements for trend analysis.
#[derive(Debug, Clone)]
pub struct WorkflowAnomaly<N> {
    /// The measurements, the oldest first.
    pub history: Vec<DistanceRecord<N>>,
    /// How many measurements are kept.
    pub max_history: usize,
    /// The divergence from which on a shift is mild.
    pub mild_threshold: N,
    /// The divergence from which on a shift is significant.
    pub significant_threshold: N,
    /// The divergence from which on a shift is dramatic.
    pub dramatic_threshold: N,
}

/// How many measurements a new detector keeps.
pub const DEFAULT_MAX_HISTORY: usize = 1000;

/// What there is to compare: the probabilities of what follows `command` in the
/// rebuilt chain, and the stationary distribution of that chain, if it has one.
pub open spec fn is_basis<N: ChainNumber>(
    model: Model,
    command: Seq<char>,
    chain: MarkovChain,
    basis: Option<(Vec<N>, Vec<N>)>,
) -> bool {
    &&& is_rebuilt::<N>(model, chain)
    &&& exists|stationary: Option<Vec<N>>| #[trigger]
        is_stationary_of(chain, stationary) && match basis {
            Some((row, base)) => stationary == Some(base) && is_transition_row(
                model,
                model.index[command] as int,
                row@,
            ),
            None => stationary is None,
        }
}

/// `r` is the divergence of `basis`, which is zero if there is nothing to
/// compare.
pub open spec fn is_divergence_of<N: ChainNumber>(basis: Option<(Vec<N>, Vec<N>)>, r: N) -> bool {
    match basis {
        Some((row, base)) => is_divergence(row@, base@, r),
        None => is_whole(0, r),
    }
}

/// `r` is the Wasserstein-1 distance of `basis`, which is zero if there is
/// nothing to compare.
pub open spec fn is_transport_of<N: ChainNumber>(basis: Option<(Vec<N>, Vec<N>)>, r: N) -> bool {
    match basis {
        Some((row, base)) => is_transport(row@, base@, r),
        None => is_whole(0, r),
    }
}

/// `r` is the divergence of what follows `command` from the stationary
/// distribution of the rebuilt `chain`, which is zero if `command` is not known.
pub open spec fn is_kl_in<N: ChainNumber>(
    model: Model,
    command: Seq<char>,
    chain: MarkovChain,
    r: N,
) -> bool {
    if model.known(command) && model.names.len() > 0 {
        exists|basis: Option<(Vec<N>, Vec<N>)>| #[trigger]
            is_basis(model, command, chain, basis) && is_divergence_of(basis, r)
    } else {
        is_whole(0, r)
    }
}

/// `r` is the Wasserstein-1 distance of what follows `command` from the
/// stationary distribution of the rebuilt `chain`, which is zero if `command` is
/// not known.
pub open spec fn is_wasserstein_in<N: ChainNumber>(
    model: Model,
    command: Seq<char>,
    chain: MarkovChain,
    r: N,
) -> bool {
    if model.known(command) && model.names.len() > 0 {
        exists|basis: Option<(Vec<N>, Vec<N>)>| #[trigger]
            is_basis(model, command, chain, basis) && is_transport_of(basis, r)
    } else {
        is_whole(0, r)
    }
}

/// `r` is the divergence of what follows `command`, in some chain rebuilt for
/// it.
pub open spec fn is_kl<N: ChainNumber>(model: Model, command: Seq<char>, r: N) -> bool {
    exists|chain: MarkovChain| #[trigger] is_kl_in(model, command, chain, r)
}

/// Without rounding, and where the stationary distribution covers all states and
/// leaves none out, the divergence of what follows a command is not negative, and
/// it is zero if and only if the two distributions are the same.
pub proof fn law_divergence_of_a_command<N: ChainNumber>(
    value: spec_fn(N) -> real,
    model: Model,
    command: Seq<char>,
    chain: MarkovChain,
    row: Vec<N>,
    base: Vec<N>,
    r: N,
)
    requires
        is_exact(value),
        model.fits(),
        model.index[command] < model.names.len(),
        is_basis(model, command, chain, Some((row, base))),
        is_divergence_of(Some((row, base)), r),
        base@.len() == model.names.len(),
        is_distribution(value, base@),
        forall|j: int| 0 <= j < base@.len() ==> value(#[trigger] base@[j]) > 0 as real,
    ensures
        value(r) >= 0 as real,
        value(r) == 0 as real <==> are_same(value, row@, base@),
{
    let counts = model.row(model.index[command] as int);
    law_smoothed_is_a_distribution(value, counts, row@);
    assert forall|j: int| 0 <= j < row@.len() implies value(#[trigger] row@[j]) > 0 as real by {
        law_smoothed_is_the_share(value, counts, row@, j);
    }
    law_divergence_is_not_negative(value, row@, base@, r);
}

/// Without rounding, and where the stationary distribution covers all states, the
/// Wasserstein-1 distance of what follows a command lies between zero and one
/// less than the number of states, and it is zero if and only if the two
/// distributions are the same.
pub proof fn law_transport_of_a_command<N: ChainNumber>(
    value: spec_fn(N) -> real,
    model: Model,
    command: Seq<char>,
    chain: MarkovChain,
    row: Vec<N>,
    base: Vec<N>,
    r: N,
)
    requires
        is_exact(value),
        model.fits(),
        model.index[command] < model.names.len(),
        is_basis(model, command, chain, Some((row, base))),
        is_transport_of(Some((row, base)), r),
        base@.len() == model.names.len(),
        is_distribution(value, base@),
    ensures
        value(r) >= 0 as real,
        value(r) <= (model.names.len() - 1) as real,
        value(r) == 0 as real <==> are_same(value, row@, base@),
{
    law_smoothed_is_a_distribution(value, model.row(model.index[command] as int), row@);
    law_transport_is_bounded(value, row@, base@, r);
}

/// The chain of `predictor` after a distance was taken at `command`: rebuilt if
/// there was anything to compare, else as it was.
pub open spec fn is_consulted<N: ChainNumber>(
    model: Model,
    command: Seq<char>,
    before: MarkovChain,
    after: MarkovChain,
) -> bool {
    if model.known(command) && model.names.len() > 0 {
        is_rebuilt::<N>(model, after)
    } else {
        after == before
    }
}

/// Rebuilds the chain, and returns what is to be compared at the known command
/// of index `cur_idx`.
fn basis_at<N: ChainNumber>(
    predictor: &mut CommandPredictor,
    Ghost(command): Ghost<Seq<char>>,
    cur_idx: usize,
) -> (basis: Option<(Vec<N>, Vec<N>)>)
    requires
        old(predictor).wf(),
        old(predictor)@.fits(),
        old(predictor)@.index[command] == cur_idx,
    ensures
        final(predictor).wf(),
        final(predictor)@ == old(predictor)@,
        is_basis(old(predictor)@, command, final(predictor).held_chain(), basis),
{
    predictor.rebuild::<N>();
    let row: Vec<N> = predictor.transition_row(cur_idx);
    let stationary = N::stationary_of(predictor.chain());
    assert(is_stationary_of(predictor.held_chain(), stationary));
    match stationary {
        Some(base) => Some((row, base)),
        None => None,
    }
}

/// The measurements after `record` was taken: the oldest one is dropped if there
/// are now more than `max_history`.
pub open spec fn remembered<N>(
    history: Seq<DistanceRecord<N>>,
    record: DistanceRecord<N>,
    max_history: usize,
) -> Seq<DistanceRecord<N>> {
    let longer = history.push(record);
    if longer.len() > max_history {
        longer.drop_first()
    } else {
        longer
    }
}

/// A history that is no longer than its maximum stays so.
pub proof fn law_history_stays_bounded<N>(
    history: Seq<DistanceRecord<N>>,
    record: DistanceRecord<N>,
    max_history: usize,
)
    requires
        history.len() <= max_history,
    ensures
        remembered(history, record, max_history).len() <= max_history,
{
}

/// A history keeps its latest measurements in their order, the one just taken at
/// the end, unless it keeps none at all.
pub proof fn law_history_keeps_the_latest<N>(
    history: Seq<DistanceRecord<N>>,
    record: DistanceRecord<N>,
    max_history: usize,
)
    ensures
        remembered(history, record, max_history).is_suffix_of(history.push(record)),
        remembered(history, record, max_history).len() > 0 ==> remembered(
            history,
            record,
            max_history,
        ).last() == record,
        history.len() > 0 || max_history > 0 ==> remembered(history, record, max_history).len() > 0,
{
    let longer = history.push(record);
    let kept = remembered(history, record, max_history);
    assert(kept =~= longer.subrange(longer.len() - kept.len(), longer.len() as int));
}

/// The divergences of the last `window` measurements, the oldest first.
pub open spec fn recent_divergences<N>(
    history: Seq<DistanceRecord<N>>,
    window: usize,
) -> Seq<N> {
    let start = if window < history.len() {
        history.len() - window
    } else {
        0
    };
    Seq::new((history.len() - start) as nat, |i: int| history[start + i].kl_divergence)
}

/// `trend` is the trend of the divergence over the last `window` measurements.
pub open spec fn is_trend<N: Number>(
    history: Seq<DistanceRecord<N>>,
    window: usize,
    trend: N,
) -> bool {
    is_slope(recent_divergences(history, window), trend)
}

/// `text` describes a shift of the given severity.
pub open spec fn is_description<N: Number>(
    severity: Severity,
    kl: N,
    w1: N,
    text: Seq<char>,
) -> bool {
    match severity {
        Severity::Normal => text == "Command pattern within normal range."@,
        Severity::Mild => exists|kl_text: Seq<char>| #[trigger]
            is_text(kl, 2, kl_text) && text == "Mild workflow shift detected (KL="@ + kl_text
                + "). You might be switching context."@,
        Severity::Significant => exists|kl_text: Seq<char>, w1_text: Seq<char>| #[trigger]
            is_text(kl, 2, kl_text) && #[trigger] is_text(w1, 2, w1_text) && text
                == "Command pattern just shifted — did you start a new task? (KL="@ + kl_text
                + ", W₁="@ + w1_text + ")"@,
        Severity::Dramatic => exists|kl_text: Seq<char>, w1_text: Seq<char>| #[trigger]
            is_text(kl, 2, kl_text) && #[trigger] is_text(w1, 2, w1_text) && text
                == "Dramatic workflow change! Completely different command pattern. (KL="@
                + kl_text + ", W₁="@ + w1_text + ")"@,
    }
}

fn describe<N: Number>(severity: Severity, kl: N, w1: N) -> (text: String)
    ensures
        is_description(severity, kl, w1, text@),
{
    match severity {
        Severity::Normal => "Command pattern within normal range.".to_owned(),
        Severity::Mild => {
            let kl_text = shown(kl, 2);
            let mut text = "Mild workflow shift detected (KL=".to_owned();
            text.append(kl_text.as_str());
            text.append("). You might be switching context.");
            text
        },
        Severity::Significant => {
            let kl_text = shown(kl, 2);
            let w1_text = shown(w1, 2);
            let mut text =
                "Command pattern just shifted — did you start a new task? (KL=".to_owned();
            text.append(kl_text.as_str());
            text.append(", W₁=");
            text.append(w1_text.as_str());
            text.append(")");
            text
        },
        Severity::Dramatic => {
            let kl_text = shown(kl, 2);
            let w1_text = shown(w1, 2);
            let mut text =
                "Dramatic workflow change! Completely different command pattern. (KL=".to_owned();
            text.append(kl_text.as_str());
            text.append(", W₁=");
            text.append(w1_text.as_str());
            text.append(")");
            text
        },
    }
}

impl<N: Number> WorkflowAnomaly<N> {
    /// The severity of a shift by the divergence `kl`: that of the highest
    /// threshold that it reaches.
    pub open spec fn is_severity(self, kl: N, severity: Severity) -> bool {
        match severity {
            Severity::Dramatic => compares_reaching(kl, self.dramatic_threshold, true),
            Severity::Significant => {
                &&& compares_reaching(kl, self.dramatic_threshold, false)
                &&& compares_reaching(kl, self.significant_threshold, true)
            },
            Severity::Mild => {
                &&& compares_reaching(kl, self.dramatic_threshold, false)
                &&& compares_reaching(kl, self.significant_threshold, false)
                &&& compares_reaching(kl, self.mild_threshold, true)
            },
            Severity::Normal => {
                &&& compares_reaching(kl, self.dramatic_threshold, false)
                &&& compares_reaching(kl, self.significant_threshold, false)
                &&& compares_reaching(kl, self.mild_threshold, false)
            },
        }
    }

    /// `anomaly` is what is reported of the distances `kl` and `w1` that were
    /// measured at `command`: nothing if they are normal, and else a record.
    pub open spec fn is_report(
        self,
        command: Seq<char>,
        kl: N,
        w1: N,
        timestamp_secs: u64,
        anomaly: Option<AnomalyRecord<N>>,
    ) -> bool {
        match anomaly {
            None => self.is_severity(kl, Severity::Normal),
            Some(record) => {
                &&& record.severity != Severity::Normal
                &&& self.is_severity(kl, record.severity)
                &&& record.command@ == command
                &&& record.kl_divergence == kl
                &&& record.wasserstein_distance == w1
                &&& record.timestamp_secs == timestamp_secs
                &&& is_description(record.severity, kl, w1, record.description@)
            },
        }
    }

    /// The detector has measured nothing and has the default limits.
    pub open spec fn is_default(self) -> bool {
        &&& self.history@.len() == 0
        &&& self.max_history == DEFAULT_MAX_HISTORY
        &&& is_fraction(1, 2, self.mild_threshold)
        &&& is_fraction(3, 2, self.significant_threshold)
        &&& is_whole(3, self.dramatic_threshold)
    }

    /// The limits of the detector are those of `other`.
    pub open spec fn same_limits(self, other: Self) -> bool {
        &&& self.max_history == other.max_history
        &&& self.mild_threshold == other.mild_threshold
        &&& self.significant_threshold == other.significant_threshold
        &&& self.dramatic_threshold == other.dramatic_threshold
    }

    /// The detector after the distances `kl` and `w1` were measured.
    pub open spec fn has_measured(self, before: Self, kl: N, w1: N, timestamp_secs: u64) -> bool {
        &&& self.same_limits(before)
        &&& self.history@ == remembered(
            before.history@,
            DistanceRecord { timestamp_secs, kl_divergence: kl, wasserstein_distance: w1 },
            before.max_history,
        )
    }

    /// A detector with the default thresholds: a divergence of one half is
    /// mild, one of one and a half is significant, and one of three is
    /// dramatic.
    pub fn new() -> (detector: Self)
        ensures
            detector.is_default(),
    {
        let dramatic = N::from_u64(3);
        assert(is_whole(3, dramatic));
        Self::with_thresholds(fraction(1, 2), fraction(3, 2), dramatic)
    }

    /// A detector with the given thresholds.
    pub fn with_thresholds(mild: N, significant: N, dramatic: N) -> (detector: Self)
        ensures
            detector.history@.len() == 0,
            detector.max_history == DEFAULT_MAX_HISTORY,
            detector.mild_threshold == mild,
            detector.significant_threshold == significant,
            detector.dramatic_threshold == dramatic,
    {
        WorkflowAnomaly {
            history: Vec::new(),
            max_history: DEFAULT_MAX_HISTORY,
            mild_threshold: mild,
            significant_threshold: significant,
            dramatic_threshold: dramatic,
        }
    }

    /// The severity of a shift by the divergence `kl`.
    pub fn severity_of(&self, kl: N) -> (severity: Severity)
        ensures
            self.is_severity(kl, severity),
    {
        let dramatic = kl.reaches(self.dramatic_threshold);
        assert(compares_reaching(kl, self.dramatic_threshold, dramatic));
        if dramatic {
            return Severity::Dramatic;
        }
        let significant = kl.reaches(self.significant_threshold);
        assert(compares_reaching(kl, self.significant_threshold, significant));
        if significant {
            return Severity::Significant;
        }
        let mild = kl.reaches(self.mild_threshold);
        assert(compares_reaching(kl, self.mild_threshold, mild));
        if mild {
            return Severity::Mild;
        }
        Severity::Normal
    }

    /// Takes down the distances that were measured at `command`, and reports
    /// them if they are not normal.
    pub fn report(&mut self, command: &str, kl: N, w1: N, timestamp_secs: u64) -> (anomaly: Option<
        AnomalyRecord<N>,
    >)
        ensures
            final(self).has_measured(*old(self), kl, w1, timestamp_secs),
            old(self).is_report(command@, kl, w1, timestamp_secs, anomaly),
    {
        self.history.push(
            DistanceRecord { timestamp_secs, kl_divergence: kl, wasserstein_distance: w1 },
        );
        if self.history.len() > self.max_history {
            self.history.remove(0);
        }
        assert(self.history@ =~= remembered(
            old(self).history@,
            DistanceRecord { timestamp_secs, kl_divergence: kl, wasserstein_distance: w1 },
            old(self).max_history,
        ));
        let severity = self.severity_of(kl);
        match severity {
            Severity::Normal => None,
            _ => Some(
                AnomalyRecord {
                    command: command.to_owned(),
                    kl_divergence: kl,
                    wasserstein_distance: w1,
                    severity,
                    timestamp_secs,
                    description: describe(severity, kl, w1),
                },
            ),
        }
    }

    /// The measurements, the oldest first.
    pub fn history(&self) -> (history: &[DistanceRecord<N>])
        ensures
            history@ == self.history@,
    {
        self.history.as_slice()
    }

    /// The trend of the divergence over the last `window` measurements:
    /// positive where it increases, negative where it decreases, and zero for
    /// fewer than two measurements.
    pub fn divergence_trend(&self, window: usize) -> (trend: N)
        ensures
            is_trend(self.history@, window, trend),
    {
        let len = self.history.len();
        let start = if window < len {
            len - window
        } else {
            0
        };
        let mut recent: Vec<N> = Vec::new();
        for i in start..len
            invariant
                len == self.history@.len(),
                start == if window < len {
                    len - window
                } else {
                    0
                },
                recent@.len() == i - start,
                forall|j: int|
                    0 <= j < i - start ==> #[trigger] recent@[j] == self.history@[start
                        + j].kl_divergence,
        {
            recent.push(self.history[i].kl_divergence);
        }
        assert(recent@ =~= recent_divergences(self.history@, window));
        slope(&recent)
    }
}

/// Where comparisons go by an order, a larger divergence is never judged milder.
pub proof fn law_severity_grows_with_divergence<N: Number>(
    value: spec_fn(N) -> real,
    proper: spec_fn(N) -> bool,
    detector: WorkflowAnomaly<N>,
    smaller: N,
    milder: Severity,
    larger: N,
    graver: Severity,
)
    requires
        orders(value, proper),
        proper(smaller),
        proper(larger),
        proper(detector.mild_threshold),
        proper(detector.significant_threshold),
        proper(detector.dramatic_threshold),
        value(smaller) <= value(larger),
        detector.is_severity(smaller, milder),
        detector.is_severity(larger, graver),
    ensures
        milder.rank() <= graver.rank(),
{
}

impl<N: ChainNumber> WorkflowAnomaly<N> {
    /// After both distances were measured at `command`, the detector is `after`
    /// and `anomaly` is what is reported of them.
    pub open spec fn is_detection(
        self,
        model: Model,
        command: Seq<char>,
        chain: MarkovChain,
        timestamp_secs: u64,
        after: Self,
        anomaly: Option<AnomalyRecord<N>>,
    ) -> bool {
        exists|kl: N, w1: N| #[trigger]
            is_kl(model, command, kl) && #[trigger] is_wasserstein_in(model, command, chain, w1)
                && after.has_measured(self, kl, w1, timestamp_secs) && self.is_report(
                command,
                kl,
                w1,
                timestamp_secs,
                anomaly,
            )
    }

    /// The Kullback-Leibler divergence of what follows `command` from the
    /// stationary distribution.
    ///
    /// It is zero if `command` is not known or there is no stationary
    /// distribution.
    pub fn kl_divergence(predictor: &mut CommandPredictor, command: &str) -> (r: N)
        requires
            old(predictor).wf(),
            old(predictor)@.has_row(command@),
        ensures
            final(predictor).wf(),
            final(predictor)@ == old(predictor)@,
            is_consulted::<N>(
                old(predictor)@,
                command@,
                old(predictor).held_chain(),
                final(predictor).held_chain(),
            ),
            is_kl_in(old(predictor)@, command@, final(predictor).held_chain(), r),
    {
        let zero = N::from_u64(0);
        assert(is_whole(0, zero));
        let cur_idx = match predictor.index_of(command) {
            Some(i) => i,
            None => return zero,
        };
        if predictor.num_commands() == 0 {
            return zero;
        }
        let basis: Option<(Vec<N>, Vec<N>)> = basis_at(predictor, Ghost(command@), cur_idx);
        let r = match &basis {
            Some((row, base)) => divergence(row, base),
            None => zero,
        };
        assert(is_divergence_of(basis, r));
        r
    }

    /// The Wasserstein-1 distance of what follows `command` from the stationary
    /// distribution, over the states in the order of their indices.
    ///
    /// It is zero if `command` is not known or there is no stationary
    /// distribution.
    pub fn wasserstein_distance(predictor: &mut CommandPredictor, command: &str) -> (r: N)
        requires
            old(predictor).wf(),
            old(predictor)@.has_row(command@),
        ensures
            final(predictor).wf(),
            final(predictor)@ == old(predictor)@,
            is_consulted::<N>(
                old(predictor)@,
                command@,
                old(predictor).held_chain(),
                final(predictor).held_chain(),
            ),
            is_wasserstein_in(old(predictor)@, command@, final(predictor).held_chain(), r),
    {
        let zero = N::from_u64(0);
        assert(is_whole(0, zero));
        let cur_idx = match predictor.index_of(command) {
            Some(i) => i,
            None => return zero,
        };
        if predictor.num_commands() == 0 {
            return zero;
        }
        let basis: Option<(Vec<N>, Vec<N>)> = basis_at(predictor, Ghost(command@), cur_idx);
        let r = match &basis {
            Some((row, base)) => transport(row, base),
            None => zero,
        };
        assert(is_transport_of(basis, r));
        r
    }

    /// Measures both distances at `command`, takes them down, and reports them
    /// if they are not normal.
    pub fn detect(
        &mut self,
        predictor: &mut CommandPredictor,
        command: &str,
        timestamp_secs: u64,
    ) -> (anomaly: Option<AnomalyRecord<N>>)
        requires
            old(predictor).wf(),
            old(predictor)@.has_row(command@),
        ensures
            final(predictor).wf(),
            final(predictor)@ == old(predictor)@,
            is_consulted::<N>(
                old(predictor)@,
                command@,
                old(predictor).held_chain(),
                final(predictor).held_chain(),
            ),
            old(self).is_detection(
                old(predictor)@,
                command@,
                final(predictor).held_chain(),
                timestamp_secs,
                *final(self),
                anomaly,
            ),
    {
        let kl = Self::kl_divergence(predictor, command);
        assert(is_kl(old(predictor)@, command@, kl));
        let w1 = Self::wasserstein_distance(predictor, command);
        self.report(command, kl, w1, timestamp_secs)
    }
}

impl<N: Number> Default for WorkflowAnomaly<N> {
    fn default() -> (detector: Self)
        ensures
            detector.is_default(),
    {
        Self::new()
    }
}

} // verus!
