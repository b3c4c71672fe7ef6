//! Predicting the next command.
//!
//! Commands are mapped to the states of a Markov chain, and the transitions
//! between them are counted. The counts out of the current command, smoothed so
//! that none is zero, say how likely each command is to come next.

use crate::chain::{
    chain_edges, chain_len, ergodicity, is_chain_of, is_complete, is_mixing_time_of,
    is_stationary_of, ChainNumber, MAX_STATES,
};
use crate::model::{keys_of, Model, CELLS};
use crate::names::{entries_map, spelled, spelled_option, spelled_slices, NameMap};
use crate::number::{is_whole, Number};
use crate::prediction::{Prediction, PredictionResult};
use crate::ranking::{goes_by, is_comparable, is_descending, ranking};
use crate::smoothing::{is_smoothed, smoothed};
use ergodic_transport::MarkovChain;
use vstd::prelude::*;

verus! {

/// The number of steps that a chain is given to come close to its stationary
/// distribution.
pub const MIXING_STEPS: usize = 10_000;

/// Maps command names onto the states of a Markov chain and counts the
/// transitions between them.
#[derive(Debug)]
pub struct CommandPredictor {
    /// The state index of each command.
    command_to_idx: NameMap<usize>,
    /// The command of each state index.
    idx_to_command: Vec<String>,
    /// The chain that was last built from the counts.
    chain: MarkovChain,
    /// The number of transitions recorded.
    total_transitions: u64,
    /// The transition counts, row by row, `MAX_STATES` to a row.
    raw_counts: Vec<u64>,
}

impl Clone for CommandPredictor {
    fn clone(&self) -> (copy: Self)
        ensures
            self.wf() ==> copy.wf() && copy@ == self@,
            copy.held_chain() == self.held_chain(),
    {
        let copy = CommandPredictor {
            command_to_idx: self.command_to_idx.clone(),
            idx_to_command: self.idx_to_command.clone(),
            chain: self.chain.clone(),
            total_transitions: self.total_transitions,
            raw_counts: self.raw_counts.clone(),
        };
        proof {
            if self.wf() {
                assert(copy.command_to_idx@ =~= self.command_to_idx@);
                assert(spelled(copy.idx_to_command@) =~= spelled(self.idx_to_command@));
                assert(copy.raw_counts@ =~= self.raw_counts@);
            }
        }
        copy
    }
}

impl View for CommandPredictor {
    type V = Model;

    closed spec fn view(&self) -> Model {
        Model {
            index: self.command_to_idx@,
            names: spelled(self.idx_to_command@),
            counts: self.raw_counts@,
            total: self.total_transitions,
        }
    }
}

impl CommandPredictor {
    /// The count table has its full size, and the index holds no command twice.
    pub closed spec fn wf(&self) -> bool {
        &&& self.raw_counts@.len() == CELLS
        &&& self.command_to_idx.wf()
    }

    /// The chain that was last built.
    pub closed spec fn held_chain(&self) -> MarkovChain {
        self.chain
    }

    /// A predictor that knows no commands.
    pub fn new() -> (predictor: Self)
        ensures
            predictor.wf(),
            predictor@ == Model::empty(),
            chain_edges(predictor.held_chain()).len() == 0,
    {
        let predictor = CommandPredictor {
            command_to_idx: NameMap::new(),
            idx_to_command: Vec::new(),
            chain: MarkovChain::new(),
            total_transitions: 0,
            raw_counts: vec![0u64; CELLS],
        };
        assert(predictor@ =~= Model::empty());
        predictor
    }

    /// Gives `command` an index if it has none and there is one left, and
    /// returns its index.
    fn ensure_index(&mut self, command: &str) -> (idx: Option<usize>)
        requires
            old(self).wf(),
        ensures
            final(self).wf(),
            final(self)@ == old(self)@.registered(command@),
            final(self).held_chain() == old(self).held_chain(),
            match idx {
                Some(i) => final(self)@.known(command@) && final(self)@.index[command@] == i,
                None => !final(self)@.known(command@),
            },
    {
        if let Some(idx) = self.command_to_idx.get(command) {
            return Some(*idx);
        }
        let idx = self.idx_to_command.len();
        if idx >= MAX_STATES {
            return None;
        }
        self.command_to_idx.put(command, idx);
        self.idx_to_command.push(command.to_owned());
        assert(self@ =~= old(self)@.registered(command@));
        Some(idx)
    }

    /// Counts the transition from state `from` to state `to`.
    fn count_transition(&mut self, from: usize, to: usize)
        requires
            old(self).wf(),
            old(self)@.can_count(from * MAX_STATES + to),
        ensures
            final(self).wf(),
            final(self)@ == old(self)@.counted(from * MAX_STATES + to),
            final(self).held_chain() == old(self).held_chain(),
    {
        let cell = from * MAX_STATES + to;
        let count = self.raw_counts[cell];
        self.raw_counts.set(cell, count + 1);
        self.total_transitions = self.total_transitions + 1;
        assert(self@ =~= old(self)@.counted(cell as int));
    }

    /// Records a transition from the command `prev` to the command `next`.
    ///
    /// Without a `prev`, `next` is only made known. Where there is no state
    /// index left for one of them, the transition is dropped.
    pub fn record(&mut self, prev: Option<&str>, next: &str)
        requires
            old(self).wf(),
            old(self)@.can_record(spelled_option(prev), next@),
        ensures
            final(self).wf(),
            final(self)@ == old(self)@.recorded(spelled_option(prev), next@),
            final(self).held_chain() == old(self).held_chain(),
    {
        let next_idx = match self.ensure_index(next) {
            Some(i) => i,
            None => return,
        };
        if let Some(p) = prev {
            let prev_idx = match self.ensure_index(p) {
                Some(i) => i,
                None => return,
            };
            assert(self@.index[next@] == next_idx);
            self.count_transition(prev_idx, next_idx);
        }
    }

    /// Records the transitions of a sequence of commands. All commands must
    /// find a state index, unless there is no transition to record.
    pub fn record_sequence(&mut self, commands: &[&str])
        requires
            old(self).wf(),
            old(self)@.can_record_all(spelled_slices(commands@)),
        ensures
            final(self).wf(),
            final(self)@ == old(self)@.recorded_all(spelled_slices(commands@)),
            final(self).held_chain() == old(self).held_chain(),
    {
        let ghost spelling = spelled_slices(commands@);
        if commands.len() == 0 {
            return;
        }
        assert(spelling.take(0) =~= Seq::<Seq<char>>::empty());
        for i in 0..commands.len()
            invariant
                self.wf(),
                spelling == spelled_slices(commands@),
                self@ == old(self)@.registered_all(spelling.take(i as int)),
                self.held_chain() == old(self).held_chain(),
        {
            let _ = self.ensure_index(commands[i]);
            proof {
                let longer = spelling.take(i + 1);
                assert(longer.drop_last() =~= spelling.take(i as int));
                assert(longer.last() == commands@[i as int]@);
            }
        }
        assert(spelling.take(spelling.len() as int) =~= spelling);
        let ghost registered = self@;
        for i in 0..commands.len() - 1
            invariant
                self.wf(),
                commands@.len() > 0,
                spelling == spelled_slices(commands@),
                old(self)@.can_record_all(spelling),
                registered == old(self)@.registered_all(spelling),
                self@ == registered.stepped(spelling, i as nat),
                self@.index == registered.index,
                self.held_chain() == old(self).held_chain(),
        {
            assert(registered.can_step(spelling, i as int));
            assert(spelling[i as int] == commands@[i as int]@);
            assert(spelling[i + 1] == commands@[i + 1]@);
            if let (Some(from_idx), Some(to_idx)) = (
                self.command_to_idx.get(commands[i]),
                self.command_to_idx.get(commands[i + 1]),
            ) {
                let from = *from_idx;
                let to = *to_idx;
                self.count_transition(from, to);
            } else {
                assert(false);
            }
        }
    }

    /// The transition counts out of state `i`, or zeros for an index that no
    /// state has.
    fn weights(&self, i: usize) -> (weights: Vec<u64>)
        requires
            self.wf(),
            self@.fits(),
        ensures
            weights@ == self@.weights(i as int),
    {
        let n = self.idx_to_command.len();
        let mut weights: Vec<u64> = Vec::new();
        for j in 0..n
            invariant
                self.wf(),
                self@.fits(),
                n == self@.names.len(),
                weights@.len() == j,
                forall|k: int|
                    0 <= k < j ==> #[trigger] weights@[k] == self@.weights(i as int)[k],
        {
            if i < n {
                weights.push(self.raw_counts[i * MAX_STATES + j]);
            } else {
                weights.push(0);
            }
        }
        assert(weights@ =~= self@.weights(i as int));
        weights
    }

    /// The probabilities of the steps out of state `i`: its smoothed counts, or
    /// zeros for an index that no state has.
    pub(crate) fn transition_row<N: Number>(&self, i: usize) -> (row: Vec<N>)
        requires
            self.wf(),
            self@.fits(),
        ensures
            is_transition_row(self@, i as int, row@),
    {
        let n = self.idx_to_command.len();
        if i < n {
            return smoothed(&self.weights(i));
        }
        let mut row: Vec<N> = Vec::new();
        for j in 0..n
            invariant
                n == self@.names.len(),
                row@.len() == j,
                forall|k: int| 0 <= k < j ==> is_whole(0, #[trigger] row@[k]),
        {
            let zero = N::from_u64(0);
            assert(is_whole(0, zero));
            row.push(zero);
        }
        row
    }

    /// The transition matrix: the smoothed counts of all states, row by row.
    pub fn transition_matrix<N: Number>(&self) -> (flat: Vec<N>)
        requires
            self.wf(),
            self@.fits(),
        ensures
            is_transition_matrix(self@, flat@),
    {
        let n = self.idx_to_command.len();
        let mut flat: Vec<N> = Vec::new();
        assert(0 * n == 0);
        for i in 0..n
            invariant
                self.wf(),
                self@.fits(),
                n == self@.names.len(),
                flat@.len() == i * n,
                forall|a: int|
                    0 <= a < i ==> #[trigger] is_smoothed(
                        self@.row(a),
                        matrix_row(flat@, n as int, a),
                    ),
        {
            let ghost before = flat@;
            let mut row: Vec<N> = self.transition_row(i);
            let ghost added = row@;
            flat.append(&mut row);
            proof {
                assert(i * n + n == (i + 1) * n) by (nonlinear_arith);
                assert forall|a: int| 0 <= a < i + 1 implies #[trigger] is_smoothed(
                    self@.row(a),
                    matrix_row(flat@, n as int, a),
                ) by {
                    if a < i {
                        assert(0 <= a * n && a * n + n <= i * n) by (nonlinear_arith)
                            requires
                                0 <= a < i,
                                0 <= n,
                        ;
                        assert(matrix_row(flat@, n as int, a) =~= matrix_row(before, n as int, a));
                        assert(is_smoothed(self@.row(a), matrix_row(before, n as int, a)));
                    } else {
                        assert(matrix_row(flat@, n as int, a) =~= added);
                    }
                }
            }
        }
        flat
    }

    /// Rebuilds the chain from the counts. The chain shows nothing that was
    /// recorded since it was last rebuilt.
    pub fn rebuild<N: ChainNumber>(&mut self)
        requires
            old(self).wf(),
            old(self)@.fits(),
        ensures
            final(self).wf(),
            final(self)@ == old(self)@,
            is_rebuilt::<N>(old(self)@, final(self).held_chain()),
    {
        let n = self.idx_to_command.len();
        if n == 0 {
            self.chain = MarkovChain::new();
            return;
        }
        let flat: Vec<N> = self.transition_matrix();
        self.chain = N::chain_of(n, &flat);
        assert(is_transition_matrix(self@, flat@));
        assert(is_chain_of(self@.names.len() as usize, flat, self.chain));
    }

    /// Whether any transition was counted.
    fn has_transitions(&self) -> (answer: bool)
        requires
            self.wf(),
        ensures
            answer == self@.has_transitions(),
    {
        for cell in 0..self.raw_counts.len()
            invariant
                forall|c: int| 0 <= c < cell ==> #[trigger] self@.counts[c] == 0,
        {
            if self.raw_counts[cell] > 0 {
                assert(self@.counts[cell as int] > 0);
                return true;
            }
        }
        false
    }

    /// Predicts the `k` commands that are most likely to follow `current`, the
    /// most likely first and, of equally likely ones, the one that was known
    /// first.
    ///
    /// Returns `None` if `current` is not known or no transitions exist. The
    /// chain is rebuilt if `current` is known.
    pub fn predict_top_k<N: ChainNumber>(&mut self, current: &str, k: usize) -> (result: Option<
        PredictionResult<N>,
    >)
        requires
            old(self).wf(),
            old(self)@.has_row(current@),
        ensures
            final(self).wf(),
            final(self)@ == old(self)@,
            if old(self)@.known(current@) {
                is_rebuilt::<N>(old(self)@, final(self).held_chain())
            } else {
                final(self).held_chain() == old(self).held_chain()
            },
            is_top_k(old(self)@, current@, k, result),
    {
        let cur_idx = match self.command_to_idx.get(current) {
            Some(idx) => *idx,
            None => return None,
        };
        self.rebuild::<N>();
        let n = self.idx_to_command.len();
        if n == 0 || !self.has_transitions() {
            return None;
        }
        let row: Vec<N> = self.transition_row(cur_idx);
        let order = ranking(&row);
        let kept = if k < n {
            k
        } else {
            n
        };
        let mut predictions: Vec<Prediction<N>> = Vec::new();
        for r in 0..kept
            invariant
                kept <= n,
                n == self@.names.len(),
                self@ == old(self)@,
                is_descending(row@, order@),
                is_transition_row(self@, cur_idx as int, row@),
                predictions@.len() == r,
                forall|i: int|
                    0 <= i < r ==> is_ranked(self@, order@, row@, i, #[trigger] predictions@[i]),
        {
            let place = order[r];
            let prediction = Prediction {
                command: self.idx_to_command[place].clone(),
                confidence: row[place],
            };
            assert(self@.names[place as int] == self.idx_to_command@[place as int]@);
            assert(is_ranked(self@, order@, row@, r as int, prediction));
            predictions.push(prediction);
        }
        let result = PredictionResult {
            current_command: current.to_owned(),
            predictions,
            num_states: n,
            total_transitions: self.total_transitions,
        };
        assert(is_prediction_by(self@, current@, k, order@, row@, result));
        Some(result)
    }
}

impl CommandPredictor {
    /// The stationary distribution: the share of time that is spent in each
    /// state in the long run.
    ///
    /// Returns `None` if there are fewer than two states or the distribution
    /// does not converge.
    pub fn stationary_distribution<N: ChainNumber>(&mut self) -> (stationary: Option<Vec<N>>)
        requires
            old(self).wf(),
            old(self)@.fits(),
        ensures
            final(self).wf(),
            final(self)@ == old(self)@,
            is_rebuilt::<N>(old(self)@, final(self).held_chain()),
            is_long_run(old(self)@, final(self).held_chain(), stationary),
    {
        self.rebuild::<N>();
        if self.idx_to_command.len() < 2 {
            return None;
        }
        let stationary = N::stationary_of(&self.chain);
        assert(is_stationary_of(self.chain, stationary));
        stationary
    }

    /// The stationary probability of `command`; zero if it is not known or
    /// there is no stationary distribution.
    pub fn stationary_prob<N: ChainNumber>(&mut self, command: &str) -> (probability: N)
        requires
            old(self).wf(),
            old(self)@.known(command@) ==> old(self)@.fits(),
        ensures
            final(self).wf(),
            final(self)@ == old(self)@,
            if old(self)@.known(command@) {
                &&& is_rebuilt::<N>(old(self)@, final(self).held_chain())
                &&& is_stationary_prob(
                    old(self)@,
                    final(self).held_chain(),
                    command@,
                    probability,
                )
            } else {
                &&& final(self).held_chain() == old(self).held_chain()
                &&& is_whole(0, probability)
            },
    {
        let idx = match self.command_to_idx.get(command) {
            Some(idx) => *idx,
            None => {
                let zero = N::from_u64(0);
                assert(is_whole(0, zero));
                return zero;
            },
        };
        let stationary: Option<Vec<N>> = self.stationary_distribution();
        let probability = entry_or_zero(&stationary, idx);
        assert(is_entry_or_zero(stationary, idx as int, probability));
        probability
    }

    /// The number of steps after which the chain is within `epsilon` of its
    /// stationary distribution, if that is reached within [`MIXING_STEPS`].
    pub fn mixing_time<N: ChainNumber>(&mut self, epsilon: N) -> (steps: Option<usize>)
        requires
            old(self).wf(),
            old(self)@.fits(),
        ensures
            final(self).wf(),
            final(self)@ == old(self)@,
            is_rebuilt::<N>(old(self)@, final(self).held_chain()),
            is_mixing_time_of(final(self).held_chain(), epsilon, MIXING_STEPS, steps),
    {
        self.rebuild::<N>();
        let steps = N::mixing_time_of(&self.chain, epsilon, MIXING_STEPS);
        assert(is_mixing_time_of(self.chain, epsilon, MIXING_STEPS, steps));
        steps
    }

    /// Whether the chain is ergodic, with an explanation.
    ///
    /// Returns `None` if the number type builds a chain of more than
    /// [`MAX_STATES`] states, which cannot be checked.
    pub fn is_ergodic<N: ChainNumber>(&mut self) -> (verdict: Option<(bool, String)>)
        requires
            old(self).wf(),
            old(self)@.fits(),
        ensures
            final(self).wf(),
            final(self)@ == old(self)@,
            is_rebuilt::<N>(old(self)@, final(self).held_chain()),
            verdict is Some <==> chain_edges(final(self).held_chain()).len() <= MAX_STATES,
            verdict matches Some((ergodic, reason)) ==> {
                let edges = chain_edges(final(self).held_chain());
                &&& ergodic == ergodicity(edges).0
                &&& reason@ == ergodicity(edges).1
                &&& edges.len() == 0 ==> !ergodic && reason@ == "chain has no states"@
                &&& edges.len() > 0 && is_complete(edges) ==> ergodic && reason@
                    == "chain is ergodic (irreducible + aperiodic)"@
            },
    {
        self.rebuild::<N>();
        if chain_len(&self.chain) <= MAX_STATES {
            Some(self.chain.is_ergodic())
        } else {
            None
        }
    }

    /// How often the transition from `from` to `to` was recorded.
    pub fn transition_count(&self, from: &str, to: &str) -> (count: u64)
        requires
            self.wf(),
            self@.known(from@) && self@.known(to@) ==> self@.cell(from@, to@) < CELLS,
        ensures
            count == self@.count(from@, to@),
    {
        let i = match self.command_to_idx.get(from) {
            Some(idx) => *idx,
            None => return 0,
        };
        let j = match self.command_to_idx.get(to) {
            Some(idx) => *idx,
            None => return 0,
        };
        self.raw_counts[i * MAX_STATES + j]
    }

    /// The number of commands known.
    pub fn num_commands(&self) -> (len: usize)
        ensures
            len == self@.names.len(),
    {
        self.idx_to_command.len()
    }

    /// The number of transitions recorded.
    pub fn total_transitions(&self) -> (total: u64)
        ensures
            total == self@.total,
    {
        self.total_transitions
    }

    /// The commands known, in the order of their state indices.
    pub fn commands(&self) -> (commands: &[String])
        ensures
            spelled(commands@) == self@.names,
    {
        self.idx_to_command.as_slice()
    }

    /// The state index of `command`.
    pub fn index_of(&self, command: &str) -> (idx: Option<usize>)
        requires
            self.wf(),
        ensures
            match idx {
                Some(i) => self@.known(command@) && self@.index[command@] == i,
                None => !self@.known(command@),
            },
    {
        match self.command_to_idx.get(command) {
            Some(idx) => Some(*idx),
            None => None,
        }
    }

    /// The chain as it was last built.
    pub fn chain(&self) -> (chain: &MarkovChain)
        ensures
            *chain == self.held_chain(),
    {
        &self.chain
    }

    /// The chain as it was last built, to be changed.
    pub fn chain_mut(&mut self) -> (chain: &mut MarkovChain)
        ensures
            *chain == old(self).held_chain(),
            final(self).held_chain() == *final(chain),
            final(self)@ == old(self)@,
            old(self).wf() ==> final(self).wf(),
    {
        &mut self.chain
    }

    /// Whether a transition between two state indices can be counted.
    fn can_count(&self, from: usize, to: usize) -> (answer: bool)
        requires
            self.wf(),
        ensures
            answer == self@.can_count(from * MAX_STATES + to),
    {
        if from >= CELLS || to >= CELLS {
            return false;
        }
        let cell = from * MAX_STATES + to;
        cell < CELLS && self.raw_counts[cell] < u64::MAX && self.total_transitions < u64::MAX
    }

    /// Whether [`CommandPredictor::record`] can take a transition: it is to be
    /// dropped, or its count and the total are below their maximum.
    pub fn can_record(&self, prev: Option<&str>, next: &str) -> (answer: bool)
        requires
            self.wf(),
        ensures
            answer == self@.can_record(spelled_option(prev), next@),
    {
        let p = match prev {
            Some(p) => p,
            None => return true,
        };
        let mut size = self.idx_to_command.len();
        let next_idx = match self.command_to_idx.get(next) {
            Some(idx) => *idx,
            None => {
                if size >= MAX_STATES {
                    return true;
                }
                size += 1;
                size - 1
            },
        };
        let prev_idx = match self.command_to_idx.get(p) {
            Some(idx) => *idx,
            None => if p.to_owned() == next.to_owned() {
                next_idx
            } else if size >= MAX_STATES {
                return true;
            } else {
                size
            },
        };
        self.can_count(prev_idx, next_idx)
    }

    /// Whether [`CommandPredictor::record_sequence`] can take `commands`: there
    /// is no transition among them, or all of them find a state index, and no
    /// count would pass its maximum.
    pub fn can_record_sequence(&self, commands: &[&str]) -> (answer: bool)
        requires
            self.wf(),
        ensures
            answer == self@.can_record_all(spelled_slices(commands@)),
    {
        let ghost spelling = spelled_slices(commands@);
        if commands.len() < 2 {
            return true;
        }
        let mut trial = self.clone();
        assert(spelling.take(0) =~= Seq::<Seq<char>>::empty());
        for i in 0..commands.len()
            invariant
                trial.wf(),
                spelling == spelled_slices(commands@),
                trial@ == self@.registered_all(spelling.take(i as int)),
        {
            let _ = trial.ensure_index(commands[i]);
            proof {
                let longer = spelling.take(i + 1);
                assert(longer.drop_last() =~= spelling.take(i as int));
                assert(longer.last() == commands@[i as int]@);
            }
        }
        assert(spelling.take(spelling.len() as int) =~= spelling);
        let ghost registered = trial@;
        for i in 0..commands.len() - 1
            invariant
                trial.wf(),
                commands@.len() >= 2,
                spelling == spelled_slices(commands@),
                registered == self@.registered_all(spelling),
                trial@ == registered.stepped(spelling, i as nat),
                trial@.index == registered.index,
                forall|step: int| 0 <= step < i ==> #[trigger] registered.can_step(spelling, step),
        {
            assert(spelling[i as int] == commands@[i as int]@);
            assert(spelling[i + 1] == commands@[i + 1]@);
            let answer = match (trial.index_of(commands[i]), trial.index_of(commands[i + 1])) {
                (Some(from), Some(to)) => if trial.can_count(from, to) {
                    trial.count_transition(from, to);
                    true
                } else {
                    false
                },
                _ => false,
            };
            assert(answer == registered.can_step(spelling, i as int));
            if !answer {
                return false;
            }
        }
        true
    }

    /// What is to be kept of the predictor: everything but the chain.
    pub fn snapshot(&self) -> (snapshot: Snapshot)
        requires
            self.wf(),
        ensures
            snapshot.restores(self@),
            snapshot.raw_counts@ == self@.counts,
            snapshot.command_to_idx@.len() == self@.index.dom().len(),
    {
        let mut command_to_idx: Vec<(String, usize)> = Vec::new();
        proof {
            self.command_to_idx.lemma_order();
        }
        let len = self.command_to_idx.len();
        for i in 0..len
            invariant
                self.wf(),
                len == self.command_to_idx.order().len(),
                command_to_idx@.len() == i,
                forall|name: Seq<char>| #[trigger]
                    entries_map(command_to_idx@).contains_key(name)
                        <==> self.command_to_idx.order().take(i as int).contains(name),
                forall|name: Seq<char>| #[trigger]
                    entries_map(command_to_idx@).contains_key(name) ==> entries_map(
                        command_to_idx@,
                    )[name] == self.command_to_idx@[name],
        {
            let ghost before = command_to_idx@;
            let name = self.command_to_idx.name_at(i).clone();
            let idx = *self.command_to_idx.value_at(i);
            command_to_idx.push((name, idx));
            proof {
                let order = self.command_to_idx.order();
                assert(command_to_idx@.drop_last() =~= before);
                assert(entries_map(command_to_idx@) == entries_map(before).insert(name@, idx));
                assert(order.take(i + 1) =~= order.take(i as int).push(name@));
                assert forall|other: Seq<char>| #[trigger]
                    entries_map(command_to_idx@).contains_key(other) <==> order.take(
                        i + 1,
                    ).contains(other) by {
                    if order.take(i as int).contains(other) {
                        let j = order.take(i as int).index_of(other);
                        assert(order.take(i + 1)[j] == other);
                    }
                    assert(order.take(i + 1)[i as int] == name@);
                    if order.take(i + 1).contains(other) && other != name@ {
                        let j = order.take(i + 1).index_of(other);
                        assert(order.take(i as int)[j] == other);
                    }
                }
            }
        }
        let snapshot = Snapshot {
            command_to_idx,
            idx_to_command: self.idx_to_command.clone(),
            raw_counts: self.raw_counts.clone(),
            total_transitions: self.total_transitions,
        };
        proof {
            let order = self.command_to_idx.order();
            assert(order.take(order.len() as int) =~= order);
            assert(entries_map(snapshot.command_to_idx@) =~= self.command_to_idx@);
            assert(spelled(snapshot.idx_to_command@) =~= spelled(self.idx_to_command@));
            assert(snapshot.raw_counts@ =~= self.raw_counts@);
            assert(table_of(snapshot.raw_counts@) =~= self.raw_counts@);
        }
        snapshot
    }

    /// The predictor that a snapshot describes. Counts that the snapshot lacks
    /// are zero, and those that the table has no cell for are left out.
    pub fn from_snapshot(snapshot: Snapshot) -> (predictor: Self)
        ensures
            predictor.wf(),
            snapshot.restores(predictor@),
            chain_edges(predictor.held_chain()).len() == 0,
    {
        let mut command_to_idx: NameMap<usize> = NameMap::new();
        let entries = &snapshot.command_to_idx;
        for i in 0..entries.len()
            invariant
                command_to_idx.wf(),
                command_to_idx@ == entries_map(entries@.take(i as int)),
        {
            command_to_idx.put(entries[i].0.as_str(), entries[i].1);
            assert(entries@.take(i + 1).drop_last() =~= entries@.take(i as int));
        }
        assert(entries@.take(entries@.len() as int) =~= entries@);
        let mut raw_counts: Vec<u64> = vec![0u64; CELLS];
        for i in 0..snapshot.raw_counts.len()
            invariant
                raw_counts@.len() == CELLS,
                forall|cell: int|
                    0 <= cell < CELLS ==> #[trigger] raw_counts@[cell] == if cell < i {
                        snapshot.raw_counts@[cell]
                    } else {
                        0
                    },
        {
            if i < raw_counts.len() {
                raw_counts.set(i, snapshot.raw_counts[i]);
            }
        }
        assert(raw_counts@ =~= table_of(snapshot.raw_counts@));
        CommandPredictor {
            command_to_idx,
            idx_to_command: snapshot.idx_to_command,
            chain: MarkovChain::new(),
            total_transitions: snapshot.total_transitions,
            raw_counts,
        }
    }
}

impl Default for CommandPredictor {
    fn default() -> (predictor: Self)
        ensures
            predictor.wf(),
            predictor@ == Model::empty(),
            chain_edges(predictor.held_chain()).len() == 0,
    {
        Self::new()
    }
}

/// Completes a command line with the single most likely next command.
#[derive(Debug, Clone)]
pub struct GhostCompleter;

impl GhostCompleter {
    /// The command that is most likely to follow `current`, or `None` if there
    /// is no prediction.
    pub fn complete<N: ChainNumber>(predictor: &mut CommandPredictor, current: &str) -> (command:
        Option<String>)
        requires
            old(predictor).wf(),
            old(predictor)@.has_row(current@),
        ensures
            final(predictor).wf(),
            final(predictor)@ == old(predictor)@,
            if old(predictor)@.known(current@) {
                is_rebuilt::<N>(old(predictor)@, final(predictor).held_chain())
            } else {
                final(predictor).held_chain() == old(predictor).held_chain()
            },
            is_completed::<N>(old(predictor)@, current@, command),
    {
        let result: PredictionResult<N> = match predictor.predict_top_k(current, 1) {
            Some(result) => result,
            None => return None,
        };
        if result.predictions.len() == 0 {
            return None;
        }
        Some(result.predictions[0].command.clone())
    }
}

/// `result` predicts what follows `current`, if there is something to predict.
pub open spec fn is_top_k<N: Number>(
    model: Model,
    current: Seq<char>,
    k: usize,
    result: Option<PredictionResult<N>>,
) -> bool {
    &&& result is Some <==> model.predicts(current)
    &&& result matches Some(r) ==> is_prediction(model, current, k, r)
}

/// `command` is the single prediction for what follows `current`, if there is
/// something to predict.
pub open spec fn is_completed<N: Number>(
    model: Model,
    current: Seq<char>,
    command: Option<String>,
) -> bool {
    &&& command is Some <==> model.predicts(current)
    &&& command matches Some(text) ==> is_completion::<N>(model, current, text@)
}

/// `command` is the single prediction for what follows `current`.
pub open spec fn is_completion<N: Number>(
    model: Model,
    current: Seq<char>,
    command: Seq<char>,
) -> bool {
    exists|result: PredictionResult<N>| #[trigger]
        is_prediction(model, current, 1, result) && result.predictions@.len() == 1
            && result.predictions@[0].command@ == command
}

/// What is kept of a predictor between sessions.
#[derive(Debug, Clone)]
pub struct Snapshot {
    /// The state index of each command.
    pub command_to_idx: Vec<(String, usize)>,
    /// The command of each state index.
    pub idx_to_command: Vec<String>,
    /// The transition counts, row by row, `MAX_STATES` to a row.
    pub raw_counts: Vec<u64>,
    /// The number of transitions recorded.
    pub total_transitions: u64,
}

/// A full count table with the given counts: cells that they do not reach are
/// zero, and what they have beyond it is left out.
pub open spec fn table_of(raw_counts: Seq<u64>) -> Seq<u64> {
    Seq::new(
        CELLS as nat,
        |cell: int|
            if cell < raw_counts.len() {
                raw_counts[cell]
            } else {
                0
            },
    )
}

impl Snapshot {
    /// The snapshot describes `model`.
    pub open spec fn restores(self, model: Model) -> bool {
        &&& model.index == entries_map(self.command_to_idx@)
        &&& model.names == spelled(self.idx_to_command@)
        &&& model.counts == table_of(self.raw_counts@)
        &&& model.total == self.total_transitions
    }
}

/// A predictor that is restored from the snapshot of another knows what that one
/// knew.
pub proof fn law_snapshot_restores_the_model(snapshot: Snapshot, kept: Model, restored: Model)
    requires
        snapshot.restores(kept),
        snapshot.restores(restored),
    ensures
        restored == kept,
{
}

/// `stationary` is the stationary distribution of the rebuilt `chain`, of which
/// there is none below two states.
pub open spec fn is_long_run<N: ChainNumber>(
    model: Model,
    chain: MarkovChain,
    stationary: Option<Vec<N>>,
) -> bool {
    if model.names.len() < 2 {
        stationary is None
    } else {
        is_stationary_of(chain, stationary)
    }
}

/// With two or more commands, the stationary distribution is what is found of the
/// chain, and the stationary probability of a command is its entry in it; with
/// fewer, and where nothing is found, there is none and the probability is zero.
pub proof fn law_long_run_is_what_is_found<N: ChainNumber>(
    model: Model,
    chain: MarkovChain,
    stationary: Option<Vec<N>>,
    command: Seq<char>,
    probability: N,
    base: Seq<N>,
)
    requires
        is_long_run(model, chain, stationary),
        is_stationary_prob(model, chain, command, probability),
    ensures
        model.names.len() == 0 || model.names.len() == 1 ==> stationary is None && is_whole(
            0,
            probability,
        ),
        model.names.len() >= 2 ==> is_stationary_of(chain, stationary),
        model.names.len() >= 2 && (forall|found: Option<Vec<N>>| #[trigger]
            is_stationary_of(chain, found) ==> found is Some && found->0@ == base) ==> {
            &&& stationary is Some && stationary->0@ == base
            &&& model.index[command] < base.len() ==> probability
                == base[model.index[command] as int]
            &&& model.index[command] >= base.len() ==> is_whole(0, probability)
        },
        (forall|found: Option<Vec<N>>| #[trigger] is_stationary_of(chain, found) ==> found is None)
            ==> is_whole(0, probability),
        MIXING_STEPS == 10_000,
{
}

/// A predictor that a snapshot describes has the counts of its table, cell by
/// cell, zeros where the table ends early, and nothing of what it has beyond the
/// cells; and it has the names and the total.
pub proof fn law_snapshot_is_the_table(snapshot: Snapshot, model: Model, i: int)
    requires
        snapshot.restores(model),
    ensures
        model.total == snapshot.total_transitions,
        model.names.len() == snapshot.idx_to_command@.len(),
        0 <= i < model.names.len() ==> model.names[i] == snapshot.idx_to_command@[i]@,
        model.counts.len() == MAX_STATES * MAX_STATES,
        0 <= i < model.counts.len() && i < snapshot.raw_counts@.len() ==> model.counts[i]
            == snapshot.raw_counts@[i],
        snapshot.raw_counts@.len() <= i < model.counts.len() ==> model.counts[i] == 0,
        0 <= i < snapshot.command_to_idx@.len() ==> model.known(snapshot.command_to_idx@[i].0@),
        0 <= i < snapshot.command_to_idx@.len() && (forall|j: int|
            i < j < snapshot.command_to_idx@.len() ==> (#[trigger] snapshot.command_to_idx@[j]).0@
                != snapshot.command_to_idx@[i].0@) ==> model.index[snapshot.command_to_idx@[i].0@]
            == snapshot.command_to_idx@[i].1,
        forall|command: Seq<char>| #[trigger]
            model.known(command) ==> exists|j: int|
                0 <= j < snapshot.command_to_idx@.len() && (
                #[trigger] snapshot.command_to_idx@[j]).0@ == command,
{
    lemma_last_entry_counts(snapshot.command_to_idx@, i);
    assert forall|command: Seq<char>| #[trigger] model.known(command) implies exists|j: int|
        0 <= j < snapshot.command_to_idx@.len() && (#[trigger] snapshot.command_to_idx@[j]).0@
            == command by {
        lemma_entries_are_listed(snapshot.command_to_idx@, command);
    }
}

proof fn lemma_entries_are_listed(entries: Seq<(String, usize)>, command: Seq<char>)
    requires
        entries_map(entries).contains_key(command),
    ensures
        exists|j: int| 0 <= j < entries.len() && (#[trigger] entries[j]).0@ == command,
    decreases entries.len(),
{
    if entries.len() > 0 {
        if entries.last().0@ == command {
            assert(entries[entries.len() - 1].0@ == command);
        } else {
            lemma_entries_are_listed(entries.drop_last(), command);
            let j = choose|j: int|
                0 <= j < entries.drop_last().len() && (#[trigger] entries.drop_last()[j]).0@
                    == command;
            assert(entries[j].0@ == command);
        }
    }
}

proof fn lemma_last_entry_counts(entries: Seq<(String, usize)>, i: int)
    ensures
        0 <= i < entries.len() ==> entries_map(entries).contains_key(entries[i].0@),
        0 <= i < entries.len() && (forall|j: int|
            i < j < entries.len() ==> (#[trigger] entries[j]).0@ != entries[i].0@) ==> entries_map(
            entries,
        )[entries[i].0@] == entries[i].1,
    decreases entries.len(),
{
    if 0 <= i < entries.len() - 1 {
        let fewer = entries.drop_last();
        lemma_last_entry_counts(fewer, i);
        assert(fewer[i] == entries[i]);
        if forall|j: int| i < j < entries.len() ==> (#[trigger] entries[j]).0@ != entries[i].0@ {
            assert forall|j: int| i < j < fewer.len() implies (#[trigger] fewer[j]).0@
                != fewer[i].0@ by {
                assert(entries[j].0@ != entries[i].0@);
            }
            assert(entries[entries.len() - 1].0@ != entries[i].0@);
        }
    }
}

/// `probability` is the entry at `idx`, or zero if there is none.
pub open spec fn is_entry_or_zero<N: Number>(
    stationary: Option<Vec<N>>,
    idx: int,
    probability: N,
) -> bool {
    if stationary is Some && idx < stationary->0@.len() {
        probability == stationary->0@[idx]
    } else {
        is_whole(0, probability)
    }
}

/// `probability` is the stationary probability of the known command `command`.
pub open spec fn is_stationary_prob<N: ChainNumber>(
    model: Model,
    chain: MarkovChain,
    command: Seq<char>,
    probability: N,
) -> bool {
    if model.names.len() < 2 {
        is_whole(0, probability)
    } else {
        exists|stationary: Option<Vec<N>>| #[trigger]
            is_stationary_of(chain, stationary) && is_entry_or_zero(
                stationary,
                model.index[command] as int,
                probability,
            )
    }
}

/// The entry at `idx`, or zero if there is none.
fn entry_or_zero<N: Number>(stationary: &Option<Vec<N>>, idx: usize) -> (probability: N)
    ensures
        is_entry_or_zero(*stationary, idx as int, probability),
{
    if let Some(entries) = stationary {
        if idx < entries.len() {
            return entries[idx];
        }
    }
    let zero = N::from_u64(0);
    assert(is_whole(0, zero));
    zero
}

/// `row` holds the probabilities of the steps out of state `i`: the smoothed
/// counts, or zeros for an index that no state has.
pub open spec fn is_transition_row<N: Number>(model: Model, i: int, row: Seq<N>) -> bool {
    if i < model.names.len() {
        is_smoothed(model.row(i), row)
    } else {
        &&& row.len() == model.names.len()
        &&& forall|j: int| 0 <= j < row.len() ==> is_whole(0, #[trigger] row[j])
    }
}

/// The probabilities of the steps out of state `i` can be compared with each
/// other, whatever they come out as.
pub open spec fn comparable_rows<N: Number>(model: Model, i: int) -> bool {
    forall|row: Seq<N>| #[trigger] is_transition_row(model, i, row) ==> is_comparable(row)
}

/// The probabilities of the steps out of state `i` lie as its counts do: of two
/// different counts, the larger one has the larger probability. A number type
/// of limited precision may give very large counts the same probability.
pub open spec fn tells_counts_apart<N: Number>(model: Model, i: int) -> bool {
    forall|row: Seq<N>| #[trigger]
        is_transition_row(model, i, row) ==> goes_by(row, keys_of(model.weights(i)))
}

/// Row `i` of a matrix of `n` columns that is written row by row.
pub open spec fn matrix_row<N>(flat: Seq<N>, n: int, i: int) -> Seq<N> {
    flat.subrange(i * n, i * n + n)
}

/// `flat` is the transition matrix, row by row.
pub open spec fn is_transition_matrix<N: Number>(model: Model, flat: Seq<N>) -> bool {
    let n = model.names.len();
    &&& flat.len() == n * n
    &&& forall|i: int|
        0 <= i < n ==> #[trigger] is_smoothed(model.row(i), matrix_row(flat, n as int, i))
}

/// `chain` is the chain of the transition matrix.
pub open spec fn is_rebuilt<N: ChainNumber>(model: Model, chain: MarkovChain) -> bool {
    if model.names.len() == 0 {
        chain_edges(chain).len() == 0
    } else {
        exists|flat: Vec<N>|
            is_transition_matrix(model, flat@) && #[trigger] is_chain_of(
                model.names.len() as usize,
                flat,
                chain,
            )
    }
}

/// `prediction` is the one at `rank`: the command that the order of the states
/// has there, with its probability.
pub open spec fn is_ranked<N: Number>(
    model: Model,
    order: Seq<usize>,
    row: Seq<N>,
    rank: int,
    prediction: Prediction<N>,
) -> bool {
    &&& prediction.command@ == model.names[order[rank] as int]
    &&& prediction.confidence == row[order[rank] as int]
}

/// `result` predicts what follows `current`, where `order` ranks the states and
/// `row` holds their probabilities.
pub open spec fn is_prediction_by<N: Number>(
    model: Model,
    current: Seq<char>,
    k: usize,
    order: Seq<usize>,
    row: Seq<N>,
    result: PredictionResult<N>,
) -> bool {
    &&& is_descending(row, order)
    &&& is_transition_row(model, model.index[current] as int, row)
    &&& result.current_command@ == current
    &&& result.num_states == model.names.len()
    &&& result.total_transitions == model.total
    &&& result.predictions@.len() == if k < model.names.len() {
        k as nat
    } else {
        model.names.len()
    }
    &&& forall|rank: int|
        0 <= rank < result.predictions@.len() ==> is_ranked(
            model,
            order,
            row,
            rank,
            #[trigger] result.predictions@[rank],
        )
}

/// `result` predicts the `k` commands that are most likely to follow `current`.
pub open spec fn is_prediction<N: Number>(
    model: Model,
    current: Seq<char>,
    k: usize,
    result: PredictionResult<N>,
) -> bool {
    exists|order: Seq<usize>, row: Seq<N>| #[trigger]
        is_prediction_by(model, current, k, order, row, result)
}

} // verus!
