//! What holds of every prediction.

use crate::chain::{
    builds_its_matrices, chain_edges, is_chain_of, is_complete, ChainNumber, MAX_STATES,
};
use crate::command_predictor::{
    comparable_rows, is_completed, is_completion, is_prediction, is_prediction_by, is_ranked,
    is_rebuilt, is_top_k, is_transition_matrix, is_transition_row, matrix_row, tells_counts_apart,
};
use crate::exact::{add_up, is_exact, lemma_sum_covers};
use crate::laws::{
    law_consistent_answers, law_index_inverts_names, lemma_index_in_range,
    lemma_positive_count_shows,
};
use crate::model::{keys_of, Model};
use crate::number::{compares_exceeding, is_whole, Number};
use crate::prediction::{commands_of, PredictionResult};
use crate::ranking::{goes_by, is_listed, law_first_is_largest, outranks};
use crate::smoothing::{
    is_smoothed, law_smoothed_adds_one, law_shares_are_positive, law_smoothed_is_the_share, share_denominator, share_numerator,
};
use ergodic_transport::MarkovChain;
use vstd::prelude::*;

verus! {

/// A consistent predictor predicts after every known command, once a transition
/// was counted.
pub proof fn law_consistent_predicts(model: Model, current: Seq<char>)
    requires
        model.consistent(),
    ensures
        model.has_transitions() <==> model.total > 0,
        model.predicts(current) <==> model.known(current) && model.total > 0,
        model.has_row(current),
{
    law_consistent_answers(model, current, current);
    lemma_positive_count_shows(model.counts);
    if model.known(current) {
        lemma_index_in_range(model, current);
    }
}

/// There is something to predict after a known command if and only if some count
/// of the table is above zero, whatever the total says.
pub proof fn law_counts_decide_what_is_predicted(model: Model, current: Seq<char>, cell: int)
    ensures
        0 <= cell < model.counts.len() && model.counts[cell] > 0 ==> (model.predicts(current)
            <==> model.known(current) && model.names.len() > 0),
        (forall|c: int| 0 <= c < model.counts.len() ==> #[trigger] model.counts[c] == 0)
            ==> !model.predicts(current),
{
}

/// There are predictions, and a completion, if and only if the current command is
/// known and a transition was counted; and the completion is what would be
/// predicted alone.
pub proof fn law_known_commands_are_answered<N: Number>(
    model: Model,
    current: Seq<char>,
    k: usize,
    result: Option<PredictionResult<N>>,
    completion: Option<String>,
)
    requires
        model.consistent(),
        is_top_k(model, current, k, result),
        is_completed::<N>(model, current, completion),
    ensures
        result is Some <==> model.known(current) && model.total > 0,
        completion is Some <==> model.known(current) && model.total > 0,
        result matches Some(r) ==> is_prediction(model, current, k, r),
        completion matches Some(text) ==> exists|r: PredictionResult<N>| #[trigger]
            is_prediction(model, current, 1, r) && r.predictions@.len() == 1
                && r.predictions@[0].command@ == text@,
{
    law_consistent_predicts(model, current);
}

proof fn lemma_weights_are_counts(model: Model, current: Seq<char>, j: int)
    requires
        model.consistent(),
        model.known(current),
        0 <= j < model.names.len(),
    ensures
        model.weights(model.index[current] as int).len() == model.names.len(),
        model.weights(model.index[current] as int)[j] == model.count(current, model.names[j]),
        model.known(model.names[j]),
        model.index[model.names[j]] == j,
{
    lemma_index_in_range(model, current);
    assert(model.names.contains(model.names[j]));
}

/// Predictions descend in confidence: a later one does not exceed an earlier one,
/// and where neither exceeds the other the earlier one was known first.
pub proof fn law_predictions_descend<N: Number>(
    model: Model,
    current: Seq<char>,
    k: usize,
    result: PredictionResult<N>,
    earlier: int,
    later: int,
)
    requires
        model.consistent(),
        model.known(current),
        comparable_rows::<N>(model, model.index[current] as int),
        is_prediction(model, current, k, result),
        0 <= earlier < later < result.predictions@.len(),
    ensures
        ({
            let first = result.predictions@[earlier];
            let second = result.predictions@[later];
            &&& !compares_exceeding(second.confidence, first.confidence, true)
            &&& compares_exceeding(first.confidence, second.confidence, false)
                ==> model.index[first.command@] < model.index[second.command@]
        }),
{
    let i = model.index[current] as int;
    let (order, row) = choose|order: Seq<usize>, row: Seq<N>| #[trigger]
        is_prediction_by(model, current, k, order, row, result);
    assert(is_transition_row(model, i, row));
    let keys = choose|keys: Seq<int>| #[trigger] goes_by(row, keys);
    let a = order[earlier] as int;
    let b = order[later] as int;
    assert(is_ranked(model, order, row, earlier, result.predictions@[earlier]));
    assert(is_ranked(model, order, row, later, result.predictions@[later]));
    assert(outranks(keys, a, b));
    lemma_weights_are_counts(model, current, a);
    lemma_weights_are_counts(model, current, b);
    assert(compares_exceeding(row[b], row[a], true) ==> keys[b] > keys[a]);
    assert(compares_exceeding(row[a], row[b], false) ==> !(keys[a] > keys[b]));
}

/// Predictions descend in the counts, as far as the numbers tell these apart: of
/// two predicted commands the earlier one followed `current` at least as often,
/// and it was known first if both followed it equally often.
pub proof fn law_predictions_descend_in_counts<N: Number>(
    model: Model,
    current: Seq<char>,
    k: usize,
    result: PredictionResult<N>,
    earlier: int,
    later: int,
)
    requires
        model.consistent(),
        model.known(current),
        tells_counts_apart::<N>(model, model.index[current] as int),
        is_prediction(model, current, k, result),
        0 <= earlier < later < result.predictions@.len(),
    ensures
        ({
            let first = result.predictions@[earlier].command@;
            let second = result.predictions@[later].command@;
            &&& model.count(current, first) >= model.count(current, second)
            &&& model.count(current, first) == model.count(current, second) ==> model.index[first]
                < model.index[second]
        }),
{
    let (order, row) = choose|order: Seq<usize>, row: Seq<N>| #[trigger]
        is_prediction_by(model, current, k, order, row, result);
    let keys = keys_of(model.weights(model.index[current] as int));
    assert(goes_by(row, keys));
    lemma_weights_are_counts(model, current, order[earlier] as int);
    lemma_weights_are_counts(model, current, order[later] as int);
    assert(is_ranked(model, order, row, earlier, result.predictions@[earlier]));
    assert(is_ranked(model, order, row, later, result.predictions@[later]));
    assert(outranks(keys, order[earlier] as int, order[later] as int));
}

/// The first prediction is a command that followed `current` as often as any
/// other did, and of those the one that was known first, as far as the numbers
/// tell the counts apart.
pub proof fn law_first_prediction_is_most_frequent<N: Number>(
    model: Model,
    current: Seq<char>,
    k: usize,
    result: PredictionResult<N>,
    command: Seq<char>,
)
    requires
        model.consistent(),
        model.known(current),
        tells_counts_apart::<N>(model, model.index[current] as int),
        k > 0,
        is_prediction(model, current, k, result),
    ensures
        result.predictions@.len() > 0,
        model.known(result.predictions@[0].command@),
        model.count(current, command) <= model.count(current, result.predictions@[0].command@),
        model.known(command) && model.count(current, command) == model.count(
            current,
            result.predictions@[0].command@,
        ) ==> model.index[result.predictions@[0].command@] <= model.index[command],
{
    let (order, row) = choose|order: Seq<usize>, row: Seq<N>| #[trigger]
        is_prediction_by(model, current, k, order, row, result);
    lemma_index_in_range(model, current);
    let keys = keys_of(model.weights(model.index[current] as int));
    assert(goes_by(row, keys));
    assert(is_ranked(model, order, row, 0, result.predictions@[0]));
    lemma_weights_are_counts(model, current, order[0] as int);
    if model.known(command) {
        lemma_index_in_range(model, command);
        let place = model.index[command] as int;
        lemma_weights_are_counts(model, current, place);
        law_first_is_largest(keys, order, place);
    }
}

/// The completion of a command is a command that followed it as often as any other
/// did, and of those the one that was known first, as far as the numbers tell the
/// counts apart.
pub proof fn law_completion_is_most_frequent<N: Number>(
    model: Model,
    current: Seq<char>,
    completion: Seq<char>,
    command: Seq<char>,
)
    requires
        model.consistent(),
        model.known(current),
        tells_counts_apart::<N>(model, model.index[current] as int),
        is_completion::<N>(model, current, completion),
    ensures
        model.known(completion),
        model.count(current, command) <= model.count(current, completion),
        model.known(command) && model.count(current, command) == model.count(current, completion)
            ==> model.index[completion] <= model.index[command],
{
    let result = choose|result: PredictionResult<N>| #[trigger]
        is_prediction(model, current, 1, result) && result.predictions@.len() == 1
            && result.predictions@[0].command@ == completion;
    law_first_prediction_is_most_frequent(model, current, 1, result, command);
}

/// Without rounding, and where chains are built as their matrices say, smoothing
/// makes every step possible, and so the chain ergodic.
pub proof fn law_smoothing_makes_every_step_possible<N: ChainNumber>(
    value: spec_fn(N) -> real,
    model: Model,
    chain: MarkovChain,
)
    requires
        is_exact(value),
        builds_its_matrices::<N>(value),
        model.fits(),
        model.names.len() > 0,
        is_rebuilt::<N>(model, chain),
    ensures
        chain_edges(chain).len() == model.names.len(),
        is_complete(chain_edges(chain)),
{
    let n = model.names.len();
    let flat = choose|flat: Vec<N>|
        is_transition_matrix(model, flat@) && #[trigger] is_chain_of(n as usize, flat, chain);
    let edges = chain_edges(chain);
    assert forall|i: int, j: int| 0 <= i < edges.len() && 0 <= j < edges.len() implies
        #[trigger] edges[i][j] by {
        let row = matrix_row(flat@, n as int, i);
        assert(is_smoothed(model.row(i), row));
        law_smoothed_is_the_share(value, model.row(i), row, j);
        assert(0 <= i * n && i * n + n <= n * n) by (nonlinear_arith)
            requires
                0 <= i < n,
        ;
        assert(row[j] == flat@[i * n + j]);
    }
}

/// Without rounding, the probabilities can be compared, and they tell all counts
/// apart.
pub proof fn law_exact_numbers_tell_counts_apart<N: Number>(
    value: spec_fn(N) -> real,
    model: Model,
    i: int,
)
    requires
        is_exact(value),
        model.fits(),
    ensures
        tells_counts_apart::<N>(model, i),
        comparable_rows::<N>(model, i),
{
    let counts = model.weights(i);
    let keys = keys_of(counts);
    assert forall|row: Seq<N>| #[trigger] is_transition_row(model, i, row) implies goes_by(
        row,
        keys,
    ) by {
        assert forall|a: int, b: int, outcome: bool|
            0 <= a < row.len() && 0 <= b < row.len() && #[trigger] compares_exceeding(
                row[a],
                row[b],
                outcome,
            ) implies outcome == (keys[a] > keys[b]) by {
            if i < model.names.len() {
                law_smoothed_is_the_share(value, counts, row, a);
                law_smoothed_is_the_share(value, counts, row, b);
                law_shares_are_positive(counts, a);
                let x = share_numerator(counts, a) as real;
                let y = share_numerator(counts, b) as real;
                let d = share_denominator(counts) as real;
                assert(x / d > y / d <==> x > y) by (nonlinear_arith)
                    requires
                        d > 0 as real,
                ;
            } else {
                assert(is_whole(0, row[a]) && is_whole(0, row[b]));
            }
        }
    }
}

/// Asking for as many predictions as there are commands gives every command
/// once.
pub proof fn law_predictions_cover_all_commands<N: Number>(
    model: Model,
    current: Seq<char>,
    k: usize,
    result: PredictionResult<N>,
    command: Seq<char>,
)
    requires
        model.consistent(),
        model.known(current),
        k >= model.names.len(),
        is_prediction(model, current, k, result),
    ensures
        result.predictions@.len() == model.names.len(),
        commands_of(result.predictions@).no_duplicates(),
        commands_of(result.predictions@).contains(command) <==> model.known(command),
{
    let (order, row) = choose|order: Seq<usize>, row: Seq<N>| #[trigger]
        is_prediction_by(model, current, k, order, row, result);
    let commands = commands_of(result.predictions@);
    lemma_index_in_range(model, current);
    assert forall|r: int| 0 <= r < commands.len() implies #[trigger] commands[r]
        == model.names[order[r] as int] by {
        assert(is_ranked(model, order, row, r, result.predictions@[r]));
    }
    assert forall|r: int, s: int|
        0 <= r < commands.len() && 0 <= s < commands.len() && r != s implies commands[r]
        != commands[s] by {
        assert(order[r] != order[s]);
    }
    if commands.contains(command) {
        let r = commands.index_of(command);
        assert(commands[r] == command);
        law_index_inverts_names(model, command, order[r]);
    }
    if model.known(command) {
        lemma_index_in_range(model, command);
        assert(is_listed(order, model.index[command] as int));
        let r = choose|r: int|
            0 <= r < order.len() && #[trigger] order[r] == model.index[command];
        assert(commands[r] == command);
    }
}

/// Without rounding, the probability of the step from one state to another is the
/// count of the transition plus one over all counts out of the state plus the
/// number of states. For an index that no state has it is zero.
pub proof fn law_row_entries<N: Number>(
    value: spec_fn(N) -> real,
    model: Model,
    i: int,
    row: Seq<N>,
    j: int,
)
    requires
        is_exact(value),
        model.fits(),
        0 <= i,
        is_transition_row(model, i, row),
    ensures
        row.len() == model.names.len(),
        i < model.names.len() && 0 <= j < model.names.len() ==> ({
            let n = model.names.len();
            let all = add_up(Seq::new(n, |k: int| model.counts[i * MAX_STATES + k] as real));
            &&& all >= 0 as real
            &&& value(row[j]) * (all + n as real) == model.counts[i * MAX_STATES + j] as real
                + 1 as real
        }),
        model.consistent() && i < model.names.len() && 0 <= j < model.names.len() ==> ({
            let n = model.names.len();
            let from = model.names[i];
            let all = add_up(Seq::new(n, |k: int| model.count(from, model.names[k]) as real));
            &&& all >= 0 as real
            &&& value(row[j]) * (all + n as real) == model.count(from, model.names[j]) as real
                + 1 as real
        }),
        i >= model.names.len() && 0 <= j < model.names.len() ==> value(row[j]) == 0 as real,
{
    let n = model.names.len();
    if i < n && 0 <= j < n {
        let counts = model.row(i);
        law_smoothed_adds_one(value, counts, row, j);
        let terms = Seq::new(n, |k: int| model.counts[i * MAX_STATES + k] as real);
        assert(Seq::new(counts.len(), |k: int| counts[k] as real) =~= terms);
        lemma_sum_covers(terms, 0);
        let x = model.counts[i * MAX_STATES + j] as real + 1 as real;
        let d = add_up(terms) + n as real;
        assert(x / d * d == x) by (nonlinear_arith)
            requires
                d > 0 as real,
        ;
        if model.consistent() {
            let from = model.names[i];
            assert forall|k: int| 0 <= k < n implies model.count(
                from,
                #[trigger] model.names[k],
            ) == model.counts[i * MAX_STATES + k] by {
                assert(model.names.contains(from) && model.names.contains(model.names[k]));
            }
            assert(Seq::new(n, |k: int| model.count(from, model.names[k]) as real) =~= terms);
        }
    } else if i >= n && 0 <= j < n {
        assert(is_whole(0, row[j]));
    }
}

/// Without rounding, the entry of the transition matrix for the states `i` and `j`
/// is the count of the transition from the command of index `i` to the one of
/// index `j`, plus one, over all counts out of the command of index `i`, plus the
/// number of commands.
pub proof fn law_matrix_entries<N: Number>(
    value: spec_fn(N) -> real,
    model: Model,
    flat: Seq<N>,
    i: int,
    j: int,
)
    requires
        is_exact(value),
        model.fits(),
        is_transition_matrix(model, flat),
        0 <= i < model.names.len(),
        0 <= j < model.names.len(),
    ensures
        flat.len() == model.names.len() * model.names.len(),
        ({
            let n = model.names.len();
            let all = add_up(Seq::new(n, |k: int| model.counts[i * MAX_STATES + k] as real));
            &&& all >= 0 as real
            &&& value(flat[i * n + j]) * (all + n as real) == model.counts[i * MAX_STATES
                + j] as real + 1 as real
        }),
        model.consistent() ==> ({
            let n = model.names.len();
            let from = model.names[i];
            let all = add_up(Seq::new(n, |k: int| model.count(from, model.names[k]) as real));
            &&& all >= 0 as real
            &&& value(flat[i * n + j]) * (all + n as real) == model.count(
                from,
                model.names[j],
            ) as real + 1 as real
        }),
{
    let n = model.names.len();
    let row = matrix_row(flat, n as int, i);
    assert(is_smoothed(model.row(i), row));
    assert(0 <= i * n && i * n + n <= n * n) by (nonlinear_arith)
        requires
            0 <= i < n,
    ;
    assert(row[j] == flat[i * n + j]);
    law_row_entries(value, model, i, row, j);
}

/// The entry of `flat` for the states `i` and `j` is the count of the transition
/// plus one over all counts out of the command plus the number of commands.
pub open spec fn has_share_at<N: Number>(
    value: spec_fn(N) -> real,
    model: Model,
    flat: Seq<N>,
    i: int,
    j: int,
) -> bool {
    let n = model.names.len();
    let all = add_up(Seq::new(n, |k: int| model.count(model.names[i], model.names[k]) as real));
    value(flat[i * n + j]) * (all + n as real) == model.count(
        model.names[i],
        model.names[j],
    ) as real + 1 as real
}

/// Without rounding, a chain that is rebuilt is the chain of the matrix of all
/// smoothed counts.
pub proof fn law_rebuilt_from_the_counts<N: ChainNumber>(
    value: spec_fn(N) -> real,
    model: Model,
    chain: MarkovChain,
)
    requires
        is_exact(value),
        model.consistent(),
        is_rebuilt::<N>(model, chain),
    ensures
        model.names.len() == 0 ==> chain_edges(chain).len() == 0,
        model.names.len() > 0 ==> exists|flat: Vec<N>| #[trigger]
            is_chain_of(model.names.len() as usize, flat, chain) && flat@.len()
                == model.names.len() * model.names.len() && forall|i: int, j: int|
                0 <= i < model.names.len() && 0 <= j < model.names.len()
                    ==> #[trigger] has_share_at(value, model, flat@, i, j),
{
    let n = model.names.len();
    if n > 0 {
        let flat = choose|flat: Vec<N>|
            is_transition_matrix(model, flat@) && #[trigger] is_chain_of(n as usize, flat, chain);
        assert forall|i: int, j: int| 0 <= i < n && 0 <= j < n implies #[trigger] has_share_at(
            value,
            model,
            flat@,
            i,
            j,
        ) by {
            law_matrix_entries(value, model, flat@, i, j);
        }
    }
}

/// A prediction tells what it is for and what it rests on, and has as many
/// commands as were asked for, or all if there are fewer. Without rounding, the
/// confidence of each is the count of the transition to it plus one over all
/// counts out of the current command plus the number of commands.
pub proof fn law_confidences_are_shares<N: Number>(
    value: spec_fn(N) -> real,
    model: Model,
    current: Seq<char>,
    k: usize,
    result: PredictionResult<N>,
    rank: int,
)
    requires
        is_exact(value),
        model.consistent(),
        model.known(current),
        is_prediction(model, current, k, result),
    ensures
        result.current_command@ == current,
        result.num_states == model.names.len(),
        result.total_transitions == model.total,
        k <= model.names.len() ==> result.predictions@.len() == k,
        k >= model.names.len() ==> result.predictions@.len() == model.names.len(),
        0 <= rank < result.predictions@.len() ==> ({
            let n = model.names.len();
            let prediction = result.predictions@[rank];
            let all = add_up(Seq::new(n, |j: int| model.count(current, model.names[j]) as real));
            &&& model.known(prediction.command@)
            &&& all >= 0 as real
            &&& value(prediction.confidence) * (all + n as real) == model.count(
                current,
                prediction.command@,
            ) as real + 1 as real
        }),
{
    let (order, row) = choose|order: Seq<usize>, row: Seq<N>| #[trigger]
        is_prediction_by(model, current, k, order, row, result);
    lemma_index_in_range(model, current);
    if 0 <= rank < result.predictions@.len() {
        assert(is_ranked(model, order, row, rank, result.predictions@[rank]));
        let place = order[rank] as int;
        law_row_entries(value, model, model.index[current] as int, row, 0);
        assert(place < model.names.len());
        law_row_entries(value, model, model.index[current] as int, row, place);
        lemma_weights_are_counts(model, current, place);
    }
}

/// Without rounding, the predictions are the first of all states in the order of
/// the counts out of the current one, the largest first and of equal ones the
/// state of the lower index, and the confidence of each is its count plus one over
/// all counts plus the number of states. Where the current command has an index
/// that no state has, all counts are taken for zero, and so are the confidences.
pub proof fn law_predictions_are_the_largest_counts<N: Number>(
    value: spec_fn(N) -> real,
    model: Model,
    current: Seq<char>,
    k: usize,
    result: PredictionResult<N>,
)
    requires
        is_exact(value),
        model.fits(),
        is_prediction(model, current, k, result),
    ensures
        ({
            let n = model.names.len();
            let i = model.index[current] as int;
            let all = add_up(Seq::new(n, |j: int| model.counts[i * MAX_STATES + j] as real));
            exists|order: Seq<usize>| #[trigger]
                order.no_duplicates() && order.len() == n && (forall|r: int|
                    0 <= r < n ==> #[trigger] order[r] < n) && (forall|r: int, s: int|
                    0 <= r < s < n && i < n ==> model.counts[i * MAX_STATES
                        + #[trigger] order[r]] >= model.counts[i * MAX_STATES
                        + #[trigger] order[s]]) && (forall|r: int, s: int|
                    0 <= r < s < n && (i >= n || model.counts[i * MAX_STATES + order[r]]
                        == model.counts[i * MAX_STATES + order[s]]) ==> #[trigger] order[r]
                        < #[trigger] order[s]) && (forall|r: int|
                    0 <= r < result.predictions@.len() ==> (
                    #[trigger] result.predictions@[r]).command@ == model.names[order[r] as int])
                    && (forall|r: int|
                    0 <= r < result.predictions@.len() && i < n ==> value(
                        (#[trigger] result.predictions@[r]).confidence,
                    ) * (all + n as real) == model.counts[i * MAX_STATES + order[r]] as real
                        + 1 as real) && (forall|r: int|
                    0 <= r < result.predictions@.len() && i >= n ==> value(
                        (#[trigger] result.predictions@[r]).confidence,
                    ) == 0 as real)
        }),
        k <= model.names.len() ==> result.predictions@.len() == k,
        k >= model.names.len() ==> result.predictions@.len() == model.names.len(),
{
    let n = model.names.len();
    let i = model.index[current] as int;
    let (order, row) = choose|order: Seq<usize>, row: Seq<N>| #[trigger]
        is_prediction_by(model, current, k, order, row, result);
    let counts = model.weights(i);
    let keys = keys_of(counts);
    law_row_entries(value, model, i, row, 0);
    law_exact_numbers_tell_counts_apart(value, model, i);
    assert(goes_by(row, keys));
    assert(order.no_duplicates() && order.len() == n);
    assert forall|r: int, s: int| 0 <= r < s < n && i < n implies model.counts[i * MAX_STATES
        + #[trigger] order[r]] >= model.counts[i * MAX_STATES + #[trigger] order[s]] by {
        assert(outranks(keys, order[r] as int, order[s] as int));
    }
    assert forall|r: int, s: int|
        0 <= r < s < n && (i >= n || model.counts[i * MAX_STATES + order[r]] == model.counts[i
            * MAX_STATES + order[s]]) implies #[trigger] order[r] < #[trigger] order[s] by {
        assert(outranks(keys, order[r] as int, order[s] as int));
    }
    assert forall|r: int| 0 <= r < result.predictions@.len() implies (
    #[trigger] result.predictions@[r]).command@ == model.names[order[r] as int]
        && result.predictions@[r].confidence == row[order[r] as int] by {
        assert(is_ranked(model, order, row, r, result.predictions@[r]));
    }
    let all = add_up(Seq::new(n, |j: int| model.counts[i * MAX_STATES + j] as real));
    assert forall|r: int| 0 <= r < result.predictions@.len() && i < n implies value(
        (#[trigger] result.predictions@[r]).confidence,
    ) * (all + n as real) == model.counts[i * MAX_STATES + order[r]] as real + 1 as real by {
        law_row_entries(value, model, i, row, order[r] as int);
    }
    assert forall|r: int| 0 <= r < result.predictions@.len() && i >= n implies value(
        (#[trigger] result.predictions@[r]).confidence,
    ) == 0 as real by {
        law_row_entries(value, model, i, row, order[r] as int);
    }
}

} // verus!
