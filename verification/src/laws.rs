//! What holds of every command predictor, whatever was recorded in it.

use crate::chain::MAX_STATES;
use crate::model::{sum_of, Model, CELLS};
use vstd::prelude::*;

verus! {

proof fn lemma_sum_after_update(counts: Seq<u64>, cell: int, value: u64)
    requires
        0 <= cell < counts.len(),
    ensures
        sum_of(counts.update(cell, value)) == sum_of(counts) - counts[cell] + value,
    decreases counts.len(),
{
    let changed = counts.update(cell, value);
    if cell == counts.len() - 1 {
        assert(changed.drop_last() =~= counts.drop_last());
    } else {
        lemma_sum_after_update(counts.drop_last(), cell, value);
        assert(changed.drop_last() =~= counts.drop_last().update(cell, value));
    }
}

proof fn lemma_count_within_sum(counts: Seq<u64>, cell: int)
    requires
        0 <= cell < counts.len(),
    ensures
        counts[cell] <= sum_of(counts),
    decreases counts.len(),
{
    if cell < counts.len() - 1 {
        lemma_count_within_sum(counts.drop_last(), cell);
    }
}

proof fn lemma_sum_of_zeros(counts: Seq<u64>)
    requires
        forall|cell: int| 0 <= cell < counts.len() ==> counts[cell] == 0,
    ensures
        sum_of(counts) == 0,
    decreases counts.len(),
{
    if counts.len() > 0 {
        lemma_sum_of_zeros(counts.drop_last());
    }
}

pub(crate) proof fn lemma_positive_count_shows(counts: Seq<u64>)
    ensures
        sum_of(counts) > 0 <==> exists|cell: int|
            0 <= cell < counts.len() && #[trigger] counts[cell] > 0,
{
    if exists|cell: int| 0 <= cell < counts.len() && #[trigger] counts[cell] > 0 {
        let cell = choose|cell: int| 0 <= cell < counts.len() && #[trigger] counts[cell] > 0;
        lemma_count_within_sum(counts, cell);
    } else {
        lemma_sum_of_zeros(counts);
    }
}

/// A predictor that knows no commands is consistent.
pub proof fn law_empty_is_consistent()
    ensures
        Model::empty().consistent(),
{
    lemma_sum_of_zeros(Model::empty().counts);
}

pub(crate) proof fn lemma_index_in_range(model: Model, command: Seq<char>)
    requires
        model.consistent(),
        model.known(command),
    ensures
        model.index[command] < model.names.len(),
        model.names[model.index[command] as int] == command,
{
    assert(model.names.contains(command));
    let i = model.names.index_of(command);
    assert(model.names[i] == command);
}

/// Of a consistent predictor, everything can be asked: it has a row for every
/// known command and a cell for every pair of them.
pub proof fn law_consistent_answers(model: Model, from: Seq<char>, to: Seq<char>)
    requires
        model.consistent(),
    ensures
        model.fits(),
        model.has_row(from),
        model.known(from) && model.known(to) ==> 0 <= model.cell(from, to) < CELLS,
{
    if model.known(from) {
        lemma_index_in_range(model, from);
        if model.known(to) {
            lemma_index_in_range(model, to);
        }
    }
}

/// In a consistent predictor the indices and the list of commands say the same:
/// a command has the index `i` if and only if it is the command at `i`.
pub proof fn law_index_inverts_names(model: Model, command: Seq<char>, i: usize)
    requires
        model.consistent(),
    ensures
        model.known(command) && model.index[command] == i <==> i < model.names.len()
            && model.names[i as int] == command,
{
    if model.known(command) {
        lemma_index_in_range(model, command);
    }
    if i < model.names.len() && model.names[i as int] == command {
        assert(model.names.contains(command));
    }
}

/// Two pairs of known commands share a cell only if they are the same pair.
pub proof fn law_cells_are_apart(
    model: Model,
    from: Seq<char>,
    to: Seq<char>,
    other_from: Seq<char>,
    other_to: Seq<char>,
)
    requires
        model.consistent(),
        model.known(from),
        model.known(to),
        model.known(other_from),
        model.known(other_to),
        model.cell(from, to) == model.cell(other_from, other_to),
    ensures
        from == other_from,
        to == other_to,
{
    lemma_index_in_range(model, from);
    lemma_index_in_range(model, to);
    lemma_index_in_range(model, other_from);
    lemma_index_in_range(model, other_to);
}

/// Seeing a command keeps a predictor consistent.
pub proof fn law_registering_keeps_consistency(model: Model, command: Seq<char>)
    requires
        model.consistent(),
    ensures
        model.registered(command).consistent(),
{
    let after = model.registered(command);
    if !model.known(command) && model.names.len() < MAX_STATES {
        assert(!model.names.contains(command));
        assert(after.names.no_duplicates());
        assert forall|other: Seq<char>| #[trigger] after.known(other) <==> after.names.contains(
            other,
        ) by {
            assert(model.known(other) <==> model.names.contains(other));
            assert(after.names[model.names.len() as int] == command);
            if model.names.contains(other) {
                let i = model.names.index_of(other);
                assert(after.names[i] == other);
            }
            if after.names.contains(other) && other != command {
                let i = after.names.index_of(other);
                assert(model.names[i] == other);
            }
        }
        assert forall|i: int| 0 <= i < after.names.len() implies after.index[#[trigger]
            after.names[i]] == i by {
            if i < model.names.len() {
                assert(after.names[i] == model.names[i]);
                assert(model.names.contains(model.names[i]));
            }
        }
    }
}

/// A known command keeps its index, and the commands known keep their order,
/// when another is seen.
pub proof fn law_registering_keeps_indices(model: Model, command: Seq<char>, other: Seq<char>)
    requires
        model.known(other),
    ensures
        model.registered(command).known(other),
        model.registered(command).index[other] == model.index[other],
        model.names.is_prefix_of(model.registered(command).names),
        model.registered(command).counts == model.counts,
        model.registered(command).total == model.total,
{
}

/// Counting a transition between two known commands keeps a predictor
/// consistent.
pub proof fn law_counting_keeps_consistency(model: Model, from: Seq<char>, to: Seq<char>)
    requires
        model.consistent(),
        model.known(from),
        model.known(to),
        model.can_count(model.cell(from, to)),
    ensures
        model.counted(model.cell(from, to)).consistent(),
{
    let cell = model.cell(from, to);
    let after = model.counted(cell);
    lemma_index_in_range(model, from);
    lemma_index_in_range(model, to);
    lemma_sum_after_update(model.counts, cell, (model.counts[cell] + 1) as u64);
    assert forall|other: int| 0 <= other < after.counts.len() && #[trigger] after.counts[other]
        > 0 implies {
        &&& other / (MAX_STATES as int) < after.names.len()
        &&& other % (MAX_STATES as int) < after.names.len()
    } by {
        if other != cell {
            assert(model.counts[other] > 0);
        }
    }
    assert forall|command: Seq<char>| #[trigger] after.known(command) <==> after.names.contains(
        command,
    ) by {
        assert(model.known(command) <==> model.names.contains(command));
    }
}

/// A consistent predictor can count any transition between known commands until
/// the total is at its maximum.
pub proof fn law_consistent_can_count(model: Model, from: Seq<char>, to: Seq<char>)
    requires
        model.consistent(),
        model.known(from),
        model.known(to),
        model.total < u64::MAX,
    ensures
        model.can_count(model.cell(from, to)),
{
    law_consistent_answers(model, from, to);
    lemma_count_within_sum(model.counts, model.cell(from, to));
}

/// A consistent predictor can record any transition until the total is at its
/// maximum, and stays consistent.
pub proof fn law_recording_keeps_consistency(
    model: Model,
    prev: Option<Seq<char>>,
    next: Seq<char>,
)
    requires
        model.consistent(),
        model.total < u64::MAX,
    ensures
        model.can_record(prev, next),
        model.recorded(prev, next).consistent(),
{
    law_registering_keeps_consistency(model, next);
    let with_next = model.registered(next);
    if let Some(p) = prev {
        law_registering_keeps_consistency(with_next, p);
        let with_both = with_next.registered(p);
        if with_next.known(next) && with_both.known(p) {
            law_registering_keeps_indices(with_next, p, next);
            law_consistent_can_count(with_both, p, next);
            law_counting_keeps_consistency(with_both, p, next);
        }
    }
}

/// Where both commands find an index, recording a transition counts it once, and
/// no other.
pub proof fn law_recording_counts_once(
    model: Model,
    prev: Seq<char>,
    next: Seq<char>,
    from: Seq<char>,
    to: Seq<char>,
)
    requires
        model.consistent(),
        model.total < u64::MAX,
        model.registered(next).registered(prev).known(prev),
        model.registered(next).registered(prev).known(next),
    ensures
        model.recorded(Some(prev), next).total == model.total + 1,
        model.recorded(Some(prev), next).count(from, to) == model.count(from, to) + if from == prev
            && to == next {
            1int
        } else {
            0
        },
{
    let with_next = model.registered(next);
    let with_both = with_next.registered(prev);
    law_registering_keeps_consistency(model, next);
    law_registering_keeps_consistency(with_next, prev);
    if !with_next.known(next) {
        assert(model.names.len() >= MAX_STATES);
        assert(with_next == model);
        assert(with_both == model);
    }
    law_consistent_can_count(with_both, prev, next);
    let cell = with_both.cell(prev, next);
    let after = with_both.counted(cell);
    assert(after == model.recorded(Some(prev), next));
    lemma_new_commands_have_no_transitions(model, next, from, to);
    lemma_new_commands_have_no_transitions(with_next, prev, from, to);
    assert(with_both.count(from, to) == model.count(from, to));
    if with_both.known(from) && with_both.known(to) {
        law_consistent_answers(with_both, from, to);
        if with_both.cell(from, to) == cell {
            law_cells_are_apart(with_both, from, to, prev, next);
        }
    }
}

proof fn lemma_new_commands_have_no_transitions(
    model: Model,
    command: Seq<char>,
    from: Seq<char>,
    to: Seq<char>,
)
    requires
        model.consistent(),
    ensures
        model.registered(command).count(from, to) == model.count(from, to),
{
    let after = model.registered(command);
    law_registering_keeps_consistency(model, command);
    if after.known(from) && after.known(to) && !(model.known(from) && model.known(to)) {
        let cell = after.cell(from, to);
        law_consistent_answers(after, from, to);
        lemma_index_in_range(after, from);
        lemma_index_in_range(after, to);
        if model.known(from) {
            lemma_index_in_range(model, from);
        }
        if model.known(to) {
            lemma_index_in_range(model, to);
        }
        assert(cell / (MAX_STATES as int) == after.index[from]);
        assert(cell % (MAX_STATES as int) == after.index[to]);
        assert(model.counts[cell] == 0);
    }
}

/// Once all state indices are taken, a transition from or to a command that is
/// not known is dropped.
pub proof fn law_full_predictor_drops_unknown(model: Model, prev: Seq<char>, next: Seq<char>)
    requires
        model.names.len() >= MAX_STATES,
        !model.known(prev) || !model.known(next),
    ensures
        model.recorded(Some(prev), next) == model,
{
}

/// Without a previous command, the next one becomes known and nothing is
/// counted.
pub proof fn law_recording_without_previous_only_registers(model: Model, next: Seq<char>)
    ensures
        model.recorded(None, next).total == model.total,
        model.recorded(None, next).counts == model.counts,
        model.recorded(None, next).known(next) <==> model.known(next) || model.names.len()
            < MAX_STATES,
{
}

proof fn lemma_registering_all_keeps(model: Model, commands: Seq<Seq<char>>)
    requires
        model.consistent(),
    ensures
        model.registered_all(commands).consistent(),
        model.registered_all(commands).counts == model.counts,
        model.registered_all(commands).total == model.total,
        model.registered_all(commands).names.len() <= model.names.len() + commands.len(),
        forall|command: Seq<char>| #[trigger]
            model.known(command) ==> model.registered_all(commands).known(command),
    decreases commands.len(),
{
    if commands.len() > 0 {
        let before = model.registered_all(commands.drop_last());
        lemma_registering_all_keeps(model, commands.drop_last());
        law_registering_keeps_consistency(before, commands.last());
        assert forall|command: Seq<char>| #[trigger] model.known(command) implies before.registered(
            commands.last(),
        ).known(command) by {
            law_registering_keeps_indices(before, commands.last(), command);
        }
    }
}

/// All commands of a sequence find a state index.
pub open spec fn finds_indices(model: Model, commands: Seq<Seq<char>>) -> bool {
    forall|i: int|
        0 <= i < commands.len() ==> #[trigger] model.registered_all(commands).known(commands[i])
}

proof fn lemma_registered_names_are_among(
    model: Model,
    commands: Seq<Seq<char>>,
    names: Set<Seq<char>>,
)
    requires
        model.consistent(),
        names.finite(),
        names.len() <= MAX_STATES,
        forall|i: int| 0 <= i < model.names.len() ==> names.contains(#[trigger] model.names[i]),
        forall|i: int| 0 <= i < commands.len() ==> names.contains(#[trigger] commands[i]),
    ensures
        forall|i: int|
            0 <= i < model.registered_all(commands).names.len() ==> names.contains(
                #[trigger] model.registered_all(commands).names[i],
            ),
        finds_indices(model, commands),
    decreases commands.len(),
{
    if commands.len() > 0 {
        let fewer = commands.drop_last();
        let last = commands.last();
        let before = model.registered_all(fewer);
        assert forall|i: int| 0 <= i < fewer.len() implies names.contains(#[trigger] fewer[i]) by {
            assert(names.contains(commands[i]));
        }
        lemma_registered_names_are_among(model, fewer, names);
        lemma_registering_all_keeps(model, fewer);
        assert(names.contains(commands[commands.len() - 1]));
        if !before.known(last) && before.names.len() >= MAX_STATES {
            assert(!before.names.contains(last));
            let held = before.names.to_set();
            before.names.unique_seq_to_set();
            assert forall|name: Seq<char>| #[trigger] held.insert(last).contains(
                name,
            ) implies names.contains(name) by {
                if name != last {
                    let i = before.names.index_of(name);
                    assert(before.names[i] == name);
                }
            }
            vstd::set_lib::lemma_len_subset(held.insert(last), names);
            assert(false);
        }
        assert forall|i: int| 0 <= i < commands.len() implies #[trigger] model.registered_all(
            commands,
        ).known(commands[i]) by {
            if i < fewer.len() {
                assert(model.registered_all(fewer).known(fewer[i]));
                law_registering_keeps_indices(before, last, commands[i]);
            }
        }
    }
}

/// As long as the commands known and those of a sequence are together no more
/// different names than there are states, all of the sequence find an index.
pub proof fn law_sequences_of_few_names_fit(
    model: Model,
    commands: Seq<Seq<char>>,
    names: Set<Seq<char>>,
)
    requires
        model.consistent(),
        names.finite(),
        names.len() <= MAX_STATES,
        forall|i: int| 0 <= i < model.names.len() ==> names.contains(#[trigger] model.names[i]),
        forall|i: int| 0 <= i < commands.len() ==> names.contains(#[trigger] commands[i]),
    ensures
        finds_indices(model, commands),
{
    lemma_registered_names_are_among(model, commands, names);
}

/// `x` occurs in `commands`, and before any `y`.
pub open spec fn occurs_before(commands: Seq<Seq<char>>, x: Seq<char>, y: Seq<char>) -> bool {
    exists|i: int|
        0 <= i < commands.len() && #[trigger] commands[i] == x && forall|j: int|
            0 <= j <= i ==> #[trigger] commands[j] != y
}

proof fn lemma_room_left(model: Model, commands: Seq<Seq<char>>)
    requires
        model.registered_all(commands).names.len() < MAX_STATES,
    ensures
        finds_indices(model, commands),
    decreases commands.len(),
{
    if commands.len() > 0 {
        let fewer = commands.drop_last();
        let before = model.registered_all(fewer);
        lemma_room_left(model, fewer);
        assert forall|i: int| 0 <= i < commands.len() implies #[trigger] model.registered_all(
            commands,
        ).known(commands[i]) by {
            if i < fewer.len() {
                assert(model.registered_all(fewer).known(fewer[i]));
                law_registering_keeps_indices(before, commands.last(), commands[i]);
            }
        }
    }
}

/// A sequence leaves the commands known as they are and adds those of its own
/// that are new behind them, in the order of their first occurrence.
pub proof fn law_sequence_adds_its_names(model: Model, commands: Seq<Seq<char>>)
    requires
        model.consistent(),
    ensures
        model.names.is_prefix_of(model.recorded_all(commands).names),
        forall|a: int|
            model.names.len() <= a < model.recorded_all(commands).names.len()
                ==> commands.contains(#[trigger] model.recorded_all(commands).names[a])
                && !model.known(model.recorded_all(commands).names[a]),
        forall|a: int, b: int|
            model.names.len() <= a < b < model.recorded_all(commands).names.len()
                ==> #[trigger] occurs_before(
                commands,
                model.recorded_all(commands).names[a],
                model.recorded_all(commands).names[b],
            ),
{
    lemma_registering_adds_names(model, commands);
    if commands.len() > 0 {
        lemma_stepping_keeps_names(
            model.registered_all(commands),
            commands,
            (commands.len() - 1) as nat,
        );
    }
}

proof fn lemma_stepping_keeps_names(model: Model, commands: Seq<Seq<char>>, steps: nat)
    ensures
        model.stepped(commands, steps).names == model.names,
        model.stepped(commands, steps).index == model.index,
    decreases steps,
{
    if steps > 0 {
        lemma_stepping_keeps_names(model, commands, (steps - 1) as nat);
    }
}

proof fn lemma_registering_adds_names(model: Model, commands: Seq<Seq<char>>)
    requires
        model.consistent(),
    ensures
        model.names.is_prefix_of(model.registered_all(commands).names),
        forall|a: int|
            model.names.len() <= a < model.registered_all(commands).names.len()
                ==> commands.contains(#[trigger] model.registered_all(commands).names[a])
                && !model.known(model.registered_all(commands).names[a]),
        forall|a: int, b: int|
            model.names.len() <= a < b < model.registered_all(commands).names.len()
                ==> #[trigger] occurs_before(
                commands,
                model.registered_all(commands).names[a],
                model.registered_all(commands).names[b],
            ),
    decreases commands.len(),
{
    if commands.len() > 0 {
        let fewer = commands.drop_last();
        let last = commands.last();
        let before = model.registered_all(fewer);
        let after = before.registered(last);
        lemma_registering_adds_names(model, fewer);
        lemma_registering_all_keeps(model, fewer);
        assert forall|a: int| model.names.len() <= a < after.names.len() implies commands.contains(
            #[trigger] after.names[a],
        ) && !model.known(after.names[a]) by {
            if a < before.names.len() {
                assert(after.names[a] == before.names[a]);
                let i = fewer.index_of(before.names[a]);
                assert(commands[i] == before.names[a]);
            } else {
                assert(commands[commands.len() - 1] == last);
            }
        }
        assert forall|a: int, b: int|
            model.names.len() <= a < b < after.names.len() implies #[trigger] occurs_before(
            commands,
            after.names[a],
            after.names[b],
        ) by {
            assert(after.names[a] == before.names[a]);
            if b < before.names.len() {
                assert(after.names[b] == before.names[b]);
                assert(occurs_before(fewer, before.names[a], before.names[b]));
                let i = choose|i: int|
                    0 <= i < fewer.len() && #[trigger] fewer[i] == before.names[a] && forall|j: int|
                        0 <= j <= i ==> #[trigger] fewer[j] != before.names[b];
                assert(commands[i] == before.names[a]);
                assert forall|j: int| 0 <= j <= i implies #[trigger] commands[j]
                    != before.names[b] by {
                    assert(fewer[j] != before.names[b]);
                }
            } else {
                lemma_room_left(model, fewer);
                let i = fewer.index_of(before.names[a]);
                assert(commands[i] == before.names[a]);
                assert forall|j: int| 0 <= j <= i implies #[trigger] commands[j] != last by {
                    assert(model.registered_all(fewer).known(fewer[j]));
                }
            }
        }
        assert(model.names =~= after.names.subrange(0, model.names.len() as int));
    } else {
        assert(model.names =~= model.names.subrange(0, model.names.len() as int));
    }
}

/// After the first command of a sequence was recorded without a previous one,
/// and then the first `steps` of its transitions one by one.
pub open spec fn recorded_each(model: Model, commands: Seq<Seq<char>>, steps: nat) -> Model
    decreases steps,
{
    if steps == 0 {
        model.recorded(None, commands[0])
    } else {
        recorded_each(model, commands, (steps - 1) as nat).recorded(
            Some(commands[steps - 1]),
            commands[steps as int],
        )
    }
}

/// Where a command of a sequence finds an index at all, it finds it when its
/// turn comes.
proof fn lemma_found_in_turn(model: Model, commands: Seq<Seq<char>>, upto: int, i: int)
    requires
        finds_indices(model, commands),
        0 <= i < upto <= commands.len(),
    ensures
        model.registered_all(commands.take(upto)).known(commands[i]),
    decreases commands.len() - upto,
{
    if upto == commands.len() {
        assert(commands.take(upto) =~= commands);
    } else {
        lemma_found_in_turn(model, commands, upto + 1, i);
        let now = model.registered_all(commands.take(upto));
        assert(commands.take(upto + 1).drop_last() =~= commands.take(upto));
        if !now.known(commands[i]) {
            lemma_found_or_full(model, commands.take(upto), i);
            assert(now.names.len() >= MAX_STATES);
        }
    }
}

proof fn lemma_found_or_full(model: Model, commands: Seq<Seq<char>>, i: int)
    requires
        0 <= i < commands.len(),
    ensures
        model.registered_all(commands).known(commands[i]) || model.registered_all(
            commands,
        ).names.len() >= MAX_STATES,
{
    if model.registered_all(commands).names.len() < MAX_STATES {
        lemma_room_left(model, commands);
    }
}

proof fn lemma_stepping_and_registering_commute(
    model: Model,
    command: Seq<char>,
    commands: Seq<Seq<char>>,
    steps: nat,
)
    requires
        steps < commands.len(),
        forall|i: int| 0 <= i <= steps ==> #[trigger] model.known(commands[i]),
    ensures
        model.registered(command).stepped(commands, steps) == model.stepped(
            commands,
            steps,
        ).registered(command),
    decreases steps,
{
    lemma_stepping_keeps_names(model, commands, steps);
    if steps > 0 {
        lemma_stepping_keeps_names(model, commands, (steps - 1) as nat);
        lemma_stepping_and_registering_commute(model, command, commands, (steps - 1) as nat);
        assert(model.known(commands[steps - 1]) && model.known(commands[steps as int]));
        assert(model.registered(command).cell(commands[steps - 1], commands[steps as int])
            == model.cell(commands[steps - 1], commands[steps as int]));
    }
}

proof fn lemma_recorded_each(model: Model, commands: Seq<Seq<char>>, steps: nat)
    requires
        steps < commands.len(),
        finds_indices(model, commands),
    ensures
        recorded_each(model, commands, steps) == model.registered_all(
            commands.take((steps + 1) as int),
        ).stepped(commands, steps),
    decreases steps,
{
    let upto = commands.take((steps + 1) as int);
    let registered = model.registered_all(upto);
    if steps == 0 {
        assert(upto.drop_last() =~= Seq::<Seq<char>>::empty());
        assert(upto.last() == commands[0]);
        assert(model.registered_all(upto.drop_last()) == model);
    } else {
        let fewer = commands.take(steps as int);
        let last = (steps - 1) as nat;
        let earlier = model.registered_all(fewer);
        let prev = commands[steps - 1];
        let next = commands[steps as int];
        lemma_recorded_each(model, commands, last);
        assert(upto.drop_last() =~= fewer);
        assert(upto.last() == next);
        assert(registered == earlier.registered(next));
        assert forall|i: int| 0 <= i <= last implies #[trigger] earlier.known(commands[i]) by {
            lemma_found_in_turn(model, commands, steps as int, i);
        }
        lemma_stepping_and_registering_commute(earlier, next, commands, last);
        lemma_found_in_turn(model, commands, (steps + 1) as int, steps as int);
        lemma_stepping_keeps_names(registered, commands, last);
        assert(earlier.known(prev));
        law_registering_keeps_indices(earlier, next, prev);
    }
}

/// Recording a sequence does what recording its first command and then its
/// transitions one by one does.
pub proof fn law_sequence_is_its_transitions(model: Model, commands: Seq<Seq<char>>)
    requires
        commands.len() > 0,
        finds_indices(model, commands),
    ensures
        model.recorded_all(commands) == recorded_each(
            model,
            commands,
            (commands.len() - 1) as nat,
        ),
{
    lemma_recorded_each(model, commands, (commands.len() - 1) as nat);
    assert(commands.take(commands.len() as int) =~= commands);
}

/// A consistent predictor can record the transitions of a sequence one by one
/// as long as the total does not pass its maximum.
pub proof fn law_transitions_can_be_recorded(
    model: Model,
    commands: Seq<Seq<char>>,
    steps: nat,
)
    requires
        model.consistent(),
        steps < commands.len(),
        finds_indices(model, commands),
        model.total + steps <= u64::MAX,
    ensures
        model.can_record(None, commands[0]),
        recorded_each(model, commands, steps).consistent(),
        recorded_each(model, commands, steps).total == model.total + steps,
        steps > 0 ==> recorded_each(model, commands, (steps - 1) as nat).can_record(
            Some(commands[steps - 1]),
            commands[steps as int],
        ),
    decreases steps,
{
    if steps == 0 {
        law_registering_keeps_consistency(model, commands[0]);
    } else {
        let before = recorded_each(model, commands, (steps - 1) as nat);
        law_transitions_can_be_recorded(model, commands, (steps - 1) as nat);
        law_recording_keeps_consistency(before, Some(commands[steps - 1]), commands[steps as int]);
        lemma_recorded_each(model, commands, steps);
        let registered = model.registered_all(commands.take((steps + 1) as int));
        lemma_registering_all_keeps(model, commands.take((steps + 1) as int));
        assert forall|i: int| 0 <= i <= steps implies #[trigger] registered.known(commands[i]) by {
            lemma_found_in_turn(model, commands, (steps + 1) as int, i);
        }
        let upto = commands.take((steps + 1) as int);
        lemma_stepping_is_local(registered, commands, upto, steps);
        assert forall|i: int| 0 <= i < upto.len() implies #[trigger] registered.known(upto[i]) by {
            assert(registered.known(commands[i]));
        }
        lemma_stepping(registered, upto, steps, commands[0], commands[0]);
    }
}

proof fn lemma_stepping_is_local(
    model: Model,
    commands: Seq<Seq<char>>,
    others: Seq<Seq<char>>,
    steps: nat,
)
    requires
        forall|i: int| 0 <= i <= steps ==> commands[i] == others[i],
    ensures
        model.stepped(commands, steps) == model.stepped(others, steps),
    decreases steps,
{
    if steps > 0 {
        lemma_stepping_is_local(model, commands, others, (steps - 1) as nat);
    }
}

/// How often `from` is directly followed by `to` within the first `steps`
/// transitions of a sequence.
pub open spec fn adjacent(
    commands: Seq<Seq<char>>,
    steps: nat,
    from: Seq<char>,
    to: Seq<char>,
) -> nat
    decreases steps,
{
    if steps == 0 {
        0
    } else {
        let before = adjacent(commands, (steps - 1) as nat, from, to);
        if commands[steps - 1] == from && commands[steps as int] == to {
            before + 1
        } else {
            before
        }
    }
}

proof fn lemma_stepping(
    model: Model,
    commands: Seq<Seq<char>>,
    steps: nat,
    from: Seq<char>,
    to: Seq<char>,
)
    requires
        model.consistent(),
        steps < commands.len(),
        forall|i: int| 0 <= i < commands.len() ==> #[trigger] model.known(commands[i]),
        model.total + steps <= u64::MAX,
    ensures
        model.stepped(commands, steps).consistent(),
        model.stepped(commands, steps).index == model.index,
        model.stepped(commands, steps).names == model.names,
        model.stepped(commands, steps).total == model.total + steps,
        model.stepped(commands, steps).count(from, to) == model.count(from, to) + adjacent(
            commands,
            steps,
            from,
            to,
        ),
    decreases steps,
{
    if steps > 0 {
        let before = model.stepped(commands, (steps - 1) as nat);
        let a = commands[steps - 1];
        let b = commands[steps as int];
        lemma_stepping(model, commands, (steps - 1) as nat, from, to);
        assert(model.known(a) && model.known(b));
        assert(before.cell(a, b) == model.cell(a, b));
        law_consistent_can_count(before, a, b);
        law_counting_keeps_consistency(before, a, b);
        if before.known(from) && before.known(to) {
            law_consistent_answers(before, from, to);
            if before.cell(from, to) == before.cell(a, b) {
                law_cells_are_apart(before, from, to, a, b);
            }
        } else {
            assert(!(a == from && b == to));
        }
    }
}

/// A consistent predictor can record any sequence whose commands all find an
/// index, until the total is at its maximum, and stays consistent. The total
/// grows by the number of transitions, and the count of each transition by how
/// often the sequence has it.
pub proof fn law_recording_a_sequence(
    model: Model,
    commands: Seq<Seq<char>>,
    from: Seq<char>,
    to: Seq<char>,
)
    requires
        model.consistent(),
        commands.len() > 0,
        finds_indices(model, commands),
        model.total + commands.len() - 1 <= u64::MAX,
    ensures
        model.can_record_all(commands),
        model.recorded_all(commands).consistent(),
        model.recorded_all(commands).total == model.total + commands.len() - 1,
        model.recorded_all(commands).count(from, to) == model.count(from, to) + adjacent(
            commands,
            (commands.len() - 1) as nat,
            from,
            to,
        ),
{
    let registered = model.registered_all(commands);
    lemma_registering_all_keeps(model, commands);
    lemma_registering_all_keeps_counts(model, commands, from, to);
    assert forall|i: int| 0 <= i < commands.len() implies #[trigger] registered.known(
        commands[i],
    ) by {
        assert(model.registered_all(commands).known(commands[i]));
    }
    lemma_stepping(registered, commands, (commands.len() - 1) as nat, from, to);
    assert forall|step: int|
        0 <= step < commands.len() - 1 implies #[trigger] model.registered_all(commands).can_step(
        commands,
        step,
    ) by {
        lemma_stepping(registered, commands, step as nat, from, to);
        let before = registered.stepped(commands, step as nat);
        assert(registered.known(commands[step]) && registered.known(commands[step + 1]));
        law_consistent_can_count(before, commands[step], commands[step + 1]);
    }
}

proof fn lemma_registering_all_keeps_counts(
    model: Model,
    commands: Seq<Seq<char>>,
    from: Seq<char>,
    to: Seq<char>,
)
    requires
        model.consistent(),
    ensures
        model.registered_all(commands).count(from, to) == model.count(from, to),
    decreases commands.len(),
{
    if commands.len() > 0 {
        let before = model.registered_all(commands.drop_last());
        lemma_registering_all_keeps(model, commands.drop_last());
        lemma_registering_all_keeps_counts(model, commands.drop_last(), from, to);
        lemma_new_commands_have_no_transitions(before, commands.last(), from, to);
    }
}

/// An empty predictor knows no command and has counted nothing.
pub proof fn law_empty_knows_nothing(from: Seq<char>, to: Seq<char>)
    ensures
        !Model::empty().known(from),
        Model::empty().names.len() == 0,
        Model::empty().count(from, to) == 0,
        Model::empty().total == 0,
        Model::empty().counts.len() == MAX_STATES * MAX_STATES,
        !Model::empty().has_transitions(),
{
}

/// A new command gets the next state index while there is one, and comes last
/// among the commands; a known one, and one for which there is no index, change
/// nothing.
pub proof fn law_new_command_gets_the_next_index(
    model: Model,
    command: Seq<char>,
    other: Seq<char>,
)
    ensures
        model.known(command) ==> model.registered(command) == model,
        !model.known(command) && model.names.len() >= MAX_STATES ==> model.registered(command)
            == model,
        !model.known(command) && model.names.len() < MAX_STATES ==> {
            let after = model.registered(command);
            &&& after.known(command)
            &&& after.index[command] == model.names.len()
            &&& after.names == model.names.push(command)
            &&& after.counts == model.counts
            &&& after.total == model.total
            &&& other != command ==> (after.known(other) <==> model.known(other))
            &&& model.known(other) ==> after.index[other] == model.index[other]
        },
{
}

/// Of two new commands of a transition, the later one comes first among the
/// commands.
pub proof fn law_recording_registers_the_next_first(
    model: Model,
    prev: Seq<char>,
    next: Seq<char>,
)
    requires
        prev != next,
        !model.known(prev),
        !model.known(next),
    ensures
        model.names.len() + 1 < MAX_STATES ==> model.recorded(Some(prev), next).names
            == model.names.push(next).push(prev),
        model.names.len() + 1 == MAX_STATES ==> model.recorded(Some(prev), next).names
            == model.names.push(next) && model.recorded(Some(prev), next).total == model.total,
        model.names.len() < MAX_STATES ==> model.recorded(None, next).names == model.names.push(
            next,
        ),
{
}

/// The count of a transition between known commands stands in the row of the one
/// and the column of the other; other commands have no transitions.
pub proof fn law_count_stands_in_the_table(model: Model, from: Seq<char>, to: Seq<char>)
    ensures
        model.known(from) && model.known(to) ==> model.count(from, to)
            == model.counts[model.index[from] * MAX_STATES + model.index[to]],
        !model.known(from) || !model.known(to) ==> model.count(from, to) == 0,
{
}

/// A transition between known commands can be recorded if and only if it has a
/// cell and neither its count nor the total is at its maximum; and recording it
/// then raises just this cell and the total by one. Without a previous command,
/// recording is always possible.
pub proof fn law_recording_known_commands(
    model: Model,
    prev: Seq<char>,
    next: Seq<char>,
    cell: int,
)
    requires
        model.known(prev),
        model.known(next),
    ensures
        model.can_record(None, next),
        ({
            let place = model.index[prev] * MAX_STATES + model.index[next];
            let after = model.recorded(Some(prev), next);
            &&& model.can_record(Some(prev), next) <==> place < model.counts.len()
                && model.counts[place] < u64::MAX && model.total < u64::MAX
            &&& model.can_record(Some(prev), next) ==> {
                &&& after.index == model.index
                &&& after.names == model.names
                &&& after.total == model.total + 1
                &&& after.counts.len() == model.counts.len()
                &&& 0 <= cell < model.counts.len() && cell != place ==> after.counts[cell]
                    == model.counts[cell]
                &&& after.counts[place] == model.counts[place] + 1
            }
        }),
{
}

proof fn lemma_stepping_agrees(
    model: Model,
    other: Model,
    commands: Seq<Seq<char>>,
    steps: nat,
)
    requires
        model.counts == other.counts,
        model.total == other.total,
        forall|i: int| 0 <= i <= steps ==> model.index[#[trigger] commands[i]]
            == other.index[commands[i]],
    ensures
        model.stepped(commands, steps).counts == other.stepped(commands, steps).counts,
        model.stepped(commands, steps).total == other.stepped(commands, steps).total,
    decreases steps,
{
    if steps > 0 {
        lemma_stepping_agrees(model, other, commands, (steps - 1) as nat);
        assert(model.index[commands[steps - 1]] == other.index[commands[steps - 1]]);
        assert(model.index[commands[steps as int]] == other.index[commands[steps as int]]);
    }
}

proof fn lemma_registering_more_keeps(
    model: Model,
    commands: Seq<Seq<char>>,
    upto: int,
    command: Seq<char>,
)
    requires
        0 <= upto <= commands.len(),
        model.registered_all(commands.take(upto)).known(command),
    ensures
        model.registered_all(commands).known(command),
        model.registered_all(commands).index[command] == model.registered_all(
            commands.take(upto),
        ).index[command],
    decreases commands.len() - upto,
{
    if upto == commands.len() {
        assert(commands.take(upto) =~= commands);
    } else {
        let now = model.registered_all(commands.take(upto));
        assert(commands.take(upto + 1).drop_last() =~= commands.take(upto));
        law_registering_keeps_indices(now, commands.take(upto + 1).last(), command);
        lemma_registering_more_keeps(model, commands, upto + 1, command);
    }
}

proof fn lemma_registering_all_leaves_counts(model: Model, commands: Seq<Seq<char>>)
    ensures
        model.registered_all(commands).counts == model.counts,
        model.registered_all(commands).total == model.total,
    decreases commands.len(),
{
    if commands.len() > 0 {
        lemma_registering_all_leaves_counts(model, commands.drop_last());
    }
}

/// A sequence of two or more commands can be recorded if and only if all of them
/// find an index and each of its transitions can be recorded in its turn; a
/// shorter one always can.
pub proof fn law_sequence_can_be_recorded(model: Model, commands: Seq<Seq<char>>)
    ensures
        commands.len() < 2 ==> model.can_record_all(commands),
        commands.len() >= 2 ==> (model.can_record_all(commands) <==> finds_indices(model, commands)
            && forall|step: int|
            0 <= step < commands.len() - 1 ==> #[trigger] recorded_each(
                model,
                commands,
                step as nat,
            ).can_record(Some(commands[step]), commands[step + 1])),
{
    let registered = model.registered_all(commands);
    if commands.len() >= 2 {
        if model.can_record_all(commands) {
            assert forall|i: int| 0 <= i < commands.len() implies #[trigger] model.registered_all(
                commands,
            ).known(commands[i]) by {
                if i < commands.len() - 1 {
                    assert(registered.can_step(commands, i));
                } else {
                    assert(registered.can_step(commands, i - 1));
                }
            }
        }
        if finds_indices(model, commands) {
            assert forall|step: int| 0 <= step < commands.len() - 1 implies (
            #[trigger] recorded_each(model, commands, step as nat).can_record(
                Some(commands[step]),
                commands[step + 1],
            ) <==> registered.can_step(commands, step)) by {
                lemma_step_can_be_recorded(model, commands, step);
            }
            if model.can_record_all(commands) {
                assert forall|step: int| 0 <= step < commands.len() - 1 implies
                    #[trigger] recorded_each(model, commands, step as nat).can_record(
                    Some(commands[step]),
                    commands[step + 1],
                ) by {
                    assert(registered.can_step(commands, step));
                }
            }
            if forall|step: int|
                0 <= step < commands.len() - 1 ==> #[trigger] recorded_each(
                    model,
                    commands,
                    step as nat,
                ).can_record(Some(commands[step]), commands[step + 1]) {
                assert forall|step: int|
                    0 <= step < commands.len() - 1 implies #[trigger] model.registered_all(
                    commands,
                ).can_step(commands, step) by {
                    assert(recorded_each(model, commands, step as nat).can_record(
                        Some(commands[step]),
                        commands[step + 1],
                    ));
                }
            }
        }
    }
}

proof fn lemma_step_can_be_recorded(model: Model, commands: Seq<Seq<char>>, step: int)
    requires
        finds_indices(model, commands),
        0 <= step < commands.len() - 1,
    ensures
        recorded_each(model, commands, step as nat).can_record(
            Some(commands[step]),
            commands[step + 1],
        ) <==> model.registered_all(commands).can_step(commands, step),
{
    let registered = model.registered_all(commands);
    let upto = commands.take(step + 1);
    let now = model.registered_all(upto);
    let turn = recorded_each(model, commands, step as nat);
    let prev = commands[step];
    let next = commands[step + 1];
    lemma_recorded_each(model, commands, step as nat);
    assert(commands.take((step as nat + 1) as int) =~= upto);
    assert(turn == now.stepped(commands, step as nat));
    lemma_stepping_keeps_names(now, commands, step as nat);
    assert forall|i: int| 0 <= i <= step implies now.index[#[trigger] commands[i]]
        == registered.index[commands[i]] by {
        lemma_found_in_turn(model, commands, step + 1, i);
        lemma_registering_more_keeps(model, commands, step + 1, commands[i]);
    }
    lemma_found_in_turn(model, commands, step + 1, step);
    lemma_registering_all_leaves_counts(model, upto);
    lemma_registering_all_leaves_counts(model, commands);
    lemma_stepping_agrees(now, registered, commands, step as nat);
    let longer = commands.take(step + 2);
    assert(longer.drop_last() =~= upto);
    assert(longer.last() == next);
    lemma_found_in_turn(model, commands, step + 2, step + 1);
    lemma_registering_more_keeps(model, commands, step + 2, next);
    assert(registered.known(commands[step]) && registered.known(commands[step + 1]));
    assert(turn.registered(next).index == now.registered(next).index);
    assert(turn.known(prev));
    assert(turn.registered(next).index[prev] == registered.index[prev]);
    assert(turn.registered(next).index[next] == registered.index[next]);
}

/// Recording a transition is seeing its next command, then its previous one, and
/// then counting it between the two; it is dropped where one of them finds no
/// index. Without a previous command, it is only seeing the next one.
pub proof fn law_recording_is_seeing_and_counting(
    model: Model,
    prev: Seq<char>,
    next: Seq<char>,
)
    ensures
        model.recorded(None, next) == model.registered(next),
        ({
            let seen = model.registered(next).registered(prev);
            &&& seen.known(prev) && model.registered(next).known(next) ==> model.recorded(
                Some(prev),
                next,
            ) == seen.recorded(Some(prev), next) && (model.can_record(Some(prev), next)
                <==> seen.can_record(Some(prev), next))
            &&& !model.registered(next).known(next) ==> model.recorded(Some(prev), next) == model
                && model.can_record(Some(prev), next)
            &&& model.registered(next).known(next) && !seen.known(prev) ==> model.recorded(
                Some(prev),
                next,
            ) == model.registered(next) && model.can_record(Some(prev), next)
        }),
{
}

/// A sequence of no commands changes nothing, and one of a single command only
/// makes it known.
pub proof fn law_sequences_without_transitions(model: Model, command: Seq<char>)
    ensures
        model.recorded_all(Seq::empty()) == model,
        model.recorded_all(seq![command]) == model.recorded(None, command),
{
    let single = seq![command];
    assert(single.drop_last() =~= Seq::<Seq<char>>::empty());
    assert(model.registered_all(single.drop_last()) == model);
    assert(model.registered_all(single) == model.registered(command));
    assert(model.registered(command).stepped(single, 0) == model.registered(command));
}

} // verus!
