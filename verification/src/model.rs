//! What a predictor knows, as a mathematical value: the commands with their
//! state indices, and how often each transition between two of them was seen.

use crate::chain::MAX_STATES;
use vstd::prelude::*;

verus! {

/// The number of cells of the count table, one for each pair of states.
pub const CELLS: usize = 4096;

/// The sum of a sequence of counts.
pub open spec fn sum_of(counts: Seq<u64>) -> nat
    decreases counts.len(),
{
    if counts.len() == 0 {
        0
    } else {
        sum_of(counts.drop_last()) + counts.last() as nat
    }
}

/// Counts as the keys of a ranking.
pub open spec fn keys_of(counts: Seq<u64>) -> Seq<int> {
    Seq::new(counts.len(), |i: int| counts[i] as int)
}

/// The commands, their indices, and the transitions counted between them.
#[verifier::ext_equal]
pub struct Model {
    /// The state index of each known command.
    pub index: Map<Seq<char>, usize>,
    /// The commands in the order of their state indices.
    pub names: Seq<Seq<char>>,
    /// How often each transition was counted: the transition from state `i` to
    /// state `j` in cell `i * MAX_STATES + j`.
    pub counts: Seq<u64>,
    /// The number of transitions counted.
    pub total: u64,
}

impl Model {
    /// Nothing known, nothing counted.
    pub open spec fn empty() -> Model {
        Model {
            index: Map::empty(),
            names: Seq::empty(),
            counts: Seq::new(CELLS as nat, |cell: int| 0u64),
            total: 0,
        }
    }

    /// `command` has a state index.
    pub open spec fn known(self, command: Seq<char>) -> bool {
        self.index.contains_key(command)
    }

    /// The cell of the transition between two known commands.
    pub open spec fn cell(self, from: Seq<char>, to: Seq<char>) -> int {
        self.index[from] * MAX_STATES + self.index[to]
    }

    /// How often the transition between two commands was counted; a command
    /// that is not known has no transitions.
    pub open spec fn count(self, from: Seq<char>, to: Seq<char>) -> u64 {
        if self.known(from) && self.known(to) {
            self.counts[self.cell(from, to)]
        } else {
            0
        }
    }

    /// After `command` was seen: a new command gets the next state index, as
    /// long as there is one.
    pub open spec fn registered(self, command: Seq<char>) -> Model {
        if self.known(command) || self.names.len() >= MAX_STATES {
            self
        } else {
            Model {
                index: self.index.insert(command, self.names.len() as usize),
                names: self.names.push(command),
                ..self
            }
        }
    }

    /// After all of `commands` were seen, in their order.
    pub open spec fn registered_all(self, commands: Seq<Seq<char>>) -> Model
        decreases commands.len(),
    {
        if commands.len() == 0 {
            self
        } else {
            self.registered_all(commands.drop_last()).registered(commands.last())
        }
    }

    /// There is a cell `cell`, and neither it nor the total is at its maximum.
    pub open spec fn can_count(self, cell: int) -> bool {
        &&& 0 <= cell < self.counts.len()
        &&& self.counts[cell] < u64::MAX
        &&& self.total < u64::MAX
    }

    /// After one more transition in `cell`.
    pub open spec fn counted(self, cell: int) -> Model {
        Model {
            counts: self.counts.update(cell, (self.counts[cell] + 1) as u64),
            total: (self.total + 1) as u64,
            ..self
        }
    }

    /// After `next` was seen and, where `prev` is given, then `prev`; the
    /// transition is counted if both have an index.
    pub open spec fn recorded(self, prev: Option<Seq<char>>, next: Seq<char>) -> Model {
        let with_next = self.registered(next);
        match prev {
            None => with_next,
            Some(prev) => if !with_next.known(next) {
                with_next
            } else {
                let with_both = with_next.registered(prev);
                if with_both.known(prev) {
                    with_both.counted(with_both.cell(prev, next))
                } else {
                    with_both
                }
            },
        }
    }

    /// The transition that [`Model::recorded`] counts, if any, can be counted.
    pub open spec fn can_record(self, prev: Option<Seq<char>>, next: Seq<char>) -> bool {
        let with_next = self.registered(next);
        match prev {
            None => true,
            Some(prev) => {
                let with_both = with_next.registered(prev);
                with_next.known(next) && with_both.known(prev) ==> with_both.can_count(
                    with_both.cell(prev, next),
                )
            },
        }
    }

    /// After the first `steps` transitions of a sequence of known commands.
    pub open spec fn stepped(self, commands: Seq<Seq<char>>, steps: nat) -> Model
        decreases steps,
    {
        if steps == 0 {
            self
        } else {
            self.stepped(commands, (steps - 1) as nat).counted(
                self.cell(commands[steps - 1], commands[steps as int]),
            )
        }
    }

    /// Both ends of transition `step` of a sequence are known, and it can be
    /// counted after those before it.
    pub open spec fn can_step(self, commands: Seq<Seq<char>>, step: int) -> bool {
        &&& self.known(commands[step])
        &&& self.known(commands[step + 1])
        &&& self.stepped(commands, step as nat).can_count(
            self.cell(commands[step], commands[step + 1]),
        )
    }

    /// After a sequence: all its commands were seen, then each of its
    /// transitions was counted.
    pub open spec fn recorded_all(self, commands: Seq<Seq<char>>) -> Model {
        if commands.len() == 0 {
            self
        } else {
            self.registered_all(commands).stepped(commands, (commands.len() - 1) as nat)
        }
    }

    /// Every transition of a sequence has known ends and can be counted.
    pub open spec fn can_record_all(self, commands: Seq<Seq<char>>) -> bool {
        forall|step: int|
            0 <= step < commands.len() - 1 ==> #[trigger] self.registered_all(commands).can_step(
                commands,
                step,
            )
    }

    /// The transition counts out of state `i`, one for each state.
    pub open spec fn row(self, i: int) -> Seq<u64> {
        Seq::new(self.names.len(), |j: int| self.counts[i * MAX_STATES + j])
    }

    /// The counts that the probabilities of the steps out of state `i` stand
    /// for: its transition counts, or zeros for an index that no state has.
    pub open spec fn weights(self, i: int) -> Seq<u64> {
        if i < self.names.len() {
            self.row(i)
        } else {
            Seq::new(self.names.len(), |j: int| 0u64)
        }
    }

    /// A transition was counted.
    pub open spec fn has_transitions(self) -> bool {
        exists|cell: int| 0 <= cell < self.counts.len() && #[trigger] self.counts[cell] > 0
    }

    /// There is something to predict after `current`: it is known, and
    /// transitions were counted.
    pub open spec fn predicts(self, current: Seq<char>) -> bool {
        self.known(current) && self.names.len() > 0 && self.has_transitions()
    }

    /// There are no more states than the count table has rows.
    pub open spec fn fits(self) -> bool {
        self.names.len() <= MAX_STATES && self.counts.len() == CELLS
    }

    /// The table has a row for `command`, if that is known at all.
    pub open spec fn has_row(self, command: Seq<char>) -> bool {
        self.known(command) && self.names.len() > 0 ==> self.fits() && self.index[command]
            < MAX_STATES
    }

    /// The indices number the commands, each command has one, and the total is
    /// the sum of the counts, none of which stands outside the known states.
    pub open spec fn consistent(self) -> bool {
        &&& self.fits()
        &&& self.names.no_duplicates()
        &&& forall|command: Seq<char>| #[trigger]
            self.known(command) <==> self.names.contains(command)
        &&& forall|i: int| 0 <= i < self.names.len() ==> self.index[#[trigger] self.names[i]] == i
        &&& sum_of(self.counts) == self.total
        &&& forall|cell: int|
            0 <= cell < self.counts.len() && #[trigger] self.counts[cell] > 0 ==> {
                &&& cell / (MAX_STATES as int) < self.names.len()
                &&& cell % (MAX_STATES as int) < self.names.len()
            }
    }
}

} // verus!
