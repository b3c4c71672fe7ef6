//! Markov chains.
//!
//! The chain is the one of `ergodic_transport`, carried through as it is. Its
//! check for ergodicity is called here. What it computes in numbers depends on
//! the number type, which says through [`ChainNumber`] how.

use crate::number::Number;
use ergodic_transport::MarkovChain;
use vstd::prelude::*;

verus! {

/// The most states that a chain, and so a predictor, can have. This is the
/// bound that `ergodic_transport::MAX_STATES` sets.
pub const MAX_STATES: usize = 64;

/// The Markov chain of `ergodic_transport`: a state count, a transition matrix
/// and a random generator. Nothing is known of a chain but its [`chain_edges`].
#[verifier::external_type_specification]
#[verifier::external_body]
pub struct ExMarkovChain(ergodic_transport::MarkovChain);

/// The possible steps of a chain, one row per state: `chain_edges(c)[i][j]`
/// says whether the matrix of `c` gives the step from state `i` to state `j` a
/// probability above zero.
pub uninterp spec fn chain_edges(chain: MarkovChain) -> Seq<Seq<bool>>;

/// What the ergodicity check of `ergodic_transport` answers for a chain with
/// these possible steps: the verdict and its explanation.
pub uninterp spec fn ergodicity(edges: Seq<Seq<bool>>) -> (bool, Seq<char>);

/// Every state has a step to every state.
pub open spec fn is_complete(edges: Seq<Seq<bool>>) -> bool {
    forall|i: int, j: int|
        0 <= i < edges.len() && 0 <= j < edges.len() ==> #[trigger] edges[i][j]
}

/// `MarkovChain::new` makes a chain without states.
pub assume_specification[ ergodic_transport::MarkovChain::new ]() -> (chain: MarkovChain)
    ensures
        chain_edges(chain).len() == 0,
;

/// `MarkovChain::is_ergodic` looks at nothing but which steps are possible. A
/// chain without states is not ergodic, and one in which every step is possible
/// is. On a chain that claims more states than its tables have room for it
/// would panic.
pub assume_specification[ ergodic_transport::MarkovChain::is_ergodic ](
    chain: &MarkovChain,
) -> (verdict: (bool, String))
    requires
        chain_edges(*chain).len() <= MAX_STATES,
    ensures
        verdict.0 == ergodicity(chain_edges(*chain)).0,
        verdict.1@ == ergodicity(chain_edges(*chain)).1,
        chain_edges(*chain).len() == 0 ==> !verdict.0 && verdict.1@ == "chain has no states"@,
        chain_edges(*chain).len() > 0 && is_complete(chain_edges(*chain)) ==> verdict.0
            && verdict.1@ == "chain is ergodic (irreducible + aperiodic)"@,
;

/// The clone of a `MarkovChain`, as it is derived field by field, is the same
/// chain: the state count, the matrix and the state of the generator.
pub assume_specification[ <ergodic_transport::MarkovChain as Clone>::clone ](
    chain: &MarkovChain,
) -> (copy: MarkovChain)
    ensures
        copy == *chain,
;

/// A number type that a chain's transition matrix can be written in.
pub trait ChainNumber: Number {
    /// The chain of `n` states whose transition matrix is `flat`, row by row.
    fn chain_of(n: usize, flat: &Vec<Self>) -> MarkovChain
        requires
            n <= MAX_STATES,
            flat@.len() == n * n,
    ;

    /// The stationary distribution of `chain`, if it converges.
    fn stationary_of(chain: &MarkovChain) -> Option<Vec<Self>>;

    /// The number of steps, at most `max_steps`, after which `chain` is within
    /// `epsilon` of its stationary distribution.
    fn mixing_time_of(chain: &MarkovChain, epsilon: Self, max_steps: usize) -> Option<usize>;
}

/// `chain` is a chain of `n` states whose transition matrix is `flat`.
pub open spec fn is_chain_of<N: ChainNumber>(n: usize, flat: Vec<N>, chain: MarkovChain) -> bool {
    call_ensures(N::chain_of, (n, &flat), chain)
}

/// `stationary` is what the number type finds as the stationary distribution of
/// `chain`.
pub open spec fn is_stationary_of<N: ChainNumber>(
    chain: MarkovChain,
    stationary: Option<Vec<N>>,
) -> bool {
    call_ensures(N::stationary_of, (&chain,), stationary)
}

/// `steps` is what the number type finds as the mixing time of `chain`.
pub open spec fn is_mixing_time_of<N: ChainNumber>(
    chain: MarkovChain,
    epsilon: N,
    max_steps: usize,
    steps: Option<usize>,
) -> bool {
    call_ensures(N::mixing_time_of, (&chain, epsilon, max_steps), steps)
}

/// The chains that are built have the states and the possible steps of their
/// matrices: a step where the entry is above zero, and nowhere else.
pub open spec fn builds_its_matrices<N: ChainNumber>(value: spec_fn(N) -> real) -> bool {
    forall|n: usize, flat: Vec<N>, chain: MarkovChain| #[trigger]
        is_chain_of(n, flat, chain) && flat@.len() == n * n ==> {
            &&& chain_edges(chain).len() == n
            &&& forall|i: int, j: int|
                0 <= i < n && 0 <= j < n ==> #[trigger] chain_edges(chain)[i][j] == (value(
                    flat@[i * n + j],
                ) > 0 as real)
        }
}

/// Two stationary distributions that were found, or not, are the same.
pub open spec fn are_same_shares<N>(a: Option<Vec<N>>, b: Option<Vec<N>>) -> bool {
    match (a, b) {
        (Some(x), Some(y)) => x@ == y@,
        (None, None) => true,
        _ => false,
    }
}

/// What is computed of two chains is the same: their stationary distributions
/// and their mixing times.
pub open spec fn are_answered_alike<N: ChainNumber>(a: MarkovChain, b: MarkovChain) -> bool {
    &&& forall|x: Option<Vec<N>>, y: Option<Vec<N>>| #[trigger]
        is_stationary_of(a, x) && #[trigger] is_stationary_of(b, y) ==> are_same_shares(x, y)
    &&& forall|epsilon: N, max_steps: usize, x: Option<usize>, y: Option<usize>| #[trigger]
        is_mixing_time_of(a, epsilon, max_steps, x) && #[trigger] is_mixing_time_of(
            b,
            epsilon,
            max_steps,
            y,
        ) ==> x == y
}

/// Chains of equal matrices are answered alike, and so are chains without
/// states.
pub open spec fn is_chain_deterministic<N: ChainNumber>() -> bool {
    &&& forall|n: usize, flat: Vec<N>, other: Vec<N>, a: MarkovChain, b: MarkovChain| #[trigger]
        is_chain_of(n, flat, a) && #[trigger] is_chain_of(n, other, b) && flat@ == other@
            ==> are_answered_alike::<N>(a, b)
    &&& forall|a: MarkovChain, b: MarkovChain|
        (#[trigger] chain_edges(a)).len() == 0 && (#[trigger] chain_edges(b)).len() == 0
            ==> are_answered_alike::<N>(a, b)
}

/// The state count that a `MarkovChain` keeps beside its matrix.
#[verifier::external_body]
pub(crate) fn chain_len(chain: &MarkovChain) -> (len: usize)
    ensures
        len == chain_edges(*chain).len(),
{
    chain.tm.n
}

} // verus!
