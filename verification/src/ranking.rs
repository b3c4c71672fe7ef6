//! Ranking places by number: the largest first, the earlier of two equally large
//! ones first.

use crate::exact::orders;
use crate::number::{compares_exceeding, Number};
use vstd::prelude::*;

verus! {

/// Place `a` comes before place `b`: its key is larger, or as large and it is
/// earlier.
pub open spec fn outranks(keys: Seq<int>, a: int, b: int) -> bool {
    keys[a] > keys[b] || (keys[a] == keys[b] && a < b)
}

/// `order` lists `place`.
pub open spec fn is_listed(order: Seq<usize>, place: int) -> bool {
    exists|r: int| 0 <= r < order.len() && #[trigger] order[r] == place
}

/// `order` lists every place below `len` once.
pub open spec fn is_arrangement(order: Seq<usize>, len: nat) -> bool {
    &&& order.len() == len
    &&& order.no_duplicates()
    &&& forall|r: int| 0 <= r < order.len() ==> #[trigger] order[r] < len
    &&& forall|place: int| 0 <= place < len ==> #[trigger] is_listed(order, place)
}

/// `order` lists every place of `keys` once, each before all that it outranks.
pub open spec fn is_ranking(keys: Seq<int>, order: Seq<usize>) -> bool {
    &&& is_arrangement(order, keys.len())
    &&& forall|r: int, s: int|
        0 <= r < s < order.len() ==> outranks(
            keys,
            #[trigger] order[r] as int,
            #[trigger] order[s] as int,
        )
}

/// Whether one number of `row` exceeds another is answered as their keys lie.
pub open spec fn goes_by<N: Number>(row: Seq<N>, keys: Seq<int>) -> bool {
    &&& keys.len() == row.len()
    &&& forall|i: int, j: int, outcome: bool|
        0 <= i < row.len() && 0 <= j < row.len() && #[trigger] compares_exceeding(
            row[i],
            row[j],
            outcome,
        ) ==> outcome == (keys[i] > keys[j])
}

/// The numbers of `row` lie in an order, and comparisons go by it.
pub open spec fn is_comparable<N: Number>(row: Seq<N>) -> bool {
    exists|keys: Seq<int>| #[trigger] goes_by(row, keys)
}

/// `order` lists the places of `row` from the largest number to the smallest,
/// the earlier of two equally large ones first. Where comparisons do not go by
/// an order, it still lists every place once.
pub open spec fn is_descending<N: Number>(row: Seq<N>, order: Seq<usize>) -> bool {
    &&& is_arrangement(order, row.len())
    &&& forall|keys: Seq<int>| #[trigger] goes_by(row, keys) ==> is_ranking(keys, order)
}

/// There is only one ranking by given keys.
pub proof fn law_ranking_is_unique(keys: Seq<int>, first: Seq<usize>, second: Seq<usize>)
    requires
        is_ranking(keys, first),
        is_ranking(keys, second),
    ensures
        first == second,
{
    lemma_rankings_agree(keys, first, second, keys.len());
    assert(first =~= second);
}

proof fn lemma_rankings_agree(
    keys: Seq<int>,
    first: Seq<usize>,
    second: Seq<usize>,
    upto: nat,
)
    requires
        is_ranking(keys, first),
        is_ranking(keys, second),
        upto <= keys.len(),
    ensures
        forall|r: int| 0 <= r < upto ==> first[r] == second[r],
    decreases upto,
{
    if upto > 0 {
        let last = upto - 1;
        lemma_rankings_agree(keys, first, second, last as nat);
        if first[last] != second[last] {
            let a = first[last];
            let b = second[last];
            assert(is_listed(first, b as int) && is_listed(second, a as int));
            let s = choose|s: int| 0 <= s < first.len() && #[trigger] first[s] == b;
            let t = choose|t: int| 0 <= t < second.len() && #[trigger] second[t] == a;
            assert(s > last) by {
                if s < last {
                    assert(outranks(keys, second[s] as int, second[last] as int));
                }
            }
            assert(t > last) by {
                if t < last {
                    assert(outranks(keys, first[t] as int, first[last] as int));
                }
            }
            assert(outranks(keys, first[last] as int, first[s] as int));
            assert(outranks(keys, second[last] as int, second[t] as int));
            assert(false);
        }
    }
}

/// There is only one order in which numbers that can be compared descend.
pub proof fn law_descent_is_unique<N: Number>(
    row: Seq<N>,
    first: Seq<usize>,
    second: Seq<usize>,
)
    requires
        is_comparable(row),
        is_descending(row, first),
        is_descending(row, second),
    ensures
        first == second,
{
    let keys = choose|keys: Seq<int>| #[trigger] goes_by(row, keys);
    law_ranking_is_unique(keys, first, second);
}

/// The first place of a ranking has a key as large as any, and is the earliest
/// of those that have.
pub proof fn law_first_is_largest(keys: Seq<int>, order: Seq<usize>, place: int)
    requires
        is_ranking(keys, order),
        0 <= place < keys.len(),
    ensures
        keys[place] <= keys[order[0] as int],
        keys[place] == keys[order[0] as int] ==> order[0] <= place,
{
    assert(is_listed(order, place));
    let r = choose|r: int| 0 <= r < order.len() && #[trigger] order[r] == place;
    if r > 0 {
        assert(outranks(keys, order[0] as int, order[r] as int));
    }
}

/// How many of the first `len` terms lie below `x`.
spec fn count_below(terms: Seq<real>, len: nat, x: real) -> nat
    decreases len,
{
    if len == 0 {
        0
    } else {
        count_below(terms, (len - 1) as nat, x) + if terms[len - 1] < x {
            1nat
        } else {
            0
        }
    }
}

proof fn lemma_count_below_grows(terms: Seq<real>, len: nat, x: real, y: real, place: int)
    requires
        x <= y,
        len <= terms.len(),
    ensures
        count_below(terms, len, x) <= count_below(terms, len, y),
        0 <= place < len && x < y && terms[place] == x ==> count_below(terms, len, x)
            < count_below(terms, len, y),
    decreases len,
{
    if len > 0 {
        lemma_count_below_grows(terms, (len - 1) as nat, x, y, place);
    }
}

/// Keys that lie as the numbers of `row` do: how many of them are smaller.
spec fn keys_by<N>(value: spec_fn(N) -> real, row: Seq<N>) -> Seq<int> {
    let terms = Seq::new(row.len(), |i: int| value(row[i]));
    Seq::new(row.len(), |i: int| count_below(terms, row.len(), terms[i]) as int)
}

proof fn lemma_keys_by_lie_as_numbers<N>(
    value: spec_fn(N) -> real,
    row: Seq<N>,
    i: int,
    j: int,
)
    requires
        0 <= i < row.len(),
        0 <= j < row.len(),
    ensures
        keys_by(value, row)[i] > keys_by(value, row)[j] <==> value(row[i]) > value(row[j]),
{
    let terms = Seq::new(row.len(), |i: int| value(row[i]));
    if terms[i] > terms[j] {
        lemma_count_below_grows(terms, row.len(), terms[j], terms[i], j);
    } else {
        lemma_count_below_grows(terms, row.len(), terms[i], terms[j], i);
    }
}

proof fn lemma_goes_by_keys<N: Number>(
    value: spec_fn(N) -> real,
    proper: spec_fn(N) -> bool,
    row: Seq<N>,
)
    requires
        orders(value, proper),
        forall|i: int| 0 <= i < row.len() ==> proper(#[trigger] row[i]),
    ensures
        goes_by(row, keys_by(value, row)),
{
    let keys = keys_by(value, row);
    assert forall|i: int, j: int, outcome: bool|
        0 <= i < row.len() && 0 <= j < row.len() && #[trigger] compares_exceeding(
            row[i],
            row[j],
            outcome,
        ) implies outcome == (keys[i] > keys[j]) by {
        assert(proper(row[i]) && proper(row[j]));
        lemma_keys_by_lie_as_numbers(value, row, i, j);
    }
}

/// Where comparisons go by an order, proper numbers can be compared.
pub proof fn law_ordered_numbers_are_comparable<N: Number>(
    value: spec_fn(N) -> real,
    proper: spec_fn(N) -> bool,
    row: Seq<N>,
)
    requires
        orders(value, proper),
        forall|i: int| 0 <= i < row.len() ==> proper(#[trigger] row[i]),
    ensures
        is_comparable(row),
{
    lemma_goes_by_keys(value, proper, row);
}

proof fn lemma_inserted(keys: Seq<int>, before: Seq<usize>, place: int, i: usize)
    requires
        i < keys.len(),
        is_ranking(keys.take(i as int), before),
        0 <= place <= before.len(),
        forall|r: int| 0 <= r < place ==> keys[#[trigger] before[r] as int] >= keys[i as int],
        place < before.len() ==> keys[before[place] as int] < keys[i as int],
    ensures
        is_ranking(keys.take(i + 1), before.insert(place, i)),
{
    let seen = keys.take(i as int);
    let more = keys.take(i + 1);
    let after = before.insert(place, i);
    lemma_arranged(before, place, i);
    assert forall|r: int, s: int| 0 <= r < s < after.len() implies outranks(
        more,
        #[trigger] after[r] as int,
        #[trigger] after[s] as int,
    ) by {
        let a = if r < place {
            before[r]
        } else if r == place {
            i
        } else {
            before[r - 1]
        };
        let b = if s < place {
            before[s]
        } else if s == place {
            i
        } else {
            before[s - 1]
        };
        assert(after[r] == a && after[s] == b);
        if r == place {
            let next = before[place];
            assert(seen[next as int] < keys[i as int]);
            if s - 1 > place {
                assert(outranks(seen, next as int, b as int));
            }
        } else if s != place {
            assert(outranks(seen, a as int, b as int));
        }
    }
}

proof fn lemma_arranged(before: Seq<usize>, place: int, i: usize)
    requires
        is_arrangement(before, i as nat),
        0 <= place <= before.len(),
    ensures
        is_arrangement(before.insert(place, i), (i + 1) as nat),
{
    let after = before.insert(place, i);
    assert forall|r: int| 0 <= r < after.len() implies #[trigger] after[r] < i + 1 by {
        if r < place {
            assert(after[r] == before[r]);
        } else if r > place {
            assert(after[r] == before[r - 1]);
        }
    }
    assert forall|p: int| 0 <= p < i + 1 implies #[trigger] is_listed(after, p) by {
        if p == i {
            assert(after[place] == p);
        } else {
            assert(is_listed(before, p));
            let r = choose|r: int| 0 <= r < before.len() && #[trigger] before[r] == p;
            if r < place {
                assert(after[r] == p);
            } else {
                assert(after[r + 1] == p);
            }
        }
    }
}

/// The places of `row` in the order in which its numbers descend.
pub fn ranking<N: Number>(row: &Vec<N>) -> (order: Vec<usize>)
    ensures
        is_descending(row@, order@),
{
    let mut order: Vec<usize> = Vec::new();
    for i in 0..row.len()
        invariant
            is_arrangement(order@, i as nat),
            forall|keys: Seq<int>| #[trigger]
                goes_by(row@, keys) ==> is_ranking(keys.take(i as int), order@),
    {
        let ghost before = order@;
        let mut place: usize = 0;
        while place < order.len()
            invariant_except_break
                forall|keys: Seq<int>, r: int|
                    #![trigger goes_by(row@, keys), before[r]]
                    goes_by(row@, keys) && 0 <= r < place ==> keys[before[r] as int]
                        >= keys[i as int],
            invariant
                i < row@.len(),
                before == order@,
                is_arrangement(before, i as nat),
                place <= order@.len(),
            ensures
                place <= before.len(),
                forall|keys: Seq<int>, r: int|
                    #![trigger goes_by(row@, keys), before[r]]
                    goes_by(row@, keys) && 0 <= r < place ==> keys[before[r] as int]
                        >= keys[i as int],
                forall|keys: Seq<int>| #[trigger]
                    goes_by(row@, keys) && place < before.len() ==> keys[before[place as int] as int]
                        < keys[i as int],
            decreases order@.len() - place,
        {
            let larger = row[i].exceeds(row[order[place]]);
            assert(compares_exceeding(row@[i as int], row@[before[place as int] as int], larger));
            if larger {
                break;
            }
            place += 1;
        }
        order.insert(place, i);
        proof {
            lemma_arranged(before, place as int, i);
            assert forall|keys: Seq<int>| #[trigger] goes_by(row@, keys) implies is_ranking(
                keys.take(i + 1),
                order@,
            ) by {
                lemma_inserted(keys, before, place as int, i);
            }
        }
    }
    assert forall|keys: Seq<int>| #[trigger] goes_by(row@, keys) implies is_ranking(
        keys,
        order@,
    ) by {
        assert(keys.take(row@.len() as int) =~= keys);
    }
    order
}

/// Where comparisons go by an order, the places are listed once each, from the
/// largest number to the smallest, and the earlier of two equal ones first.
pub proof fn law_places_descend_by_value<N: Number>(
    value: spec_fn(N) -> real,
    proper: spec_fn(N) -> bool,
    row: Seq<N>,
    order: Seq<usize>,
    first: int,
    second: int,
    place: int,
)
    requires
        orders(value, proper),
        forall|i: int| 0 <= i < row.len() ==> proper(#[trigger] row[i]),
        is_descending(row, order),
        0 <= first < second < order.len(),
    ensures
        order.len() == row.len(),
        order[first] < row.len() && order[second] < row.len(),
        order[first] != order[second],
        0 <= place < row.len() ==> is_listed(order, place),
        value(row[order[first] as int]) >= value(row[order[second] as int]),
        value(row[order[first] as int]) == value(row[order[second] as int]) ==> order[first]
            < order[second],
{
    let keys = keys_by(value, row);
    let a = order[first] as int;
    let b = order[second] as int;
    lemma_goes_by_keys(value, proper, row);
    assert(outranks(keys, a, b));
    lemma_keys_by_lie_as_numbers(value, row, a, b);
    lemma_keys_by_lie_as_numbers(value, row, b, a);
}

} // verus!
