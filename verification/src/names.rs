//! A map from command names, in the order in which the names were first put in.

use vstd::prelude::*;

verus! {

/// The names that a sequence of strings spells.
pub open spec fn spelled(strings: Seq<String>) -> Seq<Seq<char>> {
    strings.map_values(|s: String| s@)
}

/// The names that a sequence of string slices spells.
pub open spec fn spelled_slices(slices: Seq<&str>) -> Seq<Seq<char>> {
    slices.map_values(|s: &str| s@)
}

/// The name that an optional string slice spells.
pub open spec fn spelled_option(slice: Option<&str>) -> Option<Seq<char>> {
    match slice {
        Some(s) => Some(s@),
        None => None,
    }
}

/// The map that a list of entries describes, a later entry replacing an
/// earlier one of the same name.
pub open spec fn entries_map<V>(entries: Seq<(String, V)>) -> Map<Seq<char>, V>
    decreases entries.len(),
{
    if entries.len() == 0 {
        Map::empty()
    } else {
        entries_map(entries.drop_last()).insert(entries.last().0@, entries.last().1)
    }
}

/// The names of a list of entries, in the order of their first occurrence.
pub open spec fn entries_order<V>(entries: Seq<(String, V)>) -> Seq<Seq<char>>
    decreases entries.len(),
{
    if entries.len() == 0 {
        Seq::empty()
    } else {
        let before = entries_order(entries.drop_last());
        if entries_map(entries.drop_last()).contains_key(entries.last().0@) {
            before
        } else {
            before.push(entries.last().0@)
        }
    }
}

/// A map from names to values. No name occurs twice, and a name keeps the place
/// that it was first put at.
#[derive(Debug)]
pub struct NameMap<V> {
    keys: Vec<String>,
    values: Vec<V>,
}

impl<V> View for NameMap<V> {
    type V = Map<Seq<char>, V>;

    closed spec fn view(&self) -> Map<Seq<char>, V> {
        Map::new(
            |name: Seq<char>| self.order().contains(name),
            |name: Seq<char>| self.values@[self.order().index_of(name)],
        )
    }
}

impl<V: Clone> Clone for NameMap<V> {
    fn clone(&self) -> (copy: Self)
        ensures
            copy.order() == self.order(),
            self.wf() ==> copy.wf(),
            self.wf() ==> copy@.dom() == self@.dom(),
            forall|name: Seq<char>|
                self.wf() && #[trigger] copy@.contains_key(name) ==> cloned::<V>(
                    self@[name],
                    copy@[name],
                ),
    {
        let copy = NameMap { keys: self.keys.clone(), values: self.values.clone() };
        proof {
            assert(copy.order() =~= self.order());
            if self.wf() {
                assert(copy@.dom() =~= self@.dom());
                assert forall|name: Seq<char>| #[trigger] copy@.contains_key(name) implies cloned::<
                    V,
                >(self@[name], copy@[name]) by {
                    let i = self.order().index_of(name);
                    assert(self.order()[i] == name);
                }
            }
        }
        copy
    }
}

impl<V> NameMap<V> {
    /// The names, in the order of their first insertion.
    pub closed spec fn order(&self) -> Seq<Seq<char>> {
        spelled(self.keys@)
    }

    /// No name occurs twice, and each has one value.
    pub closed spec fn wf(&self) -> bool {
        &&& self.keys@.len() == self.values@.len()
        &&& self.order().no_duplicates()
    }

    /// What a well-formed map holds: exactly the names of its order, each once.
    pub proof fn lemma_order(&self)
        requires
            self.wf(),
        ensures
            self.order().no_duplicates(),
            forall|name: Seq<char>| #[trigger]
                self@.contains_key(name) <==> self.order().contains(name),
            self@.dom() == self.order().to_set(),
            self@.dom().finite(),
            self@.dom().len() == self.order().len(),
    {
        self.order().unique_seq_to_set();
        assert(self@.dom() =~= self.order().to_set());
    }

    proof fn lemma_value(&self, i: int)
        requires
            self.wf(),
            0 <= i < self.keys@.len(),
        ensures
            self.order()[i] == self.keys@[i]@,
            self@.contains_key(self.keys@[i]@),
            self@[self.keys@[i]@] == self.values@[i],
    {
        let name = self.keys@[i]@;
        assert(self.order()[i] == name);
        let j = self.order().index_of(name);
        assert(self.order().contains(name));
        assert(0 <= j < self.order().len() && self.order()[j] == name);
        assert(i == j);
    }

    /// An empty map.
    pub fn new() -> (map: Self)
        ensures
            map.wf(),
            map@ == Map::<Seq<char>, V>::empty(),
            map.order() == Seq::<Seq<char>>::empty(),
    {
        let map = NameMap { keys: Vec::new(), values: Vec::new() };
        assert(map@ =~= Map::<Seq<char>, V>::empty());
        map
    }

    /// The number of names.
    pub fn len(&self) -> (len: usize)
        ensures
            len == self.order().len(),
    {
        self.keys.len()
    }

    /// The place of `name` in the order.
    pub fn position(&self, name: &str) -> (place: Option<usize>)
        requires
            self.wf(),
        ensures
            match place {
                Some(i) => i < self.order().len() && self.order()[i as int] == name@
                    && self@.contains_key(name@),
                None => !self@.contains_key(name@),
            },
    {
        let wanted = name.to_owned();
        for i in 0..self.keys.len()
            invariant
                wanted@ == name@,
                self.wf(),
                forall|j: int| 0 <= j < i ==> self.order()[j] != name@,
        {
            if self.keys[i] == wanted {
                proof {
                    self.lemma_value(i as int);
                }
                return Some(i);
            }
        }
        None
    }

    /// The value of `name`.
    pub fn get(&self, name: &str) -> (value: Option<&V>)
        requires
            self.wf(),
        ensures
            match value {
                Some(v) => self@.contains_key(name@) && *v == self@[name@],
                None => !self@.contains_key(name@),
            },
    {
        match self.position(name) {
            Some(i) => {
                proof {
                    self.lemma_value(i as int);
                }
                Some(&self.values[i])
            },
            None => None,
        }
    }

    /// The name at a place of the order.
    pub fn name_at(&self, i: usize) -> (name: &String)
        requires
            self.wf(),
            i < self.order().len(),
        ensures
            name@ == self.order()[i as int],
    {
        &self.keys[i]
    }

    /// The value of the name at a place of the order.
    pub fn value_at(&self, i: usize) -> (value: &V)
        requires
            self.wf(),
            i < self.order().len(),
        ensures
            self@.contains_key(self.order()[i as int]),
            *value == self@[self.order()[i as int]],
    {
        proof {
            self.lemma_value(i as int);
        }
        &self.values[i]
    }

    /// Gives `name` the value `value`, at the place that it has, or else at the
    /// end.
    pub fn put(&mut self, name: &str, value: V)
        requires
            old(self).wf(),
        ensures
            final(self).wf(),
            final(self)@ == old(self)@.insert(name@, value),
            final(self).order() == if old(self)@.contains_key(name@) {
                old(self).order()
            } else {
                old(self).order().push(name@)
            },
    {
        let ghost before = *self;
        match self.position(name) {
            Some(i) => {
                self.values.set(i, value);
                proof {
                    assert(self.order() == before.order());
                    assert forall|other: Seq<char>| #[trigger]
                        self@.contains_key(other) implies self@[other] == before@.insert(
                        name@,
                        value,
                    )[other] by {
                        let j = self.order().index_of(other);
                        assert(self.order()[j] == other);
                        before.lemma_value(j);
                        self.lemma_value(j);
                    }
                    assert(self@ =~= before@.insert(name@, value));
                }
            },
            None => {
                self.keys.push(name.to_owned());
                self.values.push(value);
                proof {
                    before.lemma_order();
                    assert(self.order() =~= before.order().push(name@));
                    assert(self.order()[before.order().len() as int] == name@);
                    assert forall|other: Seq<char>| #[trigger]
                        self@.contains_key(other) <==> before@.insert(name@, value).contains_key(
                            other,
                        ) by {
                        if before.order().contains(other) {
                            let j = before.order().index_of(other);
                            assert(self.order()[j] == other);
                        }
                        if self.order().contains(other) && other != name@ {
                            let j = self.order().index_of(other);
                            assert(before.order()[j] == other);
                        }
                    }
                    assert forall|other: Seq<char>| #[trigger]
                        self@.contains_key(other) implies self@[other] == before@.insert(
                        name@,
                        value,
                    )[other] by {
                        let j = self.order().index_of(other);
                        assert(self.order()[j] == other);
                        self.lemma_value(j);
                        if j < before.order().len() {
                            before.lemma_value(j);
                            assert(before.order()[j] == other);
                        }
                    }
                    assert(self@ =~= before@.insert(name@, value));
                }
            },
        }
    }
}

/// An entry that is added to a list gives its name its value and leaves those of
/// the others; a new name comes last in the order.
pub proof fn law_entries_grow_one_by_one<V>(
    entries: Seq<(String, V)>,
    name: String,
    value: V,
    other: Seq<char>,
)
    ensures
        entries_map(Seq::<(String, V)>::empty()).dom().is_empty(),
        entries_order(Seq::<(String, V)>::empty()).len() == 0,
        entries_map(entries.push((name, value))).contains_key(name@),
        entries_map(entries.push((name, value)))[name@] == value,
        other != name@ ==> (entries_map(entries.push((name, value))).contains_key(other)
            <==> entries_map(entries).contains_key(other)),
        other != name@ && entries_map(entries).contains_key(other) ==> entries_map(
            entries.push((name, value)),
        )[other] == entries_map(entries)[other],
        entries_map(entries).contains_key(name@) ==> entries_order(entries.push((name, value)))
            == entries_order(entries),
        !entries_map(entries).contains_key(name@) ==> entries_order(entries.push((name, value)))
            == entries_order(entries).push(name@),
{
    assert(entries.push((name, value)).drop_last() =~= entries);
}

/// Spelling keeps the number and the places of strings.
pub proof fn law_spelling_keeps_places(
    strings: Seq<String>,
    slices: Seq<&str>,
    slice: Option<&str>,
    i: int,
)
    ensures
        spelled(strings).len() == strings.len(),
        0 <= i < strings.len() ==> spelled(strings)[i] == strings[i]@,
        spelled_slices(slices).len() == slices.len(),
        0 <= i < slices.len() ==> spelled_slices(slices)[i] == slices[i]@,
        slice is Some <==> spelled_option(slice) is Some,
        slice matches Some(text) ==> spelled_option(slice) == Some(text@),
{
}

} // verus!
