use crate::order::{
    labels_view, lemma_lex_antisymmetric, lemma_lex_total, lemma_lex_transitive, lex_le,
    sorted_positions, sorts, text_le,
};
use crate::table::{distinct_names, lemma_insert_adds_name, names_of, Table};
use crate::text::chars_of;
use std::marker::PhantomData;
use vstd::std_specs::convert::FromSpec;
use vstd::prelude::*;

verus! {

/// Whether each string of `names` comes strictly before the next.
pub open spec fn ascending(names: Seq<Seq<char>>) -> bool {
    forall|i: int, j: int|
        0 <= i < j < names.len() ==> lex_le(#[trigger] names[i], #[trigger] names[j]) && names[i]
            != names[j]
}

/// Gathers the natural keys of one record category. The identifiers are given out only once
/// every key is in: by [`IdGenerator::freeze`].
#[derive(Debug)]
pub struct IdGenerator<T> {
    names: Table<()>,
    _phantom: PhantomData<T>,
}

/// The natural keys of one record category in ascending order. The identifier of a key is its
/// position.
#[derive(Debug)]
pub struct FrozenIdGenerator<T> {
    names: Vec<String>,
    _phantom: PhantomData<T>,
}

impl<T: From<u64>> Default for IdGenerator<T> {
    fn default() -> (generator: Self)
        ensures
            generator.wf(),
            generator.names().len() == 0,
    {
        IdGenerator::new()
    }
}

impl<T: From<u64>> IdGenerator<T> {
    /// The keys gathered so far, each once, in the order in which they first came.
    pub closed spec fn names(&self) -> Seq<Seq<char>> {
        names_of(self.names.entries())
    }

    /// The table of the keys is well formed.
    pub closed spec fn wf(&self) -> bool {
        self.names.wf()
    }

    /// A generator without keys.
    pub fn new() -> (generator: Self)
        ensures
            generator.wf(),
            generator.names().len() == 0,
    {
        IdGenerator { names: Table::new(), _phantom: PhantomData }
    }

    /// Gathers `name`.
    pub fn add(&mut self, name: String)
        requires
            old(self).wf(),
        ensures
            final(self).wf(),
            final(self).names() == (if old(self).names().contains(name@) {
                old(self).names()
            } else {
                old(self).names().push(name@)
            }),
            final(self).names().to_set() == old(self).names().to_set().insert(name@),
    {
        let ghost before = self.names.entries();
        self.names.insert(name, ());
        proof {
            let after = self.names.entries();
            lemma_insert_adds_name(before, after, name@);
            match crate::table::position_of(before, name@) {
                Some(at) => {
                    assert(names_of(before)[at] == name@);
                    assert(names_of(after) =~= names_of(before));
                },
                None => {
                    if names_of(before).contains(name@) {
                        let i = choose|i: int| 0 <= i < before.len() && names_of(before)[i] == name@;
                        assert(before[i].0@ == name@);
                    }
                    assert(names_of(after) =~= names_of(before).push(name@));
                },
            }
        }
    }

    /// The frozen generator of the keys in `names`.
    pub fn from_iter(names: Vec<String>) -> (frozen: FrozenIdGenerator<T>)
        ensures
            ascending(frozen.names()),
            frozen.names().to_set() == crate::error::texts_view(names@).to_set(),
    {
        let mut generator: IdGenerator<T> = IdGenerator::new();
        let ghost all = crate::error::texts_view(names@);
        let mut i: usize = 0;
        assert(generator.names().to_set() =~= all.take(0).to_set());
        while i < names.len()
            invariant
                i <= names.len(),
                generator.wf(),
                all == crate::error::texts_view(names@),
                generator.names().to_set() == all.take(i as int).to_set(),
            decreases names.len() - i,
        {
            generator.add(names[i].clone());
            proof {
                let grown = all.take(i + 1);
                let before = all.take(i as int);
                assert(grown =~= before.push(names@[i as int]@));
                assert(grown.to_set() =~= before.to_set().insert(names@[i as int]@)) by {
                    assert forall|text: Seq<char>| grown.to_set().contains(text)
                        <==> before.to_set().insert(names@[i as int]@).contains(text) by {
                        if grown.contains(text) {
                            let k = choose|k: int| 0 <= k < grown.len() && grown[k] == text;
                            if k < before.len() {
                                assert(before[k] == text);
                            }
                        }
                        if before.contains(text) {
                            let k = choose|k: int| 0 <= k < before.len() && before[k] == text;
                            assert(grown[k] == text);
                        }
                        if text == names@[i as int]@ {
                            assert(grown[grown.len() - 1] == text);
                        }
                    }
                }
            }
            i += 1;
        }
        assert(all.take(i as int) =~= all);
        generator.freeze()
    }

    /// Sorts the keys and so fixes the identifier of each.
    pub fn freeze(self) -> (frozen: FrozenIdGenerator<T>)
        requires
            self.wf(),
        ensures
            ascending(frozen.names()),
            frozen.names().to_set() == self.names().to_set(),
    {
        let ghost entries = self.names.entries();
        proof {
            self.names.lemma_distinct();
        }
        let mut labels: Vec<Option<String>> = Vec::new();
        let mut i: usize = 0;
        while i < self.names.len()
            invariant
                i <= self.names.entries().len(),
                entries == self.names.entries(),
                labels@.len() == i,
                forall|j: int|
                    0 <= j < i ==> ((#[trigger] labels@[j]) matches Some(l) && l@ == entries[j].0@),
            decreases self.names.entries().len() - i,
        {
            labels.push(Some(self.names.name_at(i).clone()));
            i += 1;
        }
        let order = sorted_positions(&labels);
        let ghost keys = labels_view(labels@);
        let mut names: Vec<String> = Vec::new();
        let mut k: usize = 0;
        while k < order.len()
            invariant
                k <= order.len(),
                entries == self.names.entries(),
                keys == labels_view(labels@),
                keys.len() == entries.len(),
                sorts(order@, keys),
                names@.len() == k,
                forall|j: int| 0 <= j < k ==> (#[trigger] names@[j])@ == entries[order@[j] as int].0@,
            decreases order.len() - k,
        {
            let at = order[k];
            names.push(self.names.name_at(at).clone());
            k += 1;
        }
        let frozen = FrozenIdGenerator { names, _phantom: PhantomData };
        proof {
            let sorted = frozen.names();
            assert(sorted.len() == entries.len());
            assert forall|i: int, j: int| 0 <= i < j < sorted.len() implies lex_le(
                #[trigger] sorted[i],
                #[trigger] sorted[j],
            ) && sorted[i] != sorted[j] by {
                assert(keys[order@[i] as int] == Some(entries[order@[i] as int].0@));
                assert(keys[order@[j] as int] == Some(entries[order@[j] as int].0@));
                assert(order@[i] != order@[j]);
            }
            let l = sorted.to_set();
            let r = names_of(entries).to_set();
            assert forall|text: Seq<char>| l.contains(text) <==> r.contains(text) by {
                if sorted.contains(text) {
                    let i = choose|i: int| 0 <= i < sorted.len() && sorted[i] == text;
                    assert(names_of(entries)[order@[i] as int] == text);
                }
                if names_of(entries).contains(text) {
                    let p = choose|p: int| 0 <= p < entries.len() && names_of(entries)[p] == text;
                    assert(crate::order::listed_in(order@, p));
                    let i = choose|i: int| 0 <= i < order@.len() && order@[i] == p;
                    assert(sorted[i] == text);
                }
            }
            assert(l =~= r);
        }
        frozen
    }
}

impl<T> FrozenIdGenerator<T> {
    /// The keys, in ascending order.
    pub closed spec fn names(&self) -> Seq<Seq<char>> {
        Seq::new(self.names@.len(), |i: int| self.names@[i]@)
    }

    #[verifier::type_invariant]
    spec fn keys_ascend(&self) -> bool {
        ascending(self.names())
    }
}

impl<T: From<u64>> FrozenIdGenerator<T> {

    /// The number of keys.
    pub fn len(&self) -> (n: usize)
        ensures
            n == self.names().len(),
    {
        self.names.len()
    }

    /// The key with the identifier `id`.
    pub fn name(&self, id: usize) -> (name: &String)
        requires
            id < self.names().len(),
        ensures
            name@ == self.names()[id as int],
    {
        &self.names[id]
    }

    /// The position of `name` among the keys, found by halving the range it may stand in.
    pub fn position(&self, name: &str) -> (found: Option<usize>)
        ensures
            match found {
                Some(at) => at < self.names().len() && self.names()[at as int] == name@,
                None => !self.names().contains(name@),
            },
    {
        proof {
            use_type_invariant(self);
        }
        let probe = chars_of(name);
        let ghost all = self.names();
        let mut low: usize = 0;
        let mut high: usize = self.names.len();
        while low < high
            invariant
                low <= high <= self.names@.len(),
                all == self.names(),
                ascending(all),
                probe@ == name@,
                forall|i: int| 0 <= i < low ==> #[trigger] all[i] != name@ && lex_le(all[i], name@),
                forall|i: int| high <= i < all.len() ==> #[trigger] all[i] != name@ && lex_le(name@, all[i]),
            decreases high - low,
        {
            let mid = low + (high - low) / 2;
            let here = chars_of(self.names[mid].as_str());
            assert(here@ == all[mid as int]);
            let below = text_le(&here, &probe);
            let above = text_le(&probe, &here);
            if below && above {
                proof {
                    lemma_lex_antisymmetric(here@, probe@);
                }
                return Some(mid);
            }
            if below {
                proof {
                    assert forall|i: int| 0 <= i < mid + 1 implies #[trigger] all[i] != name@ && lex_le(
                        all[i],
                        name@,
                    ) by {
                        if i < mid {
                            lemma_lex_transitive(all[i], all[mid as int], name@);
                            if all[i] == name@ {
                                lemma_lex_antisymmetric(all[i], all[mid as int]);
                            }
                        }
                    }
                }
                low = mid + 1;
            } else {
                proof {
                    lemma_lex_total(here@, probe@);
                    assert forall|i: int| mid <= i < all.len() implies #[trigger] all[i] != name@
                        && lex_le(name@, all[i]) by {
                        if i > mid {
                            lemma_lex_transitive(name@, all[mid as int], all[i]);
                            if all[i] == name@ {
                                lemma_lex_antisymmetric(all[i], all[mid as int]);
                            }
                        }
                    }
                }
                high = mid;
            }
        }
        None
    }

    /// The identifier of `name`: its position among the keys.
    pub fn get(&self, name: &String) -> (id: T)
        requires
            self.names().contains(name@),
        ensures
            T::obeys_from_spec() ==> exists|at: int|
                0 <= at < self.names().len() && self.names()[at] == name@ && id == T::from_spec(
                    at as u64,
                ),
    {
        match self.position(name.as_str()) {
            Some(at) => T::from(at as u64),
            None => {
                proof {
                    assert(false);
                }
                T::from(0)
            },
        }
    }
}

/// Identifiers depend on the set of keys alone: two ascending sequences of the same strings
/// are one sequence.
pub proof fn lemma_same_keys_same_identifiers(a: Seq<Seq<char>>, b: Seq<Seq<char>>)
    requires
        ascending(a),
        ascending(b),
        a.to_set() == b.to_set(),
    ensures
        a == b,
    decreases a.len(),
{
    if a.len() == 0 {
        if b.len() > 0 {
            assert(b.contains(b[0]));
            assert(b.to_set().contains(b[0]));
            assert(a.to_set().contains(b[0]));
            assert(a.contains(b[0]));
        }
        assert(a =~= b);
    } else {
        let top = a.last();
        assert(a.contains(top));
        assert(a.to_set().contains(top));
        assert(b.to_set().contains(top));
        assert(b.contains(top));
        let j = choose|j: int| 0 <= j < b.len() && b[j] == top;
        let other = b.last();
        assert(b.contains(other));
        assert(b.to_set().contains(other));
        assert(a.to_set().contains(other));
        assert(a.contains(other));
        let i = choose|i: int| 0 <= i < a.len() && a[i] == other;
        if i < a.len() - 1 && j < b.len() - 1 {
            assert(lex_le(a[i], a[a.len() - 1]));
            assert(lex_le(b[j], b[b.len() - 1]));
            lemma_lex_antisymmetric(top, other);
        }
        assert(top == other);
        let x = a.drop_last();
        let y = b.drop_last();
        assert forall|text: Seq<char>| x.to_set().contains(text) <==> y.to_set().contains(text) by {
            if x.contains(text) {
                let k = choose|k: int| 0 <= k < x.len() && x[k] == text;
                assert(a[k] == text);
                assert(a[k] != a[a.len() - 1]);
                assert(a.contains(text));
                assert(a.to_set().contains(text));
                assert(b.to_set().contains(text));
                assert(b.contains(text));
                let m = choose|m: int| 0 <= m < b.len() && b[m] == text;
                assert(m < b.len() - 1);
                assert(y[m] == text);
            }
            if y.contains(text) {
                let k = choose|k: int| 0 <= k < y.len() && y[k] == text;
                assert(b[k] == text);
                assert(b[k] != b[b.len() - 1]);
                assert(b.contains(text));
                assert(b.to_set().contains(text));
                assert(a.to_set().contains(text));
                assert(a.contains(text));
                let m = choose|m: int| 0 <= m < a.len() && a[m] == text;
                assert(m < a.len() - 1);
                assert(x[m] == text);
            }
        }
        assert(x.to_set() =~= y.to_set());
        assert forall|p: int, q: int| 0 <= p < q < x.len() implies lex_le(
            #[trigger] x[p],
            #[trigger] x[q],
        ) && x[p] != x[q] by {
            assert(x[p] == a[p] && x[q] == a[q]);
        }
        assert forall|p: int, q: int| 0 <= p < q < y.len() implies lex_le(
            #[trigger] y[p],
            #[trigger] y[q],
        ) && y[p] != y[q] by {
            assert(y[p] == b[p] && y[q] == b[q]);
        }
        lemma_same_keys_same_identifiers(x, y);
        assert(a =~= x.push(top));
        assert(b =~= y.push(other));
    }
}

} // verus!
