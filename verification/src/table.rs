use rustc_hash::FxHashMap;
use vstd::prelude::*;

verus! {

/// The hasher of `rustc_hash`, which makes a `std::collections::HashMap` an `FxHashMap`.
#[verifier::external_type_specification]
#[verifier::external_body]
pub struct ExFxBuildHasher(rustc_hash::FxBuildHasher);

/// What an `FxHashMap` from names to positions holds: the position under each name, a name
/// being its sequence of characters.
pub uninterp spec fn index_entries(index: FxHashMap<String, usize>) -> Map<Seq<char>, usize>;

/// `FxHashMap::default` (that is `HashMap::default` with the hasher of `rustc_hash`): the new
/// map holds nothing.
#[verifier::external_body]
fn index_new() -> (index: FxHashMap<String, usize>)
    ensures
        (index_entries(index) == Map::<Seq<char>, usize>::empty()),
{
    FxHashMap::default()
}

/// `HashMap::insert` on an `FxHashMap`: afterwards the map sends `key` to `at`, whether or not
/// it held `key` before, and every other name to what it was sent to before. Two strings are
/// one key where they hold the same characters.
#[verifier::external_body]
fn index_insert(index: &mut FxHashMap<String, usize>, key: String, at: usize)
    ensures
        index_entries(*final(index)) == index_entries(*old(index)).insert(key@, at),
{
    index.insert(key, at);
}

/// `HashMap::get` on an `FxHashMap`: the position that the map sends `key` to, or `None` where
/// it does not hold `key`.
#[verifier::external_body]
fn index_get(index: &FxHashMap<String, usize>, key: &str) -> (at: Option<usize>)
    ensures
        at == (if index_entries(*index).contains_key(key@) {
            Some(index_entries(*index)[key@])
        } else {
            None
        }),
{
    index.get(key).copied()
}

/// Entries under distinct names, kept in the order in which the names first came. A hash map
/// from each name to its position finds an entry again.
#[derive(Debug)]
pub struct Table<T> {
    index: FxHashMap<String, usize>,
    entries: Vec<(String, T)>,
}

/// Whether no two entries of `entries` stand under the same name.
pub open spec fn distinct_names<T>(entries: Seq<(String, T)>) -> bool {
    forall|i: int, j: int|
        0 <= i < entries.len() && 0 <= j < entries.len() && i != j ==> (#[trigger] entries[i]).0@
            != (#[trigger] entries[j]).0@
}

/// The position of the entry under `name`, if there is one.
pub open spec fn position_of<T>(entries: Seq<(String, T)>, name: Seq<char>) -> Option<int> {
    if exists|i: int| 0 <= i < entries.len() && (#[trigger] entries[i]).0@ == name {
        Some(choose|i: int| 0 <= i < entries.len() && (#[trigger] entries[i]).0@ == name)
    } else {
        None
    }
}

impl<T> Table<T> {
    /// The hash map sends the name of each entry to the position of that entry, and holds no
    /// other name.
    pub closed spec fn wf(&self) -> bool {
        &&& forall|i: int|
            0 <= i < self.entries@.len() ==> index_entries(self.index).contains_key(
                (#[trigger] self.entries@[i]).0@,
            ) && index_entries(self.index)[self.entries@[i].0@] == i
        &&& forall|name: Seq<char>| #[trigger]
            index_entries(self.index).contains_key(name) ==> index_entries(self.index)[name]
                < self.entries@.len() && self.entries@[index_entries(self.index)[name] as int].0@
                == name
    }

    /// The entries, in the order in which their names first came.
    pub closed spec fn entries(&self) -> Seq<(String, T)> {
        self.entries@
    }

    /// No name stands twice in a well-formed table.
    pub proof fn lemma_distinct(self)
        requires
            self.wf(),
        ensures
            distinct_names(self.entries()),
    {
    }

    /// A table without entries.
    pub fn new() -> (table: Table<T>)
        ensures
            table.wf(),
            table.entries().len() == 0,
    {
        Table { index: index_new(), entries: Vec::new() }
    }

    /// The number of entries.
    pub fn len(&self) -> (n: usize)
        ensures
            n == self.entries().len(),
    {
        self.entries.len()
    }

    /// The position of the entry under `name`.
    pub fn find(&self, name: &str) -> (at: Option<usize>)
        requires
            self.wf(),
        ensures
            match at {
                Some(i) => i < self.entries().len() && self.entries()[i as int].0@ == name@,
                None => forall|i: int|
                    0 <= i < self.entries().len() ==> (#[trigger] self.entries()[i]).0@ != name@,
            },
    {
        index_get(&self.index, name)
    }

    /// The name of the entry at `at`.
    pub fn name_at(&self, at: usize) -> (name: &String)
        requires
            at < self.entries().len(),
        ensures
            *name == self.entries()[at as int].0,
    {
        &self.entries[at].0
    }

    /// What stands at `at`.
    pub fn value_at(&self, at: usize) -> (value: &T)
        requires
            at < self.entries().len(),
        ensures
            *value == self.entries()[at as int].1,
    {
        &self.entries[at].1
    }

    /// What stands under `name`.
    pub fn get(&self, name: &str) -> (value: Option<&T>)
        requires
            self.wf(),
        ensures
            match value {
                Some(v) => exists|i: int|
                    0 <= i < self.entries().len() && (#[trigger] self.entries()[i]).0@ == name@
                        && self.entries()[i].1 == *v,
                None => forall|i: int|
                    0 <= i < self.entries().len() ==> (#[trigger] self.entries()[i]).0@ != name@,
            },
    {
        match self.find(name) {
            Some(at) => Some(&self.entries[at].1),
            None => None,
        }
    }

    /// Puts `value` under `name`. Where the name is new, the entry goes to the end; where it
    /// stands already, the new value takes the place of the old one.
    pub fn insert(&mut self, name: String, value: T)
        requires
            old(self).wf(),
        ensures
            final(self).wf(),
            match position_of(old(self).entries(), name@) {
                Some(at) => final(self).entries() == old(self).entries().update(
                    at,
                    (final(self).entries()[at].0, value),
                ) && final(self).entries()[at].0@ == name@,
                None => final(self).entries() == old(self).entries().push((name, value)),
            },
    {
        match index_get(&self.index, name.as_str()) {
            Some(at) => {
                let ghost before = self.entries@;
                assert(before[at as int].0@ == name@);
                assert(position_of(before, name@) == Some(at as int)) by {
                    let p = choose|i: int| 0 <= i < before.len() && (#[trigger] before[i]).0@ == name@;
                    assert(index_entries(self.index)[before[p].0@] == p);
                }
                self.entries.set(at, (name, value));
                assert(self.entries@ =~= before.update(at as int, (self.entries@[at as int].0, value)));
            },
            None => {
                let ghost before = self.entries@;
                let at = self.entries.len();
                let copy = name.clone();
                self.entries.push((name, value));
                index_insert(&mut self.index, copy, at);
                assert(position_of(before, name@) is None);
            },
        }
    }
}

/// The position of the entry of `bucket` under `key`.
pub open spec fn slot_of<V>(bucket: Seq<(Seq<char>, V)>, key: Seq<char>) -> Option<int> {
    if exists|i: int| 0 <= i < bucket.len() && (#[trigger] bucket[i]).0 == key {
        Some(choose|i: int| 0 <= i < bucket.len() && (#[trigger] bucket[i]).0 == key)
    } else {
        None
    }
}

/// `bucket` with `value` under `key`: in the place of the entry that stood under `key`, or at
/// the end where none did.
pub open spec fn put<V>(bucket: Seq<(Seq<char>, V)>, key: Seq<char>, value: V) -> Seq<
    (Seq<char>, V),
> {
    match slot_of(bucket, key) {
        Some(at) => bucket.update(at, (key, value)),
        None => bucket.push((key, value)),
    }
}

/// The entries of a table, seen through the views of the names and of the values.
pub open spec fn table_view<T: View>(entries: Seq<(String, T)>) -> Seq<(Seq<char>, T::V)> {
    Seq::new(entries.len(), |i: int| (entries[i].0@, entries[i].1@))
}

/// Putting a value into a table of distinct names is [`put`] on the views.
pub proof fn lemma_insert_is_put<T: View>(
    before: Seq<(String, T)>,
    after: Seq<(String, T)>,
    name: Seq<char>,
    value: T::V,
)
    requires
        distinct_names(before),
        match position_of(before, name) {
            Some(at) => after.len() == before.len() && after[at].0@ == name && after[at].1@
                == value && forall|i: int|
                0 <= i < before.len() && i != at ==> after[i] == before[i],
            None => after.len() == before.len() + 1 && after.last().0@ == name && after.last().1@
                == value && forall|i: int| 0 <= i < before.len() ==> after[i] == before[i],
        },
    ensures
        table_view(after) == put(table_view(before), name, value),
{
    let old_view = table_view(before);
    match position_of(before, name) {
        Some(at) => {
            assert(old_view[at].0 == name);
            let c = slot_of(old_view, name)->Some_0;
            assert(before[c].0@ == name);
            assert(c == at);
            assert(table_view(after) =~= old_view.update(at, (name, value)));
        },
        None => {
            if exists|i: int| 0 <= i < old_view.len() && (#[trigger] old_view[i]).0 == name {
                let i = choose|i: int| 0 <= i < old_view.len() && (#[trigger] old_view[i]).0 == name;
                assert(before[i].0@ == name);
            }
            assert(table_view(after) =~= old_view.push((name, value)));
        },
    }
}

/// The names of the entries of a table, in its order.
pub open spec fn names_of<T>(entries: Seq<(String, T)>) -> Seq<Seq<char>> {
    Seq::new(entries.len(), |i: int| entries[i].0@)
}

/// Putting a value under a name adds the name to the names of the table, and no other.
pub proof fn lemma_insert_adds_name<T>(
    before: Seq<(String, T)>,
    after: Seq<(String, T)>,
    name: Seq<char>,
)
    requires
        match position_of(before, name) {
            Some(at) => after.len() == before.len() && after[at].0@ == name && forall|i: int|
                0 <= i < before.len() && i != at ==> after[i] == before[i],
            None => after.len() == before.len() + 1 && after.last().0@ == name && forall|i: int|
                0 <= i < before.len() ==> after[i] == before[i],
        },
    ensures
        names_of(after).to_set() == names_of(before).to_set().insert(name),
{
    let l = names_of(after).to_set();
    let r = names_of(before).to_set().insert(name);
    assert forall|text: Seq<char>| l.contains(text) <==> r.contains(text) by {
        if l.contains(text) {
            let i = choose|i: int| 0 <= i < after.len() && names_of(after)[i] == text;
            if text != name {
                assert(i < before.len());
                assert(before[i] == after[i]);
                assert(names_of(before)[i] == text);
            }
        }
        if names_of(before).contains(text) {
            let i = choose|i: int| 0 <= i < before.len() && names_of(before)[i] == text;
            if text != name {
                assert(after[i] == before[i]);
            }
            assert(names_of(after)[i] == text);
        } else if text == name {
            match position_of(before, name) {
                Some(at) => {
                    assert(names_of(after)[at] == text);
                },
                None => {
                    assert(names_of(after)[after.len() - 1] == text);
                },
            }
        }
    }
    assert(l =~= r);
}

} // verus!
