use crate::id_generator::{ascending, FrozenIdGenerator, IdGenerator};
use crate::order::{
    labels_view, lemma_lex_antisymmetric, lemma_lex_total, lemma_lex_transitive, lex_le,
    sorted_positions, sorts, text_le,
};
use crate::text::chars_of;
use crate::records::ItemSubgroup;
use crate::root::{Groupable, Root};
use crate::table::Table;
use vstd::prelude::*;
use vstd::std_specs::convert::FromSpecImpl;
use vstd::string::StringExecFns;

verus! {

/// The identifier of an item: its position among the natural keys of the items, in ascending
/// order.
#[derive(Clone, Copy, Debug, Default, Eq, PartialEq, PartialOrd, Ord, Hash)]
pub struct ItemId(pub u64);

/// The identifier of a fluid.
#[derive(Clone, Copy, Debug, Default, Eq, PartialEq, PartialOrd, Ord, Hash)]
pub struct FluidId(pub u64);

/// The identifier of a recipe.
#[derive(Clone, Copy, Debug, Default, Eq, PartialEq, PartialOrd, Ord, Hash)]
pub struct RecipeId(pub u64);

impl From<u64> for ItemId {
    fn from(u: u64) -> (id: Self) {
        ItemId(u)
    }
}

impl FromSpecImpl<u64> for ItemId {
    open spec fn obeys_from_spec() -> bool {
        true
    }

    open spec fn from_spec(u: u64) -> Self {
        ItemId(u)
    }
}

impl From<u64> for FluidId {
    fn from(u: u64) -> (id: Self) {
        FluidId(u)
    }
}

impl FromSpecImpl<u64> for FluidId {
    open spec fn obeys_from_spec() -> bool {
        true
    }

    open spec fn from_spec(u: u64) -> Self {
        FluidId(u)
    }
}

impl From<u64> for RecipeId {
    fn from(u: u64) -> (id: Self) {
        RecipeId(u)
    }
}

impl FromSpecImpl<u64> for RecipeId {
    open spec fn obeys_from_spec() -> bool {
        true
    }

    open spec fn from_spec(u: u64) -> Self {
        RecipeId(u)
    }
}

/// An item of the model.
#[derive(Clone, Debug, Default)]
pub struct Item {
    pub id: ItemId,
    pub name: String,
}

/// A fluid of the model.
#[derive(Clone, Debug, Default)]
pub struct Fluid {
    pub id: FluidId,
    pub name: String,
}

/// A recipe of the model.
#[derive(Clone, Debug, Default)]
pub struct Recipe {
    pub id: RecipeId,
    pub name: String,
}

/// One row of a tab of the selector: a subgroup with what belongs to it.
#[derive(Debug, Default)]
pub struct GroupRow {
    pub name: String,
    pub order: String,
    pub items: Vec<ItemId>,
    pub fluids: Vec<FluidId>,
    pub recipes: Vec<RecipeId>,
}

/// One tab of the selector: a group with its rows.
#[derive(Debug)]
pub struct Group {
    pub name: String,
    pub order: String,
    pub rows: Vec<GroupRow>,
}

/// The model that is built from one dump. The record with the identifier `i` stands at
/// position `i` of its collection, and the names of a collection ascend.
#[derive(Debug)]
pub struct Preset {
    pub name: String,
    pub groups: Vec<Group>,
    pub items: Vec<Item>,
    pub fluids: Vec<Fluid>,
    pub recipes: Vec<Recipe>,
}

/// The positions, among the first `upto` entries of `table`, of the records of the subgroup
/// `subgroup`, in ascending order.
pub open spec fn members_of<T: Groupable>(
    table: Seq<(String, T)>,
    subgroup: Seq<char>,
    upto: int,
) -> Seq<int>
    decreases upto,
{
    if upto <= 0 {
        Seq::empty()
    } else if table[upto - 1].1.subgroup_of() == Some(subgroup) {
        members_of(table, subgroup, upto - 1).push(upto - 1)
    } else {
        members_of(table, subgroup, upto - 1)
    }
}

/// The orders of the records of `table` at the positions `members`.
pub open spec fn orders_at<T: Groupable>(table: Seq<(String, T)>, members: Seq<int>) -> Seq<
    Option<Seq<char>>,
> {
    Seq::new(members.len(), |k: int| table[members[k]].1.order_of())
}

/// Whether `ids` are the identifiers of the records of the subgroup `subgroup` of `table`, in
/// ascending order of the records' orders, records with one order in the order of the table.
/// The identifier of a record is the position of its natural key in `names`.
pub open spec fn arranged<T: Groupable>(
    ids: Seq<u64>,
    table: Seq<(String, T)>,
    names: Seq<Seq<char>>,
    subgroup: Seq<char>,
) -> bool {
    let members = members_of(table, subgroup, table.len() as int);
    exists|order: Seq<usize>|
        {
            &&& #[trigger] sorts(order, orders_at(table, members))
            &&& ids.len() == order.len()
            &&& forall|k: int|
                0 <= k < ids.len() ==> (#[trigger] ids[k]) < names.len() && names[ids[k] as int]
                    == table[members[order[k] as int]].0@
        }
}

/// The names of the entries of a table.
pub open spec fn keys_of<T>(entries: Seq<(String, T)>) -> Seq<Seq<char>> {
    Seq::new(entries.len(), |i: int| entries[i].0@)
}

/// Copies of the natural keys of a table, in its order.
fn keys<T>(table: &Table<T>) -> (out: Vec<String>)
    ensures
        crate::error::texts_view(out@) == keys_of(table.entries()),
{
    let mut out: Vec<String> = Vec::new();
    let mut i: usize = 0;
    while i < table.len()
        invariant
            i <= table.entries().len(),
            out@.len() == i,
            forall|j: int| 0 <= j < i ==> (#[trigger] out@[j])@ == table.entries()[j].0@,
        decreases table.entries().len() - i,
    {
        out.push(table.name_at(i).clone());
        i += 1;
    }
    assert(crate::error::texts_view(out@) =~= keys_of(table.entries()));
    out
}

/// The identifiers of the records of one subgroup, arranged by their orders.
fn arrange<T: Groupable, I: From<u64>>(
    table: &Table<T>,
    names: &FrozenIdGenerator<I>,
    subgroup: &String,
) -> (ids: Vec<u64>)
    requires
        forall|i: int|
            0 <= i < table.entries().len() ==> names.names().contains(
                (#[trigger] table.entries()[i]).0@,
            ),
    ensures
        arranged(ids@, table.entries(), names.names(), subgroup@),
{
    let ghost entries = table.entries();
    let mut members: Vec<usize> = Vec::new();
    let mut labels: Vec<Option<String>> = Vec::new();
    let mut i: usize = 0;
    while i < table.len()
        invariant
            i <= table.entries().len(),
            entries == table.entries(),
            members@.len() == labels@.len(),
            members@.len() == members_of(entries, subgroup@, i as int).len(),
            forall|k: int|
                0 <= k < members@.len() ==> (#[trigger] members@[k]) == members_of(
                    entries,
                    subgroup@,
                    i as int,
                )[k] && members@[k] < i,
            forall|k: int|
                0 <= k < labels@.len() ==> (match #[trigger] labels@[k] {
                    Some(l) => Some(l@),
                    None => None,
                }) == entries[members@[k] as int].1.order_of(),
        decreases table.entries().len() - i,
    {
        let record = table.value_at(i);
        let belongs = match record.subgroup() {
            Some(s) => *s == *subgroup,
            None => false,
        };
        if belongs {
            members.push(i);
            let label = match record.order() {
                Some(o) => Some(o.clone()),
                None => None,
            };
            labels.push(label);
        }
        i += 1;
    }
    let ghost chosen = members_of(entries, subgroup@, entries.len() as int);
    let order = sorted_positions(&labels);
    assert(labels_view(labels@) =~= orders_at(entries, chosen));
    let mut ids: Vec<u64> = Vec::new();
    let mut k: usize = 0;
    while k < order.len()
        invariant
            k <= order.len(),
            entries == table.entries(),
            forall|i: int| 0 <= i < entries.len() ==> names.names().contains((#[trigger] entries[i]).0@),
            chosen.len() == members@.len(),
            forall|j: int| 0 <= j < members@.len() ==> (#[trigger] members@[j]) == chosen[j] && members@[j] < entries.len(),
            sorts(order@, orders_at(entries, chosen)),
            ids@.len() == k,
            forall|j: int|
                0 <= j < k ==> (#[trigger] ids@[j]) < names.names().len() && names.names()[ids@[j] as int]
                    == entries[chosen[order@[j] as int]].0@,
        decreases order.len() - k,
    {
        let at = members[order[k]];
        let name = table.name_at(at);
        match names.position(name.as_str()) {
            Some(p) => {
                ids.push(p as u64);
            },
            None => {
                proof {
                    assert(names.names().contains(entries[at as int].0@));
                    assert(false);
                }
            },
        }
        k += 1;
    }
    proof {
        assert(sorts(order@, orders_at(entries, chosen)));
    }
    ids
}

/// The numbers of a sequence of item identifiers.
pub open spec fn item_numbers(ids: Seq<ItemId>) -> Seq<u64> {
    Seq::new(ids.len(), |k: int| ids[k].0)
}

/// The numbers of a sequence of fluid identifiers.
pub open spec fn fluid_numbers(ids: Seq<FluidId>) -> Seq<u64> {
    Seq::new(ids.len(), |k: int| ids[k].0)
}

/// The numbers of a sequence of recipe identifiers.
pub open spec fn recipe_numbers(ids: Seq<RecipeId>) -> Seq<u64> {
    Seq::new(ids.len(), |k: int| ids[k].0)
}

/// The three lists of natural keys, each in ascending order, that identifiers are positions
/// in.
pub struct Names {
    pub items: Seq<Seq<char>>,
    pub fluids: Seq<Seq<char>>,
    pub recipes: Seq<Seq<char>>,
}

/// Whether `row` is the row of the subgroup at `at`: its name is the natural key of the
/// subgroup, and its items, fluids and recipes are those of the subgroup, arranged by their
/// orders.
pub open spec fn is_row(row: GroupRow, root: Root, names: Names, at: int) -> bool {
    &&& row.name@ == root.item_subgroup.entries()[at].0@
    &&& row.order@ == root.item_subgroup.entries()[at].1.order@
    &&& arranged(item_numbers(row.items@), root.item.entries(), names.items, row.name@)
    &&& arranged(fluid_numbers(row.fluids@), root.fluid.entries(), names.fluids, row.name@)
    &&& arranged(recipe_numbers(row.recipes@), root.recipe.entries(), names.recipes, row.name@)
}

/// The positions, among the first `upto` subgroups, of the subgroups of the group `group`.
pub open spec fn rows_of(subgroups: Seq<(String, ItemSubgroup)>, group: Seq<char>, upto: int) -> Seq<
    int,
>
    decreases upto,
{
    if upto <= 0 {
        Seq::empty()
    } else if subgroups[upto - 1].1.group@ == group {
        rows_of(subgroups, group, upto - 1).push(upto - 1)
    } else {
        rows_of(subgroups, group, upto - 1)
    }
}

/// The orders of the subgroups at the positions `chosen`.
pub open spec fn row_orders(subgroups: Seq<(String, ItemSubgroup)>, chosen: Seq<int>) -> Seq<
    Option<Seq<char>>,
> {
    Seq::new(chosen.len(), |k: int| Some(subgroups[chosen[k]].1.order@))
}

/// Whether `group` is the tab of the group at `at`: its name is the natural key of the group,
/// and its rows are the subgroups that name the group, in ascending order of their orders.
pub open spec fn is_group(group: Group, root: Root, names: Names, at: int) -> bool {
    let subgroups = root.item_subgroup.entries();
    let chosen = rows_of(subgroups, group.name@, subgroups.len() as int);
    &&& group.name@ == root.item_group.entries()[at].0@
    &&& group.order@ == root.item_group.entries()[at].1.order@
    &&& exists|order: Seq<usize>|
        {
            &&& #[trigger] sorts(order, row_orders(subgroups, chosen))
            &&& group.rows@.len() == order.len()
            &&& forall|k: int|
                0 <= k < order.len() ==> is_row(
                    #[trigger] group.rows@[k],
                    root,
                    names,
                    chosen[order[k] as int],
                )
        }
}

/// The orders of the groups.
pub open spec fn group_orders(root: Root) -> Seq<Option<Seq<char>>> {
    Seq::new(
        root.item_group.entries().len(),
        |k: int| Some(root.item_group.entries()[k].1.order@),
    )
}

/// Whether `preset` is the model of `root`: each collection holds the natural keys of its
/// category in ascending order, each record with its position as identifier, and the tabs are
/// the groups in ascending order of their orders.
pub open spec fn is_model(preset: Preset, name: Seq<char>, root: Root) -> bool {
    let names = Names {
        items: names_in(preset.items@),
        fluids: names_in(preset.fluids@),
        recipes: names_in(preset.recipes@),
    };
    &&& preset.name@ == name
    &&& ascending(names.items)
    &&& ascending(names.fluids)
    &&& ascending(names.recipes)
    &&& names.items.to_set() == keys_of(root.item.entries()).to_set()
    &&& names.fluids.to_set() == keys_of(root.fluid.entries()).to_set()
    &&& names.recipes.to_set() == keys_of(root.recipe.entries()).to_set()
    &&& forall|i: int| 0 <= i < preset.items@.len() ==> (#[trigger] preset.items@[i]).id.0 == i
    &&& forall|i: int| 0 <= i < preset.fluids@.len() ==> (#[trigger] preset.fluids@[i]).id.0 == i
    &&& forall|i: int| 0 <= i < preset.recipes@.len() ==> (#[trigger] preset.recipes@[i]).id.0 == i
    &&& exists|order: Seq<usize>|
        {
            &&& #[trigger] sorts(order, group_orders(root))
            &&& preset.groups@.len() == order.len()
            &&& forall|k: int|
                0 <= k < order.len() ==> is_group(
                    #[trigger] preset.groups@[k],
                    root,
                    names,
                    order[k] as int,
                )
        }
}

fn item_ids(numbers: Vec<u64>) -> (ids: Vec<ItemId>)
    ensures
        item_numbers(ids@) == numbers@,
{
    let mut ids: Vec<ItemId> = Vec::new();
    let mut i: usize = 0;
    while i < numbers.len()
        invariant
            i <= numbers.len(),
            ids@.len() == i,
            forall|j: int| 0 <= j < i ==> (#[trigger] ids@[j]).0 == numbers@[j],
        decreases numbers.len() - i,
    {
        ids.push(ItemId(numbers[i]));
        i += 1;
    }
    assert(item_numbers(ids@) =~= numbers@);
    ids
}

fn fluid_ids(numbers: Vec<u64>) -> (ids: Vec<FluidId>)
    ensures
        fluid_numbers(ids@) == numbers@,
{
    let mut ids: Vec<FluidId> = Vec::new();
    let mut i: usize = 0;
    while i < numbers.len()
        invariant
            i <= numbers.len(),
            ids@.len() == i,
            forall|j: int| 0 <= j < i ==> (#[trigger] ids@[j]).0 == numbers@[j],
        decreases numbers.len() - i,
    {
        ids.push(FluidId(numbers[i]));
        i += 1;
    }
    assert(fluid_numbers(ids@) =~= numbers@);
    ids
}

fn recipe_ids(numbers: Vec<u64>) -> (ids: Vec<RecipeId>)
    ensures
        recipe_numbers(ids@) == numbers@,
{
    let mut ids: Vec<RecipeId> = Vec::new();
    let mut i: usize = 0;
    while i < numbers.len()
        invariant
            i <= numbers.len(),
            ids@.len() == i,
            forall|j: int| 0 <= j < i ==> (#[trigger] ids@[j]).0 == numbers@[j],
        decreases numbers.len() - i,
    {
        ids.push(RecipeId(numbers[i]));
        i += 1;
    }
    assert(recipe_numbers(ids@) =~= numbers@);
    ids
}

/// The generators of the three categories, frozen.
#[derive(Debug)]
pub struct Interned {
    pub items: FrozenIdGenerator<ItemId>,
    pub fluids: FrozenIdGenerator<FluidId>,
    pub recipes: FrozenIdGenerator<RecipeId>,
}

impl Interned {
    /// The keys of the three generators.
    pub open spec fn names(&self) -> Names {
        Names {
            items: self.items.names(),
            fluids: self.fluids.names(),
            recipes: self.recipes.names(),
        }
    }

    /// Whether the generators hold the natural keys of `root`.
    pub open spec fn covers(&self, root: Root) -> bool {
        &&& ascending(self.items.names())
        &&& ascending(self.fluids.names())
        &&& ascending(self.recipes.names())
        &&& self.items.names().to_set() == keys_of(root.item.entries()).to_set()
        &&& self.fluids.names().to_set() == keys_of(root.fluid.entries()).to_set()
        &&& self.recipes.names().to_set() == keys_of(root.recipe.entries()).to_set()
    }
}

/// Every natural key of a table stands among names that have the set of the keys.
pub proof fn lemma_keys_are_named<T>(entries: Seq<(String, T)>, names: Seq<Seq<char>>)
    requires
        names.to_set() == keys_of(entries).to_set(),
    ensures
        forall|i: int| 0 <= i < entries.len() ==> names.contains((#[trigger] entries[i]).0@),
{
    assert forall|i: int| 0 <= i < entries.len() implies names.contains((#[trigger] entries[i]).0@) by {
        assert(keys_of(entries)[i] == entries[i].0@);
        assert(keys_of(entries).to_set().contains(entries[i].0@));
        assert(names.to_set().contains(entries[i].0@));
    }
}

/// The row of the subgroup at `at`.
fn build_row(root: &Root, interned: &Interned, at: usize) -> (row: GroupRow)
    requires
        interned.covers(*root),
        at < root.item_subgroup.entries().len(),
    ensures
        is_row(row, *root, interned.names(), at as int),
{
    proof {
        lemma_keys_are_named(root.item.entries(), interned.items.names());
        lemma_keys_are_named(root.fluid.entries(), interned.fluids.names());
        lemma_keys_are_named(root.recipe.entries(), interned.recipes.names());
    }
    let name = root.item_subgroup.name_at(at).clone();
    let order = root.item_subgroup.value_at(at).order.clone();
    let items = item_ids(arrange(&root.item, &interned.items, &name));
    let fluids = fluid_ids(arrange(&root.fluid, &interned.fluids, &name));
    let recipes = recipe_ids(arrange(&root.recipe, &interned.recipes, &name));
    GroupRow { name, order, items, fluids, recipes }
}

/// The tab of the group at `at`.
fn build_group(root: &Root, interned: &Interned, at: usize) -> (group: Group)
    requires
        interned.covers(*root),
        at < root.item_group.entries().len(),
    ensures
        is_group(group, *root, interned.names(), at as int),
{
    let ghost subgroups = root.item_subgroup.entries();
    let name = root.item_group.name_at(at).clone();
    let order = root.item_group.value_at(at).order.clone();
    let mut chosen: Vec<usize> = Vec::new();
    let mut labels: Vec<Option<String>> = Vec::new();
    let mut i: usize = 0;
    while i < root.item_subgroup.len()
        invariant
            i <= root.item_subgroup.entries().len(),
            subgroups == root.item_subgroup.entries(),
            chosen@.len() == labels@.len(),
            chosen@.len() == rows_of(subgroups, name@, i as int).len(),
            forall|k: int|
                0 <= k < chosen@.len() ==> (#[trigger] chosen@[k]) == rows_of(
                    subgroups,
                    name@,
                    i as int,
                )[k] && chosen@[k] < i,
            forall|k: int|
                0 <= k < labels@.len() ==> ((#[trigger] labels@[k]) matches Some(l) && l@
                    == subgroups[chosen@[k] as int].1.order@),
        decreases root.item_subgroup.entries().len() - i,
    {
        let subgroup = root.item_subgroup.value_at(i);
        if subgroup.group == name {
            chosen.push(i);
            labels.push(Some(subgroup.order.clone()));
        }
        i += 1;
    }
    let ghost picked = rows_of(subgroups, name@, subgroups.len() as int);
    let sorted = sorted_positions(&labels);
    assert(labels_view(labels@) =~= row_orders(subgroups, picked));
    let mut rows: Vec<GroupRow> = Vec::new();
    let mut k: usize = 0;
    while k < sorted.len()
        invariant
            k <= sorted.len(),
            interned.covers(*root),
            subgroups == root.item_subgroup.entries(),
            picked.len() == chosen@.len(),
            forall|j: int|
                0 <= j < chosen@.len() ==> (#[trigger] chosen@[j]) == picked[j] && chosen@[j]
                    < subgroups.len(),
            sorts(sorted@, row_orders(subgroups, picked)),
            rows@.len() == k,
            forall|j: int|
                0 <= j < k ==> is_row(
                    #[trigger] rows@[j],
                    *root,
                    interned.names(),
                    picked[sorted@[j] as int],
                ),
        decreases sorted.len() - k,
    {
        let at_row = chosen[sorted[k]];
        let row = build_row(root, interned, at_row);
        rows.push(row);
        k += 1;
    }
    let group = Group { name, order, rows };
    proof {
        assert(sorts(sorted@, row_orders(subgroups, picked)));
    }
    group
}

impl Preset {
    /// Gives every natural key of the items, the fluids and the recipes its identifier.
    pub fn intern(root: &Root) -> (interned: Interned)
        ensures
            interned.covers(*root),
    {
        let items = IdGenerator::<ItemId>::from_iter(keys(&root.item));
        let fluids = IdGenerator::<FluidId>::from_iter(keys(&root.fluid));
        let recipes = IdGenerator::<RecipeId>::from_iter(keys(&root.recipe));
        Interned { items, fluids, recipes }
    }

    /// Builds the model called `name` from the records of a dump.
    pub fn build(name: &str, root: &Root) -> (preset: Preset)
        ensures
            is_model(preset, name@, *root),
    {
        let interned = Preset::intern(root);
        let mut items: Vec<Item> = Vec::new();
        let mut i: usize = 0;
        while i < interned.items.len()
            invariant
                i <= interned.items.names().len(),
                items@.len() == i,
                forall|j: int|
                    0 <= j < i ==> (#[trigger] items@[j]).id.0 == j && items@[j].name@
                        == interned.items.names()[j],
            decreases interned.items.names().len() - i,
        {
            items.push(Item { id: ItemId(i as u64), name: interned.items.name(i).clone() });
            i += 1;
        }
        let mut fluids: Vec<Fluid> = Vec::new();
        let mut i: usize = 0;
        while i < interned.fluids.len()
            invariant
                i <= interned.fluids.names().len(),
                fluids@.len() == i,
                forall|j: int|
                    0 <= j < i ==> (#[trigger] fluids@[j]).id.0 == j && fluids@[j].name@
                        == interned.fluids.names()[j],
            decreases interned.fluids.names().len() - i,
        {
            fluids.push(Fluid { id: FluidId(i as u64), name: interned.fluids.name(i).clone() });
            i += 1;
        }
        let mut recipes: Vec<Recipe> = Vec::new();
        let mut i: usize = 0;
        while i < interned.recipes.len()
            invariant
                i <= interned.recipes.names().len(),
                recipes@.len() == i,
                forall|j: int|
                    0 <= j < i ==> (#[trigger] recipes@[j]).id.0 == j && recipes@[j].name@
                        == interned.recipes.names()[j],
            decreases interned.recipes.names().len() - i,
        {
            recipes.push(Recipe { id: RecipeId(i as u64), name: interned.recipes.name(i).clone() });
            i += 1;
        }
        let mut labels: Vec<Option<String>> = Vec::new();
        let mut g: usize = 0;
        while g < root.item_group.len()
            invariant
                g <= root.item_group.entries().len(),
                labels@.len() == g,
                forall|j: int|
                    0 <= j < g ==> ((#[trigger] labels@[j]) matches Some(l) && l@
                        == root.item_group.entries()[j].1.order@),
            decreases root.item_group.entries().len() - g,
        {
            labels.push(Some(root.item_group.value_at(g).order.clone()));
            g += 1;
        }
        let sorted = sorted_positions(&labels);
        assert(labels_view(labels@) =~= group_orders(*root));
        let mut groups: Vec<Group> = Vec::new();
        let mut k: usize = 0;
        while k < sorted.len()
            invariant
                k <= sorted.len(),
                interned.covers(*root),
                sorts(sorted@, group_orders(*root)),
                groups@.len() == k,
                forall|j: int|
                    0 <= j < k ==> is_group(
                        #[trigger] groups@[j],
                        *root,
                        interned.names(),
                        sorted@[j] as int,
                    ),
            decreases sorted.len() - k,
        {
            let group = build_group(root, &interned, sorted[k]);
            groups.push(group);
            k += 1;
        }
        let preset = Preset { name: String::from_str(name), groups, items, fluids, recipes };
        proof {
            let names = Names {
                items: names_in(preset.items@),
                fluids: names_in(preset.fluids@),
                recipes: names_in(preset.recipes@),
            };
            assert(names.items =~= interned.items.names());
            assert(names.fluids =~= interned.fluids.names());
            assert(names.recipes =~= interned.recipes.names());
            assert(names == interned.names());
            assert(sorts(sorted@, group_orders(*root)));
        }
        preset
    }

    /// The path of the picture of a fluid.
    pub fn icon_for_fluid(&self, fluid: &Fluid) -> (path: String)
        ensures
            path@ == "preset/"@ + self.name@ + "/script-output/fluid/"@ + fluid.name@ + ".png"@,
    {
        let mut path = String::from_str("preset/");
        path.append(self.name.as_str());
        path.append("/script-output/fluid/");
        path.append(fluid.name.as_str());
        path.append(".png");
        path
    }

    /// The path of the picture of an item.
    pub fn icon_for_item(&self, item: &Item) -> (path: String)
        ensures
            path@ == "preset/"@ + self.name@ + "/script-output/item/"@ + item.name@ + ".png"@,
    {
        let mut path = String::from_str("preset/");
        path.append(self.name.as_str());
        path.append("/script-output/item/");
        path.append(item.name.as_str());
        path.append(".png");
        path
    }

    /// The path of the picture of a recipe.
    pub fn icon_for_recipe(&self, recipe: &Recipe) -> (path: String)
        ensures
            path@ == "preset/"@ + self.name@ + "/script-output/recipe/"@ + recipe.name@ + ".png"@,
    {
        let mut path = String::from_str("preset/");
        path.append(self.name.as_str());
        path.append("/script-output/recipe/");
        path.append(recipe.name.as_str());
        path.append(".png");
        path
    }

    /// The path of the picture of a tab.
    pub fn icon_for_tab_group(&self, group: &Group) -> (path: String)
        ensures
            path@ == "preset/"@ + self.name@ + "/script-output/item-group/"@ + group.name@
                + ".png"@,
    {
        let mut path = String::from_str("preset/");
        path.append(self.name.as_str());
        path.append("/script-output/item-group/");
        path.append(group.name.as_str());
        path.append(".png");
        path
    }
}

/// A record of the model, which has a natural key.
pub trait Named {
    spec fn name_model(&self) -> Seq<char>;

    fn name_text(&self) -> (name: &String)
        ensures
            name@ == self.name_model(),
    ;
}

impl Named for Item {
    open spec fn name_model(&self) -> Seq<char> {
        self.name@
    }

    fn name_text(&self) -> (name: &String) {
        &self.name
    }
}

impl Named for Fluid {
    open spec fn name_model(&self) -> Seq<char> {
        self.name@
    }

    fn name_text(&self) -> (name: &String) {
        &self.name
    }
}

impl Named for Recipe {
    open spec fn name_model(&self) -> Seq<char> {
        self.name@
    }

    fn name_text(&self) -> (name: &String) {
        &self.name
    }
}

/// The natural keys of a collection, in its order.
pub open spec fn names_in<R: Named>(records: Seq<R>) -> Seq<Seq<char>> {
    Seq::new(records.len(), |i: int| records[i].name_model())
}

/// The position of the record with the natural key `name`, found by halving the range it may
/// stand in. Where the keys of the collection ascend, as those of a model do, `None` means
/// that no record has the key.
pub fn position_by_name<R: Named>(records: &Vec<R>, name: &str) -> (found: Option<usize>)
    ensures
        match found {
            Some(at) => at < records@.len() && records@[at as int].name_model() == name@,
            None => ascending(names_in(records@)) ==> !names_in(records@).contains(name@),
        },
{
    let probe = chars_of(name);
    let ghost all = names_in(records@);
    let mut low: usize = 0;
    let mut high: usize = records.len();
    while low < high
        invariant
            low <= high <= records@.len(),
            all == names_in(records@),
            probe@ == name@,
            ascending(all) ==> forall|i: int|
                0 <= i < low ==> #[trigger] all[i] != name@ && lex_le(all[i], name@),
            ascending(all) ==> forall|i: int|
                high <= i < all.len() ==> #[trigger] all[i] != name@ && lex_le(name@, all[i]),
        decreases high - low,
    {
        let mid = low + (high - low) / 2;
        let here = chars_of(records[mid].name_text().as_str());
        assert(here@ == all[mid as int]);
        let below = text_le(&here, &probe);
        let above = text_le(&probe, &here);
        if below && above {
            proof {
                lemma_lex_antisymmetric(here@, probe@);
            }
            return Some(mid);
        }
        if below {
            proof {
                if ascending(all) {
                    assert forall|i: int| 0 <= i < mid + 1 implies #[trigger] all[i] != name@
                        && lex_le(all[i], name@) by {
                        if i < mid {
                            lemma_lex_transitive(all[i], all[mid as int], name@);
                            if all[i] == name@ {
                                lemma_lex_antisymmetric(all[i], all[mid as int]);
                            }
                        }
                    }
                }
            }
            low = mid + 1;
        } else {
            proof {
                lemma_lex_total(here@, probe@);
                if ascending(all) {
                    assert forall|i: int| mid <= i < all.len() implies #[trigger] all[i] != name@
                        && lex_le(name@, all[i]) by {
                        if i > mid {
                            lemma_lex_transitive(name@, all[mid as int], all[i]);
                            if all[i] == name@ {
                                lemma_lex_antisymmetric(all[i], all[mid as int]);
                            }
                        }
                    }
                }
            }
            high = mid;
        }
    }
    None
}

impl Preset {
    /// The item with the natural key `name`.
    pub fn item_named(&self, name: &str) -> (found: Option<&Item>)
        ensures
            match found {
                Some(item) => item.name@ == name@ && self.items@.contains(*item),
                None => ascending(names_in(self.items@)) ==> !names_in(self.items@).contains(name@),
            },
    {
        match position_by_name(&self.items, name) {
            Some(at) => Some(&self.items[at]),
            None => None,
        }
    }

    /// The fluid with the natural key `name`.
    pub fn fluid_named(&self, name: &str) -> (found: Option<&Fluid>)
        ensures
            match found {
                Some(fluid) => fluid.name@ == name@ && self.fluids@.contains(*fluid),
                None => ascending(names_in(self.fluids@)) ==> !names_in(self.fluids@).contains(
                    name@,
                ),
            },
    {
        match position_by_name(&self.fluids, name) {
            Some(at) => Some(&self.fluids[at]),
            None => None,
        }
    }

    /// The recipe with the natural key `name`.
    pub fn recipe_named(&self, name: &str) -> (found: Option<&Recipe>)
        ensures
            match found {
                Some(recipe) => recipe.name@ == name@ && self.recipes@.contains(*recipe),
                None => ascending(names_in(self.recipes@)) ==> !names_in(self.recipes@).contains(
                    name@,
                ),
            },
    {
        match position_by_name(&self.recipes, name) {
            Some(at) => Some(&self.recipes[at]),
            None => None,
        }
    }
}

} // verus!
