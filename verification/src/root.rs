use crate::decode::{agrees, Decode};
use crate::error::{
    texts_view, DecodeError, DecodeErrorView, FormatError, FormatErrorView, SchemaViolation,
    SchemaViolationView,
};
use crate::record::wrong_kind;
use crate::records::{Fluid, Item, ItemGroup, ItemSubgroup, Recipe};
use crate::table::{lemma_insert_is_put, put, table_view, Table};
use crate::text::same_text;
use crate::value::{entries_view, JsonValue, RawValue};
use vstd::prelude::*;
use vstd::string::StringExecFns;

verus! {

/// A record that the selector places by group, subgroup and order.
pub trait Groupable {
    spec fn group_of(&self) -> Option<Seq<char>>;

    spec fn subgroup_of(&self) -> Option<Seq<char>>;

    spec fn order_of(&self) -> Option<Seq<char>>;

    fn group(&self) -> (group: Option<&String>)
        ensures
            match group {
                Some(g) => self.group_of() == Some(g@),
                None => self.group_of() is None,
            },
    ;

    fn subgroup(&self) -> (subgroup: Option<&String>)
        ensures
            match subgroup {
                Some(g) => self.subgroup_of() == Some(g@),
                None => self.subgroup_of() is None,
            },
    ;

    fn order(&self) -> (order: Option<&String>)
        ensures
            match order {
                Some(g) => self.order_of() == Some(g@),
                None => self.order_of() is None,
            },
    ;
}

/// A value that carries the key under which a map holds it.
pub trait Keyable<K> {
    fn key(&self) -> K;
}

/// The characters of a string that may be absent.
pub open spec fn text_model(text: Option<String>) -> Option<Seq<char>> {
    match text {
        Some(t) => Some(t@),
        None => None,
    }
}

impl Groupable for Item {
    open spec fn group_of(&self) -> Option<Seq<char>> {
        text_model(self.group)
    }

    open spec fn subgroup_of(&self) -> Option<Seq<char>> {
        text_model(self.subgroup)
    }

    open spec fn order_of(&self) -> Option<Seq<char>> {
        text_model(self.order)
    }

    fn group(&self) -> (group: Option<&String>) {
        self.group.as_ref()
    }

    fn subgroup(&self) -> (subgroup: Option<&String>) {
        self.subgroup.as_ref()
    }

    fn order(&self) -> (order: Option<&String>) {
        self.order.as_ref()
    }
}

impl Groupable for Fluid {
    open spec fn group_of(&self) -> Option<Seq<char>> {
        text_model(self.group)
    }

    open spec fn subgroup_of(&self) -> Option<Seq<char>> {
        text_model(self.subgroup)
    }

    open spec fn order_of(&self) -> Option<Seq<char>> {
        text_model(self.order)
    }

    fn group(&self) -> (group: Option<&String>) {
        self.group.as_ref()
    }

    fn subgroup(&self) -> (subgroup: Option<&String>) {
        self.subgroup.as_ref()
    }

    fn order(&self) -> (order: Option<&String>) {
        self.order.as_ref()
    }
}

impl Groupable for Recipe {
    open spec fn group_of(&self) -> Option<Seq<char>> {
        text_model(self.group)
    }

    open spec fn subgroup_of(&self) -> Option<Seq<char>> {
        text_model(self.subgroup)
    }

    open spec fn order_of(&self) -> Option<Seq<char>> {
        text_model(self.order)
    }

    fn group(&self) -> (group: Option<&String>) {
        self.group.as_ref()
    }

    fn subgroup(&self) -> (subgroup: Option<&String>) {
        self.subgroup.as_ref()
    }

    fn order(&self) -> (order: Option<&String>) {
        self.order.as_ref()
    }
}

/// What the first `upto` entries of a category decode to: each record under its natural key,
/// the later of two records under one key in the place of the earlier. The first record that
/// fails is the outcome.
pub open spec fn records_decoded<T: Decode>(entries: Seq<(Seq<char>, JsonValue)>, upto: int) -> Result<
    Seq<(Seq<char>, T::V)>,
    DecodeErrorView,
>
    decreases upto,
{
    if upto <= 0 {
        Ok(Seq::empty())
    } else {
        match records_decoded::<T>(entries, upto - 1) {
            Err(e) => Err(e),
            Ok(before) => match T::decoded(entries[upto - 1].1) {
                Ok(record) => Ok(put(before, entries[upto - 1].0, record)),
                Err(e) => Err(e),
            },
        }
    }
}

/// What a category of the dump decodes to: a map from natural key to record.
pub open spec fn category_decoded<T: Decode>(value: JsonValue) -> Result<
    Seq<(Seq<char>, T::V)>,
    DecodeErrorView,
> {
    match value {
        JsonValue::Object(entries) => records_decoded::<T>(entries, entries.len() as int),
        other => Err(wrong_kind(other)),
    }
}

/// Once a record has been refused, the outcome is that failure however many records follow.
pub proof fn lemma_records_failure_stays<T: Decode>(
    entries: Seq<(Seq<char>, JsonValue)>,
    at: int,
    upto: int,
)
    requires
        0 <= at <= upto,
        records_decoded::<T>(entries, at) is Err,
    ensures
        records_decoded::<T>(entries, upto) == records_decoded::<T>(entries, at),
    decreases upto - at,
{
    if at < upto {
        lemma_records_failure_stays::<T>(entries, at, upto - 1);
    }
}

/// Decodes one category of the dump.
pub fn decode_category<T: Decode>(value: &RawValue) -> (got: Result<Table<T>, DecodeError>)
    ensures
        match got {
            Ok(table) => table.wf() && category_decoded::<T>(value@) == Ok::<
                Seq<(Seq<char>, T::V)>,
                DecodeErrorView,
            >(table_view(table.entries())),
            Err(e) => category_decoded::<T>(value@) == Err::<Seq<(Seq<char>, T::V)>, DecodeErrorView>(
                e@,
            ),
        },
{
    let entries = match value {
        RawValue::Object(entries) => entries,
        other => {
            return Err(DecodeError::Format(FormatError::UnexpectedKind(other.kind())));
        },
    };
    proof {
        RawValue::lemma_object_view(*entries);
    }
    let ghost all = entries_view(entries@);
    let mut table: Table<T> = Table::new();
    assert(table_view(table.entries()) =~= Seq::<(Seq<char>, T::V)>::empty());
    let mut i: usize = 0;
    while i < entries.len()
        invariant
            i <= entries.len(),
            all == entries_view(entries@),
            value@ == JsonValue::Object(all),
            table.wf(),
            records_decoded::<T>(all, i as int) == Ok::<Seq<(Seq<char>, T::V)>, DecodeErrorView>(
                table_view(table.entries()),
            ),
        decreases entries.len() - i,
    {
        assert(all[i as int] == (entries@[i as int].0@, entries@[i as int].1@));
        match T::decode(&entries[i].1) {
            Ok(record) => {
                let ghost before = table.entries();
                let ghost view = record@;
                proof {
                    table.lemma_distinct();
                }
                table.insert(entries[i].0.clone(), record);
                proof {
                    lemma_insert_is_put::<T>(before, table.entries(), entries@[i as int].0@, view);
                }
            },
            Err(e) => {
                proof {
                    lemma_records_failure_stays::<T>(all, i as int + 1, all.len() as int);
                }
                return Err(e);
            },
        }
        i += 1;
    }
    Ok(table)
}

/// The records of a dump that the model is built from, category by category.
#[derive(Debug)]
pub struct Root {
    pub item: Table<Item>,
    pub fluid: Table<Fluid>,
    pub recipe: Table<Recipe>,
    pub item_group: Table<ItemGroup>,
    pub item_subgroup: Table<ItemSubgroup>,
}

/// A category seen through its views.
pub type Category = Seq<(Seq<char>, crate::record::FieldsView)>;

/// The mathematical content of a [`Root`].
pub struct RootView {
    pub item: Category,
    pub fluid: Category,
    pub recipe: Category,
    pub item_group: Category,
    pub item_subgroup: Category,
}

impl View for Root {
    type V = RootView;

    open spec fn view(&self) -> RootView {
        RootView {
            item: table_view(self.item.entries()),
            fluid: table_view(self.fluid.entries()),
            recipe: table_view(self.recipe.entries()),
            item_group: table_view(self.item_group.entries()),
            item_subgroup: table_view(self.item_subgroup.entries()),
        }
    }
}

impl Root {
    /// Every table of the root is well formed.
    pub open spec fn wf(&self) -> bool {
        &&& self.item.wf()
        &&& self.fluid.wf()
        &&& self.recipe.wf()
        &&& self.item_group.wf()
        &&& self.item_subgroup.wf()
    }
}

/// `name`, where `category` is absent.
pub open spec fn if_absent(category: Option<Category>, name: Seq<char>) -> Seq<Seq<char>> {
    if category is None {
        seq![name]
    } else {
        Seq::empty()
    }
}

/// The names of the categories that are absent, in the order of the fields of [`Root`].
pub open spec fn absent_categories(
    item: Option<Category>,
    fluid: Option<Category>,
    recipe: Option<Category>,
    item_group: Option<Category>,
    item_subgroup: Option<Category>,
) -> Seq<Seq<char>> {
    if_absent(item, "item"@) + if_absent(fluid, "fluid"@) + if_absent(recipe, "recipe"@)
        + if_absent(item_group, "item-group"@) + if_absent(item_subgroup, "item-subgroup"@)
}

/// What the entries of a dump from `from` on decode to, with what the entries before gave.
/// A category that the model does not use is passed over. The later of two entries for one
/// category takes the place of the earlier.
pub open spec fn root_fields(
    entries: Seq<(Seq<char>, JsonValue)>,
    from: int,
    item: Option<Category>,
    fluid: Option<Category>,
    recipe: Option<Category>,
    item_group: Option<Category>,
    item_subgroup: Option<Category>,
) -> Result<RootView, DecodeErrorView>
    decreases entries.len() - from,
{
    if from < 0 || from >= entries.len() {
        let absent = absent_categories(item, fluid, recipe, item_group, item_subgroup);
        if absent.len() > 0 {
            Err(
                DecodeErrorView::Schema(
                    SchemaViolationView { record: "Root"@, missing: absent, remaining: Seq::empty() },
                ),
            )
        } else {
            Ok(
                RootView {
                    item: item->Some_0,
                    fluid: fluid->Some_0,
                    recipe: recipe->Some_0,
                    item_group: item_group->Some_0,
                    item_subgroup: item_subgroup->Some_0,
                },
            )
        }
    } else {
        let key = entries[from].0;
        let value = entries[from].1;
        if key == "item"@ {
            match category_decoded::<Item>(value) {
                Ok(table) => root_fields(entries, from + 1, Some(table), fluid, recipe, item_group, item_subgroup),
                Err(e) => Err(e),
            }
        } else if key == "fluid"@ {
            match category_decoded::<Fluid>(value) {
                Ok(table) => root_fields(entries, from + 1, item, Some(table), recipe, item_group, item_subgroup),
                Err(e) => Err(e),
            }
        } else if key == "recipe"@ {
            match category_decoded::<Recipe>(value) {
                Ok(table) => root_fields(entries, from + 1, item, fluid, Some(table), item_group, item_subgroup),
                Err(e) => Err(e),
            }
        } else if key == "item-group"@ {
            match category_decoded::<ItemGroup>(value) {
                Ok(table) => root_fields(entries, from + 1, item, fluid, recipe, Some(table), item_subgroup),
                Err(e) => Err(e),
            }
        } else if key == "item-subgroup"@ {
            match category_decoded::<ItemSubgroup>(value) {
                Ok(table) => root_fields(entries, from + 1, item, fluid, recipe, item_group, Some(table)),
                Err(e) => Err(e),
            }
        } else {
            root_fields(entries, from + 1, item, fluid, recipe, item_group, item_subgroup)
        }
    }
}

/// What a whole dump decodes to.
pub open spec fn root_decoded(value: JsonValue) -> Result<RootView, DecodeErrorView> {
    match value {
        JsonValue::Object(entries) => root_fields(entries, 0, None, None, None, None, None),
        other => Err(wrong_kind(other)),
    }
}

/// The view of a category that may be absent.
pub open spec fn category_model<T: View<V = crate::record::FieldsView>>(table: Option<Table<T>>) -> Option<
    Category,
> {
    match table {
        Some(t) => Some(table_view(t.entries())),
        None => None,
    }
}

impl Decode for Root {
    open spec fn decoded(value: JsonValue) -> Result<RootView, DecodeErrorView> {
        root_decoded(value)
    }

    /// Decodes the categories `item`, `fluid`, `recipe`, `item-group` and `item-subgroup` of a
    /// dump.
    fn decode(value: &RawValue) -> (got: Result<Root, DecodeError>)
        ensures
            got matches Ok(root) ==> root.wf(),
    {
        let entries = match value {
            RawValue::Object(entries) => entries,
            other => {
                return Err(DecodeError::Format(FormatError::UnexpectedKind(other.kind())));
            },
        };
        proof {
            RawValue::lemma_object_view(*entries);
        }
        let ghost all = entries_view(entries@);
        let mut item: Option<Table<Item>> = None;
        let mut fluid: Option<Table<Fluid>> = None;
        let mut recipe: Option<Table<Recipe>> = None;
        let mut item_group: Option<Table<ItemGroup>> = None;
        let mut item_subgroup: Option<Table<ItemSubgroup>> = None;
        let mut i: usize = 0;
        while i < entries.len()
            invariant
                i <= entries.len(),
                all == entries_view(entries@),
                value@ == JsonValue::Object(all),
                item matches Some(t) ==> t.wf(),
                fluid matches Some(t) ==> t.wf(),
                recipe matches Some(t) ==> t.wf(),
                item_group matches Some(t) ==> t.wf(),
                item_subgroup matches Some(t) ==> t.wf(),
                root_fields(all, 0, None, None, None, None, None) == root_fields(
                    all,
                    i as int,
                    category_model(item),
                    category_model(fluid),
                    category_model(recipe),
                    category_model(item_group),
                    category_model(item_subgroup),
                ),
            decreases entries.len() - i,
        {
            assert(all[i as int] == (entries@[i as int].0@, entries@[i as int].1@));
            let key = entries[i].0.as_str();
            if same_text(key, "item") {
                match decode_category::<Item>(&entries[i].1) {
                    Ok(table) => {
                        item = Some(table);
                    },
                    Err(e) => {
                        return Err(e);
                    },
                }
            } else if same_text(key, "fluid") {
                match decode_category::<Fluid>(&entries[i].1) {
                    Ok(table) => {
                        fluid = Some(table);
                    },
                    Err(e) => {
                        return Err(e);
                    },
                }
            } else if same_text(key, "recipe") {
                match decode_category::<Recipe>(&entries[i].1) {
                    Ok(table) => {
                        recipe = Some(table);
                    },
                    Err(e) => {
                        return Err(e);
                    },
                }
            } else if same_text(key, "item-group") {
                match decode_category::<ItemGroup>(&entries[i].1) {
                    Ok(table) => {
                        item_group = Some(table);
                    },
                    Err(e) => {
                        return Err(e);
                    },
                }
            } else if same_text(key, "item-subgroup") {
                match decode_category::<ItemSubgroup>(&entries[i].1) {
                    Ok(table) => {
                        item_subgroup = Some(table);
                    },
                    Err(e) => {
                        return Err(e);
                    },
                }
            }
            i += 1;
        }
        let mut absent: Vec<String> = Vec::new();
        let ghost before_item = texts_view(absent@);
        if item.is_none() {
            absent.push(String::from_str("item"));
        }
        assert(texts_view(absent@) =~= before_item + if_absent(category_model(item), "item"@));
        let ghost before_fluid = texts_view(absent@);
        if fluid.is_none() {
            absent.push(String::from_str("fluid"));
        }
        assert(texts_view(absent@) =~= before_fluid + if_absent(category_model(fluid), "fluid"@));
        let ghost before_recipe = texts_view(absent@);
        if recipe.is_none() {
            absent.push(String::from_str("recipe"));
        }
        assert(texts_view(absent@) =~= before_recipe + if_absent(category_model(recipe), "recipe"@));
        let ghost before_item_group = texts_view(absent@);
        if item_group.is_none() {
            absent.push(String::from_str("item-group"));
        }
        assert(texts_view(absent@) =~= before_item_group + if_absent(category_model(item_group), "item-group"@));
        let ghost before_item_subgroup = texts_view(absent@);
        if item_subgroup.is_none() {
            absent.push(String::from_str("item-subgroup"));
        }
        assert(texts_view(absent@) =~= before_item_subgroup + if_absent(category_model(item_subgroup), "item-subgroup"@));
        if absent.len() > 0 {
            let remaining: Vec<String> = Vec::new();
            assert(texts_view(remaining@) =~= Seq::<Seq<char>>::empty());
            return Err(
                DecodeError::Schema(
                    SchemaViolation { record: String::from_str("Root"), missing: absent, remaining },
                ),
            );
        }
        Ok(
            Root {
                item: item.unwrap(),
                fluid: fluid.unwrap(),
                recipe: recipe.unwrap(),
                item_group: item_group.unwrap(),
                item_subgroup: item_subgroup.unwrap(),
            },
        )
    }
}

} // verus!
