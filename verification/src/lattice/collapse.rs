use crate::error::texts_view;
use crate::lattice::merge::{append_copies, lemma_object_shape, lemma_shapes_seq};
use crate::lattice::shape::{fields_view, has_key, shapes_view, Shape, ShapeDescriptor};
use crate::text::{chars_of, same_text};
use vstd::prelude::*;

verus! {

/// A `Multiple` that no rule resolves, with the path of the field where it stands.
pub struct AmbiguityView {
    pub path: Seq<Seq<char>>,
    pub members: Seq<Shape>,
}

/// Whether `fragment` stands somewhere in `name`.
pub open spec fn occurs_in(fragment: Seq<char>, name: Seq<char>) -> bool {
    exists|at: int|
        0 <= at <= name.len() - fragment.len() && #[trigger] name.subrange(
            at,
            at + fragment.len(),
        ) == fragment
}

/// Whether `name` is the name of a dynamic formula: one of the `fragments` stands in it.
pub open spec fn is_dynamic(name: Seq<char>, fragments: Seq<Seq<char>>) -> bool {
    exists|i: int| 0 <= i < fragments.len() && occurs_in(#[trigger] fragments[i], name)
}

/// Whether the keys of an object are the three colour channels, or the four.
pub open spec fn color_keys(entries: Seq<(Seq<char>, Shape)>) -> bool {
    &&& has_key(entries, "r"@)
    &&& has_key(entries, "g"@)
    &&& has_key(entries, "b"@)
    &&& entries.len() == 3 || (entries.len() == 4 && has_key(entries, "a"@))
}

/// Whether a collapsed shape is that of a colour: a colour, an object with exactly the colour
/// channels as keys, or a sequence of three integers.
pub open spec fn color_shaped(shape: Shape) -> bool {
    match shape {
        Shape::Color => true,
        Shape::Object(entries) => color_keys(entries),
        Shape::Array(items) => items.len() == 3 && forall|i: int|
            0 <= i < items.len() ==> #[trigger] items[i] is Integer,
        _ => false,
    }
}

/// Whether every shape is the shape of a colour.
pub open spec fn all_color_shaped(shapes: Seq<Shape>) -> bool {
    forall|i: int| 0 <= i < shapes.len() ==> color_shaped(#[trigger] shapes[i])
}

/// An array, or an object without entries.
pub open spec fn list_like(shape: Shape) -> bool {
    match shape {
        Shape::Array(_) => true,
        Shape::Object(entries) => entries.len() == 0,
        _ => false,
    }
}

/// Whether every shape is an array or an object without entries.
pub open spec fn all_list_like(shapes: Seq<Shape>) -> bool {
    forall|i: int| 0 <= i < shapes.len() ==> list_like(#[trigger] shapes[i])
}

/// Whether one of the shapes is an array.
pub open spec fn any_array(shapes: Seq<Shape>) -> bool {
    exists|i: int| 0 <= i < shapes.len() && #[trigger] shapes[i] is Array
}

/// An object without entries.
pub open spec fn empty_object(shape: Shape) -> bool {
    shape matches Shape::Object(entries) && entries.len() == 0
}

/// Whether one of the shapes is an object without entries.
pub open spec fn any_empty_object(shapes: Seq<Shape>) -> bool {
    exists|i: int| 0 <= i < shapes.len() && empty_object(#[trigger] shapes[i])
}

/// The elements of the arrays among the shapes, put together in order.
pub open spec fn elements_of(shapes: Seq<Shape>) -> Seq<Shape>
    decreases shapes.len(),
{
    if shapes.len() == 0 {
        Seq::empty()
    } else {
        elements_of(shapes.drop_last()) + match shapes.last() {
            Shape::Array(items) => items,
            _ => Seq::empty(),
        }
    }
}

/// The shapes as one sequence of elements: an array gives its elements, any other shape stands
/// for itself.
pub open spec fn flattened(shapes: Seq<Shape>) -> Seq<Shape>
    decreases shapes.len(),
{
    if shapes.len() == 0 {
        Seq::empty()
    } else {
        flattened(shapes.drop_last()) + match shapes.last() {
            Shape::Array(items) => items,
            other => seq![other],
        }
    }
}

/// An array whose elements are collapsed: a colour where it has elements and each is the shape
/// of a colour, else the array.
pub open spec fn resolved_array(elements: Seq<Shape>) -> Shape {
    if elements.len() > 0 && all_color_shaped(elements) {
        Shape::Color
    } else {
        Shape::Array(elements)
    }
}

/// A `Multiple` whose members are collapsed, nested `Multiple`s taken apart. Members that are
/// all the shape of a colour give a colour. Members that are all arrays or empty objects give
/// a list-or-empty-object of the arrays' elements. Where some members are arrays and none is
/// an empty object, the others join the arrays' elements in one array. Anything else is
/// ambiguous: so are arrays beside empty objects beside a third shape.
pub open spec fn resolved_multiple(members: Seq<Shape>, path: Seq<Seq<char>>) -> Result<
    Shape,
    AmbiguityView,
> {
    if members.len() > 0 && all_color_shaped(members) {
        Ok(Shape::Color)
    } else if members.len() > 0 && all_list_like(members) {
        Ok(Shape::ListOrEmptyObject(elements_of(members)))
    } else if any_array(members) && !any_empty_object(members) {
        Ok(resolved_array(flattened(members)))
    } else {
        Err(AmbiguityView { path, members })
    }
}

/// The collapse of a finished descriptor: one pass, the children before their parent.
///
/// A field of an object whose name is that of a dynamic formula becomes `Skip`, whatever was
/// seen for it. The first `Multiple`, in the order of the tree, that no rule resolves fails
/// the pass.
pub open spec fn collapsed(shape: Shape, path: Seq<Seq<char>>, dynamic: Seq<Seq<char>>) -> Result<
    Shape,
    AmbiguityView,
>
    decreases shape, 0nat,
{
    match shape {
        Shape::Object(entries) => match collapsed_fields(entries, path, dynamic) {
            Ok(out) => Ok(Shape::Object(out)),
            Err(e) => Err(e),
        },
        Shape::Array(items) => match collapsed_all(items, path, dynamic) {
            Ok(out) => Ok(resolved_array(out)),
            Err(e) => Err(e),
        },
        Shape::ListOrEmptyObject(items) => match collapsed_all(items, path, dynamic) {
            Ok(out) => Ok(Shape::ListOrEmptyObject(out)),
            Err(e) => Err(e),
        },
        Shape::Multiple(members) => match collapsed_members(members, path, dynamic) {
            Ok(out) => resolved_multiple(out, path),
            Err(e) => Err(e),
        },
        other => Ok(other),
    }
}

/// The collapse of the fields of an object, in order.
pub open spec fn collapsed_fields(
    entries: Seq<(Seq<char>, Shape)>,
    path: Seq<Seq<char>>,
    dynamic: Seq<Seq<char>>,
) -> Result<Seq<(Seq<char>, Shape)>, AmbiguityView>
    decreases entries,
{
    if entries.len() == 0 {
        Ok(Seq::empty())
    } else {
        match collapsed_fields(entries.drop_last(), path, dynamic) {
            Err(e) => Err(e),
            Ok(before) => {
                let key = entries.last().0;
                if is_dynamic(key, dynamic) {
                    Ok(before.push((key, Shape::Skip)))
                } else {
                    match collapsed(entries.last().1, path.push(key), dynamic) {
                        Ok(c) => Ok(before.push((key, c))),
                        Err(e) => Err(e),
                    }
                }
            },
        }
    }
}

/// The collapse of the elements of a sequence, in order.
pub open spec fn collapsed_all(items: Seq<Shape>, path: Seq<Seq<char>>, dynamic: Seq<Seq<char>>) -> Result<
    Seq<Shape>,
    AmbiguityView,
>
    decreases items,
{
    if items.len() == 0 {
        Ok(Seq::empty())
    } else {
        match collapsed_all(items.drop_last(), path, dynamic) {
            Err(e) => Err(e),
            Ok(before) => match collapsed(items.last(), path, dynamic) {
                Ok(c) => Ok(before.push(c)),
                Err(e) => Err(e),
            },
        }
    }
}

/// The collapse of the members of a `Multiple`, in order, where a member that is itself a
/// `Multiple` stands for its own members.
pub open spec fn collapsed_members(
    members: Seq<Shape>,
    path: Seq<Seq<char>>,
    dynamic: Seq<Seq<char>>,
) -> Result<Seq<Shape>, AmbiguityView>
    decreases members,
{
    if members.len() == 0 {
        Ok(Seq::empty())
    } else {
        match collapsed_members(members.drop_last(), path, dynamic) {
            Err(e) => Err(e),
            Ok(before) => match collapsed_member(members.last(), path, dynamic) {
                Ok(more) => Ok(before + more),
                Err(e) => Err(e),
            },
        }
    }
}

/// The collapse of one member of a `Multiple`: of its own members where it is a `Multiple`,
/// else of itself.
pub open spec fn collapsed_member(member: Shape, path: Seq<Seq<char>>, dynamic: Seq<Seq<char>>) -> Result<
    Seq<Shape>,
    AmbiguityView,
>
    decreases member, 1nat,
{
    match member {
        Shape::Multiple(inner) => collapsed_members(inner, path, dynamic),
        other => match collapsed(other, path, dynamic) {
            Ok(c) => Ok(seq![c]),
            Err(e) => Err(e),
        },
    }
}

/// A `Multiple` that no rule resolves: a fault of the schema, for its maintainer.
#[derive(Debug, PartialEq, Eq)]
pub struct SchemaAmbiguity {
    /// The names of the fields from the root down to the `Multiple`.
    pub path: Vec<String>,
    /// The collapsed members that do not go together.
    pub members: Vec<ShapeDescriptor>,
}

impl View for SchemaAmbiguity {
    type V = AmbiguityView;

    open spec fn view(&self) -> AmbiguityView {
        AmbiguityView { path: texts_view(self.path@), members: shapes_view(self.members@) }
    }
}

/// Whether an outcome of the executable collapse is the outcome `model`.
pub open spec fn collapse_agrees(
    got: Result<ShapeDescriptor, SchemaAmbiguity>,
    model: Result<Shape, AmbiguityView>,
) -> bool {
    match got {
        Ok(d) => model == Ok::<Shape, AmbiguityView>(d@),
        Err(e) => model == Err::<Shape, AmbiguityView>(e@),
    }
}

/// Decides [`occurs_in`].
pub fn text_occurs_in(fragment: &Vec<char>, name: &Vec<char>) -> (found: bool)
    ensures
        found == occurs_in(fragment@, name@),
{
    if fragment.len() > name.len() {
        return false;
    }
    let last = name.len() - fragment.len();
    let mut at: usize = 0;
    while at <= last
        invariant
            fragment.len() <= name.len(),
            last == name.len() - fragment.len(),
            at <= last + 1,
            forall|k: int|
                0 <= k < at ==> #[trigger] name@.subrange(k, k + fragment@.len()) != fragment@,
        decreases last + 1 - at,
    {
        let mut i: usize = 0;
        while i < fragment.len() && name[at + i] == fragment[i]
            invariant
                i <= fragment.len(),
                at + fragment.len() <= name.len(),
                forall|j: int| 0 <= j < i ==> name@[at + j] == fragment@[j],
            decreases fragment.len() - i,
        {
            i += 1;
        }
        let ghost window = name@.subrange(at as int, at + fragment@.len());
        if i == fragment.len() {
            assert(window =~= fragment@);
            return true;
        }
        assert(window[i as int] != fragment@[i as int]);
        at += 1;
    }
    false
}

/// Decides [`is_dynamic`].
pub fn name_is_dynamic(name: &String, dynamic: &Vec<String>) -> (found: bool)
    ensures
        found == is_dynamic(name@, texts_view(dynamic@)),
{
    let chars = chars_of(name.as_str());
    let ghost fragments = texts_view(dynamic@);
    let mut i: usize = 0;
    while i < dynamic.len()
        invariant
            i <= dynamic.len(),
            chars@ == name@,
            fragments == texts_view(dynamic@),
            forall|j: int| 0 <= j < i ==> !occurs_in(#[trigger] fragments[j], name@),
        decreases dynamic.len() - i,
    {
        let fragment = chars_of(dynamic[i].as_str());
        assert(fragments[i as int] == dynamic@[i as int]@);
        if text_occurs_in(&fragment, &chars) {
            return true;
        }
        i += 1;
    }
    false
}

/// Whether an entry stands under `name`.
fn has_field(entries: &Vec<(String, ShapeDescriptor)>, name: &str) -> (found: bool)
    ensures
        found == has_key(fields_view(entries@), name@),
{
    let mut i: usize = 0;
    while i < entries.len()
        invariant
            i <= entries.len(),
            forall|j: int| 0 <= j < i ==> (#[trigger] entries@[j]).0@ != name@,
        decreases entries.len() - i,
    {
        if same_text(entries[i].0.as_str(), name) {
            assert(fields_view(entries@)[i as int].0 == name@);
            return true;
        }
        i += 1;
    }
    proof {
        let view = fields_view(entries@);
        if has_key(view, name@) {
            let j = crate::lattice::shape::key_index(view, name@);
            assert(entries@[j].0@ == name@);
        }
    }
    false
}

impl ShapeDescriptor {
    /// Decides [`color_shaped`].
    pub fn is_color_shaped(&self) -> (yes: bool)
        ensures
            yes == color_shaped(self@),
    {
        match self {
            ShapeDescriptor::Color => true,
            ShapeDescriptor::Object(entries) => {
                proof {
                    lemma_object_shape(*entries);
                }
                has_field(entries, "r") && has_field(entries, "g") && has_field(entries, "b") && (
                entries.len() == 3 || (entries.len() == 4 && has_field(entries, "a")))
            },
            ShapeDescriptor::Array(items) => {
                proof {
                    lemma_shapes_seq(*items);
                }
                if items.len() != 3 {
                    return false;
                }
                let mut i: usize = 0;
                while i < items.len()
                    invariant
                        i <= items.len(),
                        items.len() == 3,
                        self@ == Shape::Array(shapes_view(items@)),
                        forall|j: int| 0 <= j < i ==> (#[trigger] shapes_view(items@)[j]) is Integer,
                    decreases items.len() - i,
                {
                    assert(shapes_view(items@)[i as int] == items@[i as int]@);
                    match &items[i] {
                        ShapeDescriptor::Integer { .. } => {},
                        _ => {
                            return false;
                        },
                    }
                    i += 1;
                }
                true
            },
            _ => false,
        }
    }

    /// Decides [`list_like`].
    pub fn is_list_like(&self) -> (yes: bool)
        ensures
            yes == list_like(self@),
    {
        match self {
            ShapeDescriptor::Array(_) => true,
            ShapeDescriptor::Object(entries) => {
                proof {
                    lemma_object_shape(*entries);
                }
                entries.len() == 0
            },
            _ => false,
        }
    }
}

/// Decides [`all_color_shaped`].
fn every_color_shaped(shapes: &Vec<ShapeDescriptor>) -> (yes: bool)
    ensures
        yes == all_color_shaped(shapes_view(shapes@)),
{
    let mut i: usize = 0;
    while i < shapes.len()
        invariant
            i <= shapes.len(),
            forall|j: int| 0 <= j < i ==> color_shaped(#[trigger] shapes_view(shapes@)[j]),
        decreases shapes.len() - i,
    {
        assert(shapes_view(shapes@)[i as int] == shapes@[i as int]@);
        if !shapes[i].is_color_shaped() {
            return false;
        }
        i += 1;
    }
    true
}

/// Decides [`all_list_like`].
fn every_list_like(shapes: &Vec<ShapeDescriptor>) -> (yes: bool)
    ensures
        yes == all_list_like(shapes_view(shapes@)),
{
    let mut i: usize = 0;
    while i < shapes.len()
        invariant
            i <= shapes.len(),
            forall|j: int| 0 <= j < i ==> list_like(#[trigger] shapes_view(shapes@)[j]),
        decreases shapes.len() - i,
    {
        assert(shapes_view(shapes@)[i as int] == shapes@[i as int]@);
        if !shapes[i].is_list_like() {
            return false;
        }
        i += 1;
    }
    true
}

/// Decides [`any_array`].
fn some_array(shapes: &Vec<ShapeDescriptor>) -> (yes: bool)
    ensures
        yes == any_array(shapes_view(shapes@)),
{
    let mut i: usize = 0;
    while i < shapes.len()
        invariant
            i <= shapes.len(),
            forall|j: int| 0 <= j < i ==> !(#[trigger] shapes_view(shapes@)[j] is Array),
        decreases shapes.len() - i,
    {
        assert(shapes_view(shapes@)[i as int] == shapes@[i as int]@);
        match &shapes[i] {
            ShapeDescriptor::Array(_) => {
                return true;
            },
            _ => {},
        }
        i += 1;
    }
    false
}

/// Decides [`any_empty_object`].
fn some_empty_object(shapes: &Vec<ShapeDescriptor>) -> (yes: bool)
    ensures
        yes == any_empty_object(shapes_view(shapes@)),
{
    let mut i: usize = 0;
    while i < shapes.len()
        invariant
            i <= shapes.len(),
            forall|j: int| 0 <= j < i ==> !empty_object(#[trigger] shapes_view(shapes@)[j]),
        decreases shapes.len() - i,
    {
        assert(shapes_view(shapes@)[i as int] == shapes@[i as int]@);
        match &shapes[i] {
            ShapeDescriptor::Object(entries) => {
                proof {
                    lemma_object_shape(*entries);
                }
                if entries.len() == 0 {
                    return true;
                }
            },
            _ => {},
        }
        i += 1;
    }
    false
}

/// Computes [`resolved_array`].
pub fn resolve_array(elements: Vec<ShapeDescriptor>) -> (out: ShapeDescriptor)
    ensures
        out@ == resolved_array(shapes_view(elements@)),
{
    if elements.len() > 0 && every_color_shaped(&elements) {
        ShapeDescriptor::Color
    } else {
        proof {
            lemma_shapes_seq(elements);
        }
        ShapeDescriptor::Array(elements)
    }
}

/// Computes [`resolved_multiple`].
pub fn resolve_multiple(members: Vec<ShapeDescriptor>, path: &Vec<String>) -> (got: Result<
    ShapeDescriptor,
    SchemaAmbiguity,
>)
    ensures
        collapse_agrees(got, resolved_multiple(shapes_view(members@), texts_view(path@))),
{
    let ghost all = shapes_view(members@);
    if members.len() > 0 && every_color_shaped(&members) {
        return Ok(ShapeDescriptor::Color);
    }
    if members.len() > 0 && every_list_like(&members) {
        let mut out: Vec<ShapeDescriptor> = Vec::new();
        let mut i: usize = 0;
        assert(all.take(0) =~= Seq::<Shape>::empty());
        while i < members.len()
            invariant
                i <= members.len(),
                all == shapes_view(members@),
                shapes_view(out@) == elements_of(all.take(i as int)),
            decreases members.len() - i,
        {
            proof {
                assert(all.take(i + 1).drop_last() =~= all.take(i as int));
                assert(all.take(i + 1).last() == members@[i as int]@);
            }
            let ghost before = shapes_view(out@);
            match &members[i] {
                ShapeDescriptor::Array(items) => {
                    proof {
                        lemma_shapes_seq(*items);
                    }
                    append_copies(&mut out, items);
                },
                _ => {
                    assert(before + Seq::<Shape>::empty() =~= before);
                },
            }
            i += 1;
        }
        proof {
            assert(all.take(i as int) =~= all);
            lemma_shapes_seq(out);
        }
        return Ok(ShapeDescriptor::ListOrEmptyObject(out));
    }
    if some_array(&members) && !some_empty_object(&members) {
        let mut out: Vec<ShapeDescriptor> = Vec::new();
        let mut i: usize = 0;
        assert(all.take(0) =~= Seq::<Shape>::empty());
        while i < members.len()
            invariant
                i <= members.len(),
                all == shapes_view(members@),
                shapes_view(out@) == flattened(all.take(i as int)),
            decreases members.len() - i,
        {
            proof {
                assert(all.take(i + 1).drop_last() =~= all.take(i as int));
                assert(all.take(i + 1).last() == members@[i as int]@);
            }
            let ghost before = shapes_view(out@);
            match &members[i] {
                ShapeDescriptor::Array(items) => {
                    proof {
                        lemma_shapes_seq(*items);
                    }
                    append_copies(&mut out, items);
                },
                other => {
                    let copy = other.duplicate();
                    out.push(copy);
                    assert(shapes_view(out@) =~= before + seq![other@]);
                },
            }
            i += 1;
        }
        proof {
            assert(all.take(i as int) =~= all);
        }
        return Ok(resolve_array(out));
    }
    let mut names: Vec<String> = Vec::new();
    let mut k: usize = 0;
    while k < path.len()
        invariant
            k <= path.len(),
            names@.len() == k,
            forall|j: int| 0 <= j < k ==> (#[trigger] names@[j])@ == path@[j]@,
        decreases path.len() - k,
    {
        names.push(path[k].clone());
        k += 1;
    }
    assert(texts_view(names@) =~= texts_view(path@));
    Err(SchemaAmbiguity { path: names, members })
}

/// A failure among the first `upto` elements is the failure of the whole sequence.
pub proof fn lemma_all_failure_stays(
    items: Seq<Shape>,
    upto: int,
    path: Seq<Seq<char>>,
    dynamic: Seq<Seq<char>>,
)
    requires
        0 <= upto <= items.len(),
        collapsed_all(items.take(upto), path, dynamic) is Err,
    ensures
        collapsed_all(items, path, dynamic) == collapsed_all(items.take(upto), path, dynamic),
    decreases items.len() - upto,
{
    if upto == items.len() {
        assert(items.take(upto) =~= items);
    } else {
        assert(items.drop_last().take(upto) =~= items.take(upto));
        lemma_all_failure_stays(items.drop_last(), upto, path, dynamic);
    }
}

/// A failure among the first `upto` fields is the failure of the whole object.
pub proof fn lemma_fields_failure_stays(
    entries: Seq<(Seq<char>, Shape)>,
    upto: int,
    path: Seq<Seq<char>>,
    dynamic: Seq<Seq<char>>,
)
    requires
        0 <= upto <= entries.len(),
        collapsed_fields(entries.take(upto), path, dynamic) is Err,
    ensures
        collapsed_fields(entries, path, dynamic) == collapsed_fields(
            entries.take(upto),
            path,
            dynamic,
        ),
    decreases entries.len() - upto,
{
    if upto == entries.len() {
        assert(entries.take(upto) =~= entries);
    } else {
        assert(entries.drop_last().take(upto) =~= entries.take(upto));
        lemma_fields_failure_stays(entries.drop_last(), upto, path, dynamic);
    }
}

/// A failure among the first `upto` members is the failure of the whole `Multiple`.
pub proof fn lemma_members_failure_stays(
    members: Seq<Shape>,
    upto: int,
    path: Seq<Seq<char>>,
    dynamic: Seq<Seq<char>>,
)
    requires
        0 <= upto <= members.len(),
        collapsed_members(members.take(upto), path, dynamic) is Err,
    ensures
        collapsed_members(members, path, dynamic) == collapsed_members(
            members.take(upto),
            path,
            dynamic,
        ),
    decreases members.len() - upto,
{
    if upto == members.len() {
        assert(members.take(upto) =~= members);
    } else {
        assert(members.drop_last().take(upto) =~= members.take(upto));
        lemma_members_failure_stays(members.drop_last(), upto, path, dynamic);
    }
}

/// `path` with `name` at its end.
fn extended(path: &Vec<String>, name: &String) -> (out: Vec<String>)
    ensures
        texts_view(out@) == texts_view(path@).push(name@),
{
    let mut out: Vec<String> = Vec::new();
    let mut k: usize = 0;
    while k < path.len()
        invariant
            k <= path.len(),
            out@.len() == k,
            forall|j: int| 0 <= j < k ==> (#[trigger] out@[j])@ == path@[j]@,
        decreases path.len() - k,
    {
        out.push(path[k].clone());
        k += 1;
    }
    out.push(name.clone());
    assert(texts_view(out@) =~= texts_view(path@).push(name@));
    out
}

impl ShapeDescriptor {
    /// Collapses a finished descriptor into a decision. `dynamic` holds the fragments by which
    /// the name of a dynamic formula is known.
    pub fn collapse(&self, dynamic: &Vec<String>) -> (got: Result<ShapeDescriptor, SchemaAmbiguity>)
        ensures
            collapse_agrees(got, collapsed(self@, Seq::empty(), texts_view(dynamic@))),
            crate::lattice::shape::well_formed(self@) ==> (got matches Ok(d)
                ==> crate::lattice::shape::well_formed(d@)),
    {
        proof {
            if crate::lattice::shape::well_formed(self@) {
                crate::lattice::proofs::lemma_collapsed_well_formed(
                    self@,
                    Seq::empty(),
                    texts_view(dynamic@),
                );
            }
        }
        let path: Vec<String> = Vec::new();
        assert(texts_view(path@) =~= Seq::<Seq<char>>::empty());
        self.collapse_at(&path, dynamic)
    }

    /// Collapses the descriptor of the field at `path`.
    pub fn collapse_at(&self, path: &Vec<String>, dynamic: &Vec<String>) -> (got: Result<
        ShapeDescriptor,
        SchemaAmbiguity,
    >)
        ensures
            collapse_agrees(got, collapsed(self@, texts_view(path@), texts_view(dynamic@))),
        decreases self,
    {
        let ghost at = texts_view(path@);
        let ghost names = texts_view(dynamic@);
        match self {
            ShapeDescriptor::Object(entries) => {
                proof {
                    lemma_object_shape(*entries);
                }
                let ghost all = fields_view(entries@);
                let mut out: Vec<(String, ShapeDescriptor)> = Vec::new();
                let mut i: usize = 0;
                assert(all.take(0) =~= Seq::<(Seq<char>, Shape)>::empty());
                assert(fields_view(out@) =~= Seq::<(Seq<char>, Shape)>::empty());
                while i < entries.len()
                    invariant
                        i <= entries.len(),
                        decreases_to!(self => entries),
                        all == fields_view(entries@),
                        self@ == Shape::Object(all),
                        at == texts_view(path@),
                        names == texts_view(dynamic@),
                        collapsed_fields(all.take(i as int), at, names) == Ok::<
                            Seq<(Seq<char>, Shape)>,
                            AmbiguityView,
                        >(fields_view(out@)),
                    decreases entries.len() - i,
                {
                    proof {
                        assert(all.take(i + 1).drop_last() =~= all.take(i as int));
                        assert(all.take(i + 1).last() == (entries@[i as int].0@, entries@[i as int].1@));
                    }
                    let ghost before = fields_view(out@);
                    let key = &entries[i].0;
                    if name_is_dynamic(key, dynamic) {
                        out.push((key.clone(), ShapeDescriptor::Skip));
                        assert(fields_view(out@) =~= before.push((key@, Shape::Skip)));
                    } else {
                        let deeper = extended(path, key);
                        assert(decreases_to!(*entries => entries[i as int]));
                        assert(decreases_to!(entries[i as int] => entries[i as int].1));
                        match entries[i].1.collapse_at(&deeper, dynamic) {
                            Ok(c) => {
                                let ghost view = c@;
                                out.push((key.clone(), c));
                                assert(fields_view(out@) =~= before.push((key@, view)));
                            },
                            Err(e) => {
                                proof {
                                    lemma_fields_failure_stays(all, i as int + 1, at, names);
                                }
                                return Err(e);
                            },
                        }
                    }
                    i += 1;
                }
                proof {
                    assert(all.take(i as int) =~= all);
                    lemma_object_shape(out);
                }
                Ok(ShapeDescriptor::Object(out))
            },
            ShapeDescriptor::Array(items) => {
                proof {
                    lemma_shapes_seq(*items);
                }
                match Self::collapse_all(self, items, path, dynamic) {
                    Ok(out) => Ok(resolve_array(out)),
                    Err(e) => Err(e),
                }
            },
            ShapeDescriptor::ListOrEmptyObject(items) => {
                proof {
                    lemma_shapes_seq(*items);
                }
                match Self::collapse_all(self, items, path, dynamic) {
                    Ok(out) => {
                        proof {
                            lemma_shapes_seq(out);
                        }
                        Ok(ShapeDescriptor::ListOrEmptyObject(out))
                    },
                    Err(e) => Err(e),
                }
            },
            ShapeDescriptor::Multiple(members) => {
                proof {
                    lemma_shapes_seq(*members);
                }
                match Self::collapse_members(self, members, path, dynamic) {
                    Ok(out) => resolve_multiple(out, path),
                    Err(e) => Err(e),
                }
            },
            other => Ok(other.duplicate()),
        }
    }

    /// Collapses the elements `items` of `parent`, in order.
    fn collapse_all(
        parent: &ShapeDescriptor,
        items: &Vec<ShapeDescriptor>,
        path: &Vec<String>,
        dynamic: &Vec<String>,
    ) -> (got: Result<Vec<ShapeDescriptor>, SchemaAmbiguity>)
        requires
            decreases_to!(parent => items),
        ensures
            match got {
                Ok(out) => collapsed_all(
                    shapes_view(items@),
                    texts_view(path@),
                    texts_view(dynamic@),
                ) == Ok::<Seq<Shape>, AmbiguityView>(shapes_view(out@)),
                Err(e) => collapsed_all(
                    shapes_view(items@),
                    texts_view(path@),
                    texts_view(dynamic@),
                ) == Err::<Seq<Shape>, AmbiguityView>(e@),
            },
        decreases parent, 0nat,
    {
        let ghost at = texts_view(path@);
        let ghost names = texts_view(dynamic@);
        let ghost all = shapes_view(items@);
        let mut out: Vec<ShapeDescriptor> = Vec::new();
        let mut i: usize = 0;
        assert(all.take(0) =~= Seq::<Shape>::empty());
        assert(shapes_view(out@) =~= Seq::<Shape>::empty());
        while i < items.len()
            invariant
                i <= items.len(),
                decreases_to!(parent => items),
                all == shapes_view(items@),
                at == texts_view(path@),
                names == texts_view(dynamic@),
                collapsed_all(all.take(i as int), at, names) == Ok::<Seq<Shape>, AmbiguityView>(
                    shapes_view(out@),
                ),
            decreases items.len() - i,
        {
            proof {
                assert(all.take(i + 1).drop_last() =~= all.take(i as int));
                assert(all.take(i + 1).last() == items@[i as int]@);
            }
            let ghost before = shapes_view(out@);
            assert(decreases_to!(*items => items[i as int]));
            match items[i].collapse_at(path, dynamic) {
                Ok(c) => {
                    let ghost view = c@;
                    out.push(c);
                    assert(shapes_view(out@) =~= before.push(view));
                },
                Err(e) => {
                    proof {
                        lemma_all_failure_stays(all, i as int + 1, at, names);
                    }
                    return Err(e);
                },
            }
            i += 1;
        }
        assert(all.take(i as int) =~= all);
        Ok(out)
    }

    /// Collapses the members `members` of `parent`, in order, taking nested `Multiple`s apart.
    fn collapse_members(
        parent: &ShapeDescriptor,
        members: &Vec<ShapeDescriptor>,
        path: &Vec<String>,
        dynamic: &Vec<String>,
    ) -> (got: Result<Vec<ShapeDescriptor>, SchemaAmbiguity>)
        requires
            decreases_to!(parent => members),
        ensures
            match got {
                Ok(out) => collapsed_members(
                    shapes_view(members@),
                    texts_view(path@),
                    texts_view(dynamic@),
                ) == Ok::<Seq<Shape>, AmbiguityView>(shapes_view(out@)),
                Err(e) => collapsed_members(
                    shapes_view(members@),
                    texts_view(path@),
                    texts_view(dynamic@),
                ) == Err::<Seq<Shape>, AmbiguityView>(e@),
            },
        decreases parent, 0nat,
    {
        let ghost at = texts_view(path@);
        let ghost names = texts_view(dynamic@);
        let ghost all = shapes_view(members@);
        let mut out: Vec<ShapeDescriptor> = Vec::new();
        let mut i: usize = 0;
        assert(all.take(0) =~= Seq::<Shape>::empty());
        assert(shapes_view(out@) =~= Seq::<Shape>::empty());
        while i < members.len()
            invariant
                i <= members.len(),
                decreases_to!(parent => members),
                all == shapes_view(members@),
                at == texts_view(path@),
                names == texts_view(dynamic@),
                collapsed_members(all.take(i as int), at, names) == Ok::<Seq<Shape>, AmbiguityView>(
                    shapes_view(out@),
                ),
            decreases members.len() - i,
        {
            proof {
                assert(all.take(i + 1).drop_last() =~= all.take(i as int));
                assert(all.take(i + 1).last() == members@[i as int]@);
            }
            let ghost before = shapes_view(out@);
            assert(decreases_to!(*members => members[i as int]));
            let member = &members[i];
            match member {
                ShapeDescriptor::Multiple(inner) => {
                    proof {
                        lemma_shapes_seq(*inner);
                        assert(member@ == Shape::Multiple(shapes_view(inner@)));
                        assert(collapsed_member(member@, at, names) == collapsed_members(
                            shapes_view(inner@),
                            at,
                            names,
                        ));
                    }
                    match Self::collapse_members(member, inner, path, dynamic) {
                        Ok(more) => {
                            let mut more = more;
                            let ghost tail = shapes_view(more@);
                            append_moved(&mut out, &mut more);
                            assert(shapes_view(out@) =~= before + tail);
                        },
                        Err(e) => {
                            proof {
                                lemma_members_failure_stays(all, i as int + 1, at, names);
                            }
                            return Err(e);
                        },
                    }
                },
                other => match other.collapse_at(path, dynamic) {
                    Ok(c) => {
                        let ghost view = c@;
                        out.push(c);
                        assert(shapes_view(out@) =~= before + seq![view]);
                    },
                    Err(e) => {
                        proof {
                            lemma_members_failure_stays(all, i as int + 1, at, names);
                        }
                        return Err(e);
                    },
                },
            }
            i += 1;
        }
        assert(all.take(i as int) =~= all);
        Ok(out)
    }
}

/// Moves the descriptors of `more` to the end of `out`.
fn append_moved(out: &mut Vec<ShapeDescriptor>, more: &mut Vec<ShapeDescriptor>)
    ensures
        final(out)@ == old(out)@ + old(more)@,
{
    out.append(more);
}

} // verus!
