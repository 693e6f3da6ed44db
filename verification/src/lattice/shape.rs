use vstd::prelude::*;

verus! {

/// What the values seen for one field look like, over a whole corpus. The bounds of `Float`
/// are order keys of floating-point numbers: integers that are ordered as the numbers are.
#[derive(Debug, PartialEq, Eq)]
pub enum ShapeDescriptor {
    /// Nothing seen yet.
    Unknown,
    /// Left untyped on purpose.
    Skip,
    /// The strings that were seen.
    StringSet(Vec<String>),
    Boolean,
    /// The least and the greatest integer that were seen.
    Integer { min: i64, max: i64 },
    /// The order keys of the least and of the greatest number that were seen.
    Float { min: i64, max: i64 },
    /// The shape of each field, by name.
    Object(Vec<(String, ShapeDescriptor)>),
    /// The shapes of the elements, as a bag.
    Array(Vec<ShapeDescriptor>),
    /// Shapes that do not go together, until they are collapsed.
    Multiple(Vec<ShapeDescriptor>),
    /// A list that some samples write as an empty object, with the shapes of its elements.
    ListOrEmptyObject(Vec<ShapeDescriptor>),
    Color,
}

/// The mathematical content of a [`ShapeDescriptor`].
pub enum Shape {
    Unknown,
    Skip,
    StringSet(Seq<Seq<char>>),
    Boolean,
    Integer { min: int, max: int },
    Float { min: int, max: int },
    Object(Seq<(Seq<char>, Shape)>),
    Array(Seq<Shape>),
    Multiple(Seq<Shape>),
    ListOrEmptyObject(Seq<Shape>),
    Color,
}

/// What a descriptor holds.
pub open spec fn shape_of(d: ShapeDescriptor) -> Shape
    decreases d,
{
    match d {
        ShapeDescriptor::Unknown => Shape::Unknown,
        ShapeDescriptor::Skip => Shape::Skip,
        ShapeDescriptor::StringSet(texts) => Shape::StringSet(Seq::new(texts@.len(), |i: int| texts@[i]@)),
        ShapeDescriptor::Boolean => Shape::Boolean,
        ShapeDescriptor::Integer { min, max } => Shape::Integer { min: min as int, max: max as int },
        ShapeDescriptor::Float { min, max } => Shape::Float { min: min as int, max: max as int },
        ShapeDescriptor::Object(entries) => Shape::Object(
            Seq::new(
                entries@.len(),
                |i: int|
                    if 0 <= i < entries@.len() {
                        (entries@[i].0@, shape_of(entries@[i].1))
                    } else {
                        (Seq::empty(), Shape::Unknown)
                    },
            ),
        ),
        ShapeDescriptor::Array(items) => Shape::Array(shapes_seq(items)),
        ShapeDescriptor::Multiple(items) => Shape::Multiple(shapes_seq(items)),
        ShapeDescriptor::ListOrEmptyObject(items) => Shape::ListOrEmptyObject(shapes_seq(items)),
        ShapeDescriptor::Color => Shape::Color,
    }
}

/// What the descriptors of a vector hold, one by one.
pub open spec fn shapes_seq(items: Vec<ShapeDescriptor>) -> Seq<Shape>
    decreases items,
{
    Seq::new(
        items@.len(),
        |i: int|
            if 0 <= i < items@.len() {
                shape_of(items@[i])
            } else {
                Shape::Unknown
            },
    )
}

impl View for ShapeDescriptor {
    type V = Shape;

    open spec fn view(&self) -> Shape {
        shape_of(*self)
    }
}

/// The views of a sequence of descriptors.
pub open spec fn shapes_view(items: Seq<ShapeDescriptor>) -> Seq<Shape> {
    Seq::new(items.len(), |i: int| items[i]@)
}

/// The views of a sequence of named descriptors.
pub open spec fn fields_view(entries: Seq<(String, ShapeDescriptor)>) -> Seq<(Seq<char>, Shape)> {
    Seq::new(entries.len(), |i: int| (entries[i].0@, entries[i].1@))
}

/// Whether a key stands among the entries.
pub open spec fn has_key(entries: Seq<(Seq<char>, Shape)>, key: Seq<char>) -> bool {
    exists|i: int| 0 <= i < entries.len() && (#[trigger] entries[i]).0 == key
}

/// The position of the entry under `key`.
pub open spec fn key_index(entries: Seq<(Seq<char>, Shape)>, key: Seq<char>) -> int {
    choose|i: int| 0 <= i < entries.len() && (#[trigger] entries[i]).0 == key
}

/// The first position from `from` on of an entry under `key`; the number of entries where
/// there is none.
pub open spec fn first_index(entries: Seq<(Seq<char>, Shape)>, key: Seq<char>, from: int) -> int
    decreases entries.len() - from,
{
    if from < 0 || from >= entries.len() {
        entries.len() as int
    } else if entries[from].0 == key {
        from
    } else {
        first_index(entries, key, from + 1)
    }
}

/// What [`first_index`] finds: the entry under `key` that no other such entry from `from` on
/// stands before.
pub proof fn lemma_first_index(entries: Seq<(Seq<char>, Shape)>, key: Seq<char>, from: int)
    requires
        0 <= from,
    ensures
        from <= first_index(entries, key, from) || first_index(entries, key, from) == entries.len(),
        first_index(entries, key, from) <= entries.len(),
        first_index(entries, key, from) < entries.len() ==> entries[first_index(
            entries,
            key,
            from,
        )].0 == key,
        forall|i: int|
            from <= i < first_index(entries, key, from) && i < entries.len() ==> (
            #[trigger] entries[i]).0 != key,
    decreases entries.len() - from,
{
    if from < entries.len() && entries[from].0 != key {
        lemma_first_index(entries, key, from + 1);
    }
}

/// Where no key stands twice, the first entry under a key is the only one.
pub proof fn lemma_first_is_only(entries: Seq<(Seq<char>, Shape)>, key: Seq<char>)
    requires
        distinct_keys(entries),
        has_key(entries, key),
    ensures
        first_index(entries, key, 0) == key_index(entries, key),
{
    lemma_first_index(entries, key, 0);
    let at = key_index(entries, key);
    let first = first_index(entries, key, 0);
    if first >= entries.len() {
        assert(entries[at].0 == key);
    }
}

/// Whether no key stands twice among the entries.
pub open spec fn distinct_keys(entries: Seq<(Seq<char>, Shape)>) -> bool {
    forall|i: int, j: int|
        0 <= i < entries.len() && 0 <= j < entries.len() && i != j ==> (#[trigger] entries[i]).0
            != (#[trigger] entries[j]).0
}

/// A shape is well formed where no object in it has a key twice.
pub open spec fn well_formed(shape: Shape) -> bool
    decreases shape,
{
    match shape {
        Shape::Object(entries) => distinct_keys(entries) && forall|i: int|
            0 <= i < entries.len() ==> well_formed((#[trigger] entries[i]).1),
        Shape::Array(items) => forall|i: int| 0 <= i < items.len() ==> well_formed(#[trigger] items[i]),
        Shape::Multiple(items) => forall|i: int|
            0 <= i < items.len() ==> well_formed(#[trigger] items[i]),
        Shape::ListOrEmptyObject(items) => forall|i: int|
            0 <= i < items.len() ==> well_formed(#[trigger] items[i]),
        _ => true,
    }
}

/// The order key of the floating-point number nearest to the integer `i`.
pub open spec fn float_key(i: int) -> int {
    crate::lattice::float_key::key_of_int(i)
}

/// The lesser of two integers.
pub open spec fn min_of(a: int, b: int) -> int {
    if a <= b {
        a
    } else {
        b
    }
}

/// The greater of two integers.
pub open spec fn max_of(a: int, b: int) -> int {
    if a >= b {
        a
    } else {
        b
    }
}

/// The texts among the first `upto` of `more` that `seen` does not hold, in their order.
pub open spec fn new_texts(more: Seq<Seq<char>>, seen: Seq<Seq<char>>, upto: int) -> Seq<Seq<char>>
    decreases upto,
{
    if upto <= 0 {
        Seq::empty()
    } else if seen.contains(more[upto - 1]) {
        new_texts(more, seen, upto - 1)
    } else {
        new_texts(more, seen, upto - 1).push(more[upto - 1])
    }
}

/// The entries among the first `upto` of `more` whose keys `seen` does not hold, in their
/// order.
pub open spec fn new_entries(
    more: Seq<(Seq<char>, Shape)>,
    seen: Seq<(Seq<char>, Shape)>,
    upto: int,
) -> Seq<(Seq<char>, Shape)>
    decreases upto,
{
    if upto <= 0 {
        Seq::empty()
    } else if has_key(seen, more[upto - 1].0) {
        new_entries(more, seen, upto - 1)
    } else {
        new_entries(more, seen, upto - 1).push(more[upto - 1])
    }
}

/// The type lattice: what is known of a field once `incoming` has been seen on top of
/// `existing`.
///
/// `Unknown` gives way to the other side. Two objects merge key by key, and a key that only one
/// of them has keeps its shape; where an object has a key twice, the first entry under the key
/// is the one that is merged. Two string sets unite, two arrays put their elements together,
/// two ranges of numbers unite, a range of integers being widened where the other is of
/// floating-point numbers. A `Multiple` takes the incoming shape as one more member. Any other
/// pair becomes a `Multiple` of the two.
pub open spec fn merged(existing: Shape, incoming: Shape) -> Shape
    decreases existing,
{
    match (existing, incoming) {
        (Shape::Unknown, x) => x,
        (x, Shape::Unknown) => x,
        (Shape::Object(a), Shape::Object(b)) => Shape::Object(
            Seq::new(
                a.len(),
                |i: int|
                    if 0 <= i < a.len() {
                        if has_key(b, a[i].0) {
                            (a[i].0, merged(a[i].1, b[first_index(b, a[i].0, 0)].1))
                        } else {
                            a[i]
                        }
                    } else {
                        (Seq::empty(), Shape::Unknown)
                    },
            ) + new_entries(b, a, b.len() as int),
        ),
        (Shape::StringSet(a), Shape::StringSet(b)) => Shape::StringSet(
            a + new_texts(b, a, b.len() as int),
        ),
        (Shape::Array(a), Shape::Array(b)) => Shape::Array(a + b),
        (Shape::Integer { min: a, max: b }, Shape::Integer { min: c, max: d }) => Shape::Integer {
            min: min_of(a, c),
            max: max_of(b, d),
        },
        (Shape::Integer { min: a, max: b }, Shape::Float { min: c, max: d }) => Shape::Float {
            min: min_of(float_key(a), c),
            max: max_of(float_key(b), d),
        },
        (Shape::Float { min: a, max: b }, Shape::Integer { min: c, max: d }) => Shape::Float {
            min: min_of(a, float_key(c)),
            max: max_of(b, float_key(d)),
        },
        (Shape::Float { min: a, max: b }, Shape::Float { min: c, max: d }) => Shape::Float {
            min: min_of(a, c),
            max: max_of(b, d),
        },
        (Shape::Boolean, Shape::Boolean) => Shape::Boolean,
        (Shape::Multiple(members), x) => Shape::Multiple(members.push(x)),
        (x, y) => Shape::Multiple(seq![x, y]),
    }
}

} // verus!
