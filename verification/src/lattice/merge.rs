use crate::lattice::float_key::key_from_int;
use crate::lattice::shape::{
    distinct_keys, fields_view, first_index, has_key, key_index, lemma_first_index, merged,
    new_entries, new_texts, shape_of,
    shapes_seq, shapes_view, well_formed, Shape, ShapeDescriptor,
};
use crate::error::texts_view;
use vstd::prelude::*;

verus! {

/// The view of a vector of descriptors is the sequence of their views.
pub proof fn lemma_shapes_seq(items: Vec<ShapeDescriptor>)
    ensures
        shapes_seq(items) == shapes_view(items@),
{
    assert(shapes_seq(items) =~= shapes_view(items@));
}

/// The view of an object is the sequence of the views of its entries.
pub proof fn lemma_object_shape(entries: Vec<(String, ShapeDescriptor)>)
    ensures
        shape_of(ShapeDescriptor::Object(entries)) == Shape::Object(fields_view(entries@)),
{
    assert(shape_of(ShapeDescriptor::Object(entries))->Object_0 =~= fields_view(entries@));
}

/// The view of a string set is the sequence of the views of its strings.
pub proof fn lemma_string_set_shape(texts: Vec<String>)
    ensures
        shape_of(ShapeDescriptor::StringSet(texts)) == Shape::StringSet(texts_view(texts@)),
{
    assert(shape_of(ShapeDescriptor::StringSet(texts))->StringSet_0 =~= texts_view(texts@));
}

/// Copies of the descriptors of `items`, appended to `out`.
pub fn append_copies(out: &mut Vec<ShapeDescriptor>, items: &Vec<ShapeDescriptor>)
    ensures
        shapes_view(final(out)@) == shapes_view(old(out)@) + shapes_view(items@),
    decreases items,
{
    let ghost start = shapes_view(out@);
    let mut i: usize = 0;
    while i < items.len()
        invariant
            i <= items.len(),
            shapes_view(out@) == start + shapes_view(items@).take(i as int),
        decreases items.len() - i,
    {
        let ghost before = shapes_view(out@);
        let copy = items[i].duplicate();
        out.push(copy);
        assert(shapes_view(out@) =~= before.push(items@[i as int]@));
        assert(shapes_view(items@).take(i + 1) =~= shapes_view(items@).take(i as int).push(
            items@[i as int]@,
        ));
        i += 1;
    }
    assert(shapes_view(items@).take(i as int) =~= shapes_view(items@));
}

/// The first position in `entries` of an entry under `key`.
fn find_key(entries: &Vec<(String, ShapeDescriptor)>, key: &String) -> (found: Option<usize>)
    ensures
        match found {
            Some(at) => at < entries@.len() && entries@[at as int].0@ == key@ && first_index(
                fields_view(entries@),
                key@,
                0,
            ) == at,
            None => !has_key(fields_view(entries@), key@),
        },
{
    let ghost view = fields_view(entries@);
    let mut i: usize = 0;
    while i < entries.len()
        invariant
            i <= entries.len(),
            view == fields_view(entries@),
            first_index(view, key@, 0) == first_index(view, key@, i as int),
            forall|j: int| 0 <= j < i ==> (#[trigger] entries@[j]).0@ != key@,
        decreases entries.len() - i,
    {
        assert(view[i as int].0 == entries@[i as int].0@);
        if entries[i].0 == *key {
            return Some(i);
        }
        i += 1;
    }
    proof {
        let view = fields_view(entries@);
        if has_key(view, key@) {
            let j = key_index(view, key@);
            assert(entries@[j].0@ == key@);
        }
    }
    None
}

/// Whether `texts` holds `text`.
fn holds_text(texts: &Vec<String>, text: &String) -> (found: bool)
    ensures
        found == texts_view(texts@).contains(text@),
{
    let mut i: usize = 0;
    while i < texts.len()
        invariant
            i <= texts.len(),
            forall|j: int| 0 <= j < i ==> (#[trigger] texts@[j])@ != text@,
        decreases texts.len() - i,
    {
        if texts[i] == *text {
            assert(texts_view(texts@)[i as int] == text@);
            return true;
        }
        i += 1;
    }
    false
}

impl ShapeDescriptor {
    /// A copy of the whole descriptor.
    pub fn duplicate(&self) -> (copy: ShapeDescriptor)
        ensures
            copy@ == self@,
        decreases self,
    {
        match self {
            ShapeDescriptor::Unknown => ShapeDescriptor::Unknown,
            ShapeDescriptor::Skip => ShapeDescriptor::Skip,
            ShapeDescriptor::Boolean => ShapeDescriptor::Boolean,
            ShapeDescriptor::Color => ShapeDescriptor::Color,
            ShapeDescriptor::Integer { min, max } => ShapeDescriptor::Integer { min: *min, max: *max },
            ShapeDescriptor::Float { min, max } => ShapeDescriptor::Float { min: *min, max: *max },
            ShapeDescriptor::StringSet(texts) => {
                let mut out: Vec<String> = Vec::new();
                let mut i: usize = 0;
                while i < texts.len()
                    invariant
                        i <= texts.len(),
                        out@.len() == i,
                        forall|j: int| 0 <= j < i ==> (#[trigger] out@[j])@ == texts@[j]@,
                    decreases texts.len() - i,
                {
                    out.push(texts[i].clone());
                    i += 1;
                }
                proof {
                    lemma_string_set_shape(out);
                    lemma_string_set_shape(*texts);
                    assert(texts_view(out@) =~= texts_view(texts@));
                }
                ShapeDescriptor::StringSet(out)
            },
            ShapeDescriptor::Object(entries) => {
                let mut out: Vec<(String, ShapeDescriptor)> = Vec::new();
                let mut i: usize = 0;
                while i < entries.len()
                    invariant
                        i <= entries.len(),
                        decreases_to!(self => entries),
                        out@.len() == i,
                        forall|j: int|
                            0 <= j < i ==> (#[trigger] out@[j]).0@ == entries@[j].0@ && out@[j].1@
                                == entries@[j].1@,
                    decreases entries.len() - i,
                {
                    assert(decreases_to!(*entries => entries[i as int]));
                    assert(decreases_to!(entries[i as int] => entries[i as int].1));
                    let value = entries[i].1.duplicate();
                    out.push((entries[i].0.clone(), value));
                    i += 1;
                }
                proof {
                    lemma_object_shape(out);
                    lemma_object_shape(*entries);
                    assert(fields_view(out@) =~= fields_view(entries@));
                }
                ShapeDescriptor::Object(out)
            },
            ShapeDescriptor::Array(items) => {
                let out = Self::copies(self, items);
                proof {
                    lemma_shapes_seq(out);
                    lemma_shapes_seq(*items);
                }
                ShapeDescriptor::Array(out)
            },
            ShapeDescriptor::Multiple(items) => {
                let out = Self::copies(self, items);
                proof {
                    lemma_shapes_seq(out);
                    lemma_shapes_seq(*items);
                }
                ShapeDescriptor::Multiple(out)
            },
            ShapeDescriptor::ListOrEmptyObject(items) => {
                let out = Self::copies(self, items);
                proof {
                    lemma_shapes_seq(out);
                    lemma_shapes_seq(*items);
                }
                ShapeDescriptor::ListOrEmptyObject(out)
            },
        }
    }

    /// Copies of the elements `items` of `parent`.
    fn copies(parent: &ShapeDescriptor, items: &Vec<ShapeDescriptor>) -> (out: Vec<ShapeDescriptor>)
        requires
            decreases_to!(parent => items),
        ensures
            shapes_view(out@) == shapes_view(items@),
        decreases parent, 0nat,
    {
        let mut out: Vec<ShapeDescriptor> = Vec::new();
        let mut i: usize = 0;
        while i < items.len()
            invariant
                i <= items.len(),
                decreases_to!(parent => items),
                out@.len() == i,
                forall|j: int| 0 <= j < i ==> (#[trigger] out@[j])@ == items@[j]@,
            decreases items.len() - i,
        {
            assert(decreases_to!(*items => items[i as int]));
            let copy = items[i].duplicate();
            out.push(copy);
            i += 1;
        }
        assert(shapes_view(out@) =~= shapes_view(items@));
        out
    }
}

impl ShapeDescriptor {
    /// Merges what was known of a field with the shape of one more sample.
    pub fn merge(existing: &ShapeDescriptor, incoming: &ShapeDescriptor) -> (out: ShapeDescriptor)
        ensures
            out@ == merged(existing@, incoming@),
            well_formed(existing@) && well_formed(incoming@) ==> well_formed(out@),
        decreases existing,
    {
        proof {
            if well_formed(existing@) && well_formed(incoming@) {
                crate::lattice::proofs::lemma_merged_well_formed(existing@, incoming@);
            }
        }
        match existing {
            ShapeDescriptor::Unknown => {
                return incoming.duplicate();
            },
            _ => {},
        }
        match incoming {
            ShapeDescriptor::Unknown => {
                return existing.duplicate();
            },
            _ => {},
        }
        match (existing, incoming) {
            (ShapeDescriptor::Object(a), ShapeDescriptor::Object(b)) => {
                proof {
                    lemma_object_shape(*a);
                    lemma_object_shape(*b);
                }
                let ghost av = fields_view(a@);
                let ghost bv = fields_view(b@);
                let ghost first = Seq::new(
                    av.len(),
                    |i: int|
                        if 0 <= i < av.len() {
                            if has_key(bv, av[i].0) {
                                (av[i].0, merged(av[i].1, bv[first_index(bv, av[i].0, 0)].1))
                            } else {
                                av[i]
                            }
                        } else {
                            (Seq::empty(), Shape::Unknown)
                        },
                );
                let mut out: Vec<(String, ShapeDescriptor)> = Vec::new();
                let mut i: usize = 0;
                while i < a.len()
                    invariant
                        i <= a.len(),
                        decreases_to!(existing => a),
                        av == fields_view(a@),
                        bv == fields_view(b@),
                        first.len() == av.len(),
                        forall|k: int|
                            0 <= k < av.len() ==> #[trigger] first[k] == (if has_key(bv, av[k].0) {
                                (av[k].0, merged(av[k].1, bv[first_index(bv, av[k].0, 0)].1))
                            } else {
                                av[k]
                            }),
                        fields_view(out@) == first.take(i as int),
                    decreases a.len() - i,
                {
                    let ghost before = fields_view(out@);
                    assert(av[i as int] == (a@[i as int].0@, a@[i as int].1@));
                    match find_key(b, &a[i].0) {
                        Some(j) => {
                            assert(bv[j as int] == (b@[j as int].0@, b@[j as int].1@));
                            assert(has_key(bv, av[i as int].0));
                            assert(decreases_to!(*a => a[i as int]));
                            assert(decreases_to!(a[i as int] => a[i as int].1));
                            let value = ShapeDescriptor::merge(&a[i].1, &b[j].1);
                            out.push((a[i].0.clone(), value));
                        },
                        None => {
                            let value = a[i].1.duplicate();
                            out.push((a[i].0.clone(), value));
                        },
                    }
                    assert(fields_view(out@) =~= before.push(first[i as int]));
                    assert(first.take(i + 1) =~= first.take(i as int).push(first[i as int]));
                    i += 1;
                }
                assert(first.take(i as int) =~= first);
                let mut j: usize = 0;
                while j < b.len()
                    invariant
                        j <= b.len(),
                        av == fields_view(a@),
                        bv == fields_view(b@),
                        fields_view(out@) == first + new_entries(bv, av, j as int),
                    decreases b.len() - j,
                {
                    let ghost before = fields_view(out@);
                    assert(bv[j as int] == (b@[j as int].0@, b@[j as int].1@));
                    match find_key(a, &b[j].0) {
                        Some(at) => {
                            assert(av[at as int].0 == bv[j as int].0);
                            assert(has_key(av, bv[j as int].0));
                        },
                        None => {
                            let value = b[j].1.duplicate();
                            out.push((b[j].0.clone(), value));
                            assert(fields_view(out@) =~= before.push(bv[j as int]));
                        },
                    }
                    j += 1;
                }
                proof {
                    lemma_object_shape(out);
                    assert(merged(existing@, incoming@)->Object_0 =~= first + new_entries(
                        bv,
                        av,
                        bv.len() as int,
                    ));
                }
                ShapeDescriptor::Object(out)
            },
            (ShapeDescriptor::StringSet(a), ShapeDescriptor::StringSet(b)) => {
                proof {
                    lemma_string_set_shape(*a);
                    lemma_string_set_shape(*b);
                }
                let ghost av = texts_view(a@);
                let ghost bv = texts_view(b@);
                let mut out: Vec<String> = Vec::new();
                let mut i: usize = 0;
                while i < a.len()
                    invariant
                        i <= a.len(),
                        av == texts_view(a@),
                        texts_view(out@) == av.take(i as int),
                    decreases a.len() - i,
                {
                    let ghost before = texts_view(out@);
                    out.push(a[i].clone());
                    assert(texts_view(out@) =~= before.push(av[i as int]));
                    assert(av.take(i + 1) =~= av.take(i as int).push(av[i as int]));
                    i += 1;
                }
                assert(av.take(i as int) =~= av);
                let mut j: usize = 0;
                while j < b.len()
                    invariant
                        j <= b.len(),
                        av == texts_view(a@),
                        bv == texts_view(b@),
                        texts_view(out@) == av + new_texts(bv, av, j as int),
                    decreases b.len() - j,
                {
                    let ghost before = texts_view(out@);
                    assert(bv[j as int] == b@[j as int]@);
                    if !holds_text(a, &b[j]) {
                        out.push(b[j].clone());
                        assert(texts_view(out@) =~= before.push(bv[j as int]));
                    }
                    j += 1;
                }
                proof {
                    lemma_string_set_shape(out);
                }
                ShapeDescriptor::StringSet(out)
            },
            (ShapeDescriptor::Array(a), ShapeDescriptor::Array(b)) => {
                let mut out: Vec<ShapeDescriptor> = Vec::new();
                append_copies(&mut out, a);
                append_copies(&mut out, b);
                proof {
                    lemma_shapes_seq(*a);
                    lemma_shapes_seq(*b);
                    lemma_shapes_seq(out);
                    assert(shapes_view(out@) =~= shapes_view(a@) + shapes_view(b@));
                }
                ShapeDescriptor::Array(out)
            },
            (
                ShapeDescriptor::Integer { min: a, max: b },
                ShapeDescriptor::Integer { min: c, max: d },
            ) => ShapeDescriptor::Integer {
                min: if *a <= *c {
                    *a
                } else {
                    *c
                },
                max: if *b >= *d {
                    *b
                } else {
                    *d
                },
            },
            (
                ShapeDescriptor::Integer { min: a, max: b },
                ShapeDescriptor::Float { min: c, max: d },
            ) => {
                let low = key_from_int(*a);
                let high = key_from_int(*b);
                ShapeDescriptor::Float {
                    min: if low <= *c {
                        low
                    } else {
                        *c
                    },
                    max: if high >= *d {
                        high
                    } else {
                        *d
                    },
                }
            },
            (
                ShapeDescriptor::Float { min: a, max: b },
                ShapeDescriptor::Integer { min: c, max: d },
            ) => {
                let low = key_from_int(*c);
                let high = key_from_int(*d);
                ShapeDescriptor::Float {
                    min: if *a <= low {
                        *a
                    } else {
                        low
                    },
                    max: if *b >= high {
                        *b
                    } else {
                        high
                    },
                }
            },
            (
                ShapeDescriptor::Float { min: a, max: b },
                ShapeDescriptor::Float { min: c, max: d },
            ) => ShapeDescriptor::Float {
                min: if *a <= *c {
                    *a
                } else {
                    *c
                },
                max: if *b >= *d {
                    *b
                } else {
                    *d
                },
            },
            (ShapeDescriptor::Boolean, ShapeDescriptor::Boolean) => ShapeDescriptor::Boolean,
            (ShapeDescriptor::Multiple(members), x) => {
                let mut out: Vec<ShapeDescriptor> = Vec::new();
                append_copies(&mut out, members);
                let ghost before = shapes_view(out@);
                out.push(x.duplicate());
                proof {
                    lemma_shapes_seq(*members);
                    lemma_shapes_seq(out);
                    assert(shapes_view(out@) =~= shapes_view(members@).push(x@));
                }
                ShapeDescriptor::Multiple(out)
            },
            (x, y) => {
                let mut out: Vec<ShapeDescriptor> = Vec::new();
                out.push(x.duplicate());
                out.push(y.duplicate());
                proof {
                    lemma_shapes_seq(out);
                    assert(shapes_view(out@) =~= seq![x@, y@]);
                }
                ShapeDescriptor::Multiple(out)
            },
        }
    }
}

/// Decides [`distinct_keys`].
fn keys_are_distinct(entries: &Vec<(String, ShapeDescriptor)>) -> (yes: bool)
    ensures
        yes == distinct_keys(fields_view(entries@)),
{
    let ghost view = fields_view(entries@);
    let mut i: usize = 0;
    while i < entries.len()
        invariant
            i <= entries.len(),
            view == fields_view(entries@),
            forall|a: int, b: int|
                0 <= a < i && 0 <= b < i && a != b ==> (#[trigger] view[a]).0 != (#[trigger] view[b]).0,
        decreases entries.len() - i,
    {
        let mut j: usize = 0;
        while j < i
            invariant
                j <= i < entries.len(),
                view == fields_view(entries@),
                forall|b: int| 0 <= b < j ==> (#[trigger] view[b]).0 != view[i as int].0,
            decreases i - j,
        {
            if entries[j].0 == entries[i].0 {
                assert(view[j as int].0 == view[i as int].0);
                return false;
            }
            j += 1;
        }
        i += 1;
    }
    true
}

impl ShapeDescriptor {
    /// Whether no object of the descriptor has a key twice.
    pub fn is_well_formed(&self) -> (yes: bool)
        ensures
            yes == well_formed(self@),
        decreases self,
    {
        match self {
            ShapeDescriptor::Object(entries) => {
                proof {
                    lemma_object_shape(*entries);
                }
                if !keys_are_distinct(entries) {
                    return false;
                }
                let ghost view = fields_view(entries@);
                let mut i: usize = 0;
                while i < entries.len()
                    invariant
                        i <= entries.len(),
                        decreases_to!(self => entries),
                        view == fields_view(entries@),
                        self@ == Shape::Object(view),
                        distinct_keys(view),
                        forall|k: int| 0 <= k < i ==> well_formed((#[trigger] view[k]).1),
                    decreases entries.len() - i,
                {
                    assert(decreases_to!(*entries => entries[i as int]));
                    assert(decreases_to!(entries[i as int] => entries[i as int].1));
                    assert(view[i as int].1 == entries@[i as int].1@);
                    if !entries[i].1.is_well_formed() {
                        return false;
                    }
                    i += 1;
                }
                true
            },
            ShapeDescriptor::Array(items) => {
                proof {
                    lemma_shapes_seq(*items);
                }
                let yes = Self::all_well_formed(self, items);
                proof {
                    let shapes = shapes_view(items@);
                    assert(self@->Array_0 == shapes);
                }
                yes
            },
            ShapeDescriptor::Multiple(items) => {
                proof {
                    lemma_shapes_seq(*items);
                }
                let yes = Self::all_well_formed(self, items);
                proof {
                    let shapes = shapes_view(items@);
                    assert(self@->Multiple_0 == shapes);
                }
                yes
            },
            ShapeDescriptor::ListOrEmptyObject(items) => {
                proof {
                    lemma_shapes_seq(*items);
                }
                let yes = Self::all_well_formed(self, items);
                proof {
                    let shapes = shapes_view(items@);
                    assert(self@->ListOrEmptyObject_0 == shapes);
                }
                yes
            },
            _ => true,
        }
    }

    /// Whether the elements `items` of `parent` are all well formed.
    fn all_well_formed(parent: &ShapeDescriptor, items: &Vec<ShapeDescriptor>) -> (yes: bool)
        requires
            decreases_to!(parent => items),
        ensures
            yes ==> forall|i: int|
                0 <= i < items@.len() ==> well_formed(#[trigger] shapes_view(items@)[i]),
            !yes ==> exists|i: int|
                0 <= i < items@.len() && !well_formed(#[trigger] shapes_view(items@)[i]),
        decreases parent, 0nat,
    {
        let mut i: usize = 0;
        while i < items.len()
            invariant
                i <= items.len(),
                decreases_to!(parent => items),
                forall|k: int| 0 <= k < i ==> well_formed(#[trigger] shapes_view(items@)[k]),
            decreases items.len() - i,
        {
            assert(decreases_to!(*items => items[i as int]));
            assert(shapes_view(items@)[i as int] == items@[i as int]@);
            if !items[i].is_well_formed() {
                return false;
            }
            i += 1;
        }
        true
    }
}

} // verus!
