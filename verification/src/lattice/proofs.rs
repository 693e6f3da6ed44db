use crate::lattice::collapse::{
    all_color_shaped, all_list_like, any_array, any_empty_object, collapsed, collapsed_all, collapsed_fields,
    collapsed_member, collapsed_members, elements_of, flattened, is_dynamic, resolved_array,
    resolved_multiple, AmbiguityView,
};
use crate::lattice::shape::{
    distinct_keys, first_index, has_key, key_index, lemma_first_is_only, merged, new_entries,
    new_texts, well_formed, Shape,
};
use vstd::multiset::Multiset;
use vstd::prelude::*;

verus! {

/// A shape without the order in which its parts were seen: the strings of a string set are a
/// set, the fields of an object a map, and the elements of an array, the members of a
/// `Multiple` and the elements of a list-or-empty-object are bags.
pub enum Unordered {
    Unknown,
    Skip,
    StringSet(Set<Seq<char>>),
    Boolean,
    Integer { min: int, max: int },
    Float { min: int, max: int },
    Object(Map<Seq<char>, Unordered>),
    Array(Multiset<Unordered>),
    Multiple(Multiset<Unordered>),
    ListOrEmptyObject(Multiset<Unordered>),
    Color,
}

/// The shape without its order.
pub open spec fn unordered(shape: Shape) -> Unordered
    decreases shape, 0nat,
{
    match shape {
        Shape::Unknown => Unordered::Unknown,
        Shape::Skip => Unordered::Skip,
        Shape::StringSet(texts) => Unordered::StringSet(texts.to_set()),
        Shape::Boolean => Unordered::Boolean,
        Shape::Integer { min, max } => Unordered::Integer { min, max },
        Shape::Float { min, max } => Unordered::Float { min, max },
        Shape::Object(entries) => Unordered::Object(
            Map::new(
                |key: Seq<char>| has_key(entries, key),
                |key: Seq<char>|
                    {
                        let at = key_index(entries, key);
                        if 0 <= at < entries.len() {
                            unordered(entries[at].1)
                        } else {
                            Unordered::Unknown
                        }
                    },
            ),
        ),
        Shape::Array(items) => Unordered::Array(bag_of(items)),
        Shape::Multiple(items) => Unordered::Multiple(bag_of(items)),
        Shape::ListOrEmptyObject(items) => Unordered::ListOrEmptyObject(bag_of(items)),
        Shape::Color => Unordered::Color,
    }
}

/// The shapes of a sequence as a bag, each without its order.
pub open spec fn bag_of(items: Seq<Shape>) -> Multiset<Unordered>
    decreases items,
{
    if items.len() == 0 {
        Multiset::empty()
    } else {
        bag_of(items.drop_last()).insert(unordered(items.last()))
    }
}

/// Two outcomes of a collapse are alike where both fail, or both succeed with shapes that are
/// the same but for the order of their parts.
pub open spec fn alike(
    left: Result<Shape, AmbiguityView>,
    right: Result<Shape, AmbiguityView>,
) -> bool {
    match (left, right) {
        (Ok(x), Ok(y)) => unordered(x) == unordered(y),
        (Err(_), Err(_)) => true,
        _ => false,
    }
}

/// The bag of two sequences, one after the other, is the sum of their bags.
pub proof fn lemma_bag_of_concat(x: Seq<Shape>, y: Seq<Shape>)
    ensures
        bag_of(x + y) == bag_of(x).add(bag_of(y)),
    decreases y.len(),
{
    if y.len() == 0 {
        assert(x + y =~= x);
        assert(bag_of(x).add(bag_of(y)) =~= bag_of(x));
    } else {
        assert((x + y).drop_last() =~= x + y.drop_last());
        assert((x + y).last() == y.last());
        lemma_bag_of_concat(x, y.drop_last());
        assert(bag_of(x + y) =~= bag_of(x).add(bag_of(y)));
    }
}

/// The bag of two sequences does not depend on which of them comes first.
pub proof fn lemma_bag_of_swap(x: Seq<Shape>, y: Seq<Shape>)
    ensures
        bag_of(x + y) == bag_of(y + x),
{
    lemma_bag_of_concat(x, y);
    lemma_bag_of_concat(y, x);
    assert(bag_of(x).add(bag_of(y)) =~= bag_of(y).add(bag_of(x)));
}

/// The elements of two runs of shapes are the elements of the first, then those of the second.
pub proof fn lemma_elements_of_concat(x: Seq<Shape>, y: Seq<Shape>)
    ensures
        elements_of(x + y) == elements_of(x) + elements_of(y),
    decreases y.len(),
{
    if y.len() == 0 {
        assert(x + y =~= x);
        assert(elements_of(x) + elements_of(y) =~= elements_of(x));
    } else {
        assert((x + y).drop_last() =~= x + y.drop_last());
        assert((x + y).last() == y.last());
        lemma_elements_of_concat(x, y.drop_last());
        let tail = match y.last() {
            Shape::Array(items) => items,
            _ => Seq::empty(),
        };
        assert(elements_of(x + y) =~= elements_of(x) + (elements_of(y.drop_last()) + tail));
    }
}

/// Two runs of shapes flatten to the first flattened, then the second.
pub proof fn lemma_flattened_concat(x: Seq<Shape>, y: Seq<Shape>)
    ensures
        flattened(x + y) == flattened(x) + flattened(y),
    decreases y.len(),
{
    if y.len() == 0 {
        assert(x + y =~= x);
        assert(flattened(x) + flattened(y) =~= flattened(x));
    } else {
        assert((x + y).drop_last() =~= x + y.drop_last());
        assert((x + y).last() == y.last());
        lemma_flattened_concat(x, y.drop_last());
        let tail = match y.last() {
            Shape::Array(items) => items,
            other => seq![other],
        };
        assert(flattened(x + y) =~= flattened(x) + (flattened(y.drop_last()) + tail));
    }
}

/// An array resolves alike whichever of two runs of elements comes first.
pub proof fn lemma_resolved_array_swap(x: Seq<Shape>, y: Seq<Shape>)
    ensures
        unordered(resolved_array(x + y)) == unordered(resolved_array(y + x)),
{
    lemma_swap_holds_all(x, y);
    lemma_swap_holds_all(y, x);
    lemma_same_members_same_answers(x + y, y + x);
    lemma_bag_of_swap(x, y);
}

/// Whether `right` holds every shape of `left`.
pub open spec fn holds_all(left: Seq<Shape>, right: Seq<Shape>) -> bool {
    forall|i: int| 0 <= i < left.len() ==> right.contains(#[trigger] left[i])
}

/// Two runs put together hold the same shapes whichever comes first.
pub proof fn lemma_swap_holds_all(x: Seq<Shape>, y: Seq<Shape>)
    ensures
        holds_all(x + y, y + x),
{
    let l = x + y;
    let r = y + x;
    assert forall|i: int| 0 <= i < l.len() implies r.contains(#[trigger] l[i]) by {
        if i < x.len() {
            assert(r[y.len() + i] == l[i]);
        } else {
            assert(r[i - x.len()] == l[i]);
        }
    }
}

/// What is asked of every member, or of some member, of a `Multiple` is asked alike of two
/// sequences that hold the same shapes.
pub proof fn lemma_same_members_same_answers(l: Seq<Shape>, r: Seq<Shape>)
    requires
        holds_all(l, r),
        holds_all(r, l),
    ensures
        all_color_shaped(l) == all_color_shaped(r),
        all_list_like(l) == all_list_like(r),
        any_array(l) == any_array(r),
        any_empty_object(l) == any_empty_object(r),
{
    lemma_every(l, r);
    lemma_every(r, l);
    lemma_some(l, r);
    lemma_some(r, l);
}

proof fn lemma_every(l: Seq<Shape>, r: Seq<Shape>)
    requires
        holds_all(r, l),
    ensures
        all_color_shaped(l) ==> all_color_shaped(r),
        all_list_like(l) ==> all_list_like(r),
{
    if all_color_shaped(l) {
        assert forall|i: int| 0 <= i < r.len() implies crate::lattice::collapse::color_shaped(
            #[trigger] r[i],
        ) by {
            assert(l.contains(r[i]));
            let j = choose|j: int| 0 <= j < l.len() && l[j] == r[i];
            assert(crate::lattice::collapse::color_shaped(l[j]));
        }
    }
    if all_list_like(l) {
        assert forall|i: int| 0 <= i < r.len() implies crate::lattice::collapse::list_like(
            #[trigger] r[i],
        ) by {
            assert(l.contains(r[i]));
            let j = choose|j: int| 0 <= j < l.len() && l[j] == r[i];
            assert(crate::lattice::collapse::list_like(l[j]));
        }
    }
}

proof fn lemma_some(l: Seq<Shape>, r: Seq<Shape>)
    requires
        holds_all(l, r),
    ensures
        any_array(l) ==> any_array(r),
        any_empty_object(l) ==> any_empty_object(r),
{
    if any_array(l) {
        let i = choose|i: int| 0 <= i < l.len() && #[trigger] l[i] is Array;
        assert(r.contains(l[i]));
        let j = choose|j: int| 0 <= j < r.len() && r[j] == l[i];
        assert(r[j] is Array);
    }
    if any_empty_object(l) {
        let i = choose|i: int|
            0 <= i < l.len() && crate::lattice::collapse::empty_object(#[trigger] l[i]);
        assert(r.contains(l[i]));
        let j = choose|j: int| 0 <= j < r.len() && r[j] == l[i];
        assert(crate::lattice::collapse::empty_object(r[j]));
    }
}

/// A `Multiple` resolves alike whichever of two runs of members comes first.
pub proof fn lemma_resolved_multiple_swap(x: Seq<Shape>, y: Seq<Shape>, path: Seq<Seq<char>>)
    ensures
        alike(resolved_multiple(x + y, path), resolved_multiple(y + x, path)),
{
    lemma_swap_holds_all(x, y);
    lemma_swap_holds_all(y, x);
    lemma_same_members_same_answers(x + y, y + x);
    lemma_elements_of_concat(x, y);
    lemma_elements_of_concat(y, x);
    lemma_bag_of_swap(elements_of(x), elements_of(y));
    lemma_flattened_concat(x, y);
    lemma_flattened_concat(y, x);
    lemma_resolved_array_swap(flattened(x), flattened(y));
}

/// Two outcomes one after the other: the first failure, or the two sequences joined.
pub open spec fn joined(
    first: Result<Seq<Shape>, AmbiguityView>,
    second: Result<Seq<Shape>, AmbiguityView>,
) -> Result<Seq<Shape>, AmbiguityView> {
    match first {
        Err(e) => Err(e),
        Ok(x) => match second {
            Err(e) => Err(e),
            Ok(y) => Ok(x + y),
        },
    }
}

/// Two runs of elements collapse one after the other.
pub proof fn lemma_collapsed_all_concat(
    x: Seq<Shape>,
    y: Seq<Shape>,
    path: Seq<Seq<char>>,
    dynamic: Seq<Seq<char>>,
)
    ensures
        collapsed_all(x + y, path, dynamic) == joined(
            collapsed_all(x, path, dynamic),
            collapsed_all(y, path, dynamic),
        ),
    decreases y.len(),
{
    if y.len() == 0 {
        assert(x + y =~= x);
        if let Ok(cx) = collapsed_all(x, path, dynamic) {
            assert(cx + Seq::<Shape>::empty() =~= cx);
        }
    } else {
        assert((x + y).drop_last() =~= x + y.drop_last());
        assert((x + y).last() == y.last());
        lemma_collapsed_all_concat(x, y.drop_last(), path, dynamic);
        if let Ok(cx) = collapsed_all(x, path, dynamic) {
            if let Ok(cy) = collapsed_all(y.drop_last(), path, dynamic) {
                if let Ok(c) = collapsed(y.last(), path, dynamic) {
                    assert((cx + cy).push(c) =~= cx + cy.push(c));
                }
            }
        }
    }
}

/// Two runs of members collapse one after the other.
pub proof fn lemma_collapsed_members_concat(
    x: Seq<Shape>,
    y: Seq<Shape>,
    path: Seq<Seq<char>>,
    dynamic: Seq<Seq<char>>,
)
    ensures
        collapsed_members(x + y, path, dynamic) == joined(
            collapsed_members(x, path, dynamic),
            collapsed_members(y, path, dynamic),
        ),
    decreases y.len(),
{
    if y.len() == 0 {
        assert(x + y =~= x);
        if let Ok(cx) = collapsed_members(x, path, dynamic) {
            assert(cx + Seq::<Shape>::empty() =~= cx);
        }
    } else {
        assert((x + y).drop_last() =~= x + y.drop_last());
        assert((x + y).last() == y.last());
        lemma_collapsed_members_concat(x, y.drop_last(), path, dynamic);
        if let Ok(cx) = collapsed_members(x, path, dynamic) {
            if let Ok(cy) = collapsed_members(y.drop_last(), path, dynamic) {
                if let Ok(more) = collapsed_member(y.last(), path, dynamic) {
                    assert((cx + cy) + more =~= cx + (cy + more));
                }
            }
        }
    }
}

/// The members of a `Multiple` of one shape are what that shape gives as a member.
pub proof fn lemma_collapsed_members_single(
    member: Shape,
    path: Seq<Seq<char>>,
    dynamic: Seq<Seq<char>>,
)
    ensures
        collapsed_members(seq![member], path, dynamic) == collapsed_member(member, path, dynamic),
{
    let s = seq![member];
    assert(s.drop_last() =~= Seq::<Shape>::empty());
    assert(s.last() == member);
    assert(collapsed_members(s.drop_last(), path, dynamic) == Ok::<Seq<Shape>, AmbiguityView>(
        Seq::empty(),
    ));
    if let Ok(more) = collapsed_member(member, path, dynamic) {
        assert(Seq::<Shape>::empty() + more =~= more);
    }
}

/// What the collapse of the fields of an object gives, field by field.
pub proof fn lemma_collapsed_fields(
    entries: Seq<(Seq<char>, Shape)>,
    path: Seq<Seq<char>>,
    dynamic: Seq<Seq<char>>,
)
    ensures
        match collapsed_fields(entries, path, dynamic) {
            Ok(out) => out.len() == entries.len() && forall|i: int|
                0 <= i < entries.len() ==> (#[trigger] out[i]).0 == entries[i].0 && (if is_dynamic(
                    entries[i].0,
                    dynamic,
                ) {
                    out[i].1 == Shape::Skip
                } else {
                    collapsed(entries[i].1, path.push(entries[i].0), dynamic) == Ok::<
                        Shape,
                        AmbiguityView,
                    >(out[i].1)
                }),
            Err(_) => exists|i: int|
                0 <= i < entries.len() && !is_dynamic((#[trigger] entries[i]).0, dynamic)
                    && collapsed(entries[i].1, path.push(entries[i].0), dynamic) is Err,
        },
    decreases entries.len(),
{
    if entries.len() > 0 {
        let before = entries.drop_last();
        lemma_collapsed_fields(before, path, dynamic);
        match collapsed_fields(before, path, dynamic) {
            Err(_) => {
                let i = choose|i: int|
                    0 <= i < before.len() && !is_dynamic((#[trigger] before[i]).0, dynamic)
                        && collapsed(before[i].1, path.push(before[i].0), dynamic) is Err;
                assert(entries[i] == before[i]);
            },
            Ok(sofar) => {
                let last = entries.len() - 1;
                match collapsed_fields(entries, path, dynamic) {
                    Ok(out) => {
                        assert forall|i: int| 0 <= i < entries.len() implies (#[trigger] out[i]).0
                            == entries[i].0 && (if is_dynamic(entries[i].0, dynamic) {
                            out[i].1 == Shape::Skip
                        } else {
                            collapsed(entries[i].1, path.push(entries[i].0), dynamic) == Ok::<
                                Shape,
                                AmbiguityView,
                            >(out[i].1)
                        }) by {
                            if i < last {
                                assert(out[i] == sofar[i]);
                                assert(entries[i] == before[i]);
                            }
                        }
                    },
                    Err(_) => {
                        assert(!is_dynamic(entries[last].0, dynamic));
                        assert(collapsed(entries[last].1, path.push(entries[last].0), dynamic) is Err);
                    },
                }
            },
        }
    }
}

/// What [`new_entries`] holds: the entries of `more` whose keys `seen` lacks.
pub proof fn lemma_new_entries(
    more: Seq<(Seq<char>, Shape)>,
    seen: Seq<(Seq<char>, Shape)>,
    upto: int,
)
    requires
        0 <= upto <= more.len(),
    ensures
        forall|t: int|
            0 <= t < new_entries(more, seen, upto).len() ==> exists|j: int|
                0 <= j < upto && more[j] == #[trigger] new_entries(more, seen, upto)[t] && !has_key(
                    seen,
                    more[j].0,
                ),
        forall|j: int|
            0 <= j < upto && !has_key(seen, (#[trigger] more[j]).0) ==> exists|t: int|
                0 <= t < new_entries(more, seen, upto).len() && new_entries(more, seen, upto)[t]
                    == more[j],
        distinct_keys(more) ==> distinct_keys(new_entries(more, seen, upto)),
    decreases upto,
{
    if upto > 0 {
        lemma_new_entries(more, seen, upto - 1);
        let before = new_entries(more, seen, upto - 1);
        let now = new_entries(more, seen, upto);
        assert forall|t: int| 0 <= t < now.len() implies exists|j: int|
            0 <= j < upto && more[j] == #[trigger] now[t] && !has_key(seen, more[j].0) by {
            if t < before.len() {
                assert(now[t] == before[t]);
                let j = choose|j: int|
                    0 <= j < upto - 1 && more[j] == before[t] && !has_key(seen, more[j].0);
                assert(0 <= j < upto && more[j] == now[t]);
            } else {
                assert(more[upto - 1] == now[t]);
            }
        }
        assert forall|j: int| 0 <= j < upto && !has_key(seen, (#[trigger] more[j]).0) implies exists|
            t: int,
        | 0 <= t < now.len() && now[t] == more[j] by {
            if j < upto - 1 {
                let t = choose|t: int| 0 <= t < before.len() && before[t] == more[j];
                assert(now[t] == more[j]);
            } else {
                assert(now[now.len() - 1] == more[j]);
            }
        }
        if distinct_keys(more) {
            assert forall|s: int, t: int|
                0 <= s < now.len() && 0 <= t < now.len() && s != t implies (#[trigger] now[s]).0 != (
                #[trigger] now[t]).0 by {
                if s < before.len() && t < before.len() {
                    assert(now[s] == before[s] && now[t] == before[t]);
                } else if s < before.len() {
                    assert(now[s] == before[s]);
                    let j = choose|j: int|
                        0 <= j < upto - 1 && more[j] == before[s] && !has_key(seen, more[j].0);
                    assert(now[t] == more[upto - 1]);
                } else if t < before.len() {
                    assert(now[t] == before[t]);
                    let j = choose|j: int|
                        0 <= j < upto - 1 && more[j] == before[t] && !has_key(seen, more[j].0);
                    assert(now[s] == more[upto - 1]);
                }
            }
        }
    }
}

/// What [`new_texts`] holds: the texts of `more` that `seen` lacks.
pub proof fn lemma_new_texts(more: Seq<Seq<char>>, seen: Seq<Seq<char>>, upto: int)
    requires
        0 <= upto <= more.len(),
    ensures
        forall|text: Seq<char>| #[trigger]
            new_texts(more, seen, upto).contains(text) <==> !seen.contains(text) && exists|j: int|
                0 <= j < upto && more[j] == text,
    decreases upto,
{
    if upto > 0 {
        lemma_new_texts(more, seen, upto - 1);
        let before = new_texts(more, seen, upto - 1);
        let now = new_texts(more, seen, upto);
        assert forall|text: Seq<char>| #[trigger]
            now.contains(text) <==> !seen.contains(text) && exists|j: int|
                0 <= j < upto && more[j] == text by {
            if seen.contains(more[upto - 1]) {
                if !seen.contains(text) && exists|j: int| 0 <= j < upto && more[j] == text {
                    let j = choose|j: int| 0 <= j < upto && more[j] == text;
                    assert(j < upto - 1);
                }
            } else {
                if now.contains(text) {
                    let t = choose|t: int| 0 <= t < now.len() && now[t] == text;
                    if t < before.len() {
                        assert(before[t] == text);
                        assert(before.contains(text));
                    } else {
                        assert(more[upto - 1] == text);
                    }
                }
                if !seen.contains(text) && exists|j: int| 0 <= j < upto && more[j] == text {
                    let j = choose|j: int| 0 <= j < upto && more[j] == text;
                    if j < upto - 1 {
                        assert(before.contains(text));
                        let t = choose|t: int| 0 <= t < before.len() && before[t] == text;
                        assert(now[t] == text);
                    } else {
                        assert(now[now.len() - 1] == text);
                    }
                }
            }
        }
    }
}

/// The shape under `key` once two objects are merged: the merge of the two shapes where both
/// objects have the key, else the shape of the object that has it.
pub open spec fn merged_field(
    a: Seq<(Seq<char>, Shape)>,
    b: Seq<(Seq<char>, Shape)>,
    key: Seq<char>,
) -> Shape {
    if has_key(a, key) {
        if has_key(b, key) {
            merged(a[key_index(a, key)].1, b[key_index(b, key)].1)
        } else {
            a[key_index(a, key)].1
        }
    } else {
        b[key_index(b, key)].1
    }
}

/// The merge of two objects has each key of either object once, with [`merged_field`] under
/// it.
pub proof fn lemma_merged_object(a: Seq<(Seq<char>, Shape)>, b: Seq<(Seq<char>, Shape)>)
    requires
        distinct_keys(a),
        distinct_keys(b),
    ensures
        merged(Shape::Object(a), Shape::Object(b)) is Object,
        distinct_keys(merged(Shape::Object(a), Shape::Object(b))->Object_0),
        forall|key: Seq<char>| #[trigger]
            has_key(merged(Shape::Object(a), Shape::Object(b))->Object_0, key) <==> has_key(a, key)
                || has_key(b, key),
        forall|key: Seq<char>|
            has_key(merged(Shape::Object(a), Shape::Object(b))->Object_0, key) ==> merged(
                Shape::Object(a),
                Shape::Object(b),
            )->Object_0[key_index(merged(Shape::Object(a), Shape::Object(b))->Object_0, key)].1
                == #[trigger] merged_field(a, b, key),
{
    let m = merged(Shape::Object(a), Shape::Object(b))->Object_0;
    let n = new_entries(b, a, b.len() as int);
    lemma_new_entries(b, a, b.len() as int);
    assert(m.len() == a.len() + n.len());
    assert forall|i: int| 0 <= i < a.len() implies (#[trigger] m[i]).0 == a[i].0 && m[i].1 == (
    if has_key(b, a[i].0) {
        merged(a[i].1, b[key_index(b, a[i].0)].1)
    } else {
        a[i].1
    }) by {
        if has_key(b, a[i].0) {
            lemma_first_is_only(b, a[i].0);
        }
    }
    assert forall|i: int| a.len() <= i < m.len() implies exists|j: int|
        0 <= j < b.len() && b[j] == #[trigger] m[i] && !has_key(a, b[j].0) by {
        assert(m[i] == n[i - a.len()]);
    }
    assert forall|i: int, j: int|
        0 <= i < m.len() && 0 <= j < m.len() && i != j implies (#[trigger] m[i]).0 != (
    #[trigger] m[j]).0 by {
        if i < a.len() && j < a.len() {
        } else if i >= a.len() && j >= a.len() {
            assert(m[i] == n[i - a.len()]);
            assert(m[j] == n[j - a.len()]);
        } else if i < a.len() {
            assert(has_key(a, a[i].0));
        } else {
            assert(has_key(a, a[j].0));
        }
    }
    assert forall|key: Seq<char>| #[trigger] has_key(m, key) <==> has_key(a, key) || has_key(
        b,
        key,
    ) by {
        if has_key(m, key) {
            let i = key_index(m, key);
            if i < a.len() {
                assert(a[i].0 == key);
            } else {
                let j = choose|j: int| 0 <= j < b.len() && b[j] == m[i] && !has_key(a, b[j].0);
                assert(b[j].0 == key);
            }
        }
        if has_key(a, key) {
            let i = key_index(a, key);
            assert(m[i].0 == key);
        } else if has_key(b, key) {
            let j = key_index(b, key);
            let t = choose|t: int| 0 <= t < n.len() && n[t] == b[j];
            assert(m[a.len() + t] == n[t]);
            assert(m[a.len() + t].0 == key);
        }
    }
    assert forall|key: Seq<char>| has_key(m, key) implies m[key_index(m, key)].1
        == #[trigger] merged_field(a, b, key) by {
        let i = key_index(m, key);
        if i < a.len() {
            assert(a[i].0 == key);
            assert(has_key(a, key));
            assert(key_index(a, key) == i);
        } else {
            let j = choose|j: int| 0 <= j < b.len() && b[j] == m[i] && !has_key(a, b[j].0);
            assert(b[j].0 == key);
            assert(has_key(b, key));
            assert(key_index(b, key) == j);
        }
    }
}

/// Two objects collapse alike after merging in either order, where their fields do.
pub proof fn lemma_objects_alike(
    a: Seq<(Seq<char>, Shape)>,
    b: Seq<(Seq<char>, Shape)>,
    path: Seq<Seq<char>>,
    dynamic: Seq<Seq<char>>,
)
    requires
        distinct_keys(a),
        distinct_keys(b),
        forall|key: Seq<char>|
            has_key(a, key) || has_key(b, key) ==> alike(
                collapsed(#[trigger] merged_field(a, b, key), path.push(key), dynamic),
                collapsed(merged_field(b, a, key), path.push(key), dynamic),
            ),
    ensures
        alike(
            collapsed(merged(Shape::Object(a), Shape::Object(b)), path, dynamic),
            collapsed(merged(Shape::Object(b), Shape::Object(a)), path, dynamic),
        ),
{
    let m1 = merged(Shape::Object(a), Shape::Object(b))->Object_0;
    let m2 = merged(Shape::Object(b), Shape::Object(a))->Object_0;
    lemma_merged_object(a, b);
    lemma_merged_object(b, a);
    lemma_collapsed_fields(m1, path, dynamic);
    lemma_collapsed_fields(m2, path, dynamic);
    let r1 = collapsed_fields(m1, path, dynamic);
    let r2 = collapsed_fields(m2, path, dynamic);
    assert(collapsed(Shape::Object(m1), path, dynamic) is Err == r1 is Err);
    assert(collapsed(Shape::Object(m2), path, dynamic) is Err == r2 is Err);
    if r1 is Err {
        let i = choose|i: int|
            0 <= i < m1.len() && !is_dynamic((#[trigger] m1[i]).0, dynamic) && collapsed(
                m1[i].1,
                path.push(m1[i].0),
                dynamic,
            ) is Err;
        let key = m1[i].0;
        assert(has_key(m1, key));
        assert(key_index(m1, key) == i);
        assert(m1[i].1 == merged_field(a, b, key));
        assert(has_key(m2, key));
        let j = key_index(m2, key);
        assert(m2[j].1 == merged_field(b, a, key));
        assert(collapsed(m2[j].1, path.push(key), dynamic) is Err);
        if let Ok(out2) = r2 {
            assert(out2[j].0 == m2[j].0);
        }
        assert(r2 is Err);
    } else if r2 is Err {
        let i = choose|i: int|
            0 <= i < m2.len() && !is_dynamic((#[trigger] m2[i]).0, dynamic) && collapsed(
                m2[i].1,
                path.push(m2[i].0),
                dynamic,
            ) is Err;
        let key = m2[i].0;
        assert(has_key(m2, key));
        assert(key_index(m2, key) == i);
        assert(m2[i].1 == merged_field(b, a, key));
        assert(has_key(m1, key));
        let j = key_index(m1, key);
        assert(m1[j].1 == merged_field(a, b, key));
        assert(collapsed(m1[j].1, path.push(key), dynamic) is Err);
        if let Ok(out1) = r1 {
            assert(out1[j].0 == m1[j].0);
        }
        assert(false);
    } else {
        let out1 = r1->Ok_0;
        let out2 = r2->Ok_0;
        let u1 = unordered(Shape::Object(out1))->Object_0;
        let u2 = unordered(Shape::Object(out2))->Object_0;
        assert forall|key: Seq<char>| has_key(out1, key) <==> has_key(m1, key) by {
            if has_key(out1, key) {
                let i = key_index(out1, key);
                assert(m1[i].0 == key);
            }
            if has_key(m1, key) {
                let i = key_index(m1, key);
                assert(out1[i].0 == key);
            }
        }
        assert forall|key: Seq<char>| has_key(out2, key) <==> has_key(m2, key) by {
            if has_key(out2, key) {
                let i = key_index(out2, key);
                assert(m2[i].0 == key);
            }
            if has_key(m2, key) {
                let i = key_index(m2, key);
                assert(out2[i].0 == key);
            }
        }
        assert forall|key: Seq<char>| u1.dom().contains(key) implies u2.dom().contains(key) && u1[key]
            == u2[key] by {
            assert(has_key(out1, key));
            assert(has_key(m1, key));
            assert(has_key(m2, key));
            assert(has_key(out2, key));
            let i1 = key_index(out1, key);
            let i2 = key_index(out2, key);
            assert(out1[i1].0 == m1[i1].0);
            assert(out2[i2].0 == m2[i2].0);
            assert(key_index(m1, key) == i1);
            assert(key_index(m2, key) == i2);
            assert(m1[i1].1 == merged_field(a, b, key));
            assert(m2[i2].1 == merged_field(b, a, key));
        }
        assert forall|key: Seq<char>| u2.dom().contains(key) implies u1.dom().contains(key) by {
            assert(has_key(out2, key));
            assert(has_key(m2, key));
            assert(has_key(m1, key));
            assert(has_key(out1, key));
        }
        assert(u1 =~= u2);
    }
}

/// Two `Multiple`s collapse alike where the members of one are those of the other with two
/// runs exchanged.
pub proof fn lemma_multiples_alike(
    left: Seq<Shape>,
    right: Seq<Shape>,
    first: Result<Seq<Shape>, AmbiguityView>,
    second: Result<Seq<Shape>, AmbiguityView>,
    path: Seq<Seq<char>>,
    dynamic: Seq<Seq<char>>,
)
    requires
        collapsed_members(left, path, dynamic) == joined(first, second),
        collapsed_members(right, path, dynamic) == joined(second, first),
    ensures
        alike(
            collapsed(Shape::Multiple(left), path, dynamic),
            collapsed(Shape::Multiple(right), path, dynamic),
        ),
{
    if let Ok(x) = first {
        if let Ok(y) = second {
            lemma_resolved_multiple_swap(x, y, path);
        }
    }
}

/// Merging two string sets gives the same strings in either order.
pub proof fn lemma_string_sets_unite(a: Seq<Seq<char>>, b: Seq<Seq<char>>)
    ensures
        (a + new_texts(b, a, b.len() as int)).to_set() == a.to_set().union(b.to_set()),
{
    let n = new_texts(b, a, b.len() as int);
    lemma_new_texts(b, a, b.len() as int);
    let l = (a + n).to_set();
    let r = a.to_set().union(b.to_set());
    assert forall|text: Seq<char>| l.contains(text) <==> r.contains(text) by {
        if l.contains(text) {
            let i = choose|i: int| 0 <= i < (a + n).len() && (a + n)[i] == text;
            if i < a.len() {
                assert(a[i] == text);
                assert(a.contains(text));
            } else {
                assert(n[i - a.len()] == text);
                assert(n.contains(text));
                let j = choose|j: int| 0 <= j < b.len() && b[j] == text;
                assert(b.contains(text));
            }
        }
        if a.contains(text) {
            let i = choose|i: int| 0 <= i < a.len() && a[i] == text;
            assert((a + n)[i] == text);
        } else if b.contains(text) {
            let j = choose|j: int| 0 <= j < b.len() && b[j] == text;
            assert(n.contains(text));
            let t = choose|t: int| 0 <= t < n.len() && n[t] == text;
            assert((a + n)[a.len() + t] == text);
        }
    }
    assert(l =~= r);
}

/// Whether the lattice has a rule of its own for the pair: two objects, two string sets, two
/// arrays, two ranges of numbers, two booleans.
pub open spec fn go_together(a: Shape, b: Shape) -> bool {
    ||| a is Object && b is Object
    ||| a is StringSet && b is StringSet
    ||| a is Array && b is Array
    ||| (a is Integer || a is Float) && (b is Integer || b is Float)
    ||| a is Boolean && b is Boolean
}

/// Merging is commutative up to collapse: whichever of two descriptors is the existing one and
/// whichever the incoming one, the collapse of their merge fails in both orders or succeeds in
/// both, and then with the same shape but for the order in which strings, fields, elements and
/// members stand.
pub proof fn lemma_merge_commutes_up_to_collapse(
    a: Shape,
    b: Shape,
    path: Seq<Seq<char>>,
    dynamic: Seq<Seq<char>>,
)
    requires
        well_formed(a),
        well_formed(b),
    ensures
        alike(
            collapsed(merged(a, b), path, dynamic),
            collapsed(merged(b, a), path, dynamic),
        ),
    decreases a,
{
    let l = merged(a, b);
    let r = merged(b, a);
    if a is Unknown || b is Unknown {
        assert(l == r);
    } else if go_together(a, b) {
        match (a, b) {
            (Shape::Object(ea), Shape::Object(eb)) => {
                assert forall|key: Seq<char>| has_key(ea, key) || has_key(eb, key) implies alike(
                    collapsed(#[trigger] merged_field(ea, eb, key), path.push(key), dynamic),
                    collapsed(merged_field(eb, ea, key), path.push(key), dynamic),
                ) by {
                    if has_key(ea, key) && has_key(eb, key) {
                        let i = key_index(ea, key);
                        let j = key_index(eb, key);
                        lemma_merge_commutes_up_to_collapse(
                            ea[i].1,
                            eb[j].1,
                            path.push(key),
                            dynamic,
                        );
                    }
                }
                lemma_objects_alike(ea, eb, path, dynamic);
            },
            (Shape::StringSet(x), Shape::StringSet(y)) => {
                lemma_string_sets_unite(x, y);
                lemma_string_sets_unite(y, x);
                assert(x.to_set().union(y.to_set()) =~= y.to_set().union(x.to_set()));
            },
            (Shape::Array(x), Shape::Array(y)) => {
                lemma_collapsed_all_concat(x, y, path, dynamic);
                lemma_collapsed_all_concat(y, x, path, dynamic);
                if let Ok(cx) = collapsed_all(x, path, dynamic) {
                    if let Ok(cy) = collapsed_all(y, path, dynamic) {
                        lemma_resolved_array_swap(cx, cy);
                    }
                }
            },
            _ => {
                assert(l == r);
            },
        }
    } else {
        let first = collapsed_member(a, path, dynamic);
        let second = collapsed_member(b, path, dynamic);
        let pair_ab = seq![a, b];
        let pair_ba = seq![b, a];
        assert(pair_ab =~= seq![a] + seq![b]);
        assert(pair_ba =~= seq![b] + seq![a]);
        lemma_collapsed_members_single(a, path, dynamic);
        lemma_collapsed_members_single(b, path, dynamic);
        lemma_collapsed_members_concat(seq![a], seq![b], path, dynamic);
        lemma_collapsed_members_concat(seq![b], seq![a], path, dynamic);
        match a {
            Shape::Multiple(m) => {
                assert(l == Shape::Multiple(m.push(b)));
                assert(m.push(b) =~= m + seq![b]);
                lemma_collapsed_members_concat(m, seq![b], path, dynamic);
                match b {
                    Shape::Multiple(n) => {
                        assert(r == Shape::Multiple(n.push(a)));
                        assert(n.push(a) =~= n + seq![a]);
                        lemma_collapsed_members_concat(n, seq![a], path, dynamic);
                        lemma_multiples_alike(m.push(b), n.push(a), first, second, path, dynamic);
                    },
                    _ => {
                        assert(r == Shape::Multiple(pair_ba));
                        lemma_multiples_alike(m.push(b), pair_ba, first, second, path, dynamic);
                    },
                }
            },
            _ => {
                assert(l == Shape::Multiple(pair_ab));
                match b {
                    Shape::Multiple(n) => {
                        assert(r == Shape::Multiple(n.push(a)));
                        assert(n.push(a) =~= n + seq![a]);
                        lemma_collapsed_members_concat(n, seq![a], path, dynamic);
                        lemma_multiples_alike(pair_ab, n.push(a), first, second, path, dynamic);
                    },
                    _ => {
                        assert(r == Shape::Multiple(pair_ba));
                        lemma_multiples_alike(pair_ab, pair_ba, first, second, path, dynamic);
                    },
                }
            },
        }
    }
}

/// `Unknown` is the identity of the lattice, on either side.
pub proof fn lemma_unknown_is_identity(x: Shape)
    ensures
        merged(Shape::Unknown, x) == x,
        merged(x, Shape::Unknown) == x,
{
}

/// The merge of two well-formed shapes is well formed.
pub proof fn lemma_merged_well_formed(a: Shape, b: Shape)
    requires
        well_formed(a),
        well_formed(b),
    ensures
        well_formed(merged(a, b)),
    decreases a,
{
    let m = merged(a, b);
    if a is Unknown || b is Unknown {
    } else {
        match (a, b) {
            (Shape::Object(ea), Shape::Object(eb)) => {
                lemma_merged_object(ea, eb);
                lemma_new_entries(eb, ea, eb.len() as int);
                let out = m->Object_0;
                let fresh = new_entries(eb, ea, eb.len() as int);
                assert forall|i: int| 0 <= i < out.len() implies well_formed((#[trigger] out[i]).1) by {
                    if i < ea.len() {
                        if has_key(eb, ea[i].0) {
                            lemma_first_is_only(eb, ea[i].0);
                            let j = key_index(eb, ea[i].0);
                            assert(well_formed(ea[i].1));
                            assert(well_formed(eb[j].1));
                            lemma_merged_well_formed(ea[i].1, eb[j].1);
                        } else {
                            assert(out[i] == ea[i]);
                        }
                    } else {
                        assert(out[i] == fresh[i - ea.len()]);
                        let j = choose|j: int|
                            0 <= j < eb.len() && eb[j] == fresh[i - ea.len()] && !has_key(
                                ea,
                                eb[j].0,
                            );
                        assert(well_formed(eb[j].1));
                    }
                }
            },
            (Shape::Array(x), Shape::Array(y)) => {
                assert forall|i: int| 0 <= i < (x + y).len() implies well_formed(
                    #[trigger] (x + y)[i],
                ) by {
                    if i < x.len() {
                        assert((x + y)[i] == x[i]);
                    } else {
                        assert((x + y)[i] == y[i - x.len()]);
                    }
                }
            },
            (Shape::Multiple(members), x) => {
                if !go_together(a, b) {
                    let out = members.push(x);
                    assert(m == Shape::Multiple(out));
                    assert forall|i: int| 0 <= i < out.len() implies well_formed(#[trigger] out[i]) by {
                        if i < members.len() {
                            assert(out[i] == members[i]);
                        }
                    }
                }
            },
            _ => {
                if !go_together(a, b) {
                    let out = seq![a, b];
                    assert(m == Shape::Multiple(out));
                    assert forall|i: int| 0 <= i < out.len() implies well_formed(#[trigger] out[i]) by {
                        if i == 0 {
                            assert(out[i] == a);
                        } else {
                            assert(out[i] == b);
                        }
                    }
                }
            },
        }
    }
}

/// Two shapes that do not go together are both kept: their merge is a `Multiple` that ends
/// with the incoming shape, after the existing one or, where that is a `Multiple`, after its
/// members.
pub proof fn lemma_nothing_is_dropped(existing: Shape, incoming: Shape)
    requires
        !(existing is Unknown),
        !(incoming is Unknown),
        !go_together(existing, incoming),
    ensures
        merged(existing, incoming) matches Shape::Multiple(members) && members.last() == incoming
            && members.drop_last() == (match existing {
            Shape::Multiple(before) => before,
            other => seq![other],
        }),
{
    match existing {
        Shape::Multiple(before) => {
            assert(before.push(incoming).drop_last() =~= before);
        },
        other => {
            assert(seq![other, incoming].drop_last() =~= seq![other]);
        },
    }
}

/// Whether every shape of a sequence is well formed.
pub open spec fn all_well_formed(shapes: Seq<Shape>) -> bool {
    forall|i: int| 0 <= i < shapes.len() ==> well_formed(#[trigger] shapes[i])
}

/// The elements of well-formed shapes are well formed.
pub proof fn lemma_elements_well_formed(shapes: Seq<Shape>)
    requires
        all_well_formed(shapes),
    ensures
        all_well_formed(elements_of(shapes)),
        all_well_formed(flattened(shapes)),
    decreases shapes.len(),
{
    if shapes.len() > 0 {
        let before = shapes.drop_last();
        assert forall|i: int| 0 <= i < before.len() implies well_formed(#[trigger] before[i]) by {
            assert(before[i] == shapes[i]);
        }
        lemma_elements_well_formed(before);
        let last = shapes.last();
        assert(well_formed(last));
        let e = elements_of(shapes);
        let f = flattened(shapes);
        let eb = elements_of(before);
        let fb = flattened(before);
        assert forall|i: int| 0 <= i < e.len() implies well_formed(#[trigger] e[i]) by {
            if i < eb.len() {
                assert(e[i] == eb[i]);
            } else {
                match last {
                    Shape::Array(items) => {
                        assert(e[i] == items[i - eb.len()]);
                    },
                    _ => {},
                }
            }
        }
        assert forall|i: int| 0 <= i < f.len() implies well_formed(#[trigger] f[i]) by {
            if i < fb.len() {
                assert(f[i] == fb[i]);
            } else {
                match last {
                    Shape::Array(items) => {
                        assert(f[i] == items[i - fb.len()]);
                    },
                    other => {
                        assert(f[i] == other);
                    },
                }
            }
        }
    }
}

/// The collapse of a well-formed shape is well formed.
pub proof fn lemma_collapsed_well_formed(
    shape: Shape,
    path: Seq<Seq<char>>,
    dynamic: Seq<Seq<char>>,
)
    requires
        well_formed(shape),
    ensures
        collapsed(shape, path, dynamic) matches Ok(out) ==> well_formed(out),
    decreases shape, 0nat,
{
    match shape {
        Shape::Object(entries) => {
            lemma_collapsed_fields(entries, path, dynamic);
            if let Ok(out) = collapsed_fields(entries, path, dynamic) {
                assert forall|i: int| 0 <= i < out.len() implies well_formed((#[trigger] out[i]).1) by {
                    assert(well_formed(entries[i].1));
                    if !is_dynamic(entries[i].0, dynamic) {
                        lemma_collapsed_well_formed(
                            entries[i].1,
                            path.push(entries[i].0),
                            dynamic,
                        );
                    }
                }
                assert forall|i: int, j: int|
                    0 <= i < out.len() && 0 <= j < out.len() && i != j implies (#[trigger] out[i]).0
                    != (#[trigger] out[j]).0 by {
                    assert(out[i].0 == entries[i].0);
                    assert(out[j].0 == entries[j].0);
                }
            }
        },
        Shape::Array(items) => {
            lemma_collapsed_all_well_formed(items, path, dynamic);
        },
        Shape::ListOrEmptyObject(items) => {
            lemma_collapsed_all_well_formed(items, path, dynamic);
        },
        Shape::Multiple(members) => {
            lemma_collapsed_members_well_formed(members, path, dynamic);
            if let Ok(out) = collapsed_members(members, path, dynamic) {
                lemma_elements_well_formed(out);
            }
        },
        _ => {},
    }
}

/// The collapse of well-formed elements is well formed.
pub proof fn lemma_collapsed_all_well_formed(
    items: Seq<Shape>,
    path: Seq<Seq<char>>,
    dynamic: Seq<Seq<char>>,
)
    requires
        all_well_formed(items),
    ensures
        collapsed_all(items, path, dynamic) matches Ok(out) ==> all_well_formed(out),
    decreases items,
{
    if items.len() > 0 {
        let before = items.drop_last();
        assert forall|i: int| 0 <= i < before.len() implies well_formed(#[trigger] before[i]) by {
            assert(before[i] == items[i]);
        }
        lemma_collapsed_all_well_formed(before, path, dynamic);
        assert(well_formed(items.last()));
        lemma_collapsed_well_formed(items.last(), path, dynamic);
        if let Ok(out) = collapsed_all(items, path, dynamic) {
            let sofar = collapsed_all(before, path, dynamic)->Ok_0;
            assert forall|i: int| 0 <= i < out.len() implies well_formed(#[trigger] out[i]) by {
                if i < sofar.len() {
                    assert(out[i] == sofar[i]);
                }
            }
        }
    }
}

/// The collapse of well-formed members is well formed.
pub proof fn lemma_collapsed_members_well_formed(
    members: Seq<Shape>,
    path: Seq<Seq<char>>,
    dynamic: Seq<Seq<char>>,
)
    requires
        all_well_formed(members),
    ensures
        collapsed_members(members, path, dynamic) matches Ok(out) ==> all_well_formed(out),
    decreases members,
{
    if members.len() > 0 {
        let before = members.drop_last();
        assert forall|i: int| 0 <= i < before.len() implies well_formed(#[trigger] before[i]) by {
            assert(before[i] == members[i]);
        }
        lemma_collapsed_members_well_formed(before, path, dynamic);
        let last = members.last();
        assert(well_formed(last));
        match last {
            Shape::Multiple(inner) => {
                lemma_collapsed_members_well_formed(inner, path, dynamic);
            },
            other => {
                lemma_collapsed_well_formed(other, path, dynamic);
            },
        }
        if let Ok(out) = collapsed_members(members, path, dynamic) {
            let sofar = collapsed_members(before, path, dynamic)->Ok_0;
            let more = collapsed_member(last, path, dynamic)->Ok_0;
            assert forall|i: int| 0 <= i < out.len() implies well_formed(#[trigger] out[i]) by {
                if i < sofar.len() {
                    assert(out[i] == sofar[i]);
                } else {
                    assert(out[i] == more[i - sofar.len()]);
                }
            }
        }
    }
}

/// A shape is settled where a collapse has nothing left to do on it: it holds no `Multiple`,
/// no array whose elements are all the shape of a colour, and no field with the name of a
/// dynamic formula that is not `Skip`.
pub open spec fn settled(shape: Shape, dynamic: Seq<Seq<char>>) -> bool
    decreases shape,
{
    match shape {
        Shape::Object(entries) => forall|i: int|
            0 <= i < entries.len() ==> if is_dynamic((#[trigger] entries[i]).0, dynamic) {
                entries[i].1 == Shape::Skip
            } else {
                settled(entries[i].1, dynamic)
            },
        Shape::Array(items) => !(items.len() > 0 && all_color_shaped(items)) && forall|i: int|
            0 <= i < items.len() ==> settled(#[trigger] items[i], dynamic),
        Shape::ListOrEmptyObject(items) => forall|i: int|
            0 <= i < items.len() ==> settled(#[trigger] items[i], dynamic),
        Shape::Multiple(_) => false,
        _ => true,
    }
}

/// Whether every shape of a sequence is settled.
pub open spec fn all_settled(shapes: Seq<Shape>, dynamic: Seq<Seq<char>>) -> bool {
    forall|i: int| 0 <= i < shapes.len() ==> settled(#[trigger] shapes[i], dynamic)
}

/// The elements of settled shapes are settled.
pub proof fn lemma_elements_settled(shapes: Seq<Shape>, dynamic: Seq<Seq<char>>)
    requires
        all_settled(shapes, dynamic),
    ensures
        all_settled(elements_of(shapes), dynamic),
        all_settled(flattened(shapes), dynamic),
    decreases shapes.len(),
{
    if shapes.len() > 0 {
        let before = shapes.drop_last();
        assert forall|i: int| 0 <= i < before.len() implies settled(#[trigger] before[i], dynamic) by {
            assert(before[i] == shapes[i]);
        }
        lemma_elements_settled(before, dynamic);
        let last = shapes.last();
        assert(settled(last, dynamic));
        let e = elements_of(shapes);
        let f = flattened(shapes);
        let eb = elements_of(before);
        let fb = flattened(before);
        assert forall|i: int| 0 <= i < e.len() implies settled(#[trigger] e[i], dynamic) by {
            if i < eb.len() {
                assert(e[i] == eb[i]);
            } else {
                match last {
                    Shape::Array(items) => {
                        assert(e[i] == items[i - eb.len()]);
                    },
                    _ => {},
                }
            }
        }
        assert forall|i: int| 0 <= i < f.len() implies settled(#[trigger] f[i], dynamic) by {
            if i < fb.len() {
                assert(f[i] == fb[i]);
            } else {
                match last {
                    Shape::Array(items) => {
                        assert(f[i] == items[i - fb.len()]);
                    },
                    other => {
                        assert(f[i] == other);
                    },
                }
            }
        }
    }
}

/// What a collapse gives is settled.
pub proof fn lemma_collapsed_is_settled(shape: Shape, path: Seq<Seq<char>>, dynamic: Seq<Seq<char>>)
    ensures
        collapsed(shape, path, dynamic) matches Ok(out) ==> settled(out, dynamic),
    decreases shape, 0nat,
{
    match shape {
        Shape::Object(entries) => {
            lemma_collapsed_fields(entries, path, dynamic);
            if let Ok(out) = collapsed_fields(entries, path, dynamic) {
                assert forall|i: int| 0 <= i < out.len() implies if is_dynamic(
                    (#[trigger] out[i]).0,
                    dynamic,
                ) {
                    out[i].1 == Shape::Skip
                } else {
                    settled(out[i].1, dynamic)
                } by {
                    assert(out[i].0 == entries[i].0);
                    if !is_dynamic(entries[i].0, dynamic) {
                        lemma_collapsed_is_settled(entries[i].1, path.push(entries[i].0), dynamic);
                    }
                }
            }
        },
        Shape::Array(items) => {
            lemma_collapsed_all_is_settled(items, path, dynamic);
        },
        Shape::ListOrEmptyObject(items) => {
            lemma_collapsed_all_is_settled(items, path, dynamic);
        },
        Shape::Multiple(members) => {
            lemma_collapsed_members_are_settled(members, path, dynamic);
            if let Ok(out) = collapsed_members(members, path, dynamic) {
                lemma_elements_settled(out, dynamic);
            }
        },
        _ => {},
    }
}

/// What the collapse of elements gives is settled.
pub proof fn lemma_collapsed_all_is_settled(
    items: Seq<Shape>,
    path: Seq<Seq<char>>,
    dynamic: Seq<Seq<char>>,
)
    ensures
        collapsed_all(items, path, dynamic) matches Ok(out) ==> all_settled(out, dynamic),
    decreases items,
{
    if items.len() > 0 {
        let before = items.drop_last();
        lemma_collapsed_all_is_settled(before, path, dynamic);
        lemma_collapsed_is_settled(items.last(), path, dynamic);
        if let Ok(out) = collapsed_all(items, path, dynamic) {
            let sofar = collapsed_all(before, path, dynamic)->Ok_0;
            assert forall|i: int| 0 <= i < out.len() implies settled(#[trigger] out[i], dynamic) by {
                if i < sofar.len() {
                    assert(out[i] == sofar[i]);
                }
            }
        }
    }
}

/// What the collapse of members gives is settled.
pub proof fn lemma_collapsed_members_are_settled(
    members: Seq<Shape>,
    path: Seq<Seq<char>>,
    dynamic: Seq<Seq<char>>,
)
    ensures
        collapsed_members(members, path, dynamic) matches Ok(out) ==> all_settled(out, dynamic),
    decreases members,
{
    if members.len() > 0 {
        let before = members.drop_last();
        lemma_collapsed_members_are_settled(before, path, dynamic);
        let last = members.last();
        match last {
            Shape::Multiple(inner) => {
                lemma_collapsed_members_are_settled(inner, path, dynamic);
            },
            other => {
                lemma_collapsed_is_settled(other, path, dynamic);
            },
        }
        if let Ok(out) = collapsed_members(members, path, dynamic) {
            let sofar = collapsed_members(before, path, dynamic)->Ok_0;
            let more = collapsed_member(last, path, dynamic)->Ok_0;
            assert forall|i: int| 0 <= i < out.len() implies settled(#[trigger] out[i], dynamic) by {
                if i < sofar.len() {
                    assert(out[i] == sofar[i]);
                } else {
                    assert(out[i] == more[i - sofar.len()]);
                }
            }
        }
    }
}

/// A collapse leaves a settled shape as it is.
pub proof fn lemma_settled_stays(shape: Shape, path: Seq<Seq<char>>, dynamic: Seq<Seq<char>>)
    requires
        settled(shape, dynamic),
    ensures
        collapsed(shape, path, dynamic) == Ok::<Shape, AmbiguityView>(shape),
    decreases shape, 0nat,
{
    match shape {
        Shape::Object(entries) => {
            lemma_settled_fields_stay(entries, path, dynamic);
        },
        Shape::Array(items) => {
            lemma_settled_all_stay(items, path, dynamic);
        },
        Shape::ListOrEmptyObject(items) => {
            lemma_settled_all_stay(items, path, dynamic);
        },
        _ => {},
    }
}

/// A collapse leaves settled elements as they are.
pub proof fn lemma_settled_all_stay(items: Seq<Shape>, path: Seq<Seq<char>>, dynamic: Seq<Seq<char>>)
    requires
        all_settled(items, dynamic),
    ensures
        collapsed_all(items, path, dynamic) == Ok::<Seq<Shape>, AmbiguityView>(items),
    decreases items,
{
    if items.len() > 0 {
        let before = items.drop_last();
        assert forall|i: int| 0 <= i < before.len() implies settled(#[trigger] before[i], dynamic) by {
            assert(before[i] == items[i]);
        }
        lemma_settled_all_stay(before, path, dynamic);
        assert(settled(items.last(), dynamic));
        lemma_settled_stays(items.last(), path, dynamic);
        assert(before.push(items.last()) =~= items);
    } else {
        assert(items =~= Seq::<Shape>::empty());
    }
}

/// A collapse leaves the fields of a settled object as they are.
pub proof fn lemma_settled_fields_stay(
    entries: Seq<(Seq<char>, Shape)>,
    path: Seq<Seq<char>>,
    dynamic: Seq<Seq<char>>,
)
    requires
        settled(Shape::Object(entries), dynamic),
    ensures
        collapsed_fields(entries, path, dynamic) == Ok::<Seq<(Seq<char>, Shape)>, AmbiguityView>(
            entries,
        ),
    decreases entries,
{
    if entries.len() > 0 {
        let before = entries.drop_last();
        let last = entries.last();
        assert forall|i: int| 0 <= i < before.len() implies if is_dynamic(
            (#[trigger] before[i]).0,
            dynamic,
        ) {
            before[i].1 == Shape::Skip
        } else {
            settled(before[i].1, dynamic)
        } by {
            assert(before[i] == entries[i]);
        }
        lemma_settled_fields_stay(before, path, dynamic);
        assert(last == entries[entries.len() - 1]);
        if !is_dynamic(last.0, dynamic) {
            lemma_settled_stays(last.1, path.push(last.0), dynamic);
        }
        assert(before.push((last.0, last.1)) =~= entries);
    } else {
        assert(entries =~= Seq::<(Seq<char>, Shape)>::empty());
    }
}

/// One pass is enough: what a collapse gives, a second collapse leaves as it is, at whatever
/// path.
pub proof fn lemma_collapse_is_idempotent(
    shape: Shape,
    path: Seq<Seq<char>>,
    again: Seq<Seq<char>>,
    dynamic: Seq<Seq<char>>,
)
    ensures
        collapsed(shape, path, dynamic) matches Ok(out) ==> collapsed(out, again, dynamic) == Ok::<
            Shape,
            AmbiguityView,
        >(out),
{
    lemma_collapsed_is_settled(shape, path, dynamic);
    if let Ok(out) = collapsed(shape, path, dynamic) {
        lemma_settled_stays(out, again, dynamic);
    }
}

} // verus!
