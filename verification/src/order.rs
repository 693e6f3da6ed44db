use itertools::Itertools;
use vstd::prelude::*;

verus! {

/// The order of strings: character by character, by code point; a proper prefix comes first.
pub open spec fn lex_le(a: Seq<char>, b: Seq<char>) -> bool
    decreases a.len(),
{
    if a.len() == 0 {
        true
    } else if b.len() == 0 {
        false
    } else if a[0] != b[0] {
        (a[0] as int) < (b[0] as int)
    } else {
        lex_le(a.drop_first(), b.drop_first())
    }
}

/// Every string comes no later than itself.
pub proof fn lemma_lex_reflexive(a: Seq<char>)
    ensures
        lex_le(a, a),
    decreases a.len(),
{
    if a.len() > 0 {
        lemma_lex_reflexive(a.drop_first());
    }
}

/// Of two strings one comes no later than the other.
pub proof fn lemma_lex_total(a: Seq<char>, b: Seq<char>)
    ensures
        lex_le(a, b) || lex_le(b, a),
    decreases a.len(),
{
    if a.len() > 0 && b.len() > 0 && a[0] == b[0] {
        lemma_lex_total(a.drop_first(), b.drop_first());
    }
}

/// Two strings that each come no later than the other are one string.
pub proof fn lemma_lex_antisymmetric(a: Seq<char>, b: Seq<char>)
    requires
        lex_le(a, b),
        lex_le(b, a),
    ensures
        a == b,
    decreases a.len(),
{
    if a.len() > 0 {
        lemma_lex_antisymmetric(a.drop_first(), b.drop_first());
        assert(a =~= seq![a[0]] + a.drop_first());
        assert(b =~= seq![b[0]] + b.drop_first());
    } else {
        assert(a =~= b);
    }
}

/// The order of strings is transitive.
pub proof fn lemma_lex_transitive(a: Seq<char>, b: Seq<char>, c: Seq<char>)
    requires
        lex_le(a, b),
        lex_le(b, c),
    ensures
        lex_le(a, c),
    decreases a.len(),
{
    if a.len() > 0 && b.len() > 0 && c.len() > 0 && a[0] == b[0] && b[0] == c[0] {
        lemma_lex_transitive(a.drop_first(), b.drop_first(), c.drop_first());
    }
}

/// The code point of a character.
pub fn code_of(c: char) -> (code: u32)
    ensures
        code == c as int,
{
    c as u32
}

/// Decides [`lex_le`].
pub fn text_le(a: &Vec<char>, b: &Vec<char>) -> (le: bool)
    ensures
        le == lex_le(a@, b@),
{
    let mut i: usize = 0;
    proof {
        assert(a@.skip(0) =~= a@);
        assert(b@.skip(0) =~= b@);
    }
    while i < a.len() && i < b.len()
        invariant
            i <= a.len(),
            i <= b.len(),
            lex_le(a@, b@) == lex_le(a@.skip(i as int), b@.skip(i as int)),
        decreases a.len() - i,
    {
        let x = a[i];
        let y = b[i];
        proof {
            assert(a@.skip(i as int)[0] == x);
            assert(b@.skip(i as int)[0] == y);
            assert(a@.skip(i as int).drop_first() =~= a@.skip(i + 1));
            assert(b@.skip(i as int).drop_first() =~= b@.skip(i + 1));
        }
        if x != y {
            return code_of(x) < code_of(y);
        }
        i += 1;
    }
    i == a.len()
}

/// The order of labels: a missing label comes before every label, and labels are ordered as
/// strings.
pub open spec fn label_le(a: Option<Seq<char>>, b: Option<Seq<char>>) -> bool {
    match (a, b) {
        (None, _) => true,
        (Some(_), None) => false,
        (Some(x), Some(y)) => lex_le(x, y),
    }
}

/// The views of a sequence of labels.
pub open spec fn labels_view(labels: Seq<Option<String>>) -> Seq<Option<Seq<char>>> {
    Seq::new(
        labels.len(),
        |i: int|
            match labels[i] {
                Some(l) => Some(l@),
                None => None,
            },
    )
}

/// Whether `order` lists the position `k`.
pub open spec fn listed_in(order: Seq<usize>, k: int) -> bool {
    exists|i: int| 0 <= i < order.len() && #[trigger] order[i] == k
}

/// Whether `order` lists each position of `labels` once, so that the labels ascend, equal
/// labels keeping the order in which they stand.
pub open spec fn sorts(order: Seq<usize>, labels: Seq<Option<Seq<char>>>) -> bool {
    &&& order.len() == labels.len()
    &&& forall|i: int| 0 <= i < order.len() ==> (#[trigger] order[i]) < labels.len()
    &&& forall|i: int, j: int|
        0 <= i < order.len() && 0 <= j < order.len() && i != j ==> (#[trigger] order[i])
            != (#[trigger] order[j])
    &&& forall|k: int| 0 <= k < labels.len() ==> #[trigger] listed_in(order, k)
    &&& forall|i: int, j: int|
        0 <= i < j < order.len() ==> label_le(
            labels[(#[trigger] order[i]) as int],
            labels[(#[trigger] order[j]) as int],
        )
    &&& forall|i: int, j: int|
        0 <= i < j < order.len() && labels[(#[trigger] order[i]) as int] == labels[(
        #[trigger] order[j]) as int] ==> order[i] < order[j]
}

/// `Itertools::sorted_by_key` on the positions of `labels`, with the label as the key: the
/// positions come back in ascending order of their labels, and positions with equal labels in
/// ascending order, as the sort is stable. Labels are compared as `Option<String>` is: `None`
/// first, strings by their bytes, which is by code point.
#[verifier::external_body]
pub(crate) fn sorted_positions(labels: &Vec<Option<String>>) -> (order: Vec<usize>)
    ensures
        sorts(order@, labels_view(labels@)),
{
    labels.iter().enumerate().sorted_by_key(|pair| pair.1).map(|pair| pair.0).collect()
}

} // verus!
