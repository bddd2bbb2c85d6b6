//! What holds of adding and taking values, whatever the sequence and the
//! value.

use crate::canonical::{
    canonical, inserted, inserted_all, inserted_at, lemma_inserted_at, lemma_taken_at, members,
    splits_at, taken, taken_all, taken_at,
};
use crate::element::Element;
use crate::step::Step;
use vstd::prelude::*;

verus! {

/// Adding a value adds that value and no other, and keeps the canonical
/// form.
pub proof fn lemma_inserted<T: Step>(s: Seq<Element<T>>, v: T, t: Seq<Element<T>>)
    requires
        canonical(s),
        inserted(s, v, t),
    ensures
        canonical(t),
        members(t) == members(s).insert(v),
{
    if members(s).contains(v) {
        assert(members(s) =~= members(s).insert(v));
    } else {
        let i = choose|i: int| #[trigger] splits_at(s, i, v) && t == inserted_at(s, i, v);
        lemma_inserted_at(s, i, v);
    }
}

/// A value is held once it has been added.
pub proof fn lemma_inserted_is_held<T: Step>(s: Seq<Element<T>>, v: T, t: Seq<Element<T>>)
    requires
        canonical(s),
        inserted(s, v, t),
    ensures
        members(t).contains(v),
{
    lemma_inserted(s, v, t);
}

/// Adding a value a second time changes nothing: the value is held after the
/// first time, and the elements stay as the first time left them.
pub proof fn lemma_inserted_twice<T: Step>(
    s: Seq<Element<T>>,
    v: T,
    t: Seq<Element<T>>,
    u: Seq<Element<T>>,
)
    requires
        canonical(s),
        inserted(s, v, t),
        inserted(t, v, u),
    ensures
        members(t).contains(v),
        u == t,
{
    lemma_inserted(s, v, t);
}

/// Taking a value removes that value and no other, and keeps the canonical
/// form.
pub proof fn lemma_taken<T: Step>(s: Seq<Element<T>>, v: T, t: Seq<Element<T>>)
    requires
        canonical(s),
        taken(s, v, t),
    ensures
        canonical(t),
        members(t) == members(s).remove(v),
{
    if members(s).contains(v) {
        let k = choose|k: int|
            0 <= k < s.len() && (#[trigger] s[k]).contains(v) && taken_at(s, k, v, t);
        lemma_taken_at(s, k, v, t);
    } else {
        assert(members(s) =~= members(s).remove(v));
    }
}

/// A value is no longer held once it has been taken.
pub proof fn lemma_taken_is_gone<T: Step>(s: Seq<Element<T>>, v: T, t: Seq<Element<T>>)
    requires
        canonical(s),
        taken(s, v, t),
    ensures
        !members(t).contains(v),
{
    lemma_taken(s, v, t);
}

/// Taking a value that is not held leaves the sequence as it was.
pub proof fn lemma_taken_absent<T: Step>(s: Seq<Element<T>>, v: T, t: Seq<Element<T>>)
    requires
        !members(s).contains(v),
        taken(s, v, t),
    ensures
        t == s,
{
}

/// In canonical form no element is one step from its neighbour: the end of
/// one is not adjacent to the next, nor the start of the next to the one
/// before it.
pub proof fn lemma_neighbours_apart<T: Step>(s: Seq<Element<T>>, i: int)
    requires
        canonical(s),
        0 <= i,
        i + 1 < s.len(),
    ensures
        !s[i + 1].spec_adjacent_to(s[i].last()),
        !s[i].spec_adjacent_to(s[i + 1].first()),
        !s[i + 1].follows(s[i]),
{
}

/// In canonical form the elements are maximal runs: the values one step
/// below and one step above an element are not held.
pub proof fn lemma_runs_are_maximal<T: Step>(s: Seq<Element<T>>, i: int, x: T)
    requires
        canonical(s),
        0 <= i < s.len(),
        s[i].spec_adjacent_to(x),
    ensures
        !members(s).contains(x),
{
}

/// Whatever values are added to a sequence in canonical form, one after the
/// other, the outcome is in canonical form and holds what the sequence held
/// and those values.
pub proof fn lemma_inserted_all<T: Step>(s: Seq<Element<T>>, values: Seq<T>, t: Seq<Element<T>>)
    requires
        canonical(s),
        inserted_all(s, values, t),
    ensures
        canonical(t),
        members(t) == members(s).union(values.to_set()),
    decreases values.len(),
{
    if values.len() > 0 {
        let m = choose|m: Seq<Element<T>>|
            inserted_all(s, values.drop_last(), m) && #[trigger] inserted(m, values.last(), t);
        lemma_inserted_all(s, values.drop_last(), m);
        lemma_inserted(m, values.last(), t);
        lemma_contains_last(values);
        assert forall|x: T|
            members(t).contains(x) == members(s).union(values.to_set()).contains(x) by {
            assert(values.contains(x) <==> values.drop_last().contains(x) || x == values.last());
            assert(members(m).contains(x) == members(s).union(
                values.drop_last().to_set(),
            ).contains(x));
        }
    }
    assert(members(t) =~= members(s).union(values.to_set()));
}

/// Whatever values are taken from a sequence in canonical form, one after
/// the other, the outcome is in canonical form and holds what the sequence
/// held, less those values.
pub proof fn lemma_taken_all<T: Step>(s: Seq<Element<T>>, values: Seq<T>, t: Seq<Element<T>>)
    requires
        canonical(s),
        taken_all(s, values, t),
    ensures
        canonical(t),
        members(t) == members(s).difference(values.to_set()),
    decreases values.len(),
{
    if values.len() > 0 {
        let m = choose|m: Seq<Element<T>>|
            taken_all(s, values.drop_last(), m) && #[trigger] taken(m, values.last(), t);
        lemma_taken_all(s, values.drop_last(), m);
        lemma_taken(m, values.last(), t);
        lemma_contains_last(values);
        assert forall|x: T|
            members(t).contains(x) == members(s).difference(values.to_set()).contains(x) by {
            assert(values.contains(x) <==> values.drop_last().contains(x) || x == values.last());
            assert(members(m).contains(x) == members(s).difference(
                values.drop_last().to_set(),
            ).contains(x));
        }
    }
    assert(members(t) =~= members(s).difference(values.to_set()));
}

/// A sequence holds what it holds without its last item, and that item.
proof fn lemma_contains_last<A>(values: Seq<A>)
    requires
        values.len() > 0,
    ensures
        forall|x: A|
            values.contains(x) <==> values.drop_last().contains(x) || x == values.last(),
{
    assert forall|x: A|
        values.contains(x) <==> values.drop_last().contains(x) || x == values.last() by {
        if values.contains(x) {
            let j = choose|j: int| 0 <= j < values.len() && values[j] == x;
            if j < values.len() - 1 {
                assert(values.drop_last()[j] == x);
            }
        }
    }
}

/// A sequence in canonical form that holds no value has no element.
pub proof fn lemma_no_member_no_element<T: Step>(s: Seq<Element<T>>)
    requires
        canonical(s),
        members(s) == Set::<T>::empty(),
    ensures
        s == Seq::<Element<T>>::empty(),
{
    if s.len() > 0 {
        assert(s[0].contains(s[0].first()));
        assert(members(s).contains(s[0].first()));
    }
    assert(s =~= Seq::<Element<T>>::empty());
}

/// Adding values to the empty sequence and then taking every one of them,
/// in any order, leaves the empty sequence.
pub proof fn lemma_round_trip<T: Step>(
    added: Seq<T>,
    removed: Seq<T>,
    full: Seq<Element<T>>,
    left: Seq<Element<T>>,
)
    requires
        inserted_all(Seq::<Element<T>>::empty(), added, full),
        taken_all(full, removed, left),
        forall|j: int| 0 <= j < added.len() ==> removed.contains(#[trigger] added[j]),
    ensures
        left == Seq::<Element<T>>::empty(),
{
    let none = Seq::<Element<T>>::empty();
    lemma_inserted_all(none, added, full);
    lemma_taken_all(full, removed, left);
    assert forall|x: T| !members(left).contains(x) by {
        if members(left).contains(x) {
            assert(members(full).difference(removed.to_set()).contains(x));
            assert(members(none).union(added.to_set()).contains(x));
            assert(!members(none).contains(x));
            assert(added.contains(x));
            let j = choose|j: int| 0 <= j < added.len() && added[j] == x;
            assert(removed.contains(added[j]));
        }
    }
    assert(members(left) =~= Set::<T>::empty());
    lemma_no_member_no_element(left);
}

/// Two sequences in canonical form that hold the same values hold every
/// value in the same element.
pub proof fn lemma_same_holder<T: Step>(
    a: Seq<Element<T>>,
    b: Seq<Element<T>>,
    i: int,
    j: int,
    v: T,
)
    requires
        canonical(a),
        canonical(b),
        members(a) == members(b),
        0 <= i < a.len(),
        0 <= j < b.len(),
        a[i].contains(v),
        b[j].contains(v),
    ensures
        a[i] == b[j],
{
    let e = a[i];
    let f = b[j];
    if f.first().position() < e.first().position() {
        T::lemma_position_contiguous(&f.first(), &e.first(), e.first().position() - 1);
        let x = choose|x: T| #[trigger] x.position() == e.first().position() - 1;
        assert(f.contains(x));
        assert(members(b).contains(x));
        lemma_runs_are_maximal(a, i, x);
    }
    if e.first().position() < f.first().position() {
        T::lemma_position_contiguous(&e.first(), &f.first(), f.first().position() - 1);
        let x = choose|x: T| #[trigger] x.position() == f.first().position() - 1;
        assert(e.contains(x));
        assert(members(a).contains(x));
        lemma_runs_are_maximal(b, j, x);
    }
    if f.last().position() > e.last().position() {
        T::lemma_position_contiguous(&e.last(), &f.last(), e.last().position() + 1);
        let x = choose|x: T| #[trigger] x.position() == e.last().position() + 1;
        assert(f.contains(x));
        assert(members(b).contains(x));
        lemma_runs_are_maximal(a, i, x);
    }
    if e.last().position() > f.last().position() {
        T::lemma_position_contiguous(&f.last(), &e.last(), f.last().position() + 1);
        let x = choose|x: T| #[trigger] x.position() == f.last().position() + 1;
        assert(e.contains(x));
        assert(members(a).contains(x));
        lemma_runs_are_maximal(b, j, x);
    }
    Element::lemma_spans_unique(e, f, e.first().position(), e.last().position());
}

/// Two sequences in canonical form that hold the same values agree element
/// by element.
proof fn lemma_same_element<T: Step>(a: Seq<Element<T>>, b: Seq<Element<T>>, i: int)
    requires
        canonical(a),
        canonical(b),
        members(a) == members(b),
        0 <= i < a.len(),
    ensures
        i < b.len(),
        a[i] == b[i],
    decreases i,
{
    // The element of `b` that holds the least value of `a[i]` is `a[i]`.
    let v = a[i].first();
    assert(a[i].contains(v));
    assert(members(a).contains(v));
    let j = choose|j: int| 0 <= j < b.len() && (#[trigger] b[j]).contains(v);
    lemma_same_holder(a, b, i, j, v);
    if j < i {
        // Then `a[j]` is `b[j]` too, so `a` would hold `a[i]` twice.
        lemma_same_element(b, a, j);
    } else if j > i {
        // Then `b[i]` lies below `a[i]` and is an element `a[k]` of `a`,
        // with `k < i`. But `a[k]` is `b[k]`, so `b` would hold `b[i]` twice.
        let w = b[i].first();
        assert(b[i].contains(w));
        assert(members(b).contains(w));
        let k = choose|k: int| 0 <= k < a.len() && (#[trigger] a[k]).contains(w);
        lemma_same_holder(a, b, k, i, w);
        if k < i {
            lemma_same_element(a, b, k);
        }
    }
}

/// The canonical form of a set of values is unique: two sequences in
/// canonical form that hold the same values are the same sequence.
pub proof fn lemma_canonical_unique<T: Step>(a: Seq<Element<T>>, b: Seq<Element<T>>)
    requires
        canonical(a),
        canonical(b),
        members(a) == members(b),
    ensures
        a == b,
{
    if a.len() > 0 {
        lemma_same_element(a, b, a.len() - 1);
    }
    if b.len() > 0 {
        lemma_same_element(b, a, b.len() - 1);
    }
    assert forall|i: int| 0 <= i < a.len() implies a[i] == b[i] by {
        lemma_same_element(a, b, i);
    }
    assert(a =~= b);
}

/// Adding a value has one outcome only.
pub proof fn lemma_inserted_unique<T: Step>(
    s: Seq<Element<T>>,
    v: T,
    t: Seq<Element<T>>,
    u: Seq<Element<T>>,
)
    requires
        canonical(s),
        inserted(s, v, t),
        inserted(s, v, u),
    ensures
        t == u,
{
    lemma_inserted(s, v, t);
    lemma_inserted(s, v, u);
    lemma_canonical_unique(t, u);
}

/// Taking a value has one outcome only.
pub proof fn lemma_taken_unique<T: Step>(
    s: Seq<Element<T>>,
    v: T,
    t: Seq<Element<T>>,
    u: Seq<Element<T>>,
)
    requires
        canonical(s),
        taken(s, v, t),
        taken(s, v, u),
    ensures
        t == u,
{
    lemma_taken(s, v, t);
    lemma_taken(s, v, u);
    lemma_canonical_unique(t, u);
}

/// Nothing is adjacent past an edge of the domain. The greatest value of
/// the domain is adjacent only to an element that ends one step below it,
/// and the least only to an element that starts one step above it; and past
/// an element that ends at the greatest value, or starts at the least, no
/// value is adjacent to it.
pub proof fn lemma_edges_do_not_wrap<T: Step>(e: Element<T>, v: T)
    ensures
        (forall|x: T| #[trigger] x.position() <= v.position()) ==> (e.spec_adjacent_to(v)
            <==> e.last().position() + 1 == v.position()),
        (forall|x: T| v.position() <= #[trigger] x.position()) ==> (e.spec_adjacent_to(v)
            <==> v.position() + 1 == e.first().position()),
        (forall|x: T| #[trigger] x.position() <= e.last().position()) ==> (e.spec_adjacent_to(v)
            <==> v.position() + 1 == e.first().position()),
        (forall|x: T| e.first().position() <= #[trigger] x.position()) ==> (e.spec_adjacent_to(v)
            <==> e.last().position() + 1 == v.position()),
{
}

/// The greatest value of the domain has its place after every element, and
/// the least before every element: neither is ever joined to an element
/// across the edge.
pub proof fn lemma_edge_places<T: Step>(s: Seq<Element<T>>, i: int, v: T)
    requires
        canonical(s),
        splits_at(s, i, v),
    ensures
        (forall|x: T| #[trigger] x.position() <= v.position()) ==> i == s.len(),
        (forall|x: T| v.position() <= #[trigger] x.position()) ==> i == 0,
{
    if forall|x: T| #[trigger] x.position() <= v.position() {
        if i < s.len() {
            assert(v.position() < s[i].first().position());
        }
    }
    if forall|x: T| v.position() <= #[trigger] x.position() {
        if i > 0 {
            assert(s[i - 1].last().position() < v.position());
        }
    }
}

} // verus!
