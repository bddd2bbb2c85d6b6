//! Canonical form: what it is, which values a sequence in canonical form
//! holds, and what adding or taking one value makes of it.

use crate::element::Element;
use crate::step::Step;
use vstd::prelude::*;

verus! {

/// Canonical form of a sequence of elements: every element is in order, the
/// elements come in strictly increasing order, and between the end of one and
/// the start of the next at least one value of the domain is left out, so
/// that no two of them could be joined.
pub open spec fn canonical<T: Step>(s: Seq<Element<T>>) -> bool {
    &&& forall|i: int| 0 <= i < s.len() ==> (#[trigger] s[i]).wf()
    &&& forall|i: int, j: int|
        0 <= i < j < s.len() ==> (#[trigger] s[i]).last().position() + 1
            < (#[trigger] s[j]).first().position()
}

/// The values that the elements of a sequence hold.
pub open spec fn members<T: Step>(s: Seq<Element<T>>) -> Set<T> {
    Set::new(|v: T| exists|i: int| 0 <= i < s.len() && (#[trigger] s[i]).contains(v))
}

/// Whether every element before index `i` lies wholly below `v` and every
/// element from `i` on wholly above it: `i` is then the place at which an
/// element for `v` keeps the order.
pub open spec fn splits_at<T: Step>(s: Seq<Element<T>>, i: int, v: T) -> bool {
    &&& 0 <= i <= s.len()
    &&& forall|j: int| 0 <= j < i ==> (#[trigger] s[j]).last().position() < v.position()
    &&& forall|j: int| i <= j < s.len() ==> v.position() < (#[trigger] s[j]).first().position()
}

/// What adding `v` at the place `i` makes of the sequence. A value that
/// touches both neighbours joins them into one element, one that touches a
/// single neighbour extends it, and one that touches neither becomes an
/// element of its own.
pub open spec fn inserted_at<T: Step>(s: Seq<Element<T>>, i: int, v: T) -> Seq<Element<T>> {
    let below = i > 0 && s[i - 1].spec_adjacent_to(v);
    let above = i < s.len() && s[i].spec_adjacent_to(v);
    if below && above {
        s.update(i - 1, s[i - 1].spec_merge(Element::Single(v)).spec_merge(s[i])).remove(i)
    } else if below {
        s.update(i - 1, s[i - 1].spec_merge(Element::Single(v)))
    } else if above {
        s.update(i, s[i].spec_merge(Element::Single(v)))
    } else {
        s.insert(i, Element::Single(v))
    }
}

/// Whether `t` is what taking `v` out of the element at index `k` makes of
/// the sequence `s`. A lone value leaves with its element. A value at one end
/// of a run leaves the rest of the run in its place, and a value inside a run
/// leaves two elements there: what lies below it and what lies above it.
pub open spec fn taken_at<T: Step>(
    s: Seq<Element<T>>,
    k: int,
    v: T,
    t: Seq<Element<T>>,
) -> bool {
    let lo = s[k].first().position();
    let hi = s[k].last().position();
    let p = v.position();
    if s[k] is Single {
        t == s.remove(k)
    } else if p == lo {
        &&& t.len() == s.len()
        &&& t[k].spans(p + 1, hi)
        &&& t == s.update(k, t[k])
    } else if p == hi {
        &&& t.len() == s.len()
        &&& t[k].spans(lo, p - 1)
        &&& t == s.update(k, t[k])
    } else {
        &&& t.len() == s.len() + 1
        &&& t[k].spans(lo, p - 1)
        &&& t[k + 1].spans(p + 1, hi)
        &&& t == s.update(k, t[k]).insert(k + 1, t[k + 1])
    }
}

/// Whether `t` is what adding `v` makes of the sequence `s`: `s` itself if
/// it holds `v` already, and else `v` added at its place.
pub open spec fn inserted<T: Step>(s: Seq<Element<T>>, v: T, t: Seq<Element<T>>) -> bool {
    if members(s).contains(v) {
        t == s
    } else {
        exists|i: int| #[trigger] splits_at(s, i, v) && t == inserted_at(s, i, v)
    }
}

/// Whether `t` is what taking `v` makes of the sequence `s`: `s` itself if
/// it does not hold `v`, and else `v` taken out of the element that holds it.
pub open spec fn taken<T: Step>(s: Seq<Element<T>>, v: T, t: Seq<Element<T>>) -> bool {
    if members(s).contains(v) {
        exists|k: int| 0 <= k < s.len() && (#[trigger] s[k]).contains(v) && taken_at(s, k, v, t)
    } else {
        t == s
    }
}

/// Whether `t` is what adding the values, one after the other, makes of the
/// sequence `s`.
pub open spec fn inserted_all<T: Step>(
    s: Seq<Element<T>>,
    values: Seq<T>,
    t: Seq<Element<T>>,
) -> bool
    decreases values.len(),
{
    if values.len() == 0 {
        t == s
    } else {
        exists|m: Seq<Element<T>>|
            inserted_all(s, values.drop_last(), m) && #[trigger] inserted(m, values.last(), t)
    }
}

/// Whether `t` is what taking the values, one after the other, makes of the
/// sequence `s`.
pub open spec fn taken_all<T: Step>(
    s: Seq<Element<T>>,
    values: Seq<T>,
    t: Seq<Element<T>>,
) -> bool
    decreases values.len(),
{
    if values.len() == 0 {
        t == s
    } else {
        exists|m: Seq<Element<T>>|
            taken_all(s, values.drop_last(), m) && #[trigger] taken(m, values.last(), t)
    }
}

/// In a sequence in canonical form a value has one place only.
pub proof fn lemma_place_unique<T: Step>(s: Seq<Element<T>>, i: int, j: int, v: T)
    requires
        canonical(s),
        splits_at(s, i, v),
        splits_at(s, j, v),
    ensures
        i == j,
{
    if i < j {
        assert(s[i].wf());
    }
    if j < i {
        assert(s[j].wf());
    }
}

/// In a sequence in canonical form one element at most holds a value.
pub proof fn lemma_holder_unique<T: Step>(s: Seq<Element<T>>, i: int, j: int, v: T)
    requires
        canonical(s),
        0 <= i < s.len(),
        0 <= j < s.len(),
        s[i].contains(v),
        s[j].contains(v),
    ensures
        i == j,
{
}

/// A value that has a place in the sequence is held by none of its elements.
pub proof fn lemma_place_means_absent<T: Step>(s: Seq<Element<T>>, i: int, v: T)
    requires
        canonical(s),
        splits_at(s, i, v),
    ensures
        !members(s).contains(v),
{
}

/// Adding a value at its place keeps the canonical form and adds just that
/// value; and the elements to be joined touch on one side only.
pub proof fn lemma_inserted_at<T: Step>(s: Seq<Element<T>>, i: int, v: T)
    requires
        canonical(s),
        splits_at(s, i, v),
    ensures
        canonical(inserted_at(s, i, v)),
        members(inserted_at(s, i, v)) == members(s).insert(v),
        i > 0 && s[i - 1].spec_adjacent_to(v) ==> Element::Single(v).follows(s[i - 1])
            && !s[i - 1].follows(Element::Single(v)),
        i < s.len() && s[i].spec_adjacent_to(v) ==> s[i].follows(Element::Single(v))
            && !Element::Single(v).follows(s[i]),
        0 < i < s.len() && s[i - 1].spec_adjacent_to(v) && s[i].spec_adjacent_to(v) ==> s[i].follows(
            s[i - 1].spec_merge(Element::Single(v)),
        ) && !s[i - 1].spec_merge(Element::Single(v)).follows(s[i]),
{
    let below = i > 0 && s[i - 1].spec_adjacent_to(v);
    let above = i < s.len() && s[i].spec_adjacent_to(v);
    if below && above {
        lemma_fill_gap(s, i, v);
    } else if below {
        lemma_extend_up(s, i, v);
    } else if above {
        lemma_extend_down(s, i, v);
    } else {
        lemma_insert_single(s, i, v);
    }
}

/// Taking a value out of the element that holds it keeps the canonical form
/// and removes just that value.
pub proof fn lemma_taken_at<T: Step>(s: Seq<Element<T>>, k: int, v: T, t: Seq<Element<T>>)
    requires
        canonical(s),
        0 <= k < s.len(),
        s[k].contains(v),
        taken_at(s, k, v, t),
    ensures
        canonical(t),
        members(t) == members(s).remove(v),
{
    let lo = s[k].first().position();
    let hi = s[k].last().position();
    let p = v.position();
    if s[k] is Single {
        lemma_drop_single(s, k, v);
    } else if p == lo || p == hi {
        lemma_cut_end(s, k, v, t[k]);
    } else {
        lemma_cut_inside(s, k, v, t[k], t[k + 1]);
    }
}

/// A value that touches neither neighbour becomes an element of its own.
proof fn lemma_insert_single<T: Step>(s: Seq<Element<T>>, i: int, v: T)
    requires
        canonical(s),
        splits_at(s, i, v),
        i > 0 ==> !s[i - 1].spec_adjacent_to(v),
        i < s.len() ==> !s[i].spec_adjacent_to(v),
    ensures
        canonical(s.insert(i, Element::Single(v))),
        members(s.insert(i, Element::Single(v))) == members(s).insert(v),
{
    let t = s.insert(i, Element::Single(v));
    assert forall|x: T| members(t).contains(x) == members(s).insert(v).contains(x) by {
        if members(t).contains(x) {
            let k = choose|k: int| 0 <= k < t.len() && (#[trigger] t[k]).contains(x);
            if k < i {
                assert(s[k].contains(x));
            } else if k == i {
                T::lemma_position_injective(&x, &v);
            } else {
                assert(s[k - 1].contains(x));
            }
        }
        if members(s).contains(x) {
            let k = choose|k: int| 0 <= k < s.len() && (#[trigger] s[k]).contains(x);
            if k < i {
                assert(t[k].contains(x));
            } else {
                assert(t[k + 1].contains(x));
            }
        }
        if x == v {
            assert(t[i].contains(x));
        }
    }
    assert(members(t) =~= members(s).insert(v));
}

/// A value one step above the element before it extends that element.
proof fn lemma_extend_up<T: Step>(s: Seq<Element<T>>, i: int, v: T)
    requires
        canonical(s),
        splits_at(s, i, v),
        i > 0,
        s[i - 1].spec_adjacent_to(v),
        i < s.len() ==> !s[i].spec_adjacent_to(v),
    ensures
        s[i - 1].follows(Element::Single(v)) != Element::Single(v).follows(s[i - 1]),
        canonical(s.update(i - 1, s[i - 1].spec_merge(Element::Single(v)))),
        members(s.update(i - 1, s[i - 1].spec_merge(Element::Single(v)))) == members(s).insert(v),
{
    let e = s[i - 1].spec_merge(Element::Single(v));
    let t = s.update(i - 1, e);
    assert forall|x: T| members(t).contains(x) == members(s).insert(v).contains(x) by {
        if members(t).contains(x) {
            let k = choose|k: int| 0 <= k < t.len() && (#[trigger] t[k]).contains(x);
            if k == i - 1 {
                if x.position() == v.position() {
                    T::lemma_position_injective(&x, &v);
                } else {
                    assert(s[k].contains(x));
                }
            } else {
                assert(s[k].contains(x));
            }
        }
        if members(s).contains(x) {
            let k = choose|k: int| 0 <= k < s.len() && (#[trigger] s[k]).contains(x);
            assert(t[k].contains(x));
        }
        if x == v {
            assert(t[i - 1].contains(x));
        }
    }
    assert(members(t) =~= members(s).insert(v));
}

/// A value one step below the element after it extends that element.
proof fn lemma_extend_down<T: Step>(s: Seq<Element<T>>, i: int, v: T)
    requires
        canonical(s),
        splits_at(s, i, v),
        i < s.len(),
        s[i].spec_adjacent_to(v),
        i > 0 ==> !s[i - 1].spec_adjacent_to(v),
    ensures
        s[i].follows(Element::Single(v)) != Element::Single(v).follows(s[i]),
        canonical(s.update(i, s[i].spec_merge(Element::Single(v)))),
        members(s.update(i, s[i].spec_merge(Element::Single(v)))) == members(s).insert(v),
{
    let e = s[i].spec_merge(Element::Single(v));
    let t = s.update(i, e);
    assert forall|x: T| members(t).contains(x) == members(s).insert(v).contains(x) by {
        if members(t).contains(x) {
            let k = choose|k: int| 0 <= k < t.len() && (#[trigger] t[k]).contains(x);
            if k == i {
                if x.position() == v.position() {
                    T::lemma_position_injective(&x, &v);
                } else {
                    assert(s[k].contains(x));
                }
            } else {
                assert(s[k].contains(x));
            }
        }
        if members(s).contains(x) {
            let k = choose|k: int| 0 <= k < s.len() && (#[trigger] s[k]).contains(x);
            assert(t[k].contains(x));
        }
        if x == v {
            assert(t[i].contains(x));
        }
    }
    assert(members(t) =~= members(s).insert(v));
}

/// A value one step from both of its neighbours joins them into one element.
proof fn lemma_fill_gap<T: Step>(s: Seq<Element<T>>, i: int, v: T)
    requires
        canonical(s),
        splits_at(s, i, v),
        0 < i < s.len(),
        s[i - 1].spec_adjacent_to(v),
        s[i].spec_adjacent_to(v),
    ensures
        s[i - 1].follows(Element::Single(v)) != Element::Single(v).follows(s[i - 1]),
        ({
            let lower = s[i - 1].spec_merge(Element::Single(v));
            &&& lower.follows(s[i]) != s[i].follows(lower)
            &&& canonical(s.update(i - 1, lower.spec_merge(s[i])).remove(i))
            &&& members(s.update(i - 1, lower.spec_merge(s[i])).remove(i)) == members(s).insert(v)
        }),
{
    let lower = s[i - 1].spec_merge(Element::Single(v));
    let e = lower.spec_merge(s[i]);
    let t = s.update(i - 1, e).remove(i);
    assert forall|x: T| members(t).contains(x) == members(s).insert(v).contains(x) by {
        if members(t).contains(x) {
            let k = choose|k: int| 0 <= k < t.len() && (#[trigger] t[k]).contains(x);
            if k == i - 1 {
                if x.position() == v.position() {
                    T::lemma_position_injective(&x, &v);
                } else if x.position() < v.position() {
                    assert(s[i - 1].contains(x));
                } else {
                    assert(s[i].contains(x));
                }
            } else if k < i - 1 {
                assert(s[k].contains(x));
            } else {
                assert(s[k + 1].contains(x));
            }
        }
        if members(s).contains(x) {
            let k = choose|k: int| 0 <= k < s.len() && (#[trigger] s[k]).contains(x);
            if k < i - 1 {
                assert(t[k].contains(x));
            } else if k <= i {
                assert(t[i - 1].contains(x));
            } else {
                assert(t[k - 1].contains(x));
            }
        }
        if x == v {
            assert(t[i - 1].contains(x));
        }
    }
    assert(members(t) =~= members(s).insert(v));
}

/// A lone value leaves with its element.
proof fn lemma_drop_single<T: Step>(s: Seq<Element<T>>, k: int, v: T)
    requires
        canonical(s),
        0 <= k < s.len(),
        s[k] is Single,
        s[k].contains(v),
    ensures
        s[k] == Element::Single(v),
        canonical(s.remove(k)),
        members(s.remove(k)) == members(s).remove(v),
{
    let t = s.remove(k);
    T::lemma_position_injective(&s[k].first(), &v);
    assert forall|x: T| members(t).contains(x) == members(s).remove(v).contains(x) by {
        if members(t).contains(x) {
            let j = choose|j: int| 0 <= j < t.len() && (#[trigger] t[j]).contains(x);
            if j < k {
                assert(s[j].contains(x));
            } else {
                assert(s[j + 1].contains(x));
            }
        }
        if members(s).contains(x) && x != v {
            let j = choose|j: int| 0 <= j < s.len() && (#[trigger] s[j]).contains(x);
            if j < k {
                assert(t[j].contains(x));
            } else if j == k {
                T::lemma_position_injective(&x, &v);
            } else {
                assert(t[j - 1].contains(x));
            }
        }
    }
    assert(members(t) =~= members(s).remove(v));
}

/// A value at one end of a run leaves the rest of the run behind.
proof fn lemma_cut_end<T: Step>(s: Seq<Element<T>>, k: int, v: T, rest: Element<T>)
    requires
        canonical(s),
        0 <= k < s.len(),
        s[k].contains(v),
        ({
            ||| v.position() == s[k].last().position() && rest.spans(
                s[k].first().position(),
                v.position() - 1,
            )
            ||| v.position() == s[k].first().position() && rest.spans(
                v.position() + 1,
                s[k].last().position(),
            )
        }),
    ensures
        canonical(s.update(k, rest)),
        members(s.update(k, rest)) == members(s).remove(v),
{
    let t = s.update(k, rest);
    assert forall|x: T| members(t).contains(x) == members(s).remove(v).contains(x) by {
        if members(t).contains(x) {
            let j = choose|j: int| 0 <= j < t.len() && (#[trigger] t[j]).contains(x);
            assert(s[j].contains(x));
        }
        if members(s).contains(x) && x != v {
            let j = choose|j: int| 0 <= j < s.len() && (#[trigger] s[j]).contains(x);
            if j == k {
                if x.position() == v.position() {
                    T::lemma_position_injective(&x, &v);
                }
            }
            assert(t[j].contains(x));
        }
    }
    assert(members(t) =~= members(s).remove(v));
}

/// A value inside a run leaves what lies below it and what lies above it as
/// two elements.
proof fn lemma_cut_inside<T: Step>(
    s: Seq<Element<T>>,
    k: int,
    v: T,
    below: Element<T>,
    above: Element<T>,
)
    requires
        canonical(s),
        0 <= k < s.len(),
        s[k].contains(v),
        below.spans(s[k].first().position(), v.position() - 1),
        above.spans(v.position() + 1, s[k].last().position()),
    ensures
        canonical(s.update(k, below).insert(k + 1, above)),
        members(s.update(k, below).insert(k + 1, above)) == members(s).remove(v),
{
    let t = s.update(k, below).insert(k + 1, above);
    assert forall|x: T| members(t).contains(x) == members(s).remove(v).contains(x) by {
        if members(t).contains(x) {
            let j = choose|j: int| 0 <= j < t.len() && (#[trigger] t[j]).contains(x);
            let j0 = if j <= k { j } else { j - 1 };
            assert(s[j0].contains(x));
        }
        if members(s).contains(x) && x != v {
            let j = choose|j: int| 0 <= j < s.len() && (#[trigger] s[j]).contains(x);
            if j < k {
                assert(t[j].contains(x));
            } else if j == k {
                if x.position() == v.position() {
                    T::lemma_position_injective(&x, &v);
                } else if x.position() < v.position() {
                    assert(t[k].contains(x));
                } else {
                    assert(t[k + 1].contains(x));
                }
            } else {
                assert(t[j + 1].contains(x));
            }
        }
    }
    assert(members(t) =~= members(s).remove(v));
}

} // verus!
