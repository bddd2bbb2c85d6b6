//! The set itself: a sorted sequence of elements kept in canonical form.

use crate::canonical::{
    canonical, inserted, inserted_at, lemma_inserted_at, lemma_place_means_absent, lemma_taken_at,
    members, splits_at, taken, taken_at,
};
use crate::element::Element;
use crate::step::Step;
use vstd::prelude::*;

verus! {

/// A set that stores its values as maximal contiguous runs.
#[derive(Debug)]
pub struct RangedSet<T: Step> {
    ranges: Vec<Element<T>>,
}

impl<T: Step> View for RangedSet<T> {
    type V = Set<T>;

    /// The values of the set.
    open spec fn view(&self) -> Set<T> {
        members(self.elements())
    }
}

impl<T: Step> Default for RangedSet<T> {
    /// The empty set.
    fn default() -> (s: Self)
        ensures
            s.wf(),
            s.elements() == Seq::<Element<T>>::empty(),
            s@ == Set::<T>::empty(),
    {
        RangedSet::new()
    }
}

impl<T: Step> RangedSet<T> {
    /// The elements of the set, in order.
    pub closed spec fn elements(&self) -> Seq<Element<T>> {
        self.ranges@
    }

    /// The elements are in canonical form. Every set is at all times: each
    /// operation says so of the set it is given and of the set it leaves.
    pub open spec fn wf(&self) -> bool {
        canonical(self.elements())
    }

    /// What no operation may break: the canonical form of the elements.
    #[verifier::type_invariant]
    spec fn in_canonical_form(&self) -> bool {
        canonical(self.ranges@)
    }

    /// The empty set.
    pub fn new() -> (s: RangedSet<T>)
        ensures
            s.wf(),
            s.elements() == Seq::<Element<T>>::empty(),
            s@ == Set::<T>::empty(),
    {
        let s = RangedSet { ranges: Vec::new() };
        assert(s@ =~= Set::<T>::empty());
        s
    }

    /// The set that holds the values of the given elements, or `None` if
    /// the elements are not in canonical form.
    pub fn from_elements(elements: Vec<Element<T>>) -> (r: Option<RangedSet<T>>)
        ensures
            r is Some <==> canonical(elements@),
            r matches Some(s) ==> s.wf() && s.elements() == elements@,
    {
        let mut i: usize = 0;
        while i < elements.len()
            invariant
                i <= elements.len(),
                canonical(elements@.subrange(0, i as int)),
            decreases elements.len() - i,
        {
            let ghost head = elements@.subrange(0, i as int);
            let ghost longer = elements@.subrange(0, i + 1);
            if !elements[i].in_order() {
                return None;
            }
            if i > 0 {
                let apart = match elements[i - 1].upper().next() {
                    Some(n) => n.precedes(elements[i].lower()),
                    None => false,
                };
                if !apart {
                    proof {
                        if canonical(elements@) {
                            assert(elements@[i - 1].last().position() + 1
                                < elements@[i as int].first().position());
                        }
                    }
                    return None;
                }
            }
            proof {
                assert forall|a: int, b: int| 0 <= a < b < longer.len() implies
                    (#[trigger] longer[a]).last().position() + 1
                        < (#[trigger] longer[b]).first().position() by {
                    if b == i && a < i - 1 {
                        assert(head[a].last().position() + 1 < head[i - 1].first().position());
                    }
                }
            }
            i = i + 1;
        }
        assert(elements@.subrange(0, i as int) =~= elements@);
        Some(RangedSet { ranges: elements })
    }

    /// The elements of the set, in order.
    pub fn as_slice(&self) -> (r: &[Element<T>])
        ensures
            self.wf(),
            r@ == self.elements(),
    {
        proof {
            use_type_invariant(self);
        }
        self.ranges.as_slice()
    }

    /// Whether the set holds the value.
    pub fn contains(&self, value: &T) -> (r: bool)
        ensures
            self.wf(),
            r == self@.contains(*value),
    {
        match self.find_index_for(value) {
            Ok(_) => true,
            Err(_) => false,
        }
    }

    /// Adds the value to the set. Returns `true` if the set did not hold it
    /// before, and `false`, leaving the elements as they were, if it did.
    ///
    /// A value next to no element becomes an element of its own. One next
    /// to a single element extends that element. One that fills the gap
    /// between two elements joins them into one.
    pub fn insert(&mut self, value: T) -> (r: bool)
        ensures
            old(self).wf(),
            final(self).wf(),
            final(self)@ == old(self)@.insert(value),
            r == !old(self)@.contains(value),
            inserted(old(self).elements(), value, final(self).elements()),
    {
        let index = match self.find_index_for(&value) {
            Ok(_) => {
                assert(self@ =~= self@.insert(value));
                return false;
            },
            Err(index) => index,
        };
        let ghost prior = self.ranges@;
        proof {
            lemma_inserted_at(prior, index as int, value);
        }
        let mut ranges: Vec<Element<T>> = Vec::new();
        std::mem::swap(&mut ranges, &mut self.ranges);
        let below = index > 0 && ranges[index - 1].adjacent_to(&value);
        let above = index < ranges.len() && ranges[index].adjacent_to(&value);
        if below && above {
            let lower = ranges[index - 1].clone();
            let upper = ranges[index].clone();
            let merged = lower.merge(value).join(upper);
            ranges.set(index - 1, merged);
            let _ = ranges.remove(index);
        } else if below {
            let lower = ranges[index - 1].clone();
            let merged = lower.merge(value);
            ranges.set(index - 1, merged);
        } else if above {
            let upper = ranges[index].clone();
            let merged = upper.merge(value);
            ranges.set(index, merged);
        } else {
            ranges.insert(index, Element::Single(value));
        }
        self.ranges = ranges;
        true
    }

    /// Takes the value out of the set and returns it, or returns `None`,
    /// leaving the elements as they were, if the set does not hold it.
    ///
    /// A lone value leaves with its element. A value inside a run cuts the
    /// run into what lies below it and what lies above it, either of which
    /// may be empty.
    pub fn take(&mut self, value: &T) -> (r: Option<T>)
        ensures
            old(self).wf(),
            final(self).wf(),
            final(self)@ == old(self)@.remove(*value),
            r == (if old(self)@.contains(*value) {
                Some(*value)
            } else {
                None
            }),
            taken(old(self).elements(), *value, final(self).elements()),
    {
        let index = match self.find_index_for(value) {
            Ok(index) => index,
            Err(_) => {
                assert(self@ =~= self@.remove(*value));
                return None;
            },
        };
        let ghost prior = self.ranges@;
        let mut ranges: Vec<Element<T>> = Vec::new();
        std::mem::swap(&mut ranges, &mut self.ranges);
        let lone = match &ranges[index] {
            Element::Single(_) => true,
            Element::Range(_) => false,
        };
        let out = if lone {
            match ranges.remove(index) {
                Element::Single(v) => {
                    proof {
                        T::lemma_position_injective(&v, value);
                    }
                    v
                },
                // Not reached: the element is a lone value.
                Element::Range(r) => r.start,
            }
        } else {
            let (below, v, above) = ranges[index].split(value);
            match (below, above) {
                (Some(b), Some(a)) => {
                    ranges.set(index, b);
                    assert(index < ranges.len());
                    ranges.insert(index + 1, a);
                },
                (None, Some(a)) => {
                    ranges.set(index, a);
                },
                (Some(b), None) => {
                    ranges.set(index, b);
                },
                // Not reached: a run holds two values or more.
                (None, None) => {},
            }
            v
        };
        proof {
            lemma_taken_at(prior, index as int, *value, ranges@);
        }
        self.ranges = ranges;
        Some(out)
    }

    /// Takes the value out of the set. Returns `true` if the set held it,
    /// and `false`, leaving the elements as they were, if it did not.
    pub fn remove(&mut self, value: &T) -> (r: bool)
        ensures
            old(self).wf(),
            final(self).wf(),
            final(self)@ == old(self)@.remove(*value),
            r == old(self)@.contains(*value),
            taken(old(self).elements(), *value, final(self).elements()),
    {
        match self.take(value) {
            Some(_) => true,
            None => false,
        }
    }

    /// Where the value is, or where it would go. `Ok` carries the index of
    /// the element that holds the value. `Err` carries the place of the
    /// value: the index at which an element for it keeps the order.
    pub fn find_index_for(&self, value: &T) -> (r: Result<usize, usize>)
        ensures
            self.wf(),
            r is Ok <==> self@.contains(*value),
            (match r {
                Ok(k) => k < self.elements().len() && self.elements()[k as int].contains(*value),
                Err(i) => splits_at(self.elements(), i as int, *value),
            }),
    {
        proof {
            use_type_invariant(self);
        }
        let mut low: usize = 0;
        let mut high: usize = self.ranges.len();
        while low < high
            invariant
                low <= high <= self.ranges.len(),
                self.wf(),
                forall|j: int|
                    0 <= j < low ==> (#[trigger] self.elements()[j]).last().position()
                        < value.position(),
                forall|j: int|
                    high <= j < self.elements().len() ==> value.position()
                        < (#[trigger] self.elements()[j]).first().position(),
            decreases high - low,
        {
            let middle: usize = low + (high - low) / 2;
            if self.ranges[middle].upper().precedes(value) {
                low = middle + 1;
            } else if value.precedes(self.ranges[middle].lower()) {
                high = middle;
            } else {
                return Ok(middle);
            }
        }
        proof {
            lemma_place_means_absent(self.elements(), low as int, *value);
        }
        Err(low)
    }
}

} // verus!
