//! One entry of a ranged set: a lone value or a run of neighbouring values.

use crate::range_inclusive::RangeInclusive;
use crate::step::Step;
use vstd::prelude::*;
use vstd::std_specs::convert::FromSpecImpl;
use vstd::std_specs::convert::IntoSpec;

verus! {

/// A lone value, or a closed run of two or more neighbouring values.
#[derive(Debug, PartialEq)]
pub enum Element<T: Step> {
    /// One value with no neighbour in the set.
    Single(T),
    /// The values from the start of the range to its end, both included.
    Range(RangeInclusive<T>),
}

impl<T: Step> Clone for Element<T> {
    /// A second copy of the element.
    fn clone(&self) -> (r: Self)
        ensures
            r == *self,
    {
        match self {
            Element::Single(s) => Element::Single(s.duplicate()),
            Element::Range(r) => Element::Range(
                RangeInclusive::new(r.start.duplicate(), r.end.duplicate()),
            ),
        }
    }
}

impl<T: Step> From<T> for Element<T> {
    /// The lone value `v`.
    fn from(v: T) -> (r: Self) {
        Element::Single(v)
    }
}

impl<T: Step> FromSpecImpl<T> for Element<T> {
    open spec fn obeys_from_spec() -> bool {
        true
    }

    open spec fn from_spec(v: T) -> Self {
        Element::Single(v)
    }
}

impl<T: Step> From<RangeInclusive<T>> for Element<T> {
    /// The run over the range `v`.
    fn from(v: RangeInclusive<T>) -> (r: Self) {
        Element::Range(v)
    }
}

impl<T: Step> FromSpecImpl<RangeInclusive<T>> for Element<T> {
    open spec fn obeys_from_spec() -> bool {
        true
    }

    open spec fn from_spec(v: RangeInclusive<T>) -> Self {
        Element::Range(v)
    }
}

impl<T: Step> Element<T> {
    /// The least value of the element.
    pub open spec fn first(&self) -> T {
        match self {
            Element::Single(s) => *s,
            Element::Range(r) => r.start,
        }
    }

    /// The greatest value of the element.
    pub open spec fn last(&self) -> T {
        match self {
            Element::Single(s) => *s,
            Element::Range(r) => r.end,
        }
    }

    /// A run holds two values or more: its start lies strictly below its end.
    pub open spec fn wf(&self) -> bool {
        self matches Element::Range(r) ==> r.start.position() < r.end.position()
    }

    /// Whether `v` is one of the values of the element.
    pub open spec fn contains(&self, v: T) -> bool {
        self.first().position() <= v.position() <= self.last().position()
    }

    /// Whether the element is in order and holds exactly the values at the
    /// positions `lo` to `hi`.
    pub open spec fn spans(&self, lo: int, hi: int) -> bool {
        &&& self.wf()
        &&& self.first().position() == lo
        &&& self.last().position() == hi
    }

    /// Whether `v` lies one step below the least value of the element or one
    /// step above its greatest.
    pub open spec fn spec_adjacent_to(&self, v: T) -> bool {
        ||| v.position() + 1 == self.first().position()
        ||| self.last().position() + 1 == v.position()
    }

    /// Whether `other` ends one step below the start of this element.
    pub open spec fn follows(&self, other: Self) -> bool {
        other.last().position() + 1 == self.first().position()
    }

    /// One element only is in order and spans given positions.
    pub proof fn lemma_spans_unique(a: Self, b: Self, lo: int, hi: int)
        requires
            a.spans(lo, hi),
            b.spans(lo, hi),
        ensures
            a == b,
    {
        T::lemma_position_injective(&a.first(), &b.first());
        T::lemma_position_injective(&a.last(), &b.last());
    }

    /// Whether the value is one step from either end of the element. A value
    /// that the element holds is never adjacent to it, and at an edge of the
    /// domain nothing is adjacent on that side.
    pub fn adjacent_to(&self, value: &T) -> (r: bool)
        ensures
            r == self.spec_adjacent_to(*value),
    {
        match (self.prev(), self.next()) {
            (Some(p), Some(n)) => value.equals(&p) || value.equals(&n),
            (Some(p), None) => value.equals(&p),
            (None, Some(n)) => value.equals(&n),
            (None, None) => false,
        }
    }

    /// The run that holds the values of the element and of `other`, where one
    /// of the two ends one step below the start of the other.
    pub open spec fn spec_merge(self, other: Self) -> Self {
        if self.follows(other) {
            Element::Range(RangeInclusive { start: other.first(), end: self.last() })
        } else {
            Element::Range(RangeInclusive { start: self.first(), end: other.last() })
        }
    }

    /// Joins the element with a value or a run that touches it on exactly
    /// one side, into the run that spans both. `value` is anything that
    /// converts into an element by a conversion whose outcome is specified.
    pub fn merge<S>(self, value: S) -> (r: Self) where S: Into<Self>
        requires
            S::obeys_into_spec(),
            self.follows(value.into_spec()) != value.into_spec().follows(self),
        ensures
            r == self.spec_merge(value.into_spec()),
    {
        self.join(value.into())
    }

    /// Joins the element with another that touches it on exactly one side,
    /// into the run that spans both.
    pub fn join(self, other: Self) -> (r: Self)
        requires
            self.follows(other) != other.follows(self),
        ensures
            r == self.spec_merge(other),
    {
        match (self, other) {
            (Element::Single(s), Element::Single(v)) => {
                if Self::steps_to(&v, &s) {
                    Element::Range(RangeInclusive::new(v, s))
                } else {
                    Element::Range(RangeInclusive::new(s, v))
                }
            },
            (Element::Single(s), Element::Range(v)) => {
                if Self::steps_to(&v.end, &s) {
                    Element::Range(RangeInclusive::new(v.start, s))
                } else {
                    Element::Range(RangeInclusive::new(s, v.end))
                }
            },
            (Element::Range(r), Element::Single(v)) => {
                if Self::steps_to(&v, &r.start) {
                    Element::Range(RangeInclusive::new(v, r.end))
                } else {
                    Element::Range(RangeInclusive::new(r.start, v))
                }
            },
            (Element::Range(r), Element::Range(v)) => {
                if Self::steps_to(&v.end, &r.start) {
                    Element::Range(RangeInclusive::new(v.start, r.end))
                } else {
                    Element::Range(RangeInclusive::new(r.start, v.end))
                }
            },
        }
    }

    /// The least value of the element.
    pub fn lower(&self) -> (r: &T)
        ensures
            *r == self.first(),
    {
        match self {
            Element::Single(s) => s,
            Element::Range(r) => &r.start,
        }
    }

    /// The greatest value of the element.
    pub fn upper(&self) -> (r: &T)
        ensures
            *r == self.last(),
    {
        match self {
            Element::Single(s) => s,
            Element::Range(r) => &r.end,
        }
    }

    /// Whether the element is in order: a run must start strictly below its
    /// end.
    pub fn in_order(&self) -> (r: bool)
        ensures
            r == self.wf(),
    {
        match self {
            Element::Single(_) => true,
            Element::Range(r) => r.start.precedes(&r.end),
        }
    }

    /// Cuts `value` out of a run that holds it. What is left below `value`
    /// comes first, then `value` itself, then what is left above it; a side
    /// is `None` where `value` is that end of the run, a lone value where
    /// one value is left, and a run otherwise.
    pub fn split(&self, value: &T) -> (r: (Option<Self>, T, Option<Self>))
        requires
            self is Range,
            self.contains(*value),
        ensures
            r.1 == *value,
            (match r.0 {
                None => value.position() == self.first().position(),
                Some(left) => left.spans(self.first().position(), value.position() - 1),
            }),
            (match r.2 {
                None => value.position() == self.last().position(),
                Some(right) => right.spans(value.position() + 1, self.last().position()),
            }),
    {
        match self {
            Element::Range(r) => {
                let left = match value.prev() {
                    Some(p) => {
                        if r.start.precedes(&p) {
                            Some(Element::Range(RangeInclusive::new(r.start.duplicate(), p)))
                        } else if r.start.equals(&p) {
                            Some(Element::Single(p))
                        } else {
                            None
                        }
                    },
                    None => None,
                };
                let right = match value.next() {
                    Some(n) => {
                        if n.precedes(&r.end) {
                            Some(Element::Range(RangeInclusive::new(n, r.end.duplicate())))
                        } else if n.equals(&r.end) {
                            Some(Element::Single(n))
                        } else {
                            None
                        }
                    },
                    None => None,
                };
                (left, value.duplicate(), right)
            },
            // Not reached: the element is a run.
            Element::Single(_) => (None, value.duplicate(), None),
        }
    }

    /// Whether `b` is the successor of `a`.
    fn steps_to(a: &T, b: &T) -> (r: bool)
        ensures
            r == (a.position() + 1 == b.position()),
    {
        match b.prev() {
            Some(p) => a.equals(&p),
            None => false,
        }
    }

    /// The successor of the element's greatest value.
    fn next(&self) -> (r: Option<T>)
        ensures
            r matches Some(n) ==> n.position() == self.last().position() + 1,
            r is None ==> forall|x: T| #[trigger] x.position() <= self.last().position(),
    {
        match self {
            Element::Single(s) => s.next(),
            Element::Range(r) => r.end.next(),
        }
    }

    /// The predecessor of the element's least value.
    fn prev(&self) -> (r: Option<T>)
        ensures
            r matches Some(p) ==> p.position() == self.first().position() - 1,
            r is None ==> forall|x: T| self.first().position() <= #[trigger] x.position(),
    {
        match self {
            Element::Single(s) => s.prev(),
            Element::Range(r) => r.start.prev(),
        }
    }
}

} // verus!
