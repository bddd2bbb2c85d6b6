//! The stepping capability a value type must supply to be stored in a
//! [`RangedSet`](crate::set::RangedSet).

use vstd::prelude::*;

verus! {

/// A totally ordered domain in which every value has at most one immediate
/// predecessor and at most one immediate successor.
///
/// The domain is modelled as a contiguous stretch of the integers:
/// [`position`](Step::position) places every value on the integer line,
/// distinct values lie at distinct positions, and no position between two
/// values of the domain is left out. Order and stepping are those of the
/// positions.
pub trait Step: Sized {
    /// The place of the value on the integer line.
    spec fn position(&self) -> int;

    /// Two values at the same position are the same value.
    proof fn lemma_position_injective(a: &Self, b: &Self)
        requires
            a.position() == b.position(),
        ensures
            a == b,
    ;

    /// Every position between two values of the domain is taken by a value
    /// of the domain.
    proof fn lemma_position_contiguous(a: &Self, b: &Self, k: int)
        requires
            a.position() <= k <= b.position(),
        ensures
            exists|x: Self| #[trigger] x.position() == k,
    ;

    /// The successor of the value, or `None` when the value is the greatest
    /// of the domain.
    fn next(&self) -> (r: Option<Self>)
        ensures
            r matches Some(n) ==> n.position() == self.position() + 1,
            r is None ==> forall|x: Self| #[trigger] x.position() <= self.position(),
    ;

    /// The predecessor of the value, or `None` when the value is the least
    /// of the domain.
    fn prev(&self) -> (r: Option<Self>)
        ensures
            r matches Some(p) ==> p.position() == self.position() - 1,
            r is None ==> forall|x: Self| self.position() <= #[trigger] x.position(),
    ;

    /// Whether the value lies strictly below `other`.
    fn precedes(&self, other: &Self) -> (r: bool)
        ensures
            r == (self.position() < other.position()),
    ;

    /// Whether the value is `other`.
    fn equals(&self, other: &Self) -> (r: bool)
        ensures
            r == (self.position() == other.position()),
    ;

    /// A second copy of the value.
    fn duplicate(&self) -> (r: Self)
        ensures
            r == *self,
    ;
}

impl Step for u8 {
    open spec fn position(&self) -> int {
        *self as int
    }

    proof fn lemma_position_injective(a: &Self, b: &Self) {
    }

    proof fn lemma_position_contiguous(a: &Self, b: &Self, k: int) {
        assert((k as u8).position() == k);
    }

    fn next(&self) -> (r: Option<Self>)
        ensures
            r == (if *self < u8::MAX {
                Some((*self + 1) as u8)
            } else {
                None
            }),
    {
        self.checked_add(1)
    }

    fn prev(&self) -> (r: Option<Self>)
        ensures
            r == (if *self > u8::MIN {
                Some((*self - 1) as u8)
            } else {
                None
            }),
    {
        self.checked_sub(1)
    }

    fn precedes(&self, other: &Self) -> (r: bool) {
        *self < *other
    }

    fn equals(&self, other: &Self) -> (r: bool) {
        *self == *other
    }

    fn duplicate(&self) -> (r: Self) {
        *self
    }
}

impl Step for u16 {
    open spec fn position(&self) -> int {
        *self as int
    }

    proof fn lemma_position_injective(a: &Self, b: &Self) {
    }

    proof fn lemma_position_contiguous(a: &Self, b: &Self, k: int) {
        assert((k as u16).position() == k);
    }

    fn next(&self) -> (r: Option<Self>)
        ensures
            r == (if *self < u16::MAX {
                Some((*self + 1) as u16)
            } else {
                None
            }),
    {
        self.checked_add(1)
    }

    fn prev(&self) -> (r: Option<Self>)
        ensures
            r == (if *self > u16::MIN {
                Some((*self - 1) as u16)
            } else {
                None
            }),
    {
        self.checked_sub(1)
    }

    fn precedes(&self, other: &Self) -> (r: bool) {
        *self < *other
    }

    fn equals(&self, other: &Self) -> (r: bool) {
        *self == *other
    }

    fn duplicate(&self) -> (r: Self) {
        *self
    }
}

impl Step for u32 {
    open spec fn position(&self) -> int {
        *self as int
    }

    proof fn lemma_position_injective(a: &Self, b: &Self) {
    }

    proof fn lemma_position_contiguous(a: &Self, b: &Self, k: int) {
        assert((k as u32).position() == k);
    }

    fn next(&self) -> (r: Option<Self>)
        ensures
            r == (if *self < u32::MAX {
                Some((*self + 1) as u32)
            } else {
                None
            }),
    {
        self.checked_add(1)
    }

    fn prev(&self) -> (r: Option<Self>)
        ensures
            r == (if *self > u32::MIN {
                Some((*self - 1) as u32)
            } else {
                None
            }),
    {
        self.checked_sub(1)
    }

    fn precedes(&self, other: &Self) -> (r: bool) {
        *self < *other
    }

    fn equals(&self, other: &Self) -> (r: bool) {
        *self == *other
    }

    fn duplicate(&self) -> (r: Self) {
        *self
    }
}

impl Step for u64 {
    open spec fn position(&self) -> int {
        *self as int
    }

    proof fn lemma_position_injective(a: &Self, b: &Self) {
    }

    proof fn lemma_position_contiguous(a: &Self, b: &Self, k: int) {
        assert((k as u64).position() == k);
    }

    fn next(&self) -> (r: Option<Self>)
        ensures
            r == (if *self < u64::MAX {
                Some((*self + 1) as u64)
            } else {
                None
            }),
    {
        self.checked_add(1)
    }

    fn prev(&self) -> (r: Option<Self>)
        ensures
            r == (if *self > u64::MIN {
                Some((*self - 1) as u64)
            } else {
                None
            }),
    {
        self.checked_sub(1)
    }

    fn precedes(&self, other: &Self) -> (r: bool) {
        *self < *other
    }

    fn equals(&self, other: &Self) -> (r: bool) {
        *self == *other
    }

    fn duplicate(&self) -> (r: Self) {
        *self
    }
}

impl Step for u128 {
    open spec fn position(&self) -> int {
        *self as int
    }

    proof fn lemma_position_injective(a: &Self, b: &Self) {
    }

    proof fn lemma_position_contiguous(a: &Self, b: &Self, k: int) {
        assert((k as u128).position() == k);
    }

    fn next(&self) -> (r: Option<Self>)
        ensures
            r == (if *self < u128::MAX {
                Some((*self + 1) as u128)
            } else {
                None
            }),
    {
        self.checked_add(1)
    }

    fn prev(&self) -> (r: Option<Self>)
        ensures
            r == (if *self > u128::MIN {
                Some((*self - 1) as u128)
            } else {
                None
            }),
    {
        self.checked_sub(1)
    }

    fn precedes(&self, other: &Self) -> (r: bool) {
        *self < *other
    }

    fn equals(&self, other: &Self) -> (r: bool) {
        *self == *other
    }

    fn duplicate(&self) -> (r: Self) {
        *self
    }
}

impl Step for usize {
    open spec fn position(&self) -> int {
        *self as int
    }

    proof fn lemma_position_injective(a: &Self, b: &Self) {
    }

    proof fn lemma_position_contiguous(a: &Self, b: &Self, k: int) {
        assert((k as usize).position() == k);
    }

    fn next(&self) -> (r: Option<Self>)
        ensures
            r == (if *self < usize::MAX {
                Some((*self + 1) as usize)
            } else {
                None
            }),
    {
        self.checked_add(1)
    }

    fn prev(&self) -> (r: Option<Self>)
        ensures
            r == (if *self > usize::MIN {
                Some((*self - 1) as usize)
            } else {
                None
            }),
    {
        self.checked_sub(1)
    }

    fn precedes(&self, other: &Self) -> (r: bool) {
        *self < *other
    }

    fn equals(&self, other: &Self) -> (r: bool) {
        *self == *other
    }

    fn duplicate(&self) -> (r: Self) {
        *self
    }
}

impl Step for i8 {
    open spec fn position(&self) -> int {
        *self as int
    }

    proof fn lemma_position_injective(a: &Self, b: &Self) {
    }

    proof fn lemma_position_contiguous(a: &Self, b: &Self, k: int) {
        assert((k as i8).position() == k);
    }

    fn next(&self) -> (r: Option<Self>)
        ensures
            r == (if *self < i8::MAX {
                Some((*self + 1) as i8)
            } else {
                None
            }),
    {
        self.checked_add(1)
    }

    fn prev(&self) -> (r: Option<Self>)
        ensures
            r == (if *self > i8::MIN {
                Some((*self - 1) as i8)
            } else {
                None
            }),
    {
        self.checked_sub(1)
    }

    fn precedes(&self, other: &Self) -> (r: bool) {
        *self < *other
    }

    fn equals(&self, other: &Self) -> (r: bool) {
        *self == *other
    }

    fn duplicate(&self) -> (r: Self) {
        *self
    }
}

impl Step for i16 {
    open spec fn position(&self) -> int {
        *self as int
    }

    proof fn lemma_position_injective(a: &Self, b: &Self) {
    }

    proof fn lemma_position_contiguous(a: &Self, b: &Self, k: int) {
        assert((k as i16).position() == k);
    }

    fn next(&self) -> (r: Option<Self>)
        ensures
            r == (if *self < i16::MAX {
                Some((*self + 1) as i16)
            } else {
                None
            }),
    {
        self.checked_add(1)
    }

    fn prev(&self) -> (r: Option<Self>)
        ensures
            r == (if *self > i16::MIN {
                Some((*self - 1) as i16)
            } else {
                None
            }),
    {
        self.checked_sub(1)
    }

    fn precedes(&self, other: &Self) -> (r: bool) {
        *self < *other
    }

    fn equals(&self, other: &Self) -> (r: bool) {
        *self == *other
    }

    fn duplicate(&self) -> (r: Self) {
        *self
    }
}

impl Step for i32 {
    open spec fn position(&self) -> int {
        *self as int
    }

    proof fn lemma_position_injective(a: &Self, b: &Self) {
    }

    proof fn lemma_position_contiguous(a: &Self, b: &Self, k: int) {
        assert((k as i32).position() == k);
    }

    fn next(&self) -> (r: Option<Self>)
        ensures
            r == (if *self < i32::MAX {
                Some((*self + 1) as i32)
            } else {
                None
            }),
    {
        self.checked_add(1)
    }

    fn prev(&self) -> (r: Option<Self>)
        ensures
            r == (if *self > i32::MIN {
                Some((*self - 1) as i32)
            } else {
                None
            }),
    {
        self.checked_sub(1)
    }

    fn precedes(&self, other: &Self) -> (r: bool) {
        *self < *other
    }

    fn equals(&self, other: &Self) -> (r: bool) {
        *self == *other
    }

    fn duplicate(&self) -> (r: Self) {
        *self
    }
}

impl Step for i64 {
    open spec fn position(&self) -> int {
        *self as int
    }

    proof fn lemma_position_injective(a: &Self, b: &Self) {
    }

    proof fn lemma_position_contiguous(a: &Self, b: &Self, k: int) {
        assert((k as i64).position() == k);
    }

    fn next(&self) -> (r: Option<Self>)
        ensures
            r == (if *self < i64::MAX {
                Some((*self + 1) as i64)
            } else {
                None
            }),
    {
        self.checked_add(1)
    }

    fn prev(&self) -> (r: Option<Self>)
        ensures
            r == (if *self > i64::MIN {
                Some((*self - 1) as i64)
            } else {
                None
            }),
    {
        self.checked_sub(1)
    }

    fn precedes(&self, other: &Self) -> (r: bool) {
        *self < *other
    }

    fn equals(&self, other: &Self) -> (r: bool) {
        *self == *other
    }

    fn duplicate(&self) -> (r: Self) {
        *self
    }
}

impl Step for i128 {
    open spec fn position(&self) -> int {
        *self as int
    }

    proof fn lemma_position_injective(a: &Self, b: &Self) {
    }

    proof fn lemma_position_contiguous(a: &Self, b: &Self, k: int) {
        assert((k as i128).position() == k);
    }

    fn next(&self) -> (r: Option<Self>)
        ensures
            r == (if *self < i128::MAX {
                Some((*self + 1) as i128)
            } else {
                None
            }),
    {
        self.checked_add(1)
    }

    fn prev(&self) -> (r: Option<Self>)
        ensures
            r == (if *self > i128::MIN {
                Some((*self - 1) as i128)
            } else {
                None
            }),
    {
        self.checked_sub(1)
    }

    fn precedes(&self, other: &Self) -> (r: bool) {
        *self < *other
    }

    fn equals(&self, other: &Self) -> (r: bool) {
        *self == *other
    }

    fn duplicate(&self) -> (r: Self) {
        *self
    }
}

impl Step for isize {
    open spec fn position(&self) -> int {
        *self as int
    }

    proof fn lemma_position_injective(a: &Self, b: &Self) {
    }

    proof fn lemma_position_contiguous(a: &Self, b: &Self, k: int) {
        assert((k as isize).position() == k);
    }

    fn next(&self) -> (r: Option<Self>)
        ensures
            r == (if *self < isize::MAX {
                Some((*self + 1) as isize)
            } else {
                None
            }),
    {
        self.checked_add(1)
    }

    fn prev(&self) -> (r: Option<Self>)
        ensures
            r == (if *self > isize::MIN {
                Some((*self - 1) as isize)
            } else {
                None
            }),
    {
        self.checked_sub(1)
    }

    fn precedes(&self, other: &Self) -> (r: bool) {
        *self < *other
    }

    fn equals(&self, other: &Self) -> (r: bool) {
        *self == *other
    }

    fn duplicate(&self) -> (r: Self) {
        *self
    }
}

} // verus!
