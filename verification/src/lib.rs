//! A set of values from a steppable domain, stored as maximal contiguous runs.
//!
//! A [`RangedSet`] keeps a sorted sequence of [`Element`]s, each a lone value
//! or a closed run of neighbouring values, in canonical form: no two elements
//! overlap or touch, so that every run is as long as it can be. Membership is
//! found by binary search; adding a value extends or joins its neighbours,
//! and taking a value shortens or cuts the run that holds it.
//!
//! The values come from any type with the [`Step`] capability, which all the
//! primitive integers have.

pub mod canonical;
pub mod element;
pub mod laws;
pub mod range_inclusive;
pub mod set;
pub mod step;

pub use element::Element;
pub use range_inclusive::RangeInclusive;
pub use set::RangedSet;
pub use step::Step;
