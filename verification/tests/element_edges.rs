use ranged_set::element::Element;
use ranged_set::element::Element::{Range, Single};
use ranged_set::range_inclusive::RangeInclusive;

#[test]
fn range_inclusive_keeps_its_ends() {
    let r = RangeInclusive::new(3u8, 9u8);
    assert_eq!(r.start, 3);
    assert_eq!(r.end, 9);
    assert_eq!(r, RangeInclusive { start: 3, end: 9 });
    assert_ne!(r, RangeInclusive::new(3, 8));
}

#[test]
fn range_inclusive_clone_keeps_its_ends() {
    let r = RangeInclusive::new(-4i32, 4i32);
    assert_eq!(r.clone(), RangeInclusive::new(-4, 4));
}

#[test]
fn element_from_value_is_single() {
    assert_eq!(Element::from(3u8), Single(3));
    assert_eq!(Element::from(-3i64), Single(-3));
}

#[test]
fn element_from_range_is_range() {
    assert_eq!(Element::from(RangeInclusive::new(1u8, 2u8)), Range(RangeInclusive::new(1, 2)));
}

#[test]
fn element_clone_is_equal() {
    assert_eq!(Single(5u8).clone(), Single(5));
    assert_eq!(Range(RangeInclusive::new(5u8, 9u8)).clone(), Range(RangeInclusive::new(5, 9)));
}

#[test]
fn lower_and_upper_are_the_ends() {
    assert_eq!(*Single(5u8).lower(), 5);
    assert_eq!(*Single(5u8).upper(), 5);
    assert_eq!(*Range(RangeInclusive::new(2u8, 9u8)).lower(), 2);
    assert_eq!(*Range(RangeInclusive::new(2u8, 9u8)).upper(), 9);
}

#[test]
fn in_order_wants_a_run_of_two_or_more() {
    assert!(Single(5u8).in_order());
    assert!(Range(RangeInclusive::new(5u8, 6u8)).in_order());
    assert!(Range(RangeInclusive::new(0u8, 255u8)).in_order());
    assert!(!Range(RangeInclusive::new(5u8, 5u8)).in_order());
    assert!(!Range(RangeInclusive::new(6u8, 5u8)).in_order());
}

#[test]
fn adjacent_to_single_is_one_step_away() {
    let e = Single(5u8);
    assert!(e.adjacent_to(&4));
    assert!(e.adjacent_to(&6));
    assert!(!e.adjacent_to(&5));
    assert!(!e.adjacent_to(&3));
    assert!(!e.adjacent_to(&7));
    assert!(!e.adjacent_to(&0));
    assert!(!e.adjacent_to(&255));
}

#[test]
fn adjacent_to_range_is_one_step_from_an_end() {
    let e = Range(RangeInclusive::new(3u8, 5u8));
    assert!(e.adjacent_to(&2));
    assert!(e.adjacent_to(&6));
    assert!(!e.adjacent_to(&3));
    assert!(!e.adjacent_to(&4));
    assert!(!e.adjacent_to(&5));
    assert!(!e.adjacent_to(&1));
    assert!(!e.adjacent_to(&7));
}

#[test]
fn adjacent_to_does_not_wrap_at_the_edges() {
    assert!(!Single(255u8).adjacent_to(&0));
    assert!(Single(255u8).adjacent_to(&254));
    assert!(!Single(0u8).adjacent_to(&255));
    assert!(Single(0u8).adjacent_to(&1));
    assert!(!Range(RangeInclusive::new(254u8, 255u8)).adjacent_to(&0));
    assert!(Range(RangeInclusive::new(254u8, 255u8)).adjacent_to(&253));
    assert!(!Range(RangeInclusive::new(0u8, 1u8)).adjacent_to(&255));
    assert!(Range(RangeInclusive::new(0u8, 1u8)).adjacent_to(&2));
    assert!(!Range(RangeInclusive::new(0u8, 255u8)).adjacent_to(&0));
    assert!(!Range(RangeInclusive::new(0u8, 255u8)).adjacent_to(&255));
    assert!(!Single(127i8).adjacent_to(&-128));
    assert!(!Single(-128i8).adjacent_to(&127));
    assert!(!Single(i64::MAX).adjacent_to(&i64::MIN));
    assert!(!Single(i64::MIN).adjacent_to(&i64::MAX));
    assert!(!Single(u64::MAX).adjacent_to(&0));
}

#[test]
fn join_spans_both_elements() {
    assert_eq!(Single(1u8).join(Single(2)), Range(RangeInclusive::new(1, 2)));
    assert_eq!(Single(2u8).join(Single(1)), Range(RangeInclusive::new(1, 2)));
    assert_eq!(
        Single(1u8).join(Range(RangeInclusive::new(2, 3))),
        Range(RangeInclusive::new(1, 3))
    );
    assert_eq!(
        Single(4u8).join(Range(RangeInclusive::new(2, 3))),
        Range(RangeInclusive::new(2, 4))
    );
    assert_eq!(
        Range(RangeInclusive::new(2u8, 3)).join(Single(1)),
        Range(RangeInclusive::new(1, 3))
    );
    assert_eq!(
        Range(RangeInclusive::new(2u8, 3)).join(Single(4)),
        Range(RangeInclusive::new(2, 4))
    );
    assert_eq!(
        Range(RangeInclusive::new(2u8, 3)).join(Range(RangeInclusive::new(4, 9))),
        Range(RangeInclusive::new(2, 9))
    );
    assert_eq!(
        Range(RangeInclusive::new(4u8, 9)).join(Range(RangeInclusive::new(2, 3))),
        Range(RangeInclusive::new(2, 9))
    );
}

#[test]
fn merge_reaches_the_edges_of_the_domain() {
    assert_eq!(
        Range(RangeInclusive::new(1u8, 255)).merge(0),
        Range(RangeInclusive::new(0, 255))
    );
    assert_eq!(
        Range(RangeInclusive::new(0u8, 254)).merge(255),
        Range(RangeInclusive::new(0, 255))
    );
    assert_eq!(Single(-128i8).merge(-127), Range(RangeInclusive::new(-128, -127)));
    assert_eq!(Single(127i8).merge(126), Range(RangeInclusive::new(126, 127)));
    assert_eq!(
        Single(0u8).merge(RangeInclusive::new(1, 255)),
        Range(RangeInclusive::new(0, 255))
    );
}

#[test]
fn merge_of_signed_values_across_zero() {
    assert_eq!(Single(0i32).merge(-1), Range(RangeInclusive::new(-1, 0)));
    assert_eq!(
        Range(RangeInclusive::new(-3i32, -1)).merge(RangeInclusive::new(0, 2)),
        Range(RangeInclusive::new(-3, 2))
    );
}

#[test]
fn split_at_the_edges_of_the_domain() {
    assert_eq!(
        Range(RangeInclusive::new(0u8, 255)).split(&0),
        (None, 0, Some(Range(RangeInclusive::new(1, 255))))
    );
    assert_eq!(
        Range(RangeInclusive::new(0u8, 255)).split(&255),
        (Some(Range(RangeInclusive::new(0, 254))), 255, None)
    );
    assert_eq!(
        Range(RangeInclusive::new(254u8, 255)).split(&255),
        (Some(Single(254)), 255, None)
    );
    assert_eq!(Range(RangeInclusive::new(0u8, 1)).split(&0), (None, 0, Some(Single(1))));
    assert_eq!(
        Range(RangeInclusive::new(-128i8, 127)).split(&0),
        (
            Some(Range(RangeInclusive::new(-128, -1))),
            0,
            Some(Range(RangeInclusive::new(1, 127)))
        )
    );
}

#[test]
fn split_then_merge_gives_the_run_back() {
    let run = Range(RangeInclusive::new(10u8, 20));
    let (left, value, right) = run.split(&15);
    assert_eq!(left, Some(Range(RangeInclusive::new(10, 14))));
    assert_eq!(value, 15);
    assert_eq!(right, Some(Range(RangeInclusive::new(16, 20))));
    assert_eq!(left.unwrap().merge(value).join(right.unwrap()), run);
}
