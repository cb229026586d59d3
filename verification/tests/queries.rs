use interval_set::{Interval, IntervalSet, ToIntervalSet};

fn set(list: Vec<(u32, u32)>) -> IntervalSet {
    list.to_interval_set().unwrap()
}

#[test]
fn empty_set_is_empty() {
    let e = IntervalSet::empty();
    assert!(e.is_empty());
    assert_eq!(e.size(), 0);
    assert_eq!(e.max(), None);
    assert!(e.iter().next().is_none());
}

#[test]
fn a_set_with_an_interval_is_not_empty() {
    assert!(!set(vec![(0, 0)]).is_empty());
    let mut s = IntervalSet::empty();
    s.insert(Interval::new(4, 9).unwrap());
    assert!(!s.is_empty());
}

#[test]
fn size_adds_the_counts() {
    assert_eq!(set(vec![(5, 10), (15, 20)]).size(), 12);
    assert_eq!(set(vec![(0, 10), (15, 20)]).size(), 17);
    assert_eq!(set(vec![(7, 7)]).size(), 1);
    assert_eq!(set(vec![(0, 4), (3, 9)]).size(), 10);
    assert_eq!(set(vec![(1, u32::MAX)]).size(), u32::MAX);
    assert_eq!(
        set(vec![(0, 10), (12, u32::MAX)]).size(),
        u32::MAX
    );
}

#[test]
fn max_is_the_first_of_the_largest() {
    let a = set(vec![(5, 10), (15, 25)]);
    let b = set(vec![(5, 10), (15, 20)]);
    let c = set(vec![(5, 10), (15, 20), (100, 1000)]);
    assert_eq!(a.max().unwrap(), Interval::new(15, 25).unwrap());
    assert_eq!(b.max().unwrap(), Interval::new(5, 10).unwrap());
    assert_eq!(c.max().unwrap(), Interval::new(100, 1000).unwrap());
    assert_eq!(IntervalSet::empty().max(), None);
}

#[test]
fn max_of_single_integers_is_the_first_of_them() {
    let s = set(vec![(9, 9), (3, 3), (6, 6)]);
    assert_eq!(s.max(), Some(Interval::new(3, 3).unwrap()));
    assert_eq!(
        set(vec![(0, 0)]).max(),
        Some(Interval::new(0, 0).unwrap())
    );
}

#[test]
fn max_of_the_whole_domain_is_the_whole_domain() {
    let s = set(vec![(0, u32::MAX)]);
    assert_eq!(s.max(), Some(Interval::whole()));
}

#[test]
fn the_cursor_hands_out_the_intervals_in_ascending_order() {
    let s = set(vec![(15, 20), (5, 10), (30, 30)]);
    let mut cursor = s.iter();
    assert_eq!(cursor.next().map(|i| i.as_tuple()), Some((5, 10)));
    assert_eq!(cursor.next().map(|i| i.as_tuple()), Some((15, 20)));
    assert_eq!(cursor.next().map(|i| i.as_tuple()), Some((30, 30)));
    assert!(cursor.next().is_none());
    assert!(cursor.next().is_none());
}

#[test]
fn a_second_cursor_starts_again() {
    let s = set(vec![(1, 2), (4, 5)]);
    let mut first = s.iter();
    assert_eq!(first.next().map(|i| i.as_tuple()), Some((1, 2)));
    let mut second = s.iter();
    assert_eq!(second.next().map(|i| i.as_tuple()), Some((1, 2)));
    assert_eq!(second.next().map(|i| i.as_tuple()), Some((4, 5)));
    assert_eq!(first.next().map(|i| i.as_tuple()), Some((4, 5)));
    assert!(first.next().is_none());
    assert!(second.next().is_none());
}

#[test]
fn sets_are_equal_when_they_hold_the_same_intervals() {
    assert_eq!(set(vec![(1, 2), (4, 5)]), set(vec![(4, 5), (1, 2)]));
    assert_eq!(set(vec![(1, 2), (3, 5)]), set(vec![(1, 5)]));
    assert_eq!(IntervalSet::empty(), set(vec![]));
    assert_ne!(set(vec![(1, 2)]), set(vec![(1, 3)]));
    assert_ne!(set(vec![(1, 2)]), set(vec![(0, 2)]));
    assert_ne!(set(vec![(1, 2)]), set(vec![(1, 2), (4, 5)]));
    assert_ne!(set(vec![(1, 2), (4, 5)]), set(vec![(1, 2)]));
    assert_ne!(set(vec![(1, 2)]), IntervalSet::empty());
    let s = set(vec![(3, 9), (20, 30)]);
    assert_eq!(s.clone(), s);
}
