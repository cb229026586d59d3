use interval_set::{Interval, IntervalSet, ToIntervalSet};

fn interval(lo: u32, hi: u32) -> Interval {
    Interval::new(lo, hi).unwrap()
}

fn bounds(set: &IntervalSet) -> Vec<(u32, u32)> {
    let mut out = Vec::new();
    let mut cursor = set.iter();
    while let Some(i) = cursor.next() {
        out.push(i.as_tuple());
    }
    out
}

fn built(list: &[(u32, u32)]) -> IntervalSet {
    let mut set = IntervalSet::empty();
    for &(lo, hi) in list {
        set.insert(interval(lo, hi));
    }
    set
}

fn is_normal(list: &[(u32, u32)]) -> bool {
    list.iter().all(|&(lo, hi)| lo <= hi)
        && list
            .windows(2)
            .all(|w| (w[0].1 as u64) + 1 < w[1].0 as u64)
}

#[test]
fn insert_apart_keeps_both() {
    let mut set = built(&[(10, 20)]);
    set.insert(interval(40, 80));
    assert_eq!(bounds(&set), vec![(10, 20), (40, 80)]);
}

#[test]
fn insert_between_bridges_both_neighbours() {
    let mut set = built(&[(0, 0), (2, 2)]);
    assert_eq!(bounds(&set), vec![(0, 0), (2, 2)]);
    set.insert(interval(1, 1));
    assert_eq!(bounds(&set), vec![(0, 2)]);
}

#[test]
fn insert_before_all_goes_first() {
    let mut set = built(&[(10, 20), (40, 80)]);
    set.insert(interval(0, 5));
    assert_eq!(bounds(&set), vec![(0, 5), (10, 20), (40, 80)]);
}

#[test]
fn insert_touching_below_and_above_coalesces() {
    let mut set = built(&[(10, 20)]);
    set.insert(interval(21, 30));
    assert_eq!(bounds(&set), vec![(10, 30)]);
    set.insert(interval(5, 9));
    assert_eq!(bounds(&set), vec![(5, 30)]);
}

#[test]
fn insert_with_a_gap_of_one_stays_apart() {
    let mut set = built(&[(10, 20)]);
    set.insert(interval(22, 30));
    assert_eq!(bounds(&set), vec![(10, 20), (22, 30)]);
    set.insert(interval(0, 8));
    assert_eq!(bounds(&set), vec![(0, 8), (10, 20), (22, 30)]);
}

#[test]
fn insert_spanning_three_intervals_takes_them_all() {
    let mut set = built(&[(0, 1), (5, 6), (10, 11), (15, 16), (30, 40)]);
    set.insert(interval(4, 17));
    assert_eq!(bounds(&set), vec![(0, 1), (4, 17), (30, 40)]);
}

#[test]
fn insert_spanning_with_partial_overlap_stretches_to_the_outer_bounds() {
    let mut set = built(&[(0, 3), (6, 9), (12, 15), (20, 25)]);
    set.insert(interval(2, 13));
    assert_eq!(bounds(&set), vec![(0, 15), (20, 25)]);
}

#[test]
fn insert_of_what_is_there_changes_nothing() {
    let mut set = built(&[(0, 100)]);
    set.insert(interval(1, 3));
    assert_eq!(bounds(&set), vec![(0, 100)]);
    set.insert(interval(0, 100));
    assert_eq!(bounds(&set), vec![(0, 100)]);
}

#[test]
fn insert_at_the_top_of_the_domain_does_not_wrap() {
    let mut set = built(&[(0, 0)]);
    set.insert(interval(u32::MAX, u32::MAX));
    assert_eq!(bounds(&set), vec![(0, 0), (u32::MAX, u32::MAX)]);
    set.insert(interval(u32::MAX - 1, u32::MAX - 1));
    assert_eq!(bounds(&set), vec![(0, 0), (u32::MAX - 1, u32::MAX)]);
    set.insert(interval(1, u32::MAX - 2));
    assert_eq!(bounds(&set), vec![(0, u32::MAX)]);
}

#[test]
fn insert_of_the_whole_domain_takes_everything() {
    let mut set = built(&[(3, 4), (100, 200), (u32::MAX, u32::MAX)]);
    set.insert(Interval::whole());
    assert_eq!(bounds(&set), vec![(0, u32::MAX)]);
    set.insert(interval(7, 9));
    assert_eq!(bounds(&set), vec![(0, u32::MAX)]);
}

#[test]
fn any_order_of_inserts_gives_a_normal_form() {
    let lists: Vec<Vec<(u32, u32)>> = vec![
        vec![(5, 10), (0, 3), (4, 4), (20, 30), (12, 18), (11, 11), (19, 19)],
        vec![(9, 9), (7, 7), (5, 5), (3, 3), (1, 1)],
        vec![(1, 1), (3, 3), (5, 5), (2, 2), (4, 4)],
        vec![(100, 200), (150, 250), (0, 0), (300, 300), (251, 299)],
        vec![(u32::MAX, u32::MAX), (0, 0), (1, u32::MAX - 1)],
    ];
    let expected: Vec<Vec<(u32, u32)>> = vec![
        vec![(0, 30)],
        vec![(1, 1), (3, 3), (5, 5), (7, 7), (9, 9)],
        vec![(1, 5)],
        vec![(0, 0), (100, 300)],
        vec![(0, u32::MAX)],
    ];
    for (list, want) in lists.iter().zip(expected.iter()) {
        let set = built(list);
        let got = bounds(&set);
        assert!(is_normal(&got));
        assert_eq!(&got, want);
        let mut backwards = list.clone();
        backwards.reverse();
        assert_eq!(bounds(&built(&backwards)), got);
    }
}

#[test]
fn insert_agrees_with_the_list_constructor() {
    let list = vec![(1, 1), (2, 2), (3, 3), (4, 10), (10, 20)];
    assert_eq!(built(&list), list.to_interval_set().unwrap());
}
