use interval_set::{IntervalSet, ToIntervalSet};

fn set(list: Vec<(u32, u32)>) -> IntervalSet {
    list.to_interval_set().unwrap()
}

fn bounds(set: &IntervalSet) -> Vec<(u32, u32)> {
    let mut out = Vec::new();
    let mut cursor = set.iter();
    while let Some(i) = cursor.next() {
        out.push(i.as_tuple());
    }
    out
}

#[test]
fn flatten_of_the_empty_set_is_empty() {
    assert_eq!(IntervalSet::empty().flatten(), Vec::<u64>::new());
}

#[test]
fn flatten_gives_lower_bound_and_upper_bound_plus_one() {
    assert_eq!(set(vec![(0, 5), (9, 9)]).flatten(), vec![0, 6, 9, 10]);
    assert_eq!(set(vec![(7, 7)]).flatten(), vec![7, 8]);
}

#[test]
fn flatten_at_the_top_of_the_domain_does_not_wrap() {
    assert_eq!(
        set(vec![(0, u32::MAX)]).flatten(),
        vec![0u64, 4_294_967_296u64]
    );
    assert_eq!(
        set(vec![(3, 4), (u32::MAX, u32::MAX)]).flatten(),
        vec![3u64, 5, 4_294_967_295, 4_294_967_296]
    );
}

#[test]
fn unflatten_of_nothing_is_the_empty_set() {
    assert_eq!(IntervalSet::unflatten(Vec::new()), IntervalSet::empty());
}

#[test]
fn unflatten_pairs_the_markers() {
    let s = IntervalSet::unflatten(vec![0, 11, 15, 21]);
    assert_eq!(bounds(&s), vec![(0, 10), (15, 20)]);
    let t = IntervalSet::unflatten(vec![4_294_967_295, 4_294_967_296]);
    assert_eq!(bounds(&t), vec![(u32::MAX, u32::MAX)]);
}

#[test]
fn unflatten_coalesces_pairs_that_touch_or_overlap() {
    let s = IntervalSet::unflatten(vec![0, 5, 5, 9, 20, 30, 25, 40]);
    assert_eq!(bounds(&s), vec![(0, 8), (20, 39)]);
    let t = IntervalSet::unflatten(vec![10, 12, 0, 3]);
    assert_eq!(bounds(&t), vec![(0, 2), (10, 11)]);
}

#[test]
fn unflatten_undoes_flatten() {
    let lists: Vec<Vec<(u32, u32)>> = vec![
        vec![],
        vec![(0, 0)],
        vec![(0, 10), (15, 20)],
        vec![(1, 1), (3, 3), (5, 5)],
        vec![(0, u32::MAX)],
        vec![(0, 4), (u32::MAX - 1, u32::MAX)],
    ];
    for list in lists {
        let s = set(list.clone());
        assert_eq!(bounds(&s), list);
        let back = IntervalSet::unflatten(s.clone().flatten());
        assert_eq!(back, s);
        assert_eq!(bounds(&back), list);
    }
}
