use interval_set::{Interval, IntervalError, IntervalSet, ToIntervalSet};

fn bounds(set: &IntervalSet) -> Vec<(u32, u32)> {
    let mut out = Vec::new();
    let mut cursor = set.iter();
    while let Some(i) = cursor.next() {
        out.push(i.as_tuple());
    }
    out
}

#[test]
fn one_interval_gives_a_set_of_one_interval() {
    let s = Interval::new(5, 10).unwrap().to_interval_set().unwrap();
    assert_eq!(bounds(&s), vec![(5, 10)]);
    let w = Interval::whole().to_interval_set().unwrap();
    assert_eq!(bounds(&w), vec![(0, u32::MAX)]);
}

#[test]
fn a_list_of_intervals_is_folded_into_a_normal_form() {
    let list = vec![
        Interval::new(15, 20).unwrap(),
        Interval::new(5, 10).unwrap(),
        Interval::new(11, 12).unwrap(),
    ];
    let s = list.to_interval_set().unwrap();
    assert_eq!(bounds(&s), vec![(5, 12), (15, 20)]);
    let none: Vec<Interval> = Vec::new();
    assert_eq!(none.to_interval_set().unwrap(), IntervalSet::empty());
}

#[test]
fn a_list_of_pairs_is_folded_into_a_normal_form() {
    let s = vec![(5, 10), (15, 20)].to_interval_set().unwrap();
    assert_eq!(bounds(&s), vec![(5, 10), (15, 20)]);
    let t = vec![(0, 100), (5, 10)].to_interval_set().unwrap();
    assert_eq!(bounds(&t), vec![(0, 100)]);
    let none: Vec<(u32, u32)> = Vec::new();
    assert_eq!(none.to_interval_set().unwrap(), IntervalSet::empty());
}

#[test]
fn a_pair_out_of_order_is_refused() {
    assert_eq!(
        vec![(5, 3)].to_interval_set(),
        Err(IntervalError::InvalidRange)
    );
    assert_eq!(
        vec![(0, 1), (4, 8), (9, 2), (10, 11)].to_interval_set(),
        Err(IntervalError::InvalidRange)
    );
}

#[test]
fn a_text_is_read_word_by_word() {
    let s = String::from("3-4 7-19").to_interval_set().unwrap();
    assert_eq!(s, vec![(3, 4), (7, 19)].to_interval_set().unwrap());
    let t = String::from("3-4 6 7-19").to_interval_set().unwrap();
    assert_eq!(
        t,
        vec![(3, 4), (6, 6), (7, 19)].to_interval_set().unwrap()
    );
    assert_eq!(bounds(&t), vec![(3, 4), (6, 19)]);
    let u = String::from("3-4 7-19 6").to_interval_set().unwrap();
    assert_eq!(u, t);
    let v = String::from("3-3 4 7-7 8 9-19 6")
        .to_interval_set()
        .unwrap();
    assert_eq!(v, t);
}

#[test]
fn a_text_with_a_bad_word_is_refused() {
    assert_eq!(
        String::from("3-4 x 9").to_interval_set(),
        Err(IntervalError::ParseError)
    );
    assert_eq!(
        String::from("9-3").to_interval_set(),
        Err(IntervalError::InvalidRange)
    );
}
