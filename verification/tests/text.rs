use interval_set::text::{characters, is_whitespace, parse, parse_number, parse_token, push_decimal};
use interval_set::{Interval, IntervalError, IntervalSet, ToIntervalSet};

fn set(list: Vec<(u32, u32)>) -> IntervalSet {
    list.to_interval_set().unwrap()
}

fn bounds(set: &IntervalSet) -> Vec<(u32, u32)> {
    let mut out = Vec::new();
    let mut cursor = set.iter();
    while let Some(i) = cursor.next() {
        out.push(i.as_tuple());
    }
    out
}

fn number(word: &str) -> Option<u32> {
    let cs = characters(word);
    parse_number(&cs, 0, cs.len())
}

fn token(word: &str) -> Result<Interval, IntervalError> {
    let cs = characters(word);
    parse_token(&cs, 0, cs.len())
}

#[test]
fn characters_are_those_of_the_string() {
    assert_eq!(characters(""), Vec::<char>::new());
    assert_eq!(characters("3-4 6"), vec!['3', '-', '4', ' ', '6']);
    assert_eq!(characters("a\u{3000}b"), vec!['a', '\u{3000}', 'b']);
}

#[test]
fn white_space_is_what_unicode_lists() {
    for c in [' ', '\t', '\n', '\u{b}', '\u{c}', '\r', '\u{85}', '\u{a0}', '\u{1680}',
        '\u{2000}', '\u{2005}', '\u{200a}', '\u{2028}', '\u{2029}', '\u{202f}', '\u{205f}',
        '\u{3000}']
    {
        assert!(is_whitespace(c));
    }
    for c in ['0', '-', 'a', '\u{8}', '\u{e}', '\u{1f}', '!', '\u{84}', '\u{86}', '\u{200b}',
        '\u{2027}', '\u{202a}', '\u{3001}']
    {
        assert!(!is_whitespace(c));
    }
    for n in 0u32..0x3100 {
        if let Some(c) = char::from_u32(n) {
            assert_eq!(is_whitespace(c), c.is_whitespace());
        }
    }
}

#[test]
fn a_number_is_one_digit_or_more() {
    assert_eq!(number("0"), Some(0));
    assert_eq!(number("7"), Some(7));
    assert_eq!(number("19"), Some(19));
    assert_eq!(number("007"), Some(7));
    assert_eq!(number("4294967295"), Some(u32::MAX));
    assert_eq!(number("00000000004294967295"), Some(u32::MAX));
}

#[test]
fn a_number_may_start_with_a_plus_sign() {
    assert_eq!(number("+5"), Some(5));
    assert_eq!(number("+0"), Some(0));
    assert_eq!(number("+4294967295"), Some(u32::MAX));
    assert_eq!(number("+"), None);
    assert_eq!(number("++5"), None);
    assert_eq!(number("5+"), None);
    assert_eq!(number("+4294967296"), None);
    assert_eq!(token("+3-+4"), Ok(Interval::new(3, 4).unwrap()));
    assert_eq!(token("+7"), Ok(Interval::new(7, 7).unwrap()));
    assert_eq!(token("+-4"), Err(IntervalError::ParseError));
    for word in ["+5", "+0", "+", "++5", "5+", "007", "", "x", "4294967296"] {
        assert_eq!(number(word), word.parse::<u32>().ok());
    }
}

#[test]
fn what_is_no_number_is_refused() {
    assert_eq!(number(""), None);
    assert_eq!(number("x"), None);
    assert_eq!(number("-5"), None);
    assert_eq!(number("5a"), None);
    assert_eq!(number("1 2"), None);
    assert_eq!(number("4294967296"), None);
    assert_eq!(number("99999999999999999999999999"), None);
    assert_eq!(number("\u{663}"), None);
}

#[test]
fn a_number_is_read_from_the_middle_of_a_text() {
    let cs = characters("ab123cd");
    assert_eq!(parse_number(&cs, 2, 5), Some(123));
    assert_eq!(parse_number(&cs, 2, 4), Some(12));
    assert_eq!(parse_number(&cs, 1, 5), None);
    assert_eq!(parse_number(&cs, 3, 3), None);
}

#[test]
fn a_token_is_a_number_or_a_dashed_pair() {
    assert_eq!(token("6"), Ok(Interval::new(6, 6).unwrap()));
    assert_eq!(token("3-4"), Ok(Interval::new(3, 4).unwrap()));
    assert_eq!(token("7-7"), Ok(Interval::new(7, 7).unwrap()));
    assert_eq!(token("0-4294967295"), Ok(Interval::whole()));
    assert_eq!(token("010-0020"), Ok(Interval::new(10, 20).unwrap()));
}

#[test]
fn a_pair_out_of_order_is_an_invalid_range() {
    assert_eq!(token("4-3"), Err(IntervalError::InvalidRange));
    assert_eq!(token("4294967295-0"), Err(IntervalError::InvalidRange));
}

#[test]
fn a_malformed_token_is_a_parse_error() {
    for word in [
        "", "-", "x", "3-", "-3", "3--4", "3-4-5", "3-x", "x-4", "+", "3 4", "4294967296",
        "1-4294967296", "4294967296-1", "3.5", "0x10",
    ] {
        assert_eq!(token(word), Err(IntervalError::ParseError));
    }
}

#[test]
fn a_token_is_read_from_the_middle_of_a_text() {
    let cs = characters("1-2 30-40 5");
    assert_eq!(parse_token(&cs, 4, 9), Ok(Interval::new(30, 40).unwrap()));
    assert_eq!(parse_token(&cs, 10, 11), Ok(Interval::new(5, 5).unwrap()));
    assert_eq!(parse_token(&cs, 0, 2), Err(IntervalError::ParseError));
}

#[test]
fn parse_reads_the_words_in_any_order() {
    let a = parse("3-4 6 7-19").unwrap();
    assert_eq!(a, set(vec![(3, 4), (6, 6), (7, 19)]));
    assert_eq!(bounds(&a), vec![(3, 4), (6, 19)]);
    let b = parse("3-3 4 7-7 8 9-19 6").unwrap();
    assert_eq!(a, b);
    assert_eq!(bounds(&parse("3-4 7-19").unwrap()), vec![(3, 4), (7, 19)]);
    assert_eq!(bounds(&parse("7-19 3-4").unwrap()), vec![(3, 4), (7, 19)]);
    assert_eq!(bounds(&parse("1-10 5-20 0").unwrap()), vec![(0, 20)]);
}

#[test]
fn parse_of_no_word_is_the_empty_set() {
    assert_eq!(parse("").unwrap(), IntervalSet::empty());
    assert_eq!(parse("   ").unwrap(), IntervalSet::empty());
    assert_eq!(parse("\t\n").unwrap(), IntervalSet::empty());
}

#[test]
fn parse_takes_any_white_space_between_words() {
    assert_eq!(
        bounds(&parse("  1-2\t4\n6-7\r\n9 ").unwrap()),
        vec![(1, 2), (4, 4), (6, 7), (9, 9)]
    );
    assert_eq!(
        bounds(&parse("1\u{a0}3\u{3000}5").unwrap()),
        vec![(1, 1), (3, 3), (5, 5)]
    );
}

#[test]
fn parse_ends_with_the_error_of_the_first_bad_word() {
    assert_eq!(parse("x"), Err(IntervalError::ParseError));
    assert_eq!(parse("1 2 x 5-3"), Err(IntervalError::ParseError));
    assert_eq!(parse("1 5-3 x"), Err(IntervalError::InvalidRange));
    assert_eq!(parse("5-3"), Err(IntervalError::InvalidRange));
    assert_eq!(parse("3-4-5"), Err(IntervalError::ParseError));
    assert_eq!(parse("1 - 2"), Err(IntervalError::ParseError));
    assert_eq!(parse("4294967296"), Err(IntervalError::ParseError));
}

#[test]
fn parse_reaches_the_top_of_the_domain() {
    assert_eq!(
        bounds(&parse("4294967295 0-4294967293").unwrap()),
        vec![(0, u32::MAX - 2), (u32::MAX, u32::MAX)]
    );
    assert_eq!(
        bounds(&parse("4294967294 4294967295 0-4294967293").unwrap()),
        vec![(0, u32::MAX)]
    );
}

#[test]
fn decimal_digits_are_written_without_leading_zeros() {
    for (n, text) in [
        (0u32, "0"),
        (9, "9"),
        (10, "10"),
        (99, "99"),
        (100, "100"),
        (1905, "1905"),
        (4_294_967_295, "4294967295"),
    ] {
        let mut out = String::new();
        push_decimal(&mut out, n);
        assert_eq!(out, text);
    }
    let mut out = String::from("n=");
    push_decimal(&mut out, 42);
    push_decimal(&mut out, 7);
    assert_eq!(out, "n=427");
}

#[test]
fn a_set_is_written_as_its_intervals_with_spaces_between() {
    assert_eq!(IntervalSet::empty().to_string(), "");
    assert_eq!(set(vec![(7, 7)]).to_string(), "7");
    assert_eq!(set(vec![(3, 4)]).to_string(), "3-4");
    assert_eq!(set(vec![(3, 4), (6, 6), (8, 19)]).to_string(), "3-4 6 8-19");
    assert_eq!(set(vec![(3, 4), (6, 6), (7, 19)]).to_string(), "3-4 6-19");
    assert_eq!(set(vec![(0, u32::MAX)]).to_string(), "0-4294967295");
}

#[test]
fn what_is_written_reads_back_as_the_same_set() {
    for list in [
        vec![],
        vec![(0, 0)],
        vec![(5, 10), (15, 20)],
        vec![(1, 1), (3, 3), (5, 9), (100, 1000)],
        vec![(0, u32::MAX)],
        vec![(0, 4), (u32::MAX, u32::MAX)],
    ] {
        let s = set(list);
        assert_eq!(parse(&s.to_string()).unwrap(), s);
    }
}
