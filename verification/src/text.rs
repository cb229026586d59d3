//! The textual notation: words separated by white space, each a number `n`
//! for `[n, n]` or two numbers joined by a dash, `lo-hi`, for `[lo, hi]`. A
//! number is written in decimal digits, with or without a plus sign before
//! them.

use crate::interval::Interval;
use crate::interval::IntervalError;
use crate::model::{covers, points};
use crate::set::IntervalSet;
use vstd::prelude::*;

verus! {

/// White space: the characters that Unicode lists as such.
pub open spec fn is_space(c: char) -> bool {
    let n = c as u32;
    ||| 9 <= n <= 13
    ||| n == 0x20
    ||| n == 0x85
    ||| n == 0xa0
    ||| n == 0x1680
    ||| 0x2000 <= n <= 0x200a
    ||| n == 0x2028
    ||| n == 0x2029
    ||| n == 0x202f
    ||| n == 0x205f
    ||| n == 0x3000
}

/// A decimal digit, `0` to `9`.
pub open spec fn is_digit(c: char) -> bool {
    0x30 <= c as u32 <= 0x39
}

/// The digit that stands for `d`, which is below ten.
pub open spec fn digit_char(d: nat) -> char {
    (0x30 + d) as char
}

/// The value of a string of digits, read as a decimal number.
pub open spec fn number(t: Seq<char>) -> int
    decreases t.len(),
{
    if t.len() == 0 {
        0
    } else {
        number(t.drop_last()) * 10 + (t.last() as u32 - 0x30)
    }
}

/// The digits of a number as it is written: what follows a plus sign at the
/// start, or else all of it.
pub open spec fn unsigned(t: Seq<char>) -> Seq<char> {
    if t.len() > 0 && t[0] == '+' {
        t.drop_first()
    } else {
        t
    }
}

/// The string is a decimal number that a `u32` holds: one digit or more and
/// nothing after them, with or without a plus sign before them.
pub open spec fn is_number(t: Seq<char>) -> bool {
    &&& unsigned(t).len() > 0
    &&& forall|i: int| 0 <= i < unsigned(t).len() ==> is_digit(#[trigger] unsigned(t)[i])
    &&& number(unsigned(t)) <= u32::MAX
}

/// The value of a number as it is written.
pub open spec fn value(t: Seq<char>) -> int {
    number(unsigned(t))
}

/// The token has a dash at `d` with a number before it and a number after it.
pub open spec fn splits(t: Seq<char>, d: int) -> bool {
    &&& 0 <= d < t.len()
    &&& t[d] == '-'
    &&& is_number(t.subrange(0, d))
    &&& is_number(t.subrange(d + 1, t.len() as int))
}

/// The bounds that a token names, or why it names none: a number names the
/// interval of that one integer; two numbers joined by a dash name the
/// interval between them, and are refused when the first is above the second;
/// anything else is no token.
pub open spec fn token_bounds(t: Seq<char>) -> Result<(int, int), IntervalError> {
    if is_number(t) {
        Ok((value(t), value(t)))
    } else if exists|d: int| splits(t, d) {
        let d = choose|d: int| splits(t, d);
        let lo = value(t.subrange(0, d));
        let hi = value(t.subrange(d + 1, t.len() as int));
        if lo <= hi {
            Ok((lo, hi))
        } else {
            Err(IntervalError::InvalidRange)
        }
    } else {
        Err(IntervalError::ParseError)
    }
}

/// The decimal digits of `n`, without leading zeros.
pub open spec fn digits(n: nat) -> Seq<char>
    decreases n,
{
    if n < 10 {
        seq![digit_char(n)]
    } else {
        digits(n / 10).push(digit_char(n % 10))
    }
}

/// How an interval is written: its one integer, or its bounds joined by a
/// dash.
pub open spec fn interval_text(i: Interval) -> Seq<char> {
    if i.lo() == i.hi() {
        digits(i.lo() as nat)
    } else {
        digits(i.lo() as nat) + seq!['-'] + digits(i.hi() as nat)
    }
}

/// How a list of intervals is written: one after the other, with a space
/// between two of them.
pub open spec fn intervals_text(s: Seq<Interval>) -> Seq<char>
    decreases s.len(),
{
    if s.len() == 0 {
        Seq::empty()
    } else if s.len() == 1 {
        interval_text(s[0])
    } else {
        intervals_text(s.drop_last()) + seq![' '] + interval_text(s.last())
    }
}

/// Whether `c` is white space.
pub fn is_whitespace(c: char) -> (res: bool)
    ensures
        res == is_space(c),
{
    let n: u32 = c as u32;
    (9 <= n && n <= 13) || n == 0x20 || n == 0x85 || n == 0xa0 || n == 0x1680 || (0x2000 <= n && n
        <= 0x200a) || n == 0x2028 || n == 0x2029 || n == 0x202f || n == 0x205f || n == 0x3000
}

/// The characters of a string, in order.
pub fn characters(s: &str) -> (res: Vec<char>)
    ensures
        res@ == s@,
{
    let mut res: Vec<char> = Vec::new();
    for c in it: s.chars()
        invariant
            res@ == it.seq().take(it.index() as int),
            it.seq() == s@,
    {
        res.push(c);
    }
    res
}

/// The one-digit text of `d`.
fn digit_text(d: u32) -> (res: &'static str)
    requires
        d < 10,
    ensures
        res@ == seq![digit_char(d as nat)],
{
    proof {
        reveal_strlit("0");
        reveal_strlit("1");
        reveal_strlit("2");
        reveal_strlit("3");
        reveal_strlit("4");
        reveal_strlit("5");
        reveal_strlit("6");
        reveal_strlit("7");
        reveal_strlit("8");
        reveal_strlit("9");
    }
    let res = if d == 0 {
        "0"
    } else if d == 1 {
        "1"
    } else if d == 2 {
        "2"
    } else if d == 3 {
        "3"
    } else if d == 4 {
        "4"
    } else if d == 5 {
        "5"
    } else if d == 6 {
        "6"
    } else if d == 7 {
        "7"
    } else if d == 8 {
        "8"
    } else {
        "9"
    };
    assert(res@ =~= seq![digit_char(d as nat)]);
    res
}

/// Writes the decimal digits of `n` at the end of `out`.
pub fn push_decimal(out: &mut String, n: u32)
    ensures
        final(out)@ == old(out)@ + digits(n as nat),
    decreases n,
{
    if n >= 10 {
        push_decimal(out, n / 10);
    }
    out.append(digit_text(n % 10));
    assert(out@ =~= old(out)@ + digits(n as nat));
}

/// The characters from `a` up to `b` are a word of the text: a run of
/// characters other than white space that is not part of a longer one.
pub open spec fn is_word(s: Seq<char>, a: int, b: int) -> bool {
    &&& 0 <= a < b <= s.len()
    &&& forall|i: int| a <= i < b ==> !is_space(#[trigger] s[i])
    &&& (a == 0 || is_space(s[a - 1]))
    &&& (b == s.len() || is_space(s[b]))
}

/// The word from `a` up to `b`, which ends at or before `end`, names an
/// interval that holds `x`.
pub open spec fn word_holds(s: Seq<char>, end: int, a: int, b: int, x: int) -> bool {
    &&& is_word(s, a, b)
    &&& b <= end
    &&& token_bounds(s.subrange(a, b)) matches Ok(r) && r.0 <= x <= r.1
}

/// Every word of the text that ends at or before `end` names an interval.
pub open spec fn words_fine(s: Seq<char>, end: int) -> bool {
    forall|a: int, b: int| #[trigger]
        is_word(s, a, b) && b <= end ==> token_bounds(s.subrange(a, b)) is Ok
}

/// The integers that the words of a text name: those that lie in the
/// interval of some word.
pub open spec fn text_points(s: Seq<char>) -> Set<int> {
    Set::new(|x: int| exists|a: int, b: int| word_holds(s, s.len() as int, a, b, x))
}

/// The text has a word that names no interval, and `e` is the error of the
/// first such word.
pub open spec fn text_fails(s: Seq<char>, e: IntervalError) -> bool {
    exists|a: int, b: int|
        {
            &&& #[trigger] is_word(s, a, b)
            &&& token_bounds(s.subrange(a, b)) == Err::<(int, int), IntervalError>(e)
            &&& words_fine(s, a)
        }
}

/// What a text stands for. It stands for a set when each of its words names
/// an interval: the set of the integers that these intervals hold, in whatever
/// order the words come and however they overlap. Else it stands for the
/// error of the first word that names none.
pub open spec fn text_describes(s: Seq<char>, outcome: Result<Set<int>, IntervalError>) -> bool {
    match outcome {
        Ok(set) => words_fine(s, s.len() as int) && set == text_points(s),
        Err(e) => text_fails(s, e),
    }
}

/// A string of digits has a value of zero or more.
proof fn lemma_number_nonnegative(t: Seq<char>)
    requires
        forall|i: int| 0 <= i < t.len() ==> is_digit(#[trigger] t[i]),
    ensures
        0 <= number(t),
    decreases t.len(),
{
    if t.len() > 0 {
        lemma_number_nonnegative(t.drop_last());
        assert(is_digit(t[t.len() - 1]));
    }
}

/// The value of the first digits of a string of digits is no more than the
/// value of the whole string.
proof fn lemma_number_prefix(t: Seq<char>, k: int)
    requires
        forall|i: int| 0 <= i < t.len() ==> is_digit(#[trigger] t[i]),
        0 <= k <= t.len(),
    ensures
        0 <= number(t.subrange(0, k)) <= number(t),
    decreases t.len() - k,
{
    lemma_number_nonnegative(t.subrange(0, k));
    if k < t.len() {
        lemma_number_prefix(t, k + 1);
        assert(t.subrange(0, k + 1).drop_last() =~= t.subrange(0, k));
        assert(is_digit(t[k]));
    } else {
        assert(t.subrange(0, k) =~= t);
    }
}

/// No number has a dash in it.
proof fn lemma_number_has_no_dash(t: Seq<char>, i: int)
    requires
        is_number(t),
        0 <= i < t.len(),
    ensures
        t[i] != '-',
{
    let d = unsigned(t);
    if d.len() == t.len() {
        assert(is_digit(d[i]));
    } else if i > 0 {
        assert(d[i - 1] == t[i]);
        assert(is_digit(d[i - 1]));
    }
}

/// A token has at most one place where a dash joins two numbers.
proof fn lemma_splits_once(t: Seq<char>, d: int, e: int)
    requires
        splits(t, d),
        splits(t, e),
    ensures
        d == e,
{
    if d < e {
        assert(t.subrange(0, e)[d] == t[d]);
        lemma_number_has_no_dash(t.subrange(0, e), d);
    }
    if e < d {
        assert(t.subrange(0, d)[e] == t[e]);
        lemma_number_has_no_dash(t.subrange(0, d), e);
    }
}

/// Reads the characters of `cs` from `from` up to `to` as a decimal number:
/// digits, with or without a plus sign before them.
pub fn parse_number(cs: &Vec<char>, from: usize, to: usize) -> (res: Option<u32>)
    requires
        from <= to <= cs.len(),
    ensures
        res is Some <==> is_number(cs@.subrange(from as int, to as int)),
        res matches Some(n) ==> n == value(cs@.subrange(from as int, to as int)),
{
    let ghost whole = cs@.subrange(from as int, to as int);
    let mut start: usize = from;
    if from < to && cs[from] == '+' {
        start = from + 1;
    }
    let ghost t = cs@.subrange(start as int, to as int);
    proof {
        assert(whole.len() > 0 ==> whole[0] == cs@[from as int]);
        assert(unsigned(whole) =~= t);
        assert(t.subrange(0, 0) =~= Seq::<char>::empty());
    }
    if start == to {
        return None;
    }
    let mut acc: u64 = 0;
    let mut i: usize = start;
    while i < to
        invariant
            from <= start <= i <= to <= cs.len(),
            whole == cs@.subrange(from as int, to as int),
            t == unsigned(whole),
            t == cs@.subrange(start as int, to as int),
            forall|k: int| 0 <= k < i - start ==> is_digit(#[trigger] t[k]),
            acc == number(t.subrange(0, i - start)),
            acc <= u32::MAX,
        decreases to - i,
    {
        let v: u32 = cs[i] as u32;
        if v < 0x30 || v > 0x39 {
            assert(!is_digit(t[i - start]));
            return None;
        }
        proof {
            assert(t.subrange(0, i + 1 - start).drop_last() =~= t.subrange(0, i - start));
            assert(t.subrange(0, i + 1 - start).last() == t[i - start]);
        }
        acc = acc * 10 + (v - 0x30) as u64;
        if acc > u32::MAX as u64 {
            proof {
                if forall|k: int| 0 <= k < t.len() ==> is_digit(#[trigger] t[k]) {
                    lemma_number_prefix(t, i + 1 - start);
                }
            }
            return None;
        }
        i += 1;
    }
    assert(t.subrange(0, i - start) =~= t);
    Some(acc as u32)
}

/// Reads the characters of `cs` from `from` up to `to` as one token.
pub fn parse_token(cs: &Vec<char>, from: usize, to: usize) -> (res: Result<
    Interval,
    IntervalError,
>)
    requires
        from <= to <= cs.len(),
    ensures
        match token_bounds(cs@.subrange(from as int, to as int)) {
            Ok(r) => res matches Ok(i) && i.lo() == r.0 && i.hi() == r.1 && i.valid(),
            Err(e) => res == Err::<Interval, IntervalError>(e),
        },
{
    let ghost t = cs@.subrange(from as int, to as int);
    let mut d: usize = from;
    while d < to && cs[d] != '-'
        invariant
            from <= d <= to <= cs.len(),
            t == cs@.subrange(from as int, to as int),
            forall|k: int| 0 <= k < d - from ==> t[k] != '-',
        decreases to - d,
    {
        d += 1;
    }
    if d == to {
        proof {
            assert forall|e: int| !splits(t, e) by {
                if splits(t, e) {
                    assert(t[e] == '-');
                }
            }
        }
        match parse_number(cs, from, to) {
            Some(n) => Interval::new(n, n),
            None => Err(IntervalError::ParseError),
        }
    } else {
        let ghost k = d - from;
        proof {
            assert(t[k] == '-');
            if is_number(t) {
                lemma_number_has_no_dash(t, k);
            }
            assert(t.subrange(0, k) =~= cs@.subrange(from as int, d as int));
            assert(t.subrange(k + 1, t.len() as int) =~= cs@.subrange(d + 1, to as int));
        }
        let first = parse_number(cs, from, d);
        let second = parse_number(cs, d + 1, to);
        proof {
            if first is Some && second is Some {
                assert(splits(t, k));
                let e = choose|e: int| splits(t, e);
                lemma_splits_once(t, k, e);
            } else {
                assert forall|e: int| !splits(t, e) by {
                    if splits(t, e) {
                        if e < k {
                            assert(t[e] != '-');
                        } else if e > k {
                            assert(t.subrange(0, e)[k] == t[k]);
                            lemma_number_has_no_dash(t.subrange(0, e), k);
                        }
                    }
                }
            }
        }
        match (first, second) {
            (Some(lo), Some(hi)) => Interval::new(lo, hi),
            _ => Err(IntervalError::ParseError),
        }
    }
}

/// Reads a text in the notation of this module. The words of the text are
/// taken in order; each names an interval, which is added to the set. The
/// first word that names none ends the reading with its error.
pub fn parse(text: &str) -> (res: Result<IntervalSet, IntervalError>)
    ensures
        res matches Ok(set) ==> set.wf() && text_describes(text@, Ok(set@)),
        res matches Err(e) ==> text_describes(text@, Err(e)),
{
    let cs = characters(text);
    let ghost s = cs@;
    let n: usize = cs.len();
    let mut result = IntervalSet::empty();
    let mut i: usize = 0;
    while i < n
        invariant
            cs@ == s,
            s == text@,
            n == s.len(),
            i <= n,
            i == 0 || i == n || is_space(s[i - 1]) || is_space(s[i as int]),
            result.wf(),
            words_fine(s, i as int),
            forall|x: int|
                #![trigger result@.contains(x)]
                result@.contains(x) <==> exists|a: int, b: int| word_holds(s, i as int, a, b, x),
        decreases n - i,
    {
        if is_whitespace(cs[i]) {
            proof {
                let nxt: int = i + 1;
                assert forall|a: int, b: int| #[trigger]
                    is_word(s, a, b) && b <= i + 1 implies b <= i by {
                    if b == i + 1 {
                        assert(!is_space(s[b - 1]));
                    }
                }
                assert forall|x: int|
                    #![trigger result@.contains(x)]
                    result@.contains(x) <==> exists|a: int, b: int|
                        word_holds(s, nxt, a, b, x) by {
                    if result@.contains(x) {
                        let (a, b) = choose|a: int, b: int| word_holds(s, i as int, a, b, x);
                        assert(word_holds(s, nxt, a, b, x));
                    }
                    if exists|a: int, b: int| word_holds(s, nxt, a, b, x) {
                        let (a, b) = choose|a: int, b: int| word_holds(s, nxt, a, b, x);
                        assert(is_word(s, a, b) && b <= i + 1);
                        assert(word_holds(s, i as int, a, b, x));
                    }
                }
            }
            i += 1;
        } else {
            let mut j: usize = i + 1;
            while j < n && !is_whitespace(cs[j])
                invariant
                    cs@ == s,
                    n == s.len(),
                    i < j <= n,
                    forall|k: int| i <= k < j ==> !is_space(#[trigger] s[k]),
                decreases n - j,
            {
                j += 1;
            }
            assert(is_word(s, i as int, j as int));
            let ghost before = result@;
            match parse_token(&cs, i, j) {
                Err(e) => {
                    proof {
                        assert(is_word(s, i as int, j as int));
                        assert(token_bounds(s.subrange(i as int, j as int)) == Err::<
                            (int, int),
                            IntervalError,
                        >(e));
                        assert(words_fine(s, i as int));
                        assert(text_fails(s, e));
                    }
                    return Err(e);
                },
                Ok(element) => {
                    result.insert(element);
                },
            }
            proof {
                let r = token_bounds(s.subrange(i as int, j as int))->Ok_0;
                assert forall|a: int, b: int| #[trigger]
                    is_word(s, a, b) && b <= j && !(b <= i) implies a == i && b == j by {
                    if a > i {
                        assert(!is_space(s[a - 1]));
                    }
                    if a < i {
                        assert(!is_space(s[i - 1]));
                        assert(!is_space(s[i as int]));
                    }
                    if b < j {
                        assert(!is_space(s[b]));
                    }
                }
                assert forall|a: int, b: int| #[trigger]
                    is_word(s, a, b) && b <= j implies token_bounds(s.subrange(a, b)) is Ok by {
                    if b <= i {
                        assert(is_word(s, a, b) && b <= i);
                    }
                }
                assert forall|x: int|
                    #![trigger result@.contains(x)]
                    result@.contains(x) <==> exists|a: int, b: int|
                        word_holds(s, j as int, a, b, x) by {
                    assert(result@.contains(x) <==> before.contains(x) || r.0 <= x <= r.1);
                    if before.contains(x) {
                        let (a, b) = choose|a: int, b: int| word_holds(s, i as int, a, b, x);
                        assert(word_holds(s, j as int, a, b, x));
                    }
                    if r.0 <= x <= r.1 {
                        assert(word_holds(s, j as int, i as int, j as int, x));
                    }
                    if exists|a: int, b: int| word_holds(s, j as int, a, b, x) {
                        let (a, b) = choose|a: int, b: int| word_holds(s, j as int, a, b, x);
                        assert(is_word(s, a, b) && b <= j);
                        if b <= i {
                            assert(word_holds(s, i as int, a, b, x));
                        }
                    }
                }
            }
            i = j;
        }
    }
    assert(result@ =~= text_points(s));
    Ok(result)
}

impl Interval {
    /// The interval as text: its one integer, or its bounds joined by a dash.
    pub fn to_string(&self) -> (res: String)
        ensures
            res@ == interval_text(*self),
    {
        let mut out = String::new();
        push_decimal(&mut out, self.lo);
        if self.lo != self.hi {
            proof {
                reveal_strlit("-");
            }
            out.append("-");
            push_decimal(&mut out, self.hi);
        }
        assert(out@ =~= interval_text(*self));
        out
    }
}

impl IntervalSet {
    /// The set as text: its intervals in order, with a space between two of
    /// them. The empty set gives the empty text.
    pub fn to_string(&self) -> (res: String)
        ensures
            res@ == intervals_text(self.intervals()),
    {
        let ghost s = self.intervals@;
        let n: usize = self.intervals.len();
        let mut out = String::new();
        let mut pos: usize = 0;
        proof {
            assert(s.subrange(0, 0) =~= Seq::<Interval>::empty());
        }
        while pos < n
            invariant
                self.intervals@ == s,
                n == s.len(),
                pos <= n,
                out@ == intervals_text(s.subrange(0, pos as int)),
            decreases n - pos,
        {
            let ghost sofar = out@;
            if pos > 0 {
                proof {
                    reveal_strlit(" ");
                }
                out.append(" ");
            }
            let piece = self.intervals[pos].to_string();
            out.append(piece.as_str());
            proof {
                let t = s.subrange(0, pos + 1);
                assert(t.drop_last() =~= s.subrange(0, pos as int));
                assert(t.last() == s[pos as int]);
                if pos == 0 {
                    assert(out@ =~= intervals_text(t));
                } else {
                    assert(out@ =~= intervals_text(t));
                }
            }
            pos += 1;
        }
        assert(s.subrange(0, n as int) =~= s);
        out
    }
}

/// The decimal digits of `n` are digits, one or more, and their value is `n`.
pub proof fn lemma_digits(n: nat)
    ensures
        digits(n).len() > 0,
        forall|i: int| 0 <= i < digits(n).len() ==> is_digit(#[trigger] digits(n)[i]),
        number(digits(n)) == n,
    decreases n,
{
    let d = digits(n);
    if n < 10 {
        assert(d[0] == digit_char(n));
        assert(d.drop_last() =~= Seq::<char>::empty());
        assert(number(d.drop_last()) == 0);
    } else {
        lemma_digits(n / 10);
        assert(d.drop_last() =~= digits(n / 10));
        assert(d.last() == digit_char(n % 10));
        assert forall|i: int| 0 <= i < d.len() implies is_digit(#[trigger] d[i]) by {
            if i < d.len() - 1 {
                assert(d[i] == digits(n / 10)[i]);
            }
        }
    }
}

/// The text of an interval is one word, and the token that names the
/// interval.
pub proof fn lemma_interval_text(i: Interval)
    requires
        i.valid(),
    ensures
        interval_text(i).len() > 0,
        forall|k: int|
            0 <= k < interval_text(i).len() ==> !is_space(#[trigger] interval_text(i)[k]),
        token_bounds(interval_text(i)) == Ok::<(int, int), IntervalError>((i.lo(), i.hi())),
{
    let t = interval_text(i);
    let a = digits(i.lo() as nat);
    let b = digits(i.hi() as nat);
    lemma_digits(i.lo() as nat);
    lemma_digits(i.hi() as nat);
    assert(is_digit(a[0]));
    assert(is_digit(b[0]));
    assert(unsigned(a) == a);
    assert(unsigned(b) == b);
    assert(is_number(a));
    assert(is_number(b));
    if i.lo() == i.hi() {
        assert forall|k: int| 0 <= k < t.len() implies !is_space(#[trigger] t[k]) by {
            assert(is_digit(a[k]));
        }
    } else {
        let d = a.len() as int;
        assert(t[d] == '-');
        assert(t.subrange(0, d) =~= a);
        assert(t.subrange(d + 1, t.len() as int) =~= b);
        assert(splits(t, d));
        if is_number(t) {
            lemma_number_has_no_dash(t, d);
        }
        let e = choose|e: int| splits(t, e);
        lemma_splits_once(t, d, e);
        assert forall|k: int| 0 <= k < t.len() implies !is_space(#[trigger] t[k]) by {
            if k < d {
                assert(t[k] == a[k]);
                assert(is_digit(a[k]));
            } else if k > d {
                assert(t[k] == b[k - d - 1]);
                assert(is_digit(b[k - d - 1]));
            }
        }
    }
}

/// The word from `a` up to `b` of the text of a list is the text of one of
/// the list's intervals.
pub open spec fn word_of(s: Seq<Interval>, a: int, b: int) -> bool {
    exists|i: int|
        0 <= i < s.len() && intervals_text(s).subrange(a, b) == #[trigger] interval_text(s[i])
}

/// The interval at place `i` of a list has a word of its own in the text of
/// the list.
pub open spec fn has_word(s: Seq<Interval>, i: int) -> bool {
    exists|a: int, b: int| #[trigger]
        is_word(intervals_text(s), a, b) && intervals_text(s).subrange(a, b) == interval_text(
            s[i],
        )
}

/// The text of a list of two intervals or more is the text of the list
/// without its last interval, a space, and the text of the last interval,
/// which has no white space in it.
proof fn lemma_text_joined(s: Seq<Interval>)
    requires
        forall|i: int| 0 <= i < s.len() ==> (#[trigger] s[i]).valid(),
        s.len() >= 2,
    ensures
        intervals_text(s) == intervals_text(s.drop_last()) + seq![' '] + interval_text(s.last()),
        is_space(intervals_text(s)[intervals_text(s.drop_last()).len() as int]),
        forall|k: int|
            intervals_text(s.drop_last()).len() < k < intervals_text(s).len() ==> !is_space(
                #[trigger] intervals_text(s)[k],
            ),
        forall|k: int|
            0 <= k < intervals_text(s.drop_last()).len() ==> #[trigger] intervals_text(s)[k]
                == intervals_text(s.drop_last())[k],
        interval_text(s.last()).len() > 0,
{
    let t = intervals_text(s);
    let u = intervals_text(s.drop_last());
    let w = interval_text(s.last());
    let p = u.len() as int;
    assert(s[s.len() - 1].valid());
    lemma_interval_text(s.last());
    assert(t[p] == ' ');
    assert forall|k: int| p < k < t.len() implies !is_space(#[trigger] t[k]) by {
        assert(t[k] == w[k - p - 1]);
    }
}

/// A word of the text of a list of two intervals or more is a word of the
/// text of the list without its last interval, or is the text of the last
/// interval.
proof fn lemma_word_in_longer(s: Seq<Interval>, a: int, b: int)
    requires
        forall|i: int| 0 <= i < s.len() ==> (#[trigger] s[i]).valid(),
        s.len() >= 2,
        is_word(intervals_text(s), a, b),
    ensures
        (is_word(intervals_text(s.drop_last()), a, b) && intervals_text(s).subrange(a, b)
            == intervals_text(s.drop_last()).subrange(a, b)) || intervals_text(s).subrange(a, b)
            == interval_text(s.last()),
{
    let t = intervals_text(s);
    let u = intervals_text(s.drop_last());
    let w = interval_text(s.last());
    let p = u.len() as int;
    lemma_text_joined(s);
    if a <= p < b {
        assert(!is_space(t[p]));
    }
    if b <= p {
        assert forall|k: int| a <= k < b implies !is_space(#[trigger] u[k]) by {
            assert(t[k] == u[k]);
        }
        if a > 0 {
            assert(t[a - 1] == u[a - 1]);
        }
        if b < p {
            assert(t[b] == u[b]);
        }
        assert(t.subrange(a, b) =~= u.subrange(a, b));
    } else {
        if a > p + 1 {
            assert(!is_space(t[a - 1]));
        }
        if b < t.len() {
            assert(!is_space(t[b]));
        }
        assert(t.subrange(a, b) =~= w);
    }
}

/// A word of the text of a list without its last interval is a word of the
/// text of the list, when the list has two intervals or more.
proof fn lemma_word_from_shorter(s: Seq<Interval>, a: int, b: int)
    requires
        forall|i: int| 0 <= i < s.len() ==> (#[trigger] s[i]).valid(),
        s.len() >= 2,
        is_word(intervals_text(s.drop_last()), a, b),
    ensures
        is_word(intervals_text(s), a, b),
        intervals_text(s).subrange(a, b) == intervals_text(s.drop_last()).subrange(a, b),
{
    let t = intervals_text(s);
    let u = intervals_text(s.drop_last());
    let p = u.len() as int;
    lemma_text_joined(s);
    assert forall|k: int| a <= k < b implies !is_space(#[trigger] t[k]) by {
        assert(t[k] == u[k]);
        assert(!is_space(u[k]));
    }
    if a > 0 {
        assert(t[a - 1] == u[a - 1]);
    }
    if b < p {
        assert(t[b] == u[b]);
    }
    assert(t.subrange(a, b) =~= u.subrange(a, b));
}

/// The text of the last interval is the last word of the text of a list of
/// two intervals or more.
proof fn lemma_last_word(s: Seq<Interval>)
    requires
        forall|i: int| 0 <= i < s.len() ==> (#[trigger] s[i]).valid(),
        s.len() >= 2,
    ensures
        is_word(
            intervals_text(s),
            intervals_text(s.drop_last()).len() as int + 1,
            intervals_text(s).len() as int,
        ),
        intervals_text(s).subrange(
            intervals_text(s.drop_last()).len() as int + 1,
            intervals_text(s).len() as int,
        ) == interval_text(s.last()),
{
    let t = intervals_text(s);
    let u = intervals_text(s.drop_last());
    let w = interval_text(s.last());
    let p = u.len() as int;
    lemma_text_joined(s);
    assert(t.subrange(p + 1, t.len() as int) =~= w);
}

/// The text of one interval is the one word of the text of the list of that
/// interval.
proof fn lemma_single_word(s: Seq<Interval>, a: int, b: int)
    requires
        s.len() == 1,
        s[0].valid(),
        is_word(intervals_text(s), a, b),
    ensures
        a == 0,
        b == intervals_text(s).len(),
        intervals_text(s).subrange(a, b) == interval_text(s[0]),
{
    let t = intervals_text(s);
    lemma_interval_text(s[0]);
    if a > 0 {
        assert(!is_space(t[a - 1]));
    }
    if b < t.len() {
        assert(!is_space(t[b]));
    }
    assert(t.subrange(a, b) =~= t);
}

/// A word of the text of a list is the text of one of its intervals, if that
/// holds of the list without its last interval.
proof fn lemma_word_of_longer(s: Seq<Interval>, a: int, b: int)
    requires
        forall|i: int| 0 <= i < s.len() ==> (#[trigger] s[i]).valid(),
        s.len() >= 2,
        is_word(intervals_text(s), a, b),
        is_word(intervals_text(s.drop_last()), a, b) ==> word_of(s.drop_last(), a, b),
    ensures
        word_of(s, a, b),
{
    let t = intervals_text(s);
    let r = s.drop_last();
    let u = intervals_text(r);
    lemma_word_in_longer(s, a, b);
    if is_word(u, a, b) && t.subrange(a, b) == u.subrange(a, b) {
        let i = choose|i: int|
            0 <= i < r.len() && intervals_text(r).subrange(a, b) == #[trigger] interval_text(r[i]);
        assert(r[i] == s[i]);
        assert(t.subrange(a, b) == interval_text(s[i]));
    } else {
        assert(t.subrange(a, b) == interval_text(s[s.len() - 1]));
    }
}

/// An interval of a list has its word in the text of the list, if that holds
/// of the list without its last interval.
proof fn lemma_has_word_longer(s: Seq<Interval>, i: int)
    requires
        forall|k: int| 0 <= k < s.len() ==> (#[trigger] s[k]).valid(),
        s.len() >= 2,
        0 <= i < s.len(),
        i < s.len() - 1 ==> has_word(s.drop_last(), i),
    ensures
        has_word(s, i),
{
    let t = intervals_text(s);
    let r = s.drop_last();
    let u = intervals_text(r);
    let p = u.len() as int;
    if i < r.len() {
        let (a, b) = choose|a: int, b: int| #[trigger]
            is_word(u, a, b) && u.subrange(a, b) == interval_text(r[i]);
        lemma_word_from_shorter(s, a, b);
        assert(r[i] == s[i]);
        assert(is_word(t, a, b) && t.subrange(a, b) == interval_text(s[i]));
    } else {
        lemma_last_word(s);
        assert(is_word(t, p + 1, t.len() as int) && t.subrange(p + 1, t.len() as int)
            == interval_text(s[i]));
    }
}

/// The words of the text of a list are the texts of its intervals: each word
/// is the text of an interval, and each interval has its word.
pub proof fn lemma_words_of_text(s: Seq<Interval>)
    requires
        forall|i: int| 0 <= i < s.len() ==> (#[trigger] s[i]).valid(),
    ensures
        forall|a: int, b: int| #[trigger] is_word(intervals_text(s), a, b) ==> word_of(s, a, b),
        forall|i: int| 0 <= i < s.len() ==> #[trigger] has_word(s, i),
    decreases s.len(),
{
    let t = intervals_text(s);
    if s.len() == 0 {
    } else if s.len() == 1 {
        assert forall|a: int, b: int| #[trigger] is_word(t, a, b) implies word_of(s, a, b) by {
            lemma_single_word(s, a, b);
            assert(t.subrange(a, b) == interval_text(s[0]));
        }
        assert(has_word(s, 0)) by {
            lemma_interval_text(s[0]);
            assert(is_word(t, 0, t.len() as int));
            lemma_single_word(s, 0, t.len() as int);
        }
    } else {
        let r = s.drop_last();
        lemma_words_of_text(r);
        assert forall|a: int, b: int| #[trigger] is_word(t, a, b) implies word_of(s, a, b) by {
            lemma_word_of_longer(s, a, b);
        }
        assert forall|i: int| 0 <= i < s.len() implies #[trigger] has_word(s, i) by {
            lemma_has_word_longer(s, i);
        }
    }
}

/// What is written reads back: the text of a list of intervals that have
/// their bounds in order stands for the integers that the list covers.
pub proof fn lemma_text_reads_back(s: Seq<Interval>)
    requires
        forall|i: int| 0 <= i < s.len() ==> (#[trigger] s[i]).valid(),
    ensures
        text_describes(intervals_text(s), Ok(points(s))),
{
    let t = intervals_text(s);
    let n = t.len() as int;
    lemma_words_of_text(s);
    assert forall|a: int, b: int| #[trigger] is_word(t, a, b) && b <= n implies token_bounds(
        t.subrange(a, b),
    ) is Ok by {
        assert(word_of(s, a, b));
        let i = choose|i: int|
            0 <= i < s.len() && intervals_text(s).subrange(a, b) == #[trigger] interval_text(s[i]);
        lemma_interval_text(s[i]);
    }
    assert forall|x: int|
        #![trigger points(s).contains(x)]
        points(s).contains(x) <==> exists|a: int, b: int|
            word_holds(t, n, a, b, x) by {
        if covers(s, x) {
            let i = choose|i: int| 0 <= i < s.len() && (#[trigger] s[i]).contains(x);
            assert(has_word(s, i));
            let (a, b) = choose|a: int, b: int| #[trigger]
                is_word(t, a, b) && t.subrange(a, b) == interval_text(s[i]);
            lemma_interval_text(s[i]);
            assert(word_holds(t, n, a, b, x));
        }
        if exists|a: int, b: int| word_holds(t, n, a, b, x) {
            let (a, b) = choose|a: int, b: int| word_holds(t, n, a, b, x);
            assert(is_word(t, a, b));
            assert(word_of(s, a, b));
            let i = choose|i: int|
                0 <= i < s.len() && intervals_text(s).subrange(a, b) == #[trigger] interval_text(
                    s[i],
                );
            lemma_interval_text(s[i]);
            assert(s[i].contains(x));
        }
    }
    assert(points(s) =~= text_points(t));
}

} // verus!
