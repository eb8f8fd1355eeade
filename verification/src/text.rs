//! Decimal numbers and lines of text, as they occur in file names, error
//! messages and shuffle index files.

use vstd::prelude::*;
use vstd::string::*;

verus! {

/// The character of a decimal digit.
pub open spec fn digit_char(d: nat) -> char {
    ('0' as nat + d) as char
}

/// The decimal notation of a number, without leading zeros.
pub open spec fn decimal(n: nat) -> Seq<char>
    decreases n,
{
    if n < 10 {
        seq![digit_char(n)]
    } else {
        decimal(n / 10).push(digit_char(n % 10))
    }
}

/// Whether a character is one of `0` to `9`.
pub open spec fn is_digit(c: char) -> bool {
    '0' <= c && c <= '9'
}

/// The number that a sequence of digits denotes.
pub open spec fn digits_value(s: Seq<char>) -> nat
    decreases s.len(),
{
    if s.len() == 0 {
        0
    } else {
        (digits_value(s.drop_last()) * 10 + (s.last() as nat - '0' as nat)) as nat
    }
}

/// The number that a text of at least one digit denotes, if it is at most `max`.
pub open spec fn digits_number(s: Seq<char>, max: nat) -> Option<nat> {
    if s.len() > 0 && (forall|i: int| 0 <= i < s.len() ==> is_digit(#[trigger] s[i]))
        && digits_value(s) <= max {
        Some(digits_value(s))
    } else {
        None
    }
}

/// A text without its leading `+`, if it has one.
pub open spec fn without_plus(s: Seq<char>) -> Seq<char> {
    if s.len() > 0 && s[0] == '+' {
        s.skip(1)
    } else {
        s
    }
}

/// The number that a text denotes: digits behind an optional `+`, with a value
/// of at most `max`.
pub open spec fn parsed_number(s: Seq<char>, max: nat) -> Option<nat> {
    digits_number(without_plus(s), max)
}

/// The position of the first line feed, or the length of a text without one.
pub open spec fn line_feed(s: Seq<char>) -> nat
    decreases s.len(),
{
    if s.len() == 0 || s[0] == '\n' {
        0
    } else {
        1 + line_feed(s.skip(1))
    }
}

/// The first line of a text, without its line ending. A carriage return belongs
/// to the ending only in front of a line feed.
pub open spec fn first_line(s: Seq<char>) -> Seq<char> {
    let end = line_feed(s) as int;
    if end < s.len() && end > 0 && s[end - 1] == '\r' {
        s.take(end - 1)
    } else {
        s.take(end)
    }
}

/// What follows the first line of a text.
pub open spec fn after_first_line(s: Seq<char>) -> Seq<char> {
    let end = line_feed(s) as int;
    if end < s.len() {
        s.skip(end + 1)
    } else {
        Seq::empty()
    }
}

proof fn lemma_line_feed(s: Seq<char>)
    ensures
        line_feed(s) <= s.len(),
        line_feed(s) < s.len() ==> s[line_feed(s) as int] == '\n',
        forall|i: int| 0 <= i < line_feed(s) ==> s[i] != '\n',
    decreases s.len(),
{
    if s.len() == 0 || s[0] == '\n' {
    } else {
        lemma_line_feed(s.skip(1));
        assert forall|i: int| 0 <= i < line_feed(s) implies s[i] != '\n' by {
            if i > 0 {
                assert(s[i] == s.skip(1)[i - 1]);
            }
        }
    }
}

proof fn lemma_line_feed_is(s: Seq<char>, n: int)
    requires
        0 <= n <= s.len(),
        n < s.len() ==> s[n] == '\n',
        forall|i: int| 0 <= i < n ==> s[i] != '\n',
    ensures
        line_feed(s) == n,
{
    lemma_line_feed(s);
    let m = line_feed(s) as int;
    if m < n {
        assert(s[m] == '\n');
    } else if n < m {
        assert(s[n] == '\n');
    }
}

/// A number on a line of its own is the first line of a text, and the text goes on behind it.
pub proof fn lemma_number_line(n: nat, rest: Seq<char>, max: nat)
    requires
        n <= max,
    ensures
        ({
            let text = decimal(n) + seq!['\n'] + rest;
            &&& text.len() > 0
            &&& after_first_line(text) == rest
            &&& parsed_number(first_line(text), max) == Some(n)
        }),
{
    let text = decimal(n) + seq!['\n'] + rest;
    let end = decimal(n).len() as int;
    lemma_decimal_round_trip(n);
    assert forall|i: int| 0 <= i < end implies text[i] != '\n' && text[i] != '\r' && text[i]
        != '+' by {
        assert(text[i] == decimal(n)[i]);
    }
    assert(text[end] == '\n');
    lemma_line_feed_is(text, end);
    assert(text.take(end) =~= decimal(n));
    assert(text.skip(end + 1) =~= rest);
    assert(decimal(n)[0] == text[0]);
}

proof fn lemma_digits_value_monotone(s: Seq<char>, n: int)
    requires
        0 <= n <= s.len(),
        forall|i: int| 0 <= i < s.len() ==> is_digit(#[trigger] s[i]),
    ensures
        digits_value(s.take(n)) <= digits_value(s),
    decreases s.len() - n,
{
    if n == s.len() {
        assert(s.take(n) =~= s);
    } else {
        lemma_digits_value_monotone(s, n + 1);
        assert(s.take(n + 1).drop_last() =~= s.take(n));
        assert(is_digit(s[n]));
    }
}

/// A decimal notation consists of digits, and reading it gives the number back.
pub proof fn lemma_decimal_round_trip(n: nat)
    ensures
        decimal(n).len() > 0,
        forall|i: int| 0 <= i < decimal(n).len() ==> is_digit(#[trigger] decimal(n)[i]),
        digits_value(decimal(n)) == n,
    decreases n,
{
    if n < 10 {
        assert(decimal(n).drop_last() =~= Seq::<char>::empty());
        assert(digits_value(Seq::<char>::empty()) == 0);
    } else {
        lemma_decimal_round_trip(n / 10);
        assert(decimal(n).drop_last() =~= decimal(n / 10));
    }
}

/// The text of a decimal digit.
fn digit_text(d: u64) -> (r: &'static str)
    requires
        d < 10,
    ensures
        r@ == seq![digit_char(d as nat)],
{
    proof {
        reveal_strlit("0");
        reveal_strlit("1");
        reveal_strlit("2");
        reveal_strlit("3");
        reveal_strlit("4");
        reveal_strlit("5");
        reveal_strlit("6");
        reveal_strlit("7");
        reveal_strlit("8");
        reveal_strlit("9");
    }
    let r = match d {
        0 => "0",
        1 => "1",
        2 => "2",
        3 => "3",
        4 => "4",
        5 => "5",
        6 => "6",
        7 => "7",
        8 => "8",
        _ => "9",
    };
    assert(r@ =~= seq![digit_char(d as nat)]);
    r
}

/// Appends the decimal notation of a number to a text.
pub fn push_decimal(text: &mut String, n: u64)
    ensures
        final(text)@ == old(text)@ + decimal(n as nat),
    decreases n,
{
    if n >= 10 {
        push_decimal(text, n / 10);
    }
    let ghost before = text@;
    text.append(digit_text(n % 10));
    assert(text@ =~= old(text)@ + decimal(n as nat));
}

/// The characters of a text.
pub fn characters(text: &str) -> (r: Vec<char>)
    ensures
        r@ == text@,
{
    let mut r: Vec<char> = Vec::new();
    for c in it: text.chars()
        invariant
            r@ =~= it.seq().take(it.index() as int),
            it.seq() == text@,
    {
        r.push(c);
    }
    assert(r@ =~= text@);
    r
}

/// The position of the first line feed at or after `start`, or the length.
pub fn find_line_feed(chars: &Vec<char>, start: usize) -> (r: usize)
    requires
        start <= chars@.len(),
    ensures
        start <= r <= chars@.len(),
        r - start == line_feed(chars@.skip(start as int)),
{
    let mut i: usize = start;
    while i < chars.len() && chars[i] != '\n'
        invariant
            start <= i <= chars@.len(),
            forall|j: int| start <= j < i ==> chars@[j] != '\n',
        decreases chars@.len() - i,
    {
        i = i + 1;
    }
    proof {
        let rest = chars@.skip(start as int);
        assert forall|j: int| 0 <= j < i - start implies rest[j] != '\n' by {
            assert(rest[j] == chars@[start + j]);
        }
        lemma_line_feed_is(rest, i - start);
    }
    i
}

/// The end of the line that starts at `start` and is ended by the line feed or
/// the end of text at `line_feed_at`.
pub fn line_end(chars: &Vec<char>, start: usize, line_feed_at: usize) -> (r: usize)
    requires
        start <= line_feed_at <= chars@.len(),
        line_feed_at - start == line_feed(chars@.skip(start as int)),
    ensures
        start <= r <= line_feed_at,
        chars@.subrange(start as int, r as int) == first_line(chars@.skip(start as int)),
{
    let ghost rest = chars@.skip(start as int);
    if line_feed_at < chars.len() && line_feed_at > start && chars[line_feed_at - 1] == '\r' {
        assert(rest[line_feed_at - start - 1] == chars@[line_feed_at - 1]);
        assert(chars@.subrange(start as int, line_feed_at - 1) =~= first_line(rest));
        line_feed_at - 1
    } else {
        assert(chars@.subrange(start as int, line_feed_at as int) =~= first_line(rest));
        line_feed_at
    }
}

/// Reads the number between two positions of a text.
pub fn parse_number(chars: &Vec<char>, start: usize, end: usize, max: u64) -> (r: Option<u64>)
    requires
        start <= end <= chars@.len(),
    ensures
        r is Some <==> parsed_number(chars@.subrange(start as int, end as int), max as nat) is Some,
        r matches Some(n) ==> parsed_number(chars@.subrange(start as int, end as int), max as nat)
            == Some(n as nat),
{
    let ghost text = chars@.subrange(start as int, end as int);
    let first: usize = if start < end && chars[start] == '+' {
        start + 1
    } else {
        start
    };
    let ghost body = chars@.subrange(first as int, end as int);
    proof {
        if start < end && chars@[start as int] == '+' {
            assert(text[0] == '+');
            assert(text.skip(1) =~= body);
        } else {
            assert(text.len() > 0 ==> text[0] == chars@[start as int]);
            assert(body =~= text);
        }
        assert(without_plus(text) == body);
    }
    if first == end {
        return None;
    }
    let mut value: u64 = 0;
    let mut i: usize = first;
    while i < end
        invariant
            first <= i <= end <= chars@.len(),
            body == chars@.subrange(first as int, end as int),
            forall|j: int| 0 <= j < i - first ==> is_digit(#[trigger] body[j]),
            value == digits_value(body.take(i - first)),
            value <= max,
            parsed_number(text, max as nat) == digits_number(body, max as nat),
            text == chars@.subrange(start as int, end as int),
        decreases end - i,
    {
        let c = chars[i];
        assert(c == body[i - first]);
        if c < '0' || c > '9' {
            assert(!is_digit(body[i - first]));
            return None;
        }
        let d: u64 = (c as u32 - '0' as u32) as u64;
        assert(body.take(i - first + 1).drop_last() =~= body.take(i - first));
        assert(digits_value(body.take(i - first + 1)) == value * 10 + d);
        if d > max || value > (max - d) / 10 {
            proof {
                if forall|j: int| 0 <= j < body.len() ==> is_digit(#[trigger] body[j]) {
                    lemma_digits_value_monotone(body, i - first + 1);
                }
            }
            return None;
        }
        value = value * 10 + d;
        i = i + 1;
    }
    assert(body.take(end - first) =~= body);
    Some(value)
}

}
