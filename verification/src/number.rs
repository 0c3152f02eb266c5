//! Whole numbers written in decimal, and read back.

use vstd::prelude::*;
use vstd::string::*;

verus! {

/// The digit for a number below ten.
pub open spec fn digit(n: int) -> char {
    if n == 0 {
        '0'
    } else if n == 1 {
        '1'
    } else if n == 2 {
        '2'
    } else if n == 3 {
        '3'
    } else if n == 4 {
        '4'
    } else if n == 5 {
        '5'
    } else if n == 6 {
        '6'
    } else if n == 7 {
        '7'
    } else if n == 8 {
        '8'
    } else {
        '9'
    }
}

/// `n` in decimal, with no leading zero.
pub open spec fn decimal(n: int) -> Seq<char>
    decreases n,
{
    if n < 10 {
        seq![digit(n)]
    } else {
        decimal(n / 10).push(digit(n % 10))
    }
}

/// A character between `0` and `9`.
pub open spec fn is_digit(c: char) -> bool {
    0x30 <= c as u32 <= 0x39
}

/// The number a run of digits stands for.
pub open spec fn digits_value(s: Seq<char>) -> int
    decreases s.len(),
{
    if s.len() == 0 {
        0
    } else {
        digits_value(s.drop_last()) * 10 + (s.last() as u32 - 0x30)
    }
}

/// The digits of a number that may be written with a plus sign in front.
pub open spec fn without_plus(s: Seq<char>) -> Seq<char> {
    if s.len() > 0 && s[0] == '+' {
        s.drop_first()
    } else {
        s
    }
}

/// The number `s` is written for, where it is one and does not go over `max`.
pub open spec fn parse(s: Seq<char>, max: int) -> Option<int> {
    let d = without_plus(s);
    if d.len() > 0 && (forall|i: int| 0 <= i < d.len() ==> is_digit(#[trigger] d[i]))
        && digits_value(d) <= max {
        Some(digits_value(d))
    } else {
        None
    }
}

/// `n` in decimal.
pub fn to_decimal(n: u64) -> (r: String)
    ensures
        r@ == decimal(n as int),
    decreases n,
{
    let d: u64 = n % 10;
    let c: char = if d == 0 {
        '0'
    } else if d == 1 {
        '1'
    } else if d == 2 {
        '2'
    } else if d == 3 {
        '3'
    } else if d == 4 {
        '4'
    } else if d == 5 {
        '5'
    } else if d == 6 {
        '6'
    } else if d == 7 {
        '7'
    } else if d == 8 {
        '8'
    } else {
        '9'
    };
    if n < 10 {
        let mut out = String::new();
        out.push(c);
        assert(out@ =~= seq![digit(n as int)]);
        out
    } else {
        let mut out = to_decimal(n / 10);
        out.push(c);
        out
    }
}

proof fn lemma_value_bounds(s: Seq<char>)
    requires
        forall|i: int| 0 <= i < s.len() ==> is_digit(#[trigger] s[i]),
    ensures
        digits_value(s) >= 0,
    decreases s.len(),
{
    if s.len() > 0 {
        assert(is_digit(s[s.len() - 1]));
        assert forall|i: int| 0 <= i < s.drop_last().len() implies is_digit(
            #[trigger] s.drop_last()[i],
        ) by {
            assert(is_digit(s[i]));
        }
        lemma_value_bounds(s.drop_last());
    }
}

/// Reading more digits never makes the number smaller.
proof fn lemma_value_grows(s: Seq<char>, i: int)
    requires
        0 <= i <= s.len(),
        forall|j: int| 0 <= j < s.len() ==> is_digit(#[trigger] s[j]),
    ensures
        0 <= digits_value(s.take(i)) <= digits_value(s),
    decreases s.len() - i,
{
    assert forall|j: int| 0 <= j < s.take(i).len() implies is_digit(#[trigger] s.take(i)[j]) by {
        assert(is_digit(s[j]));
    }
    lemma_value_bounds(s.take(i));
    if i == s.len() {
        assert(s.take(i) =~= s);
    } else {
        lemma_value_grows(s, i + 1);
        assert(s.take(i + 1).drop_last() =~= s.take(i));
        assert(is_digit(s[i]));
    }
}

/// Read a number of at most `max`.
pub fn parse_up_to(s: &str, max: u64) -> (r: Option<u64>)
    ensures
        match r {
            Some(n) => parse(s@, max as int) == Some(n as int),
            None => parse(s@, max as int) is None,
        },
{
    let v = crate::text::to_chars(s);
    let from: usize = if v.len() > 0 && v[0] == '+' {
        1
    } else {
        0
    };
    let ghost d = without_plus(s@);
    assert(d =~= v@.skip(from as int));
    if from == v.len() {
        return None;
    }
    let mut n: u64 = 0;
    let mut i: usize = from;
    while i < v.len()
        invariant
            from <= i <= v@.len(),
            v@ == s@,
            d == without_plus(s@),
            d == v@.skip(from as int),
            d.len() > 0,
            forall|j: int| 0 <= j < i - from ==> is_digit(#[trigger] d[j]),
            n as int == digits_value(d.take(i - from)),
            n <= max,
        decreases v@.len() - i,
    {
        let c: u32 = v[i] as u32;
        assert(v@[i as int] == d[i - from]);
        if c < 0x30 || c > 0x39 {
            assert(!is_digit(d[i - from]));
            return None;
        }
        proof {
            assert(d.take(i - from + 1).drop_last() =~= d.take(i - from));
            assert(d.take(i - from + 1).last() == d[i - from]);
            if forall|j: int| 0 <= j < d.len() ==> is_digit(#[trigger] d[j]) {
                lemma_value_grows(d, i - from + 1);
            }
        }
        let add: u64 = (c - 0x30) as u64;
        match n.checked_mul(10) {
            Some(tens) => match tens.checked_add(add) {
                Some(next) => {
                    if next > max {
                        return None;
                    }
                    n = next;
                },
                None => {
                    return None;
                },
            },
            None => {
                return None;
            },
        }
        i = i + 1;
    }
    assert(d.take(i - from) =~= d);
    Some(n)
}

/// A number in decimal is digits, at least one, with that value.
pub proof fn lemma_decimal_digits(n: int)
    requires
        0 <= n,
    ensures
        decimal(n).len() > 0,
        forall|i: int| 0 <= i < decimal(n).len() ==> is_digit(#[trigger] decimal(n)[i]),
        digits_value(decimal(n)) == n,
    decreases n,
{
    if n < 10 {
        assert(decimal(n).drop_last() =~= Seq::<char>::empty());
        assert(digits_value(decimal(n).drop_last()) == 0);
    } else {
        lemma_decimal_digits(n / 10);
        assert(decimal(n).drop_last() =~= decimal(n / 10));
        assert forall|i: int| 0 <= i < decimal(n).len() implies is_digit(
            #[trigger] decimal(n)[i],
        ) by {
            if i < decimal(n / 10).len() {
                assert(decimal(n)[i] == decimal(n / 10)[i]);
            }
        }
    }
}

/// A number that was written is read back as itself.
pub proof fn decimal_reads_back(n: int, max: int)
    requires
        0 <= n <= max,
    ensures
        parse(decimal(n), max) == Some(n),
{
    lemma_decimal_digits(n);
    assert(is_digit(decimal(n)[0]));
    assert(without_plus(decimal(n)) == decimal(n));
}

/// Two numbers written alike are the same number.
pub proof fn lemma_decimal_injective(a: int, b: int)
    requires
        0 <= a,
        0 <= b,
        decimal(a) == decimal(b),
    ensures
        a == b,
{
    lemma_decimal_digits(a);
    lemma_decimal_digits(b);
}

/// A number in decimal holds digits and nothing else.
pub proof fn lemma_decimal_plain(n: int, c: char)
    requires
        0 <= n,
        !is_digit(c),
    ensures
        !decimal(n).contains(c),
{
    lemma_decimal_digits(n);
}

/// What was read is no more than was allowed.
pub proof fn lemma_parse_bounds(s: Seq<char>, max: int)
    ensures
        parse(s, max) matches Some(n) ==> 0 <= n <= max,
{
    if parse(s, max) is Some {
        lemma_value_bounds(without_plus(s));
    }
}

/// A number that may be negative in decimal.
pub open spec fn signed_decimal(n: int) -> Seq<char> {
    if n < 0 {
        "-"@ + decimal(-n)
    } else {
        decimal(n)
    }
}

/// A number that may be negative in decimal.
pub fn to_signed_decimal(n: i32) -> (r: String)
    ensures
        r@ == signed_decimal(n as int),
{
    if n < 0 {
        let d = to_decimal((-(n as i64)) as u64);
        crate::text::cat2("-", d.as_str())
    } else {
        to_decimal(n as u64)
    }
}

/// A number is read digit by digit, with leading noughts and one plus sign in front, as long as it is
/// not more than it may be. Nothing, and anything with another character in it, is no number.
pub proof fn a_number_is_read_digit_by_digit(s: Seq<char>, d: int, max: int, n: int)
    requires
        0 <= d <= 9,
        0 <= n,
        n * 10 + d <= max,
    ensures
        s.len() > 0 && s[0] != '+' && parse(s, max) == Some(n) ==> parse(s.push(digit(d)), max)
            == Some(n * 10 + d),
        parse(seq![digit(d)], max) == Some(d),
        s.len() > 0 && s[0] != '+' && parse(s, max) is Some ==> parse(seq!['+'] + s, max) == parse(
            s,
            max,
        ),
        parse(Seq::empty(), max) is None,
        forall|i: int|
            1 <= i < s.len() && !(0x30 <= (#[trigger] s[i]) as u32 <= 0x39) ==> parse(s, max) is None,
        parse(s, max) is Some ==> 0 <= parse(s, max)->0 <= max,
{
    let t = s.push(digit(d));
    assert(t.drop_last() =~= s);
    let one = seq![digit(d)];
    assert(one.drop_last() =~= Seq::<char>::empty());
    assert(one.last() == digit(d));
    assert(digits_value(Seq::empty()) == 0);
    assert(digits_value(one) == d);
    if s.len() > 0 && s[0] != '+' {
        assert((seq!['+'] + s).drop_first() =~= s);
        assert(t[0] == s[0]);
        if parse(s, max) == Some(n) {
            assert forall|i: int| 0 <= i < t.len() implies is_digit(#[trigger] t[i]) by {
                if i < s.len() {
                    assert(is_digit(s[i]));
                }
            }
        }
    }
    assert forall|i: int| 1 <= i < s.len() && !(0x30 <= (#[trigger] s[i]) as u32 <= 0x39) implies parse(s, max)
        is None by {
        let w = without_plus(s);
        if s[0] == '+' {
            assert(w[i - 1] == s[i]);
            assert(!is_digit(w[i - 1]));
        } else {
            assert(!is_digit(w[i]));
        }
    }
    lemma_parse_bounds(s, max);
}

} // verus!
