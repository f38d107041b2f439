//! Characters, white space and numbers in text.

use vstd::prelude::*;
use vstd::string::*;
use vstd::utf8::*;

verus! {

/// Whether `c` is white space: it has the Unicode property `White_Space`.
pub open spec fn is_white_space(c: char) -> bool {
    ||| '\u{9}' <= c <= '\u{d}'
    ||| c == ' '
    ||| c == '\u{85}'
    ||| c == '\u{a0}'
    ||| c == '\u{1680}'
    ||| '\u{2000}' <= c <= '\u{200a}'
    ||| c == '\u{2028}'
    ||| c == '\u{2029}'
    ||| c == '\u{202f}'
    ||| c == '\u{205f}'
    ||| c == '\u{3000}'
}

/// `s` without the white space at its beginning.
pub open spec fn trim_start(s: Seq<char>) -> Seq<char>
    decreases s.len(),
{
    if s.len() > 0 && is_white_space(s[0]) {
        trim_start(s.skip(1))
    } else {
        s
    }
}

/// `s` without the white space at its end.
pub open spec fn trim_end(s: Seq<char>) -> Seq<char>
    decreases s.len(),
{
    if s.len() > 0 && is_white_space(s.last()) {
        trim_end(s.drop_last())
    } else {
        s
    }
}

/// `s` without the white space around it.
pub open spec fn trim(s: Seq<char>) -> Seq<char> {
    trim_end(trim_start(s))
}

/// The value of `c` as a digit to the base `radix`, which is at most sixteen.
pub open spec fn digit_value(c: char, radix: int) -> Option<int> {
    let value = if '0' <= c <= '9' {
        c as int - '0' as int
    } else if 'a' <= c <= 'f' {
        c as int - 'a' as int + 10
    } else if 'A' <= c <= 'F' {
        c as int - 'A' as int + 10
    } else {
        16
    };
    if value < radix {
        Some(value)
    } else {
        None
    }
}

/// The number that the digits `s` write to the base `radix`, if all are digits.
pub open spec fn digits_value(s: Seq<char>, radix: int) -> Option<int>
    decreases s.len(),
{
    if s.len() == 0 {
        Some(0)
    } else {
        match (digits_value(s.drop_last(), radix), digit_value(s.last(), radix)) {
            (Some(front), Some(digit)) => Some(front * radix + digit),
            _ => None,
        }
    }
}

/// The number that `s` writes to the base `radix`: an optional plus sign and at least
/// one digit, nothing else, and no more than `max`.
pub open spec fn unsigned_value(s: Seq<char>, radix: int, max: int) -> Option<int> {
    let digits = if s.len() > 0 && s[0] == '+' {
        s.skip(1)
    } else {
        s
    };
    if digits.len() == 0 {
        None
    } else {
        match digits_value(digits, radix) {
            Some(value) if value <= max => Some(value),
            _ => None,
        }
    }
}

/// The decimal digit of a number below ten.
pub open spec fn decimal_digit(digit: int) -> char {
    ('0' as int + digit) as char
}

/// `n` in decimal, without leading zeros.
pub open spec fn decimal(n: nat) -> Seq<char>
    decreases n,
{
    if n < 10 {
        seq![decimal_digit(n as int)]
    } else {
        decimal(n / 10).push(decimal_digit((n % 10) as int))
    }
}

/// The characters of `s`.
pub fn to_chars(s: &str) -> (chars: Vec<char>)
    ensures
        chars@ == s@,
{
    let mut chars: Vec<char> = Vec::new();
    for c in it: s.chars()
        invariant
            chars@ == it.seq().take(it.index()),
            it.seq() == s@,
    {
        chars.push(c);
    }
    chars
}

/// Calls `std::str::from_utf8`: the text that `bytes` encode, or nothing where they are
/// not valid UTF-8.
#[verifier::external_body]
pub(crate) fn utf8_text(bytes: &[u8]) -> (text: Option<&str>)
    ensures
        text is Some <==> valid_utf8(bytes@),
        text is Some ==> text->0@ == decode_utf8(bytes@),
{
    std::str::from_utf8(bytes).ok()
}

/// Whether `c` is white space.
pub fn white_space(c: char) -> (white: bool)
    ensures
        white == is_white_space(c),
{
    ('\u{9}' <= c && c <= '\u{d}') || c == ' ' || c == '\u{85}' || c == '\u{a0}' || c == '\u{1680}'
        || ('\u{2000}' <= c && c <= '\u{200a}') || c == '\u{2028}' || c == '\u{2029}' || c
        == '\u{202f}' || c == '\u{205f}' || c == '\u{3000}'
}

/// The bounds of `chars[start..end]` without the white space around it.
pub fn trim_bounds(chars: &Vec<char>, start: usize, end: usize) -> (bounds: (usize, usize))
    requires
        start <= end <= chars@.len(),
    ensures
        start <= bounds.0 <= bounds.1 <= end,
        chars@.subrange(bounds.0 as int, bounds.1 as int) == trim(
            chars@.subrange(start as int, end as int),
        ),
{
    let ghost part = chars@.subrange(start as int, end as int);
    let mut from: usize = start;
    while from < end && white_space(chars[from])
        invariant
            start <= from <= end <= chars@.len(),
            trim_start(part) == trim_start(chars@.subrange(from as int, end as int)),
        decreases end - from,
    {
        proof {
            let rest = chars@.subrange(from as int, end as int);
            assert(rest.skip(1) =~= chars@.subrange(from + 1, end as int));
        }
        from += 1;
    }
    let ghost left = chars@.subrange(from as int, end as int);
    let mut to: usize = end;
    while to > from && white_space(chars[to - 1])
        invariant
            from <= to <= end <= chars@.len(),
            trim_end(left) == trim_end(chars@.subrange(from as int, to as int)),
        decreases to,
    {
        proof {
            let rest = chars@.subrange(from as int, to as int);
            assert(rest.drop_last() =~= chars@.subrange(from as int, to - 1));
        }
        to -= 1;
    }
    (from, to)
}

/// The value of `c` as a digit to the base `radix`.
fn digit(c: char, radix: usize) -> (value: Option<usize>)
    requires
        radix <= 16,
    ensures
        match value {
            Some(v) => digit_value(c, radix as int) == Some(v as int) && v < radix,
            None => digit_value(c, radix as int) is None,
        },
{
    let value: usize = if '0' <= c && c <= '9' {
        c as usize - '0' as usize
    } else if 'a' <= c && c <= 'f' {
        c as usize - 'a' as usize + 10
    } else if 'A' <= c && c <= 'F' {
        c as usize - 'A' as usize + 10
    } else {
        16
    };
    if value < radix {
        Some(value)
    } else {
        None
    }
}

/// A number only grows with more digits, and a text with a wrong digit stays wrong.
proof fn lemma_digits_prefix(s: Seq<char>, radix: int, len: int)
    requires
        0 <= len <= s.len(),
        radix >= 1,
    ensures
        digits_value(s, radix) is Some ==> {
            &&& digits_value(s.take(len), radix) is Some
            &&& 0 <= digits_value(s.take(len), radix)->0 <= digits_value(s, radix)->0
        },
    decreases s.len(),
{
    if len < s.len() {
        assert(s.drop_last().take(len) =~= s.take(len));
        lemma_digits_prefix(s.drop_last(), radix, len);
        if digits_value(s, radix) is Some {
            let front = digits_value(s.drop_last(), radix)->0;
            assert(front <= front * radix) by (nonlinear_arith)
                requires
                    front >= 0,
                    radix >= 1,
            ;
        }
    } else {
        assert(s.take(len) =~= s);
        if s.len() > 0 {
            lemma_digits_prefix(s.drop_last(), radix, s.len() - 1);
            assert(s.drop_last().take(s.len() - 1) =~= s.drop_last());
            if digits_value(s, radix) is Some {
                let front = digits_value(s.drop_last(), radix)->0;
                assert(0 <= front * radix) by (nonlinear_arith)
                    requires
                        front >= 0,
                        radix >= 1,
                ;
            }
        }
    }
}

/// A number that a text writes is not negative and within its limit.
pub proof fn lemma_unsigned_bound(s: Seq<char>, radix: int, max: int)
    requires
        radix >= 1,
    ensures
        unsigned_value(s, radix, max) matches Some(value) ==> 0 <= value <= max,
{
    let digits = if s.len() > 0 && s[0] == '+' {
        s.skip(1)
    } else {
        s
    };
    lemma_digits_prefix(digits, radix, digits.len() as int);
    assert(digits.take(digits.len() as int) =~= digits);
}

/// The number that `chars[start..end]` writes to the base `radix`, as
/// [`unsigned_value`] defines it.
pub fn parse_unsigned(chars: &Vec<char>, start: usize, end: usize, radix: usize, max: usize) -> (value:
    Option<usize>)
    requires
        start <= end <= chars@.len(),
        2 <= radix <= 16,
    ensures
        match value {
            Some(v) => unsigned_value(
                chars@.subrange(start as int, end as int),
                radix as int,
                max as int,
            ) == Some(v as int),
            None => unsigned_value(
                chars@.subrange(start as int, end as int),
                radix as int,
                max as int,
            ) is None,
        },
{
    let ghost part = chars@.subrange(start as int, end as int);
    let mut from: usize = start;
    if start < end && chars[start] == '+' {
        from += 1;
    }
    let ghost digits = chars@.subrange(from as int, end as int);
    proof {
        if from > start {
            assert(part.skip(1) =~= digits);
        } else {
            assert(part =~= digits);
        }
    }
    if from == end {
        return None;
    }
    let mut value: usize = 0;
    let mut i: usize = from;
    while i < end
        invariant
            from <= i <= end <= chars@.len(),
            2 <= radix <= 16,
            digits == chars@.subrange(from as int, end as int),
            digits.len() > 0,
            digits == if part.len() > 0 && part[0] == '+' {
                part.skip(1)
            } else {
                part
            },
            part == chars@.subrange(start as int, end as int),
            digits_value(digits.take(i - from), radix as int) == Some(value as int),
            value <= max,
        decreases end - i,
    {
        proof {
            assert(digits.take(i - from + 1).drop_last() =~= digits.take(i - from));
            assert(digits.take(i - from + 1).last() == chars@[i as int]);
            lemma_digits_prefix(digits, radix as int, i - from + 1);
        }
        let d: usize = match digit(chars[i], radix) {
            Some(d) => d,
            None => {
                return None;
            },
        };
        let scaled: usize = match value.checked_mul(radix) {
            Some(scaled) => scaled,
            None => {
                return None;
            },
        };
        let sum: usize = match scaled.checked_add(d) {
            Some(sum) => sum,
            None => {
                return None;
            },
        };
        if sum > max {
            return None;
        }
        value = sum;
        i += 1;
    }
    assert(digits.take(end - from) =~= digits);
    Some(value)
}

/// The decimal digit of a number below ten, as text.
fn digit_text(digit: u64) -> (text: &'static str)
    requires
        digit < 10,
    ensures
        text@ == seq![decimal_digit(digit as int)],
{
    proof {
        reveal_strlit("0");
        reveal_strlit("1");
        reveal_strlit("2");
        reveal_strlit("3");
        reveal_strlit("4");
        reveal_strlit("5");
        reveal_strlit("6");
        reveal_strlit("7");
        reveal_strlit("8");
        reveal_strlit("9");
    }
    if digit == 0 {
        "0"
    } else if digit == 1 {
        "1"
    } else if digit == 2 {
        "2"
    } else if digit == 3 {
        "3"
    } else if digit == 4 {
        "4"
    } else if digit == 5 {
        "5"
    } else if digit == 6 {
        "6"
    } else if digit == 7 {
        "7"
    } else if digit == 8 {
        "8"
    } else {
        "9"
    }
}

/// `n` in decimal.
pub fn decimal_text(n: u64) -> (text: String)
    ensures
        text@ == decimal(n as nat),
    decreases n,
{
    if n < 10 {
        let text = String::from_str(digit_text(n));
        text
    } else {
        let mut text = decimal_text(n / 10);
        text.append(digit_text(n % 10));
        text
    }
}

/// A number written in decimal reads back as itself.
pub proof fn law_decimal_reads_back(n: nat, max: int)
    requires
        n <= max,
    ensures
        unsigned_value(decimal(n), 10, max) == Some(n as int),
{
    lemma_decimal_digits(n);
    assert(decimal_digit(0) == '0');
}

/// The decimal form of a number holds its digits and nothing else.
pub proof fn lemma_decimal_digits(n: nat)
    ensures
        decimal(n).len() > 0,
        digits_value(decimal(n), 10) == Some(n as int),
        forall|i: int| 0 <= i < decimal(n).len() ==> '0' <= #[trigger] decimal(n)[i] <= '9',
    decreases n,
{
    let text = decimal(n);
    if n < 10 {
        assert(text.drop_last() =~= Seq::<char>::empty());
        assert(digits_value(text.drop_last(), 10) == Some(0int));
        assert(text.last() == decimal_digit(n as int));
    } else {
        lemma_decimal_digits(n / 10);
        assert(text.drop_last() =~= decimal(n / 10));
        assert(text.last() == decimal_digit((n % 10) as int));
    }
}

} // verus!
