//! What holds of characters, white space and numbers in text.

use crate::text::{
    decimal, digit_value, digits_value, is_white_space, trim, trim_end, trim_start,
    unsigned_value,
};
use vstd::prelude::*;

verus! {

/// The number that digits make up to a base.
pub open spec fn numeral(digits: Seq<int>, base: int) -> int
    decreases digits.len(),
{
    if digits.len() == 0 {
        0
    } else {
        numeral(digits.drop_last(), base) * base + digits.last()
    }
}

/// Whether `c` writes the digit `d`: the digits from ten on are letters of either case.
pub open spec fn writes_digit(c: char, d: int) -> bool {
    ||| 0 <= d < 10 && c as int == 48 + d
    ||| 10 <= d < 16 && c as int == 97 + (d - 10)
    ||| 10 <= d < 16 && c as int == 65 + (d - 10)
}

/// Whether `text` writes the digits `digits`, each below `base`, one by one.
pub open spec fn writes_digits(text: Seq<char>, digits: Seq<int>, base: int) -> bool {
    &&& text.len() == digits.len()
    &&& forall|i: int|
        #![trigger text[i]]
        #![trigger digits[i]]
        0 <= i < text.len() ==> writes_digit(text[i], digits[i]) && digits[i] < base
}

/// A plus sign, or nothing.
pub open spec fn sign(plus: bool) -> Seq<char> {
    if plus {
        seq!['+']
    } else {
        Seq::empty()
    }
}

/// The digits from ten on are letters, and their case does not matter.
pub proof fn law_digits_of_either_case(c: char, base: int, d: int)
    requires
        2 <= base <= 16,
    ensures
        digit_value(c, base) == Some(d) <==> writes_digit(c, d) && d < base,
        10 <= d < base ==> digit_value((97 + (d - 10)) as char, base) == Some(d) && digit_value(
            (65 + (d - 10)) as char,
            base,
        ) == Some(d),
{
}

/// The digits of a text write the number that they make up.
proof fn lemma_digits_numeral(text: Seq<char>, digits: Seq<int>, base: int)
    requires
        2 <= base <= 16,
        writes_digits(text, digits, base),
    ensures
        digits_value(text, base) == Some(numeral(digits, base)),
        numeral(digits, base) >= 0,
    decreases text.len(),
{
    if text.len() > 0 {
        lemma_digits_numeral(text.drop_last(), digits.drop_last(), base);
        assert(writes_digit(text.last(), digits.last()));
        assert(digit_value(text.last(), base) == Some(digits.last()));
        let front = numeral(digits.drop_last(), base);
        assert(front * base >= 0) by (nonlinear_arith)
            requires
                front >= 0,
                base >= 2,
        ;
    }
}

/// A text that has a value is made of digits.
proof fn lemma_digits_of(text: Seq<char>, base: int) -> (digits: Seq<int>)
    requires
        2 <= base <= 16,
        digits_value(text, base) is Some,
    ensures
        writes_digits(text, digits, base),
    decreases text.len(),
{
    if text.len() == 0 {
        Seq::empty()
    } else {
        let front = lemma_digits_of(text.drop_last(), base);
        let d = digit_value(text.last(), base)->0;
        let digits = front.push(d);
        assert forall|i: int| 0 <= i < text.len() implies #[trigger] writes_digit(
            text[i],
            digits[i],
        ) && digits[i] < base by {
            if i < text.len() - 1 {
                assert(text.drop_last()[i] == text[i]);
                assert(front[i] == digits[i]);
            }
        }
        digits
    }
}

/// A number is read from a plus sign or none and at least one digit, in letters of either
/// case and with any zeros in front, as what the digits make up, where that is within the
/// limit; beyond the limit there is no number.
pub proof fn law_number_is_read(
    text: Seq<char>,
    digits: Seq<int>,
    plus: bool,
    base: int,
    max: int,
)
    requires
        2 <= base <= 16,
        text.len() > 0,
        writes_digits(text, digits, base),
    ensures
        unsigned_value(sign(plus) + text, base, max) == if numeral(digits, base) <= max {
            Some(numeral(digits, base))
        } else {
            None
        },
{
    lemma_digits_numeral(text, digits, base);
    let all = sign(plus) + text;
    if plus {
        assert(all.skip(1) =~= text);
    } else {
        assert(all =~= text);
        assert(writes_digit(text[0], digits[0]));
    }
}

/// Nothing else is read as a number: where one is read, the text is a plus sign or none
/// and at least one digit, and the digits make up the number.
pub proof fn law_number_was_written(text: Seq<char>, base: int, max: int) -> (parts: (
    bool,
    Seq<int>,
))
    requires
        2 <= base <= 16,
        unsigned_value(text, base, max) is Some,
    ensures
        text.len() > sign(parts.0).len(),
        text.take(sign(parts.0).len() as int) == sign(parts.0),
        writes_digits(text.skip(sign(parts.0).len() as int), parts.1, base),
        unsigned_value(text, base, max) == Some(numeral(parts.1, base)),
        0 <= numeral(parts.1, base) <= max,
{
    let plus = text[0] == '+';
    if plus {
        let rest = text.skip(1);
        let digits = lemma_digits_of(rest, base);
        lemma_digits_numeral(rest, digits, base);
        assert(text.take(1) =~= sign(true));
        (true, digits)
    } else {
        let digits = lemma_digits_of(text, base);
        lemma_digits_numeral(text, digits, base);
        assert(text.skip(0) =~= text);
        assert(text.take(0) =~= sign(false));
        (false, digits)
    }
}

/// The digits of a decimal text.
pub open spec fn decimal_digits(text: Seq<char>) -> Seq<int> {
    text.map_values(|c: char| c as int - 48)
}

/// The decimal form of a number is its digits, without a zero in front.
pub proof fn law_decimal_writes_the_number(n: nat)
    ensures
        decimal(n).len() > 0,
        forall|i: int| 0 <= i < decimal(n).len() ==> 48 <= #[trigger] decimal(n)[i] as int <= 57,
        numeral(decimal_digits(decimal(n)), 10) == n,
        decimal(n).len() > 1 ==> decimal(n)[0] as int != 48,
    decreases n,
{
    let text = decimal(n);
    if n < 10 {
        assert(decimal_digits(text).drop_last() =~= Seq::<int>::empty());
        assert(numeral(decimal_digits(text).drop_last(), 10) == 0);
    } else {
        law_decimal_writes_the_number(n / 10);
        let front = decimal(n / 10);
        assert(text.drop_last() =~= front);
        assert(decimal_digits(text).drop_last() =~= decimal_digits(front));
        assert(text[0] == front[0]);
        if front.len() == 1 {
            assert(decimal_digits(front).drop_last() =~= Seq::<int>::empty());
            assert(numeral(decimal_digits(front).drop_last(), 10) == 0);
        }
    }
}

/// Two numbers have two decimal forms.
pub proof fn law_decimal_tells_numbers_apart(m: nat, n: nat)
    requires
        decimal(m) == decimal(n),
    ensures
        m == n,
{
    law_decimal_writes_the_number(m);
    law_decimal_writes_the_number(n);
}

/// The characters that are white space.
pub proof fn law_white_space(c: char)
    ensures
        is_white_space(c) <==> {
            let code = c as int;
            ||| 9 <= code <= 13 || code == 32 || code == 133 || code == 160 || code == 5760
            ||| 8192 <= code <= 8202 || code == 8232 || code == 8233 || code == 8239
            ||| code == 8287 || code == 12288
        },
{
}

/// Trimming takes the white space on both sides and nothing else.
pub proof fn law_trim_takes_white_space(before: Seq<char>, text: Seq<char>, behind: Seq<char>)
    requires
        forall|i: int| 0 <= i < before.len() ==> is_white_space(#[trigger] before[i]),
        forall|i: int| 0 <= i < behind.len() ==> is_white_space(#[trigger] behind[i]),
        text.len() > 0,
        !is_white_space(text[0]),
        !is_white_space(text.last()),
    ensures
        trim(before + text + behind) == text,
{
    assert(before + text + behind =~= before + (text + behind));
    lemma_trim_front(before, text + behind);
    assert((text + behind)[0] == text[0]);
    lemma_trim_back(text, behind);
}

/// White space alone is trimmed to nothing.
pub proof fn law_trim_leaves_no_white_space(text: Seq<char>)
    requires
        forall|i: int| 0 <= i < text.len() ==> is_white_space(#[trigger] text[i]),
    ensures
        trim(text) == Seq::<char>::empty(),
{
    let none = Seq::<char>::empty();
    assert(text + none =~= text);
    lemma_trim_front(text, none);
}

/// White space in front is trimmed.
proof fn lemma_trim_front(before: Seq<char>, rest: Seq<char>)
    requires
        forall|i: int| 0 <= i < before.len() ==> is_white_space(#[trigger] before[i]),
    ensures
        trim_start(before + rest) == trim_start(rest),
    decreases before.len(),
{
    if before.len() > 0 {
        assert((before + rest)[0] == before[0]);
        assert((before + rest).skip(1) =~= before.skip(1) + rest);
        lemma_trim_front(before.skip(1), rest);
    } else {
        assert(before + rest =~= rest);
    }
}

/// White space behind is trimmed.
proof fn lemma_trim_back(text: Seq<char>, behind: Seq<char>)
    requires
        forall|i: int| 0 <= i < behind.len() ==> is_white_space(#[trigger] behind[i]),
    ensures
        trim_end(text + behind) == trim_end(text),
    decreases behind.len(),
{
    if behind.len() > 0 {
        assert((text + behind).last() == behind.last());
        assert((text + behind).drop_last() =~= text + behind.drop_last());
        lemma_trim_back(text, behind.drop_last());
    } else {
        assert(text + behind =~= text);
    }
}

/// What is trimmed is white space: a text is what is left of it, with white space around
/// it, and what is left neither begins nor ends with white space.
pub proof fn law_trimmed_was_white_space(text: Seq<char>) -> (sides: (Seq<char>, Seq<char>))
    ensures
        text == sides.0 + trim(text) + sides.1,
        forall|i: int| 0 <= i < sides.0.len() ==> is_white_space(#[trigger] sides.0[i]),
        forall|i: int| 0 <= i < sides.1.len() ==> is_white_space(#[trigger] sides.1[i]),
        trim(text).len() > 0 ==> !is_white_space(trim(text)[0]) && !is_white_space(
            trim(text).last(),
        ),
{
    let before = lemma_start_split(text);
    let behind = lemma_end_split(trim_start(text));
    assert(text =~= before + trim(text) + behind);
    if trim(text).len() > 0 {
        assert(trim(text)[0] == trim_start(text)[0]);
    }
    (before, behind)
}

/// What is trimmed in front is white space.
proof fn lemma_start_split(text: Seq<char>) -> (before: Seq<char>)
    ensures
        text == before + trim_start(text),
        forall|i: int| 0 <= i < before.len() ==> is_white_space(#[trigger] before[i]),
        trim_start(text).len() > 0 ==> !is_white_space(trim_start(text)[0]),
    decreases text.len(),
{
    if text.len() > 0 && is_white_space(text[0]) {
        let others = lemma_start_split(text.skip(1));
        let before = seq![text[0]] + others;
        let rest = trim_start(text);
        assert(text =~= seq![text[0]] + text.skip(1));
        assert(seq![text[0]] + (others + rest) =~= before + rest);
        assert forall|i: int| 0 <= i < before.len() implies is_white_space(
            #[trigger] before[i],
        ) by {
            if i > 0 {
                assert(before[i] == others[i - 1]);
            }
        }
        before
    } else {
        assert(text =~= Seq::<char>::empty() + text);
        Seq::empty()
    }
}

/// What is trimmed behind is white space.
proof fn lemma_end_split(text: Seq<char>) -> (behind: Seq<char>)
    ensures
        text == trim_end(text) + behind,
        forall|i: int| 0 <= i < behind.len() ==> is_white_space(#[trigger] behind[i]),
        trim_end(text).len() > 0 ==> !is_white_space(trim_end(text).last()),
    decreases text.len(),
{
    if text.len() > 0 && is_white_space(text.last()) {
        let others = lemma_end_split(text.drop_last());
        let behind = others.push(text.last());
        let rest = trim_end(text);
        assert(text =~= text.drop_last().push(text.last()));
        assert((rest + others).push(text.last()) =~= rest + behind);
        assert forall|i: int| 0 <= i < behind.len() implies is_white_space(
            #[trigger] behind[i],
        ) by {
            if i < others.len() {
                assert(behind[i] == others[i]);
            }
        }
        behind
    } else {
        assert(text =~= text + Seq::<char>::empty());
        Seq::empty()
    }
}

} // verus!
