//! What holds of the reading of headers, whatever the server sends.

use crate::ascii::DIGIT_0;
use crate::headers::{
    announced_chunked, announced_close, announced_length, ascii_lower, chunked_at, classified,
    contains_chunked, decimal_value, digits_of, drop_line_space, is_blank, is_digit,
    is_line_space, last_value, leading_number, leading_number_fits, leading_run,
    lemma_digits_empty, lemma_digits_push, lengths_fit, means_close, skip_blanks, spells,
    BodyInfo, HeaderInfo, HeaderView,
};
use crate::text_laws::numeral;
use vstd::prelude::*;

verus! {

/// Whether `a` and `b` differ in nothing but the case of letters.
pub open spec fn same_letters(a: Seq<u8>, b: Seq<u8>) -> bool {
    &&& a.len() == b.len()
    &&& forall|i: int|
        #![trigger a[i]]
        #![trigger b[i]]
        0 <= i < a.len() ==> ascii_lower(a[i]) == ascii_lower(b[i])
}

/// The case of letters matters neither in a name nor in a value.
pub proof fn law_case_does_not_matter(a: Seq<u8>, b: Seq<u8>, word: Seq<char>)
    requires
        same_letters(a, b),
    ensures
        spells(a, word) == spells(b, word),
        contains_chunked(a) == contains_chunked(b),
        means_close(a) == means_close(b),
{
    lemma_chunked_same(a, b);
    lemma_chunked_same(b, a);
    lemma_skip_same(a, b);
    lemma_drop_same(skip_blanks(a), skip_blanks(b));
}

/// The word "chunked" is found in letters of any case.
proof fn lemma_chunked_same(a: Seq<u8>, b: Seq<u8>)
    requires
        same_letters(a, b),
    ensures
        contains_chunked(a) ==> contains_chunked(b),
{
    if contains_chunked(a) {
        let at = choose|at: int| #[trigger] chunked_at(a, at);
        let x = a.subrange(at, at + 7);
        let y = b.subrange(at, at + 7);
        assert forall|i: int| 0 <= i < 7 implies ascii_lower(#[trigger] y[i]) == ascii_lower(
            x[i],
        ) by {
            assert(x[i] == a[at + i] && y[i] == b[at + i]);
        }
        assert(chunked_at(b, at));
    }
}

/// Blanks at the beginning are the same in letters of any case.
proof fn lemma_skip_same(a: Seq<u8>, b: Seq<u8>)
    requires
        same_letters(a, b),
    ensures
        same_letters(skip_blanks(a), skip_blanks(b)),
    decreases a.len(),
{
    if a.len() > 0 {
        assert(ascii_lower(a[0]) == ascii_lower(b[0]));
        assert forall|i: int| 0 <= i < a.len() - 1 implies ascii_lower(#[trigger] a.skip(1)[i])
            == ascii_lower(b.skip(1)[i]) by {
            assert(a.skip(1)[i] == a[i + 1] && b.skip(1)[i] == b[i + 1]);
        }
        lemma_skip_same(a.skip(1), b.skip(1));
    }
}

/// Blanks and line ends at the end are the same in letters of any case.
proof fn lemma_drop_same(a: Seq<u8>, b: Seq<u8>)
    requires
        same_letters(a, b),
    ensures
        same_letters(drop_line_space(a), drop_line_space(b)),
        spells(drop_line_space(a), "close"@) == spells(drop_line_space(b), "close"@),
    decreases a.len(),
{
    if a.len() > 0 {
        assert(ascii_lower(a.last()) == ascii_lower(b.last()));
        lemma_drop_same(a.drop_last(), b.drop_last());
    }
}

/// Blanks before the word "close", and blanks and line ends behind it, do not matter.
pub proof fn law_close_ignores_padding(before: Seq<u8>, word: Seq<u8>, behind: Seq<u8>)
    requires
        forall|i: int| 0 <= i < before.len() ==> is_blank(#[trigger] before[i]),
        forall|i: int| 0 <= i < behind.len() ==> is_line_space(#[trigger] behind[i]),
    ensures
        means_close(before + word + behind) == means_close(word),
{
    lemma_skip_front(before, word + behind);
    assert(before + word + behind =~= before + (word + behind));
    lemma_skip_then_drop(word, behind);
}

/// Blanks in front are skipped.
proof fn lemma_skip_front(before: Seq<u8>, rest: Seq<u8>)
    requires
        forall|i: int| 0 <= i < before.len() ==> is_blank(#[trigger] before[i]),
    ensures
        skip_blanks(before + rest) == skip_blanks(rest),
    decreases before.len(),
{
    if before.len() > 0 {
        assert((before + rest).skip(1) =~= before.skip(1) + rest);
        lemma_skip_front(before.skip(1), rest);
    } else {
        assert(before + rest =~= rest);
    }
}

/// Blanks and line ends behind are dropped.
proof fn lemma_drop_back(word: Seq<u8>, behind: Seq<u8>)
    requires
        forall|i: int| 0 <= i < behind.len() ==> is_line_space(#[trigger] behind[i]),
    ensures
        drop_line_space(word + behind) == drop_line_space(word),
    decreases behind.len(),
{
    if behind.len() > 0 {
        assert((word + behind).drop_last() =~= word + behind.drop_last());
        lemma_drop_back(word, behind.drop_last());
    } else {
        assert(word + behind =~= word);
    }
}

/// Blanks and line ends behind are dropped from what is left without blanks in front.
proof fn lemma_skip_then_drop(word: Seq<u8>, behind: Seq<u8>)
    requires
        forall|i: int| 0 <= i < behind.len() ==> is_line_space(#[trigger] behind[i]),
    ensures
        drop_line_space(skip_blanks(word + behind)) == drop_line_space(skip_blanks(word)),
    decreases word.len(),
{
    if word.len() > 0 && is_blank(word[0]) {
        assert((word + behind).skip(1) =~= word.skip(1) + behind);
        lemma_skip_then_drop(word.skip(1), behind);
    } else if word.len() > 0 {
        lemma_drop_back(word, behind);
    } else {
        assert(word + behind =~= behind);
        lemma_all_line_space(behind);
        let none = Seq::<u8>::empty();
        assert(word =~= none);
        lemma_drop_back(none, skip_blanks(behind));
        assert(none + skip_blanks(behind) =~= skip_blanks(behind));
    }
}

/// Blanks and line ends stay such where some are skipped.
proof fn lemma_all_line_space(bytes: Seq<u8>)
    requires
        forall|i: int| 0 <= i < bytes.len() ==> is_line_space(#[trigger] bytes[i]),
    ensures
        forall|i: int|
            0 <= i < skip_blanks(bytes).len() ==> is_line_space(#[trigger] skip_blanks(bytes)[i]),
    decreases bytes.len(),
{
    if bytes.len() > 0 && is_blank(bytes[0]) {
        lemma_all_line_space(bytes.skip(1));
        assert(skip_blanks(bytes) == skip_blanks(bytes.skip(1)));
    } else {
        assert(skip_blanks(bytes) == bytes);
    }
}

/// Whether a header has one of the three names that are looked at.
pub open spec fn is_looked_at(header: HeaderView) -> bool {
    ||| spells(header.name, "content-length"@)
    ||| spells(header.name, "transfer-encoding"@)
    ||| spells(header.name, "connection"@)
}

/// A header with any other name changes nothing, wherever it stands.
pub proof fn law_other_headers_do_not_matter(headers: Seq<HeaderView>, at: int, other: HeaderView)
    requires
        0 <= at <= headers.len(),
        !is_looked_at(other),
    ensures
        classified(headers.insert(at, other)) == classified(headers),
{
    lemma_value_without(headers, at, other, "content-length"@);
    lemma_value_without(headers, at, other, "transfer-encoding"@);
    lemma_value_without(headers, at, other, "connection"@);
}

/// A header with another name does not change which value counts.
proof fn lemma_value_without(
    headers: Seq<HeaderView>,
    at: int,
    other: HeaderView,
    name: Seq<char>,
)
    requires
        0 <= at <= headers.len(),
        !spells(other.name, name),
    ensures
        last_value(headers.insert(at, other), name) == last_value(headers, name),
    decreases headers.len(),
{
    let longer = headers.insert(at, other);
    if at == headers.len() {
        assert(longer.drop_last() =~= headers);
    } else {
        assert(longer.last() == headers.last());
        assert(longer.drop_last() =~= headers.drop_last().insert(at, other));
        lemma_value_without(headers.drop_last(), at, other, name);
    }
}

/// The headers that are looked at, in their order.
pub open spec fn looked_at(headers: Seq<HeaderView>) -> Seq<HeaderView> {
    headers.filter(|h: HeaderView| is_looked_at(h))
}

/// Headers with other names do not matter, however many there are and wherever they
/// stand: of two lists that agree in the headers that are looked at, the machine can hold
/// the lengths of both or of neither, and both say the same.
pub proof fn law_only_known_headers_matter(a: Seq<HeaderView>, b: Seq<HeaderView>)
    requires
        looked_at(a) == looked_at(b),
    ensures
        classified(a) == classified(b),
        lengths_fit(a) == lengths_fit(b),
{
    lemma_only_known(a);
    lemma_only_known(b);
}

/// A list without a header that is looked at, an empty one among them, says that the body
/// ends when the server closes the connection, and does not announce that it will.
pub proof fn law_nothing_announced(headers: Seq<HeaderView>)
    requires
        forall|i: int| 0 <= i < headers.len() ==> !is_looked_at(#[trigger] headers[i]),
    ensures
        classified(headers) == (HeaderInfo {
            body_info: BodyInfo::UntilClose,
            connection_close: false,
        }),
{
    lemma_none_called(headers, "content-length"@);
    lemma_none_called(headers, "transfer-encoding"@);
    lemma_none_called(headers, "connection"@);
}

/// A name that no header has gives no value.
proof fn lemma_none_called(headers: Seq<HeaderView>, name: Seq<char>)
    requires
        forall|i: int| 0 <= i < headers.len() ==> !spells((#[trigger] headers[i]).name, name),
    ensures
        last_value(headers, name) is None,
    decreases headers.len(),
{
    if headers.len() > 0 {
        lemma_none_called(headers.drop_last(), name);
    }
}

/// The headers that are looked at say what all of them say.
proof fn lemma_only_known(headers: Seq<HeaderView>)
    ensures
        classified(headers) == classified(looked_at(headers)),
        lengths_fit(headers) == lengths_fit(looked_at(headers)),
{
    lemma_value_of_known(headers, "content-length"@);
    lemma_value_of_known(headers, "transfer-encoding"@);
    lemma_value_of_known(headers, "connection"@);
    lemma_lengths_of_known(headers);
}

/// The value that counts is that of a header that is looked at.
proof fn lemma_value_of_known(headers: Seq<HeaderView>, name: Seq<char>)
    requires
        name == "content-length"@ || name == "transfer-encoding"@ || name == "connection"@,
    ensures
        last_value(looked_at(headers), name) == last_value(headers, name),
    decreases headers.len(),
{
    reveal(Seq::filter);
    if headers.len() > 0 {
        let front = headers.drop_last();
        lemma_value_of_known(front, name);
        if is_looked_at(headers.last()) {
            assert(looked_at(headers) == looked_at(front).push(headers.last()));
            assert(looked_at(headers).drop_last() =~= looked_at(front));
        }
    }
}

/// The machine can hold the lengths of a list where it can hold that of the last header
/// and those of the others.
proof fn lemma_lengths_unfold(headers: Seq<HeaderView>)
    requires
        headers.len() > 0,
    ensures
        lengths_fit(headers) == (lengths_fit(headers.drop_last()) && (spells(
            headers.last().name,
            "content-length"@,
        ) ==> leading_number_fits(headers.last().value))),
{
    let front = headers.drop_last();
    assert forall|i: int| 0 <= i < front.len() implies #[trigger] front[i] == headers[i] by {}
    if lengths_fit(headers) {
        assert forall|i: int|
            #![trigger front[i]]
            0 <= i < front.len() && spells(
                front[i].name,
                "content-length"@,
            ) implies leading_number_fits(front[i].value) by {
            assert(front[i] == headers[i]);
        }
    }
    if lengths_fit(front) {
        assert forall|i: int|
            #![trigger headers[i]]
            0 <= i < front.len() && spells(
                headers[i].name,
                "content-length"@,
            ) implies leading_number_fits(headers[i].value) by {
            assert(front[i] == headers[i]);
        }
    }
}

/// The lengths are those of headers that are looked at.
proof fn lemma_lengths_of_known(headers: Seq<HeaderView>)
    ensures
        lengths_fit(headers) == lengths_fit(looked_at(headers)),
    decreases headers.len(),
{
    reveal(Seq::filter);
    if headers.len() > 0 {
        let front = headers.drop_last();
        lemma_lengths_unfold(headers);
        lemma_lengths_of_known(front);
        if is_looked_at(headers.last()) {
            assert(looked_at(headers) == looked_at(front).push(headers.last()));
            assert(looked_at(headers).drop_last() =~= looked_at(front));
            lemma_lengths_unfold(looked_at(headers));
        }
    }
}

/// Of two headers with one name the later one counts.
pub proof fn law_later_header_counts(headers: Seq<HeaderView>, later: HeaderView)
    ensures
        spells(later.name, "content-length"@) ==> announced_length(headers.push(later))
            == leading_number(later.value),
        spells(later.name, "transfer-encoding"@) ==> announced_chunked(headers.push(later))
            == contains_chunked(later.value),
        spells(later.name, "connection"@) ==> announced_close(headers.push(later)) == means_close(
            later.value,
        ),
{
    assert(headers.push(later).last() == later);
}

/// A length that is announced ends the body, whatever coding is announced with it.
pub proof fn law_length_before_coding(headers: Seq<HeaderView>)
    ensures
        classified(headers).body_info is ContentLength <==> announced_length(headers) is Some,
        classified(headers).body_info is Chunked <==> announced_length(headers) is None
            && announced_chunked(headers),
{
}

/// A length in decimal is read as that length: with blanks before it, and with anything
/// behind it that does not go on with a digit or a blank.
pub proof fn law_length_reads_back(before: Seq<u8>, n: nat, behind: Seq<u8>)
    requires
        forall|i: int| 0 <= i < before.len() ==> is_blank(#[trigger] before[i]),
        behind.len() > 0 ==> !is_digit(behind[0]) && !is_blank(behind[0]),
    ensures
        leading_number(before + decimal_bytes(n) + behind) == Some(n),
{
    let digits = decimal_bytes(n);
    lemma_decimal_bytes(n);
    let run = before + digits;
    assert forall|i: int| 0 <= i < run.len() implies is_digit(#[trigger] run[i]) || is_blank(
        run[i],
    ) by {
        if i < before.len() {
            assert(run[i] == before[i]);
        } else {
            assert(run[i] == digits[i - before.len()]);
        }
    }
    lemma_run_of(run, behind);
    lemma_filter_digits(before, digits);
}

/// The bytes of `n` in decimal.
pub open spec fn decimal_bytes(n: nat) -> Seq<u8>
    decreases n,
{
    if n < 10 {
        seq![(DIGIT_0 + n) as u8]
    } else {
        decimal_bytes(n / 10).push((DIGIT_0 + n % 10) as u8)
    }
}

/// The decimal form of a number holds its digits and nothing else.
proof fn lemma_decimal_bytes(n: nat)
    ensures
        decimal_bytes(n).len() > 0,
        decimal_value(decimal_bytes(n)) == n,
        forall|i: int| 0 <= i < decimal_bytes(n).len() ==> is_digit(#[trigger] decimal_bytes(n)[i]),
    decreases n,
{
    let bytes = decimal_bytes(n);
    if n < 10 {
        assert(bytes.drop_last() =~= Seq::<u8>::empty());
        assert(decimal_value(bytes.drop_last()) == 0);
    } else {
        lemma_decimal_bytes(n / 10);
        assert(bytes.drop_last() =~= decimal_bytes(n / 10));
    }
}

/// A run of digits and blanks ends before anything else.
proof fn lemma_run_of(run: Seq<u8>, behind: Seq<u8>)
    requires
        forall|i: int| 0 <= i < run.len() ==> is_digit(#[trigger] run[i]) || is_blank(run[i]),
        behind.len() > 0 ==> !is_digit(behind[0]) && !is_blank(behind[0]),
    ensures
        leading_run(run + behind) == run,
    decreases run.len(),
{
    if run.len() > 0 {
        assert((run + behind)[0] == run[0]);
        assert((run + behind).skip(1) =~= run.skip(1) + behind);
        lemma_run_of(run.skip(1), behind);
        assert(seq![run[0]] + run.skip(1) =~= run);
    } else {
        assert(run + behind =~= behind);
        assert(run =~= Seq::<u8>::empty());
    }
}

/// Blanks add no digits.
proof fn lemma_filter_digits(blanks: Seq<u8>, digits: Seq<u8>)
    requires
        forall|i: int| 0 <= i < blanks.len() ==> is_blank(#[trigger] blanks[i]),
        forall|i: int| 0 <= i < digits.len() ==> is_digit(#[trigger] digits[i]),
    ensures
        digits_of(blanks + digits) == digits,
    decreases digits.len(), blanks.len(),
{
    let all = blanks + digits;
    if digits.len() > 0 {
        let front = digits.drop_last();
        assert(all =~= (blanks + front).push(digits.last()));
        lemma_digits_push(blanks + front, digits.last());
        lemma_filter_digits(blanks, front);
        assert(front.push(digits.last()) =~= digits);
    } else if blanks.len() > 0 {
        let front = blanks.drop_last();
        assert(all =~= (front + digits).push(blanks.last()));
        lemma_digits_push(front + digits, blanks.last());
        lemma_filter_digits(front, digits);
    } else {
        assert(all =~= digits);
        lemma_digits_empty(all);
    }
}

/// Whether `b` is a figure.
pub open spec fn is_figure(b: u8) -> bool {
    48 <= b <= 57
}

/// Whether `b` is a space or a tab.
pub open spec fn is_gap(b: u8) -> bool {
    b == 32 || b == 9
}

/// The figures in `bytes`.
pub open spec fn figures(bytes: Seq<u8>) -> Seq<int>
    decreases bytes.len(),
{
    if bytes.len() == 0 {
        Seq::empty()
    } else if is_figure(bytes.last()) {
        figures(bytes.drop_last()).push(bytes.last() - 48)
    } else {
        figures(bytes.drop_last())
    }
}

/// The number in a value is what the figures at its beginning make up, gaps among them
/// left out; anything else ends it, and without a figure there is none.
pub proof fn law_number_at_the_beginning(run: Seq<u8>, behind: Seq<u8>)
    requires
        forall|i: int| 0 <= i < run.len() ==> is_figure(#[trigger] run[i]) || is_gap(run[i]),
        behind.len() > 0 ==> !is_figure(behind[0]) && !is_gap(behind[0]),
    ensures
        leading_number(run + behind) == if figures(run).len() > 0 {
            Some(numeral(figures(run), 10) as nat)
        } else {
            None
        },
        numeral(figures(run), 10) >= 0,
        leading_number_fits(run + behind) <==> figures(run).len() == 0 || numeral(figures(run), 10)
            <= usize::MAX,
{
    assert forall|i: int| 0 <= i < run.len() implies is_digit(#[trigger] run[i]) || is_blank(
        run[i],
    ) by {
        assert(is_figure(run[i]) || is_gap(run[i]));
    }
    lemma_run_of(run, behind);
    lemma_figures(run);
}

/// The figures are the digits.
proof fn lemma_figures(bytes: Seq<u8>)
    ensures
        digits_of(bytes).len() == figures(bytes).len(),
        decimal_value(digits_of(bytes)) == numeral(figures(bytes), 10),
        numeral(figures(bytes), 10) >= 0,
    decreases bytes.len(),
{
    if bytes.len() == 0 {
        lemma_digits_empty(bytes);
    } else {
        let front = bytes.drop_last();
        lemma_figures(front);
        lemma_digits_push(front, bytes.last());
        assert(front.push(bytes.last()) =~= bytes);
        if is_figure(bytes.last()) {
            assert(digits_of(bytes).drop_last() =~= digits_of(front));
            assert(figures(bytes).drop_last() =~= figures(front));
        }
    }
}

/// Whether `bytes` are the word `word`, which is in lower case, in letters of either case.
pub open spec fn is_word(bytes: Seq<u8>, word: Seq<u8>) -> bool {
    &&& bytes.len() == word.len()
    &&& forall|i: int|
        #![trigger bytes[i]]
        0 <= i < bytes.len() ==> bytes[i] == word[i] || (97 <= word[i] <= 122 && bytes[i] + 32
            == word[i])
}

/// The word "chunked".
pub open spec fn chunked_word() -> Seq<u8> {
    seq![99u8, 104, 117, 110, 107, 101, 100]
}

/// The word "close".
pub open spec fn close_word() -> Seq<u8> {
    seq![99u8, 108, 111, 115, 101]
}

/// The name "content-length".
pub open spec fn length_name() -> Seq<u8> {
    seq![99u8, 111, 110, 116, 101, 110, 116, 45, 108, 101, 110, 103, 116, 104]
}

/// The name "transfer-encoding".
pub open spec fn coding_name() -> Seq<u8> {
    seq![116u8, 114, 97, 110, 115, 102, 101, 114, 45, 101, 110, 99, 111, 100, 105, 110, 103]
}

/// The name "connection".
pub open spec fn connection_name() -> Seq<u8> {
    seq![99u8, 111, 110, 110, 101, 99, 116, 105, 111, 110]
}

/// To spell a word is to be that word.
proof fn lemma_spells_is_word(bytes: Seq<u8>, text: Seq<char>, word: Seq<u8>)
    requires
        text.len() == word.len(),
        forall|i: int| 0 <= i < word.len() ==> #[trigger] text[i] as int == word[i] as int,
        forall|i: int|
            0 <= i < word.len() ==> !(65 <= #[trigger] word[i] <= 90),
    ensures
        spells(bytes, text) == is_word(bytes, word),
{
    assert forall|i: int| 0 <= i < word.len() && bytes.len() == word.len() implies (ascii_lower(
        #[trigger] bytes[i],
    ) as int == text[i] as int) == (bytes[i] == word[i] || (97 <= word[i] <= 122 && bytes[i] + 32
        == word[i])) by {
        assert(text[i] as int == word[i] as int);
        assert(!(65 <= word[i] <= 90));
    }
    if is_word(bytes, word) {
        assert forall|i: int| 0 <= i < bytes.len() implies ascii_lower(#[trigger] bytes[i]) as int
            == text[i] as int by {}
    }
    if spells(bytes, text) {
        assert forall|i: int|
            #![trigger bytes[i]]
            0 <= i < bytes.len() implies bytes[i] == word[i] || (97 <= word[i] <= 122 && bytes[i]
            + 32 == word[i]) by {}
    }
}

/// The words and names are spelled as they are.
proof fn lemma_words(bytes: Seq<u8>)
    ensures
        spells(bytes, "chunked"@) == is_word(bytes, chunked_word()),
        spells(bytes, "close"@) == is_word(bytes, close_word()),
        spells(bytes, "content-length"@) == is_word(bytes, length_name()),
        spells(bytes, "transfer-encoding"@) == is_word(bytes, coding_name()),
        spells(bytes, "connection"@) == is_word(bytes, connection_name()),
{
    reveal_strlit("chunked");
    reveal_strlit("close");
    reveal_strlit("content-length");
    reveal_strlit("transfer-encoding");
    reveal_strlit("connection");
    lemma_spells_is_word(bytes, "chunked"@, chunked_word());
    lemma_spells_is_word(bytes, "close"@, close_word());
    lemma_spells_is_word(bytes, "content-length"@, length_name());
    lemma_spells_is_word(bytes, "transfer-encoding"@, coding_name());
    lemma_spells_is_word(bytes, "connection"@, connection_name());
}

/// A value announces the chunked coding just where the word "chunked" stands in it.
pub proof fn law_chunked_stands_in_the_value(bytes: Seq<u8>)
    ensures
        contains_chunked(bytes) <==> exists|at: int|
            0 <= at <= bytes.len() - 7 && is_word(#[trigger] bytes.subrange(at, at + 7), chunked_word()),
{
    if contains_chunked(bytes) {
        let at = choose|at: int| #[trigger] chunked_at(bytes, at);
        lemma_words(bytes.subrange(at, at + 7));
    }
    if exists|at: int|
        0 <= at <= bytes.len() - 7 && is_word(#[trigger] bytes.subrange(at, at + 7), chunked_word()) {
        let at = choose|at: int|
            0 <= at <= bytes.len() - 7 && is_word(#[trigger] bytes.subrange(at, at + 7), chunked_word());
        lemma_words(bytes.subrange(at, at + 7));
        assert(chunked_at(bytes, at));
    }
}

/// Whether `b` is a gap or part of a line end.
pub open spec fn is_padding(b: u8) -> bool {
    is_gap(b) || b == 13 || b == 10
}

/// The word "close", with gaps before it and gaps and line ends behind it, announces that
/// the connection will be closed.
pub proof fn law_close_is_read(before: Seq<u8>, word: Seq<u8>, behind: Seq<u8>)
    requires
        forall|i: int| 0 <= i < before.len() ==> is_gap(#[trigger] before[i]),
        forall|i: int| 0 <= i < behind.len() ==> is_padding(#[trigger] behind[i]),
        is_word(word, close_word()),
    ensures
        means_close(before + word + behind),
{
    assert forall|i: int| 0 <= i < before.len() implies is_blank(#[trigger] before[i]) by {
        assert(is_gap(before[i]));
    }
    assert forall|i: int| 0 <= i < behind.len() implies is_line_space(#[trigger] behind[i]) by {
        assert(is_padding(behind[i]));
    }
    law_close_ignores_padding(before, word, behind);
    lemma_words(word);
    assert(word[0] == 99 || word[0] == 67);
    assert(word[4] == 101 || word[4] == 69);
    assert(skip_blanks(word) == word);
    assert(drop_line_space(word) == word);
}

/// Nothing else announces that: a value that does is the word "close" with gaps before it
/// and gaps and line ends behind it.
pub proof fn law_close_was_written(bytes: Seq<u8>) -> (parts: (Seq<u8>, Seq<u8>, Seq<u8>))
    requires
        means_close(bytes),
    ensures
        bytes == parts.0 + parts.1 + parts.2,
        forall|i: int| 0 <= i < parts.0.len() ==> is_gap(#[trigger] parts.0[i]),
        forall|i: int| 0 <= i < parts.2.len() ==> is_padding(#[trigger] parts.2[i]),
        is_word(parts.1, close_word()),
{
    let rest = skip_blanks(bytes);
    let word = drop_line_space(rest);
    let before = lemma_skipped(bytes);
    let behind = lemma_dropped(rest);
    lemma_words(word);
    assert(bytes =~= before + word + behind);
    (before, word, behind)
}

/// What is skipped is gaps.
proof fn lemma_skipped(bytes: Seq<u8>) -> (before: Seq<u8>)
    ensures
        bytes == before + skip_blanks(bytes),
        forall|i: int| 0 <= i < before.len() ==> is_gap(#[trigger] before[i]),
    decreases bytes.len(),
{
    if bytes.len() > 0 && is_blank(bytes[0]) {
        let others = lemma_skipped(bytes.skip(1));
        let before = seq![bytes[0]] + others;
        let rest = skip_blanks(bytes);
        assert(bytes =~= seq![bytes[0]] + bytes.skip(1));
        assert(seq![bytes[0]] + (others + rest) =~= before + rest);
        assert forall|i: int| 0 <= i < before.len() implies is_gap(#[trigger] before[i]) by {
            if i > 0 {
                assert(before[i] == others[i - 1]);
            }
        }
        before
    } else {
        assert(bytes =~= Seq::<u8>::empty() + bytes);
        Seq::empty()
    }
}

/// What is dropped is gaps and line ends.
proof fn lemma_dropped(bytes: Seq<u8>) -> (behind: Seq<u8>)
    ensures
        bytes == drop_line_space(bytes) + behind,
        forall|i: int| 0 <= i < behind.len() ==> is_padding(#[trigger] behind[i]),
    decreases bytes.len(),
{
    if bytes.len() > 0 && is_line_space(bytes.last()) {
        let others = lemma_dropped(bytes.drop_last());
        let behind = others.push(bytes.last());
        let rest = drop_line_space(bytes);
        assert(bytes =~= bytes.drop_last().push(bytes.last()));
        assert((rest + others).push(bytes.last()) =~= rest + behind);
        assert forall|i: int| 0 <= i < behind.len() implies is_padding(#[trigger] behind[i]) by {
            if i < others.len() {
                assert(behind[i] == others[i]);
            }
        }
        behind
    } else {
        assert(bytes =~= bytes + Seq::<u8>::empty());
        Seq::empty()
    }
}

/// Whether `at` is the last of the headers that are called `name`.
pub open spec fn is_last_called(headers: Seq<HeaderView>, name: Seq<u8>, at: int) -> bool {
    &&& 0 <= at < headers.len()
    &&& is_word(headers[at].name, name)
    &&& forall|i: int| at < i < headers.len() ==> !is_word((#[trigger] headers[i]).name, name)
}

/// Whether no header is called `name`.
pub open spec fn is_none_called(headers: Seq<HeaderView>, name: Seq<u8>) -> bool {
    forall|i: int| 0 <= i < headers.len() ==> !is_word((#[trigger] headers[i]).name, name)
}

/// The value that counts is that of the last header with the name.
proof fn lemma_last_called(headers: Seq<HeaderView>, text: Seq<char>, name: Seq<u8>, at: int)
    requires
        forall|bytes: Seq<u8>| spells(bytes, text) == #[trigger] is_word(bytes, name),
        is_last_called(headers, name, at),
    ensures
        last_value(headers, text) == Some(headers[at].value),
    decreases headers.len(),
{
    let last = headers.last();
    assert(is_word(last.name, name) == spells(last.name, text));
    if at < headers.len() - 1 {
        assert(headers[headers.len() - 1] == last);
        lemma_last_called(headers.drop_last(), text, name, at);
    }
}

/// Without a header with the name there is no value.
proof fn lemma_nothing_called(headers: Seq<HeaderView>, text: Seq<char>, name: Seq<u8>)
    requires
        forall|bytes: Seq<u8>| spells(bytes, text) == #[trigger] is_word(bytes, name),
        is_none_called(headers, name),
    ensures
        last_value(headers, text) is None,
{
    assert forall|i: int| 0 <= i < headers.len() implies !spells(
        (#[trigger] headers[i]).name,
        text,
    ) by {
        assert(is_word(headers[i].name, name) == spells(headers[i].name, text));
    }
    lemma_none_called(headers, text);
}

/// A length is announced by the last header called "content-length", in letters of either
/// case, and by no other.
pub proof fn law_length_by_its_header(headers: Seq<HeaderView>, at: int)
    ensures
        is_last_called(headers, length_name(), at) ==> announced_length(headers) == leading_number(
            headers[at].value,
        ),
        is_none_called(headers, length_name()) ==> announced_length(headers) is None,
{
    assert forall|bytes: Seq<u8>| spells(bytes, "content-length"@) == #[trigger] is_word(
        bytes,
        length_name(),
    ) by {
        lemma_words(bytes);
    }
    if is_last_called(headers, length_name(), at) {
        lemma_last_called(headers, "content-length"@, length_name(), at);
    }
    if is_none_called(headers, length_name()) {
        lemma_nothing_called(headers, "content-length"@, length_name());
    }
}

/// The chunked coding is announced by the last header called "transfer-encoding", in
/// letters of either case, and by no other.
pub proof fn law_coding_by_its_header(headers: Seq<HeaderView>, at: int)
    ensures
        is_last_called(headers, coding_name(), at) ==> announced_chunked(headers)
            == contains_chunked(headers[at].value),
        is_none_called(headers, coding_name()) ==> !announced_chunked(headers),
{
    assert forall|bytes: Seq<u8>| spells(bytes, "transfer-encoding"@) == #[trigger] is_word(
        bytes,
        coding_name(),
    ) by {
        lemma_words(bytes);
    }
    if is_last_called(headers, coding_name(), at) {
        lemma_last_called(headers, "transfer-encoding"@, coding_name(), at);
    }
    if is_none_called(headers, coding_name()) {
        lemma_nothing_called(headers, "transfer-encoding"@, coding_name());
    }
}

/// That the connection will be closed is announced by the last header called
/// "connection", in letters of either case, and by no other.
pub proof fn law_close_by_its_header(headers: Seq<HeaderView>, at: int)
    ensures
        is_last_called(headers, connection_name(), at) ==> announced_close(headers) == means_close(
            headers[at].value,
        ),
        is_none_called(headers, connection_name()) ==> !announced_close(headers),
{
    assert forall|bytes: Seq<u8>| spells(bytes, "connection"@) == #[trigger] is_word(
        bytes,
        connection_name(),
    ) by {
        lemma_words(bytes);
    }
    if is_last_called(headers, connection_name(), at) {
        lemma_last_called(headers, "connection"@, connection_name(), at);
    }
    if is_none_called(headers, connection_name()) {
        lemma_nothing_called(headers, "connection"@, connection_name());
    }
}

/// The machine can hold the lengths just where the number in each header called
/// "content-length" is one that it can hold.
pub proof fn law_lengths_of_their_headers(headers: Seq<HeaderView>)
    ensures
        lengths_fit(headers) <==> forall|i: int|
            0 <= i < headers.len() && is_word((#[trigger] headers[i]).name, length_name()) ==> (
            leading_number(headers[i].value) matches Some(n) ==> n <= usize::MAX),
{
    assert forall|i: int| 0 <= i < headers.len() implies spells(
        (#[trigger] headers[i]).name,
        "content-length"@,
    ) == is_word(headers[i].name, length_name()) by {
        lemma_words(headers[i].name);
    }
}

/// What is announced ends the body: a length, whatever coding is announced with it, after
/// that many bytes; the coding where no length is announced; and else the end of the
/// connection. Whether the connection will be closed is told as it is announced, however
/// the body ends.
pub proof fn law_what_is_announced_is_told(headers: Seq<HeaderView>)
    requires
        lengths_fit(headers),
    ensures
        classified(headers).connection_close == announced_close(headers),
        match announced_length(headers) {
            Some(n) => n <= usize::MAX && classified(headers).body_info == BodyInfo::ContentLength(
                n as usize,
            ),
            None => classified(headers).body_info == if announced_chunked(headers) {
                BodyInfo::Chunked
            } else {
                BodyInfo::UntilClose
            },
        },
{
    lemma_value_is_of_a_header(headers, "content-length"@);
}

/// A value that counts is that of a header with the name.
proof fn lemma_value_is_of_a_header(headers: Seq<HeaderView>, name: Seq<char>)
    ensures
        last_value(headers, name) matches Some(value) ==> exists|i: int|
            0 <= i < headers.len() && spells((#[trigger] headers[i]).name, name)
                && headers[i].value == value,
    decreases headers.len(),
{
    if headers.len() > 0 {
        let front = headers.drop_last();
        lemma_value_is_of_a_header(front, name);
        if spells(headers.last().name, name) {
            assert(headers[headers.len() - 1] == headers.last());
        } else if let Some(value) = last_value(headers, name) {
            let i = choose|i: int|
                0 <= i < front.len() && spells((#[trigger] front[i]).name, name) && front[i].value
                    == value;
            assert(headers[i] == front[i]);
        }
    }
}

} // verus!
