//! What the headers of a response say about its body and its connection.

use crate::ascii::{CR, DIGIT_0, DIGIT_9, LF, SPACE, TAB, UPPER_A, UPPER_Z};
use vstd::prelude::*;
use vstd::string::*;

verus! {

/// A header: its name and its value, as they were received.
#[derive(Clone, Copy, Debug)]
pub struct Header<'a> {
    pub name: &'a [u8],
    pub value: &'a [u8],
}

/// A header, as sequences of bytes.
#[verifier::ext_equal]
pub struct HeaderView {
    pub name: Seq<u8>,
    pub value: Seq<u8>,
}

impl<'a> View for Header<'a> {
    type V = HeaderView;

    open spec fn view(&self) -> HeaderView {
        HeaderView { name: self.name@, value: self.value@ }
    }
}

/// The headers of a response, as sequences of bytes.
pub open spec fn header_views(headers: Seq<Header>) -> Seq<HeaderView> {
    headers.map_values(|h: Header| h@)
}

/// How the body of a response ends.
#[derive(Clone, Copy, Debug, PartialEq, Eq, Structural)]
pub enum BodyInfo {
    /// After that many bytes.
    ContentLength(usize),
    /// Where the chunked coding says so.
    Chunked,
    /// When the server closes the connection.
    UntilClose,
}

/// What the headers of a response say.
#[derive(Clone, Copy, Debug, PartialEq, Eq, Structural)]
pub struct HeaderInfo {
    pub body_info: BodyInfo,
    /// Whether the server closes the connection after the response.
    pub connection_close: bool,
}

/// A number that `usize` cannot hold.
#[derive(Clone, Copy, Debug, PartialEq, Eq, Structural)]
pub struct NumberTooLarge;

/// Whether `b` is a decimal digit.
pub open spec fn is_digit(b: u8) -> bool {
    DIGIT_0 <= b <= DIGIT_9
}

/// Whether `b` is a space or a tab.
pub open spec fn is_blank(b: u8) -> bool {
    b == SPACE || b == TAB
}

/// Whether `b` is a space, a tab or part of a line end.
pub open spec fn is_line_space(b: u8) -> bool {
    is_blank(b) || b == CR || b == LF
}

/// `b` in lower case, where it is an ASCII letter.
pub open spec fn ascii_lower(b: u8) -> u8 {
    if UPPER_A <= b <= UPPER_Z {
        (b + 32) as u8
    } else {
        b
    }
}

/// Whether `bytes` spell `word`, which is in lower case, in letters of either case.
pub open spec fn spells(bytes: Seq<u8>, word: Seq<char>) -> bool {
    &&& bytes.len() == word.len()
    &&& forall|i: int|
        0 <= i < bytes.len() ==> ascii_lower(#[trigger] bytes[i]) as int == word[i] as int
}

/// The digits and blanks at the beginning of `bytes`.
pub open spec fn leading_run(bytes: Seq<u8>) -> Seq<u8>
    decreases bytes.len(),
{
    if bytes.len() > 0 && (is_digit(bytes[0]) || is_blank(bytes[0])) {
        seq![bytes[0]] + leading_run(bytes.skip(1))
    } else {
        Seq::empty()
    }
}

/// The digits in `bytes`.
#[verifier::opaque]
pub open spec fn digits_of(bytes: Seq<u8>) -> Seq<u8> {
    bytes.filter(|b: u8| is_digit(b))
}

/// The number that `digits` write in decimal.
pub open spec fn decimal_value(digits: Seq<u8>) -> nat
    decreases digits.len(),
{
    if digits.len() == 0 {
        0
    } else {
        decimal_value(digits.drop_last()) * 10 + (digits.last() - DIGIT_0) as nat
    }
}

/// The number at the beginning of `bytes`: that of the digits there, blanks among them
/// left out, if there is a digit at all.
pub open spec fn leading_number(bytes: Seq<u8>) -> Option<nat> {
    let digits = digits_of(leading_run(bytes));
    if digits.len() > 0 {
        Some(decimal_value(digits))
    } else {
        None
    }
}

/// Whether the number at the beginning of `bytes`, if any, fits the machine.
pub open spec fn leading_number_fits(bytes: Seq<u8>) -> bool {
    leading_number(bytes) matches Some(n) ==> n <= usize::MAX
}

/// The bytes taken by a run are in front of what is left of it.
proof fn lemma_run_step(bytes: Seq<u8>, at: int)
    requires
        0 <= at < bytes.len(),
        is_digit(bytes[at]) || is_blank(bytes[at]),
        leading_run(bytes) == bytes.take(at) + leading_run(bytes.skip(at)),
    ensures
        leading_run(bytes) == bytes.take(at + 1) + leading_run(bytes.skip(at + 1)),
{
    assert(bytes.skip(at).skip(1) =~= bytes.skip(at + 1));
    assert(bytes.take(at + 1) =~= bytes.take(at) + seq![bytes[at]]);
}

/// No bytes hold no digits.
pub proof fn lemma_digits_empty(bytes: Seq<u8>)
    requires
        bytes.len() == 0,
    ensures
        digits_of(bytes) == Seq::<u8>::empty(),
{
    reveal(digits_of);
    reveal(Seq::filter);
}

/// One more byte adds its digit or nothing.
pub proof fn lemma_digits_push(bytes: Seq<u8>, b: u8)
    ensures
        digits_of(bytes.push(b)) == if is_digit(b) {
            digits_of(bytes).push(b)
        } else {
            digits_of(bytes)
        },
{
    reveal(digits_of);
    reveal(Seq::filter);
    assert(bytes.push(b).drop_last() =~= bytes);
}

/// One more byte of a sequence adds its digit or nothing.
proof fn lemma_digits_step(bytes: Seq<u8>, at: int)
    requires
        0 <= at < bytes.len(),
    ensures
        digits_of(bytes.take(at + 1)) == if is_digit(bytes[at]) {
            digits_of(bytes.take(at)).push(bytes[at])
        } else {
            digits_of(bytes.take(at))
        },
{
    lemma_digits_push(bytes.take(at), bytes[at]);
    assert(bytes.take(at + 1) =~= bytes.take(at).push(bytes[at]));
}

/// More bytes do not make the number smaller.
proof fn lemma_value_grows(bytes: Seq<u8>, at: int)
    requires
        0 <= at <= bytes.len(),
    ensures
        decimal_value(digits_of(bytes.take(at))) <= decimal_value(digits_of(bytes)),
    decreases bytes.len() - at,
{
    if at < bytes.len() {
        lemma_digits_step(bytes, at);
        lemma_value_grows(bytes, at + 1);
        let digits = digits_of(bytes.take(at));
        assert(digits.push(bytes[at]).drop_last() =~= digits);
    } else {
        assert(bytes.take(at) =~= bytes);
    }
}

/// The number at the beginning of `bytes`, or that it is too large.
pub fn checked_leading_number(bytes: &[u8]) -> (number: Result<Option<usize>, NumberTooLarge>)
    ensures
        number is Ok <==> leading_number_fits(bytes@),
        number matches Ok(Some(n)) ==> leading_number(bytes@) == Some(n as nat),
        number matches Ok(None) ==> leading_number(bytes@) is None,
{
    let mut value: usize = 0;
    let mut has_digits: bool = false;
    let mut i: usize = 0;
    assert(bytes@.take(0) + leading_run(bytes@.skip(0)) =~= leading_run(bytes@)) by {
        assert(bytes@.skip(0) =~= bytes@);
    }
    proof {
        lemma_digits_empty(bytes@.take(0));
    }
    while i < bytes.len()
        invariant_except_break
            i <= bytes@.len(),
            leading_run(bytes@) == bytes@.take(i as int) + leading_run(bytes@.skip(i as int)),
            value == decimal_value(digits_of(bytes@.take(i as int))),
            has_digits == (digits_of(bytes@.take(i as int)).len() > 0),
        ensures
            value == decimal_value(digits_of(leading_run(bytes@))),
            has_digits == (digits_of(leading_run(bytes@)).len() > 0),
        decreases bytes@.len() - i,
    {
        let b = bytes[i];
        let ghost run = leading_run(bytes@);
        if b >= DIGIT_0 && b <= DIGIT_9 {
            proof {
                lemma_run_step(bytes@, i as int);
                lemma_digits_step(bytes@, i as int);
                let digits = digits_of(bytes@.take(i as int));
                assert(digits.push(b).drop_last() =~= digits);
                assert(run.take(i + 1) =~= bytes@.take(i + 1));
                lemma_value_grows(run, i + 1);
                assert(digits_of(run).len() > 0) by {
                    lemma_digits_of_prefix(run, i + 1);
                }
            }
            let scaled: usize = match value.checked_mul(10) {
                Some(scaled) => scaled,
                None => {
                    return Err(NumberTooLarge);
                },
            };
            value =
            match scaled.checked_add((b - DIGIT_0) as usize) {
                Some(sum) => sum,
                None => {
                    return Err(NumberTooLarge);
                },
            };
            has_digits = true;
        } else if b == SPACE || b == TAB {
            proof {
                lemma_run_step(bytes@, i as int);
                lemma_digits_step(bytes@, i as int);
            }
        } else {
            proof {
                assert(run =~= bytes@.take(i as int));
            }
            break ;
        }
        i += 1;
        proof {
            if i == bytes@.len() {
                assert(bytes@.take(i as int) + leading_run(bytes@.skip(i as int)) =~= bytes@.take(
                    i as int,
                ));
            }
        }
    }
    if has_digits {
        Ok(Some(value))
    } else {
        Ok(None)
    }
}

/// A longer sequence has at least as many digits.
proof fn lemma_digits_of_prefix(bytes: Seq<u8>, at: int)
    requires
        0 <= at <= bytes.len(),
    ensures
        digits_of(bytes.take(at)).len() <= digits_of(bytes).len(),
    decreases bytes.len() - at,
{
    if at < bytes.len() {
        lemma_digits_step(bytes, at);
        lemma_digits_of_prefix(bytes, at + 1);
    } else {
        assert(bytes.take(at) =~= bytes);
    }
}

/// The number at the beginning of `bytes`.
pub fn parse_usize(bytes: &[u8]) -> (number: Option<usize>)
    requires
        leading_number_fits(bytes@),
    ensures
        match number {
            Some(n) => leading_number(bytes@) == Some(n as nat),
            None => leading_number(bytes@) is None,
        },
{
    match checked_leading_number(bytes) {
        Ok(number) => number,
        Err(_) => None,
    }
}

/// `b` in lower case, where it is an ASCII letter.
fn to_lower(b: u8) -> (lower: u8)
    ensures
        lower == ascii_lower(b),
{
    if UPPER_A <= b && b <= UPPER_Z {
        b + 32
    } else {
        b
    }
}

/// Whether `bytes[start..end]` spells `word`.
fn spells_word(bytes: &[u8], start: usize, end: usize, word: &str) -> (same: bool)
    requires
        start <= end <= bytes@.len(),
        is_ascii(word),
    ensures
        same == spells(bytes@.subrange(start as int, end as int), word@),
{
    broadcast use is_ascii_spec_bytes;

    let ghost part = bytes@.subrange(start as int, end as int);
    let letters = word.as_bytes();
    assert(letters@.len() == word@.len());
    if end - start != letters.len() {
        return false;
    }
    let mut i: usize = 0;
    while i < letters.len()
        invariant
            start <= end <= bytes@.len(),
            end - start == letters@.len() == word@.len(),
            part == bytes@.subrange(start as int, end as int),
            i <= letters@.len(),
            forall|j: int| 0 <= j < letters@.len() ==> letters@[j] as int == word@[j] as int,
            forall|j: int| 0 <= j < i ==> ascii_lower(#[trigger] part[j]) as int == word@[j] as int,
        decreases letters@.len() - i,
    {
        if to_lower(bytes[start + i]) != letters[i] {
            assert(ascii_lower(part[i as int]) as int != word@[i as int] as int);
            return false;
        }
        i += 1;
    }
    true
}

/// Whether `bytes` hold the word "chunked", in letters of either case.
pub open spec fn contains_chunked(bytes: Seq<u8>) -> bool {
    exists|at: int| #[trigger] chunked_at(bytes, at)
}

/// Whether `bytes` hold the word "chunked" at `at`.
pub open spec fn chunked_at(bytes: Seq<u8>, at: int) -> bool {
    0 <= at && at + 7 <= bytes.len() && spells(bytes.subrange(at, at + 7), "chunked"@)
}

/// Whether `bytes` hold the word "chunked", in letters of either case.
pub fn bytes_contains_chunked(bytes: &[u8]) -> (found: bool)
    ensures
        found == contains_chunked(bytes@),
{
    proof {
        reveal_strlit("chunked");
    }
    let mut i: usize = 0;
    while bytes.len() - i >= 7
        invariant
            i <= bytes@.len(),
            is_ascii("chunked"),
            forall|j: int| 0 <= j < i ==> !#[trigger] chunked_at(bytes@, j),
        decreases bytes@.len() - i,
    {
        if spells_word(bytes, i, i + 7, "chunked") {
            assert(chunked_at(bytes@, i as int));
            return true;
        }
        i += 1;
    }
    false
}

/// `bytes` without the blanks at their beginning.
pub open spec fn skip_blanks(bytes: Seq<u8>) -> Seq<u8>
    decreases bytes.len(),
{
    if bytes.len() > 0 && is_blank(bytes[0]) {
        skip_blanks(bytes.skip(1))
    } else {
        bytes
    }
}

/// `bytes` without the blanks and line ends at their end.
pub open spec fn drop_line_space(bytes: Seq<u8>) -> Seq<u8>
    decreases bytes.len(),
{
    if bytes.len() > 0 && is_line_space(bytes.last()) {
        drop_line_space(bytes.drop_last())
    } else {
        bytes
    }
}

/// Whether `bytes` are the word "close", in letters of either case, with blanks around
/// it and line ends behind it.
pub open spec fn means_close(bytes: Seq<u8>) -> bool {
    spells(drop_line_space(skip_blanks(bytes)), "close"@)
}

/// Whether `bytes` are the word "close".
pub fn bytes_eq_close(bytes: &[u8]) -> (close: bool)
    ensures
        close == means_close(bytes@),
{
    let mut start: usize = 0;
    assert(bytes@.skip(0) =~= bytes@);
    while start < bytes.len() && (bytes[start] == SPACE || bytes[start] == TAB)
        invariant
            start <= bytes@.len(),
            skip_blanks(bytes@) == skip_blanks(bytes@.skip(start as int)),
        decreases bytes@.len() - start,
    {
        assert(bytes@.skip(start as int).skip(1) =~= bytes@.skip(start + 1));
        start += 1;
    }
    let ghost word = bytes@.skip(start as int);
    assert(word == skip_blanks(bytes@));
    let mut end: usize = bytes.len();
    assert(bytes@.subrange(start as int, end as int) =~= word);
    while end > start && (bytes[end - 1] == SPACE || bytes[end - 1] == TAB || bytes[end - 1] == CR
        || bytes[end - 1] == LF)
        invariant
            start <= end <= bytes@.len(),
            drop_line_space(word) == drop_line_space(bytes@.subrange(start as int, end as int)),
        decreases end,
    {
        assert(bytes@.subrange(start as int, end as int).drop_last() =~= bytes@.subrange(
            start as int,
            end - 1,
        ));
        end -= 1;
    }
    proof {
        reveal_strlit("close");
    }
    spells_word(bytes, start, end, "close")
}

/// The value of the last header that is called `name`.
pub open spec fn last_value(headers: Seq<HeaderView>, name: Seq<char>) -> Option<Seq<u8>>
    decreases headers.len(),
{
    if headers.len() == 0 {
        None
    } else if spells(headers.last().name, name) {
        Some(headers.last().value)
    } else {
        last_value(headers.drop_last(), name)
    }
}

/// The length of the body that the headers announce.
pub open spec fn announced_length(headers: Seq<HeaderView>) -> Option<nat> {
    match last_value(headers, "content-length"@) {
        Some(value) => leading_number(value),
        None => None,
    }
}

/// Whether the headers announce the chunked coding.
pub open spec fn announced_chunked(headers: Seq<HeaderView>) -> bool {
    last_value(headers, "transfer-encoding"@) matches Some(value) && contains_chunked(value)
}

/// Whether the headers announce that the connection will be closed.
pub open spec fn announced_close(headers: Seq<HeaderView>) -> bool {
    last_value(headers, "connection"@) matches Some(value) && means_close(value)
}

/// What the headers say: of two headers with one name the later counts, and a length
/// counts more than the chunked coding.
pub open spec fn classified(headers: Seq<HeaderView>) -> HeaderInfo {
    HeaderInfo {
        body_info: match announced_length(headers) {
            Some(length) => BodyInfo::ContentLength(length as usize),
            None => if announced_chunked(headers) {
                BodyInfo::Chunked
            } else {
                BodyInfo::UntilClose
            },
        },
        connection_close: announced_close(headers),
    }
}

/// Whether the machine can hold every length that a header announces.
pub open spec fn lengths_fit(headers: Seq<HeaderView>) -> bool {
    forall|i: int|
        #![trigger headers[i]]
        0 <= i < headers.len() && spells(headers[i].name, "content-length"@)
            ==> leading_number_fits(headers[i].value)
}

/// Whether `header` is called `name`.
fn is_called(header: &Header, name: &str) -> (called: bool)
    requires
        is_ascii(name),
    ensures
        called == spells(header@.name, name@),
{
    let len: usize = header.name.len();
    assert(header.name@.subrange(0, len as int) =~= header.name@);
    spells_word(header.name, 0, len, name)
}

/// The names of the headers that matter are ASCII and of different lengths.
proof fn lemma_names()
    ensures
        is_ascii("content-length"),
        is_ascii("transfer-encoding"),
        is_ascii("connection"),
        "content-length"@.len() == 14,
        "transfer-encoding"@.len() == 17,
        "connection"@.len() == 10,
{
    reveal_strlit("content-length");
    reveal_strlit("transfer-encoding");
    reveal_strlit("connection");
}

/// Whether the machine can hold every length that a header announces.
pub fn content_lengths_fit(headers: &[Header]) -> (fit: bool)
    ensures
        fit == lengths_fit(header_views(headers@)),
{
    proof {
        lemma_names();
    }
    let ghost views = header_views(headers@);
    let mut i: usize = 0;
    while i < headers.len()
        invariant
            i <= headers@.len(),
            is_ascii("content-length"),
            views == header_views(headers@),
            forall|j: int|
                #![trigger views[j]]
                0 <= j < i && spells(views[j].name, "content-length"@) ==> leading_number_fits(
                    views[j].value,
                ),
        decreases headers@.len() - i,
    {
        assert(views[i as int] == headers@[i as int]@);
        if is_called(&headers[i], "content-length") && checked_leading_number(
            headers[i].value,
        ).is_err() {
            return false;
        }
        i += 1;
    }
    true
}

/// What the headers of a response say.
pub fn classify_headers(headers: &[Header]) -> (info: HeaderInfo)
    requires
        lengths_fit(header_views(headers@)),
    ensures
        info == classified(header_views(headers@)),
{
    proof {
        lemma_names();
    }
    let ghost views = header_views(headers@);
    let mut content_length: Option<usize> = None;
    let mut chunked: bool = false;
    let mut connection_close: bool = false;
    let mut i: usize = 0;
    while i < headers.len()
        invariant
            i <= headers@.len(),
            is_ascii("content-length"),
            is_ascii("transfer-encoding"),
            is_ascii("connection"),
            "content-length"@.len() == 14,
            "transfer-encoding"@.len() == 17,
            "connection"@.len() == 10,
            views == header_views(headers@),
            lengths_fit(views),
            match content_length {
                Some(n) => announced_length(views.take(i as int)) == Some(n as nat),
                None => announced_length(views.take(i as int)) is None,
            },
            chunked == announced_chunked(views.take(i as int)),
            connection_close == announced_close(views.take(i as int)),
        decreases headers@.len() - i,
    {
        let h = headers[i];
        proof {
            assert(views[i as int] == h@);
            assert(views.take(i + 1).last() == h@);
            assert(views.take(i + 1).drop_last() =~= views.take(i as int));
        }
        if is_called(&h, "content-length") {
            content_length = parse_usize(h.value);
        } else if is_called(&h, "transfer-encoding") {
            chunked = bytes_contains_chunked(h.value);
        } else if is_called(&h, "connection") {
            connection_close = bytes_eq_close(h.value);
        }
        i += 1;
    }
    assert(views.take(i as int) =~= views);
    let body_info = if let Some(length) = content_length {
        BodyInfo::ContentLength(length)
    } else if chunked {
        BodyInfo::Chunked
    } else {
        BodyInfo::UntilClose
    };
    HeaderInfo { body_info, connection_close }
}

} // verus!
