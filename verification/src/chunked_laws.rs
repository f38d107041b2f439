//! What holds of the scanner for chunked bodies, whatever arrives and in whatever
//! pieces.

use crate::chunked::{
    before_semicolon, chunk_size, lemma_starts_with_crlf, lemma_step_moves, scan, scan_rank,
    scan_step, ChunkState, ScanResult,
};
use crate::seek::{
    crlf, first_occurrence, first_occurs_at, lemma_first_found, lemma_first_in_longer,
    lemma_first_occurrence, lemma_has_first, occurs_at,
};
use crate::text::{digit_value, digits_value, is_white_space, lemma_unsigned_bound, trim};
use crate::text_laws::{
    law_number_is_read, law_number_was_written, law_trim_takes_white_space,
    law_trimmed_was_white_space, numeral, sign, writes_digit, writes_digits,
};
use vstd::prelude::*;
use vstd::utf8::*;

verus! {

/// `result` with its position counted from `by` further on.
pub open spec fn moved_back(result: ScanResult, by: int) -> ScanResult {
    match result {
        ScanResult::More { state, offset } => ScanResult::More { state, offset: offset - by },
        ScanResult::Complete { offset } => ScanResult::Complete { offset: offset - by },
        ScanResult::Malformed => ScanResult::Malformed,
    }
}

/// What stands before the position of the scanner does not matter: dropping bytes that
/// were scanned moves the positions that are found and changes nothing else.
pub proof fn law_scanned_bytes_may_go(data: Seq<u8>, by: int, offset: int, state: ChunkState)
    requires
        0 <= by <= offset <= data.len(),
    ensures
        scan(data.skip(by), offset - by, state) == moved_back(scan(data, offset, state), by),
    decreases data.len() - offset, scan_rank(state),
{
    let rest = data.skip(by);
    assert(rest.skip(offset - by) =~= data.skip(offset));
    lemma_step_moves(data, offset, state);
    if let Some(pos) = first_occurrence(data.skip(offset), crlf()) {
        lemma_first_found(data.skip(offset), crlf());
        assert(rest.subrange(offset - by, offset - by + pos) =~= data.subrange(
            offset,
            offset + pos,
        ));
    }
    if let Some((next, at)) = scan_step(data, offset, state) {
        assert(scan_step(rest, offset - by, state) == Some((next, at - by)));
        law_scanned_bytes_may_go(data, by, at, next);
    }
}

/// Once the scanner has found the end of a body, or that there is none, nothing that
/// arrives later changes that; and where it asked for more, it goes on from where it
/// stopped to what it would have found had everything been there at once.
pub proof fn law_scan_resumes(data: Seq<u8>, more: Seq<u8>, offset: int, state: ChunkState)
    requires
        0 <= offset <= data.len(),
    ensures
        scan(data + more, offset, state) == match scan(data, offset, state) {
            ScanResult::More { state: next, offset: at } => scan(data + more, at, next),
            found => found,
        },
        scan(data, offset, state) matches ScanResult::More { offset: at, .. } ==> offset <= at
            <= data.len(),
    decreases data.len() - offset, scan_rank(state),
{
    let all = data + more;
    let rest = data.skip(offset);
    assert(all.skip(offset) =~= rest + more);
    lemma_step_moves(data, offset, state);
    lemma_step_moves(all, offset, state);
    lemma_starts_with_crlf(rest);
    lemma_starts_with_crlf(rest + more);
    if let Some(pos) = first_occurrence(rest, crlf()) {
        lemma_first_found(rest, crlf());
        lemma_first_in_longer(rest, more, crlf());
        assert(all.subrange(offset, offset + pos) =~= data.subrange(offset, offset + pos));
    }
    if let Some((next, at)) = scan_step(data, offset, state) {
        assert(scan_step(all, offset, state) == Some((next, at)));
        law_scan_resumes(data, more, at, next);
    } else if let ChunkState::Data { remaining } = state {
        let left = ChunkState::Data { remaining: (remaining - rest.len()) as usize };
        assert(scan_step(all, offset, state) == scan_step(all, data.len() as int, left));
    }
}

/// Bytes that arrive in two pieces are judged like the same bytes in one piece, also
/// where what was scanned is dropped in between.
pub proof fn law_pieces_like_one(first: Seq<u8>, second: Seq<u8>, offset: int, state: ChunkState)
    requires
        0 <= offset <= first.len(),
    ensures
        scan(first, offset, state) matches ScanResult::More { state: next, offset: at } ==> scan(
            first.skip(at) + second,
            0,
            next,
        ) == moved_back(scan(first + second, offset, state), at),
{
    law_scan_resumes(first, second, offset, state);
    if let ScanResult::More { state: next, offset: at } = scan(first, offset, state) {
        law_scanned_bytes_may_go(first + second, at, at, next);
        assert((first + second).skip(at) =~= first.skip(at) + second);
    }
}

/// A chunk as it is sent: its size line and its bytes.
pub struct Chunk {
    pub line: Seq<u8>,
    pub data: Seq<u8>,
}

/// Whether `line` can stand before a line end and be read as one line.
pub open spec fn is_line(line: Seq<u8>) -> bool {
    first_occurrence(line + crlf(), crlf()) == Some(line.len() as int)
}

/// A chunk holds at least one byte, and its line gives the number of its bytes.
pub open spec fn valid_chunk(chunk: Chunk) -> bool {
    &&& is_line(chunk.line)
    &&& chunk.data.len() > 0
    &&& chunk_size(chunk.line) == Some(chunk.data.len() as int)
}

/// The chunks as they are sent.
pub open spec fn encoded_chunks(chunks: Seq<Chunk>) -> Seq<u8>
    decreases chunks.len(),
{
    if chunks.len() == 0 {
        Seq::empty()
    } else {
        chunks[0].line + crlf() + chunks[0].data + crlf() + encoded_chunks(chunks.skip(1))
    }
}

/// The trailer lines as they are sent.
pub open spec fn encoded_lines(lines: Seq<Seq<u8>>) -> Seq<u8>
    decreases lines.len(),
{
    if lines.len() == 0 {
        Seq::empty()
    } else {
        lines[0] + crlf() + encoded_lines(lines.skip(1))
    }
}

/// Whether these make up a chunked body: chunks, a line that gives the size zero, and
/// trailer lines that are not empty.
pub open spec fn valid_body(chunks: Seq<Chunk>, last: Seq<u8>, trailers: Seq<Seq<u8>>) -> bool {
    &&& forall|i: int| 0 <= i < chunks.len() ==> valid_chunk(#[trigger] chunks[i])
    &&& is_line(last)
    &&& chunk_size(last) == Some(0int)
    &&& forall|i: int|
        0 <= i < trailers.len() ==> is_line(#[trigger] trailers[i]) && trailers[i].len() > 0
}

/// A chunked body as it is sent.
pub open spec fn encoded_body(chunks: Seq<Chunk>, last: Seq<u8>, trailers: Seq<Seq<u8>>) -> Seq<
    u8,
> {
    encoded_chunks(chunks) + last + crlf() + encoded_lines(trailers) + crlf()
}

/// A line is found as far as its end, whatever follows.
proof fn lemma_line_found(line: Seq<u8>, rest: Seq<u8>)
    requires
        is_line(line),
    ensures
        first_occurrence(line + crlf() + rest, crlf()) == Some(line.len() as int),
{
    lemma_first_in_longer(line + crlf(), rest, crlf());
}

/// What stands before a line end, up to the first one, is a line.
proof fn lemma_found_is_line(data: Seq<u8>)
    requires
        first_occurrence(data, crlf()) is Some,
    ensures
        ({
            let pos = first_occurrence(data, crlf())->0;
            &&& 0 <= pos <= data.len() - 2
            &&& is_line(data.take(pos))
            &&& data =~= data.take(pos) + crlf() + data.skip(pos + 2)
        }),
{
    let pos = first_occurrence(data, crlf())->0;
    lemma_first_found(data, crlf());
    assert(data.subrange(pos, pos + 2) == crlf());
    assert(data =~= data.take(pos) + data.subrange(pos, pos + 2) + data.skip(pos + 2));
    let short = data.take(pos) + crlf();
    assert(short =~= data.take(pos + 2)) by {
        assert(data.take(pos + 2) =~= data.take(pos) + data.subrange(pos, pos + 2));
    }
    assert(occurs_at(short, crlf(), pos)) by {
        assert(short.subrange(pos, pos + 2) =~= data.subrange(pos, pos + 2));
    }
    assert forall|i: int| 0 <= i < pos implies !occurs_at(short, crlf(), i) by {
        assert(short.subrange(i, i + 2) =~= data.subrange(i, i + 2));
        assert(!occurs_at(data, crlf(), i));
    }
    assert(first_occurs_at(short, crlf(), pos));
    lemma_first_occurrence(short, crlf(), pos);
}

/// Trailer lines and an empty line are scanned to their end.
proof fn lemma_trailers_found(trailers: Seq<Seq<u8>>, rest: Seq<u8>)
    requires
        forall|i: int|
            0 <= i < trailers.len() ==> is_line(#[trigger] trailers[i]) && trailers[i].len() > 0,
    ensures
        scan(encoded_lines(trailers) + crlf() + rest, 0, ChunkState::Trailer)
            == (ScanResult::Complete { offset: (encoded_lines(trailers).len() + 2) as int }),
    decreases trailers.len(),
{
    let data = encoded_lines(trailers) + crlf() + rest;
    assert(data.skip(0) =~= data);
    if trailers.len() == 0 {
        lemma_starts_with_crlf(data);
    } else {
        let line = trailers[0];
        let tail = encoded_lines(trailers.skip(1)) + crlf() + rest;
        assert(is_line(line));
        assert(data =~= line + crlf() + tail);
        lemma_line_found(line, tail);
        assert forall|i: int| 0 <= i < trailers.skip(1).len() implies is_line(
            #[trigger] trailers.skip(1)[i],
        ) && trailers.skip(1)[i].len() > 0 by {
            assert(trailers.skip(1)[i] == trailers[i + 1]);
        }
        lemma_trailers_found(trailers.skip(1), rest);
        let at = (line.len() + 2) as int;
        assert(data.skip(at) =~= tail);
        law_scanned_bytes_may_go(data, at, at, ChunkState::Trailer);
        assert(scan(data, 0, ChunkState::Trailer) == scan(data, at, ChunkState::Trailer));
    }
}

/// A chunk as it is sent, and what follows it.
spec fn chunk_then(chunk: Chunk, next: Seq<u8>) -> Seq<u8> {
    chunk.line + crlf() + (chunk.data + (crlf() + next))
}

/// The place behind a chunk.
spec fn chunk_end(chunk: Chunk) -> int {
    (chunk.line.len() + 2 + chunk.data.len() + 2) as int
}

/// The scanner passes over a chunk to what follows it.
proof fn lemma_chunk_passed(chunk: Chunk, next: Seq<u8>)
    requires
        valid_chunk(chunk),
    ensures
        moved_back(scan(chunk_then(chunk, next), 0, ChunkState::Size), chunk_end(chunk)) == scan(
            next,
            0,
            ChunkState::Size,
        ),
{
    let data = chunk_then(chunk, next);
    let bytes = (chunk.line.len() + 2) as int;
    let ended = bytes + chunk.data.len();
    let at = ended + 2;
    let state = ChunkState::Data { remaining: chunk.data.len() as usize };
    assert(scan_step(data, 0, ChunkState::Size) == Some((state, bytes))) by {
        assert(data.skip(0) =~= data);
        lemma_line_found(chunk.line, chunk.data + (crlf() + next));
        assert(data.subrange(0, chunk.line.len() as int) =~= chunk.line);
        lemma_chunk_size_bound(chunk.line);
    }
    lemma_chunk_size_bound(chunk.line);
    assert(scan_step(data, bytes, state) == Some((ChunkState::DataCRLF, ended)));
    assert(scan_step(data, ended, ChunkState::DataCRLF) == Some((ChunkState::Size, at))) by {
        assert(data.skip(ended) =~= crlf() + next);
        lemma_starts_with_crlf(crlf() + next);
    }
    assert(scan(data, 0, ChunkState::Size) == scan(data, bytes, state));
    assert(scan(data, bytes, state) == scan(data, ended, ChunkState::DataCRLF));
    assert(scan(data, ended, ChunkState::DataCRLF) == scan(data, at, ChunkState::Size));
    assert(data.skip(at) =~= next);
    law_scanned_bytes_may_go(data, at, at, ChunkState::Size);
}

/// A body with a chunk is that chunk and the body of the others.
proof fn lemma_body_unfolds(
    chunks: Seq<Chunk>,
    last: Seq<u8>,
    trailers: Seq<Seq<u8>>,
    rest: Seq<u8>,
)
    requires
        chunks.len() > 0,
    ensures
        encoded_body(chunks, last, trailers) + rest == chunk_then(
            chunks[0],
            encoded_body(chunks.skip(1), last, trailers) + rest,
        ),
{
    let others = encoded_chunks(chunks.skip(1));
    let head = chunks[0].line + crlf() + chunks[0].data + crlf();
    assert(encoded_chunks(chunks) == head + others);
    assert(encoded_body(chunks, last, trailers) =~= head + encoded_body(
        chunks.skip(1),
        last,
        trailers,
    ));
    let next = encoded_body(chunks.skip(1), last, trailers) + rest;
    assert(encoded_body(chunks, last, trailers) + rest =~= head + next);
    assert(head + next =~= chunk_then(chunks[0], next));
}

/// A last size line and the trailers are scanned to their end.
proof fn lemma_last_found(last: Seq<u8>, trailers: Seq<Seq<u8>>, rest: Seq<u8>)
    requires
        valid_body(Seq::empty(), last, trailers),
    ensures
        scan(encoded_body(Seq::empty(), last, trailers) + rest, 0, ChunkState::Size) == (
        ScanResult::Complete {
            offset: encoded_body(Seq::empty(), last, trailers).len() as int,
        }),
{
    let none = Seq::<Chunk>::empty();
    assert(encoded_chunks(none) =~= Seq::<u8>::empty());
    let data = encoded_body(none, last, trailers) + rest;
    let tail = encoded_lines(trailers) + crlf() + rest;
    let at = (last.len() + 2) as int;
    assert(data =~= last + crlf() + tail);
    assert(scan_step(data, 0, ChunkState::Size) == Some((ChunkState::Trailer, at))) by {
        assert(data.skip(0) =~= data);
        lemma_line_found(last, tail);
        assert(data.subrange(0, last.len() as int) =~= last);
    }
    assert(data.skip(at) =~= tail);
    lemma_trailers_found(trailers, rest);
    law_scanned_bytes_may_go(data, at, at, ChunkState::Trailer);
}

/// The scanner finds the end of every chunked body, whatever follows it.
pub proof fn law_body_is_found(
    chunks: Seq<Chunk>,
    last: Seq<u8>,
    trailers: Seq<Seq<u8>>,
    rest: Seq<u8>,
)
    requires
        valid_body(chunks, last, trailers),
    ensures
        scan(encoded_body(chunks, last, trailers) + rest, 0, ChunkState::Size)
            == (ScanResult::Complete { offset: encoded_body(chunks, last, trailers).len() as int }),
    decreases chunks.len(),
{
    if chunks.len() == 0 {
        assert(chunks =~= Seq::empty());
        lemma_last_found(last, trailers, rest);
    } else {
        let others = chunks.skip(1);
        assert(valid_chunk(chunks[0]));
        assert forall|i: int| 0 <= i < others.len() implies valid_chunk(#[trigger] others[i]) by {
            assert(others[i] == chunks[i + 1]);
        }
        law_body_is_found(others, last, trailers, rest);
        lemma_body_unfolds(chunks, last, trailers, rest);
        lemma_chunk_passed(chunks[0], encoded_body(others, last, trailers) + rest);
    }
}

/// What the scanner takes for trailers is lines and an empty line.
proof fn lemma_trailers_split(data: Seq<u8>) -> (trailers: Seq<Seq<u8>>)
    requires
        scan(data, 0, ChunkState::Trailer) is Complete,
    ensures
        forall|i: int|
            0 <= i < trailers.len() ==> is_line(#[trigger] trailers[i]) && trailers[i].len() > 0,
        ({
            let end = scan(data, 0, ChunkState::Trailer)->Complete_offset;
            &&& 2 <= end <= data.len()
            &&& data.take(end) =~= encoded_lines(trailers) + crlf()
        }),
    decreases data.len(),
{
    assert(data.skip(0) =~= data);
    lemma_found_is_line(data);
    lemma_step_moves(data, 0, ChunkState::Trailer);
    let pos = first_occurrence(data, crlf())->0;
    if pos == 0 {
        let none = Seq::<Seq<u8>>::empty();
        assert(encoded_lines(none) =~= Seq::<u8>::empty());
        none
    } else {
        let line = data.take(pos);
        let rest = data.skip(pos + 2);
        law_scanned_bytes_may_go(data, pos + 2, pos + 2, ChunkState::Trailer);
        let others = lemma_trailers_split(rest);
        let all = seq![line] + others;
        assert(all.skip(1) =~= others);
        let end = scan(data, 0, ChunkState::Trailer)->Complete_offset;
        let short = scan(rest, 0, ChunkState::Trailer)->Complete_offset;
        assert(end == short + pos + 2);
        assert(data.take(end) =~= line + crlf() + rest.take(short));
        assert(encoded_lines(all) == line + crlf() + encoded_lines(others));
        all
    }
}

/// What the scanner takes for a body is one: a body that it finds can be taken apart
/// into chunks, a last size line and trailers.
pub proof fn law_found_is_body(data: Seq<u8>) -> (parts: (Seq<Chunk>, Seq<u8>, Seq<Seq<u8>>))
    requires
        scan(data, 0, ChunkState::Size) is Complete,
    ensures
        valid_body(parts.0, parts.1, parts.2),
        ({
            let end = scan(data, 0, ChunkState::Size)->Complete_offset;
            &&& 0 <= end <= data.len()
            &&& data.take(end) =~= encoded_body(parts.0, parts.1, parts.2)
        }),
    decreases data.len(),
{
    assert(data.skip(0) =~= data);
    lemma_found_is_line(data);
    lemma_step_moves(data, 0, ChunkState::Size);
    let pos = first_occurrence(data, crlf())->0;
    let line = data.take(pos);
    assert(data.subrange(0, pos) =~= line);
    let size = chunk_size(line)->0;
    let end = scan(data, 0, ChunkState::Size)->Complete_offset;
    let bytes = pos + 2;
    let rest = data.skip(bytes);
    if size == 0 {
        law_scanned_bytes_may_go(data, bytes, bytes, ChunkState::Trailer);
        let trailers = lemma_trailers_split(rest);
        let short = scan(rest, 0, ChunkState::Trailer)->Complete_offset;
        let none = Seq::<Chunk>::empty();
        assert(encoded_chunks(none) =~= Seq::<u8>::empty());
        assert(data.take(end) =~= line + crlf() + rest.take(short));
        (none, line, trailers)
    } else {
        let (chunk, next) = lemma_chunk_taken(data);
        lemma_chunk_passed(chunk, next);
        let (chunks, last, trailers) = law_found_is_body(next);
        let all = seq![chunk] + chunks;
        assert(all.skip(1) =~= chunks);
        let short = scan(next, 0, ChunkState::Size)->Complete_offset;
        assert(end == chunk_end(chunk) + short);
        lemma_body_unfolds(all, last, trailers, Seq::empty());
        assert(encoded_body(all, last, trailers) + Seq::empty() =~= encoded_body(
            all,
            last,
            trailers,
        ));
        assert(encoded_body(chunks, last, trailers) + Seq::empty() =~= encoded_body(
            chunks,
            last,
            trailers,
        ));
        assert(chunk_then(chunk, next).take(end) =~= chunk_then(chunk, next.take(short)));
        (all, last, trailers)
    }
}

/// A size line that does not give zero is followed by a whole chunk, where the scanner
/// comes to the end of a body.
proof fn lemma_chunk_taken(data: Seq<u8>) -> (taken: (Chunk, Seq<u8>))
    requires
        scan(data, 0, ChunkState::Size) is Complete,
        first_occurrence(data, crlf()) matches Some(pos) && chunk_size(data.take(pos)) != Some(
            0int,
        ),
    ensures
        valid_chunk(taken.0),
        data == chunk_then(taken.0, taken.1),
        scan(taken.1, 0, ChunkState::Size) is Complete,
{
    assert(data.skip(0) =~= data);
    lemma_found_is_line(data);
    let pos = first_occurrence(data, crlf())->0;
    let line = data.take(pos);
    assert(data.subrange(0, pos) =~= line);
    lemma_chunk_size_bound(line);
    let size = chunk_size(line)->0;
    let state = ChunkState::Data { remaining: size as usize };
    let bytes = pos + 2;
    let ended = bytes + size;
    let at = ended + 2;
    assert(scan_step(data, 0, ChunkState::Size) == Some((state, bytes)));
    assert(scan(data, bytes, state) is Complete);
    assert(scan_step(data, bytes, state) == Some((ChunkState::DataCRLF, ended)));
    assert(scan(data, ended, ChunkState::DataCRLF) is Complete);
    assert(scan_step(data, ended, ChunkState::DataCRLF) == Some((ChunkState::Size, at)));
    assert(scan(data, at, ChunkState::Size) is Complete) by {
        lemma_step_moves(data, ended, ChunkState::DataCRLF);
    }
    let chunk = Chunk { line, data: data.subrange(bytes, ended) };
    let next = data.skip(at);
    assert(data.skip(ended) =~= crlf() + next) by {
        lemma_starts_with_crlf(data.skip(ended));
    }
    assert(data.skip(bytes) =~= chunk.data + data.skip(ended));
    law_scanned_bytes_may_go(data, at, at, ChunkState::Size);
    (chunk, next)
}

/// A size that a line gives fits the machine.
proof fn lemma_chunk_size_bound(line: Seq<u8>)
    ensures
        chunk_size(line) matches Some(size) ==> 0 <= size <= usize::MAX,
{
    reveal(chunk_size);
    if let Some(size) = chunk_size(line) {
        let text = trim(before_semicolon(decode_utf8(line)));
        lemma_unsigned_bound(text, 16, usize::MAX as int);
    }
}

/// The hexadecimal digit of a number below sixteen.
pub open spec fn hex_digit(digit: int) -> char {
    if digit < 10 {
        ('0' as int + digit) as char
    } else {
        ('a' as int + digit - 10) as char
    }
}

/// `n` in hexadecimal, without leading zeros.
pub open spec fn hexadecimal(n: nat) -> Seq<char>
    decreases n,
{
    if n < 16 {
        seq![hex_digit(n as int)]
    } else {
        hexadecimal(n / 16).push(hex_digit((n % 16) as int))
    }
}

/// The hexadecimal form of a number holds its digits and nothing else.
proof fn lemma_hexadecimal_digits(n: nat)
    ensures
        hexadecimal(n).len() > 0,
        digits_value(hexadecimal(n), 16) == Some(n as int),
        forall|i: int|
            0 <= i < hexadecimal(n).len() ==> digit_value(#[trigger] hexadecimal(n)[i], 16) is Some,
    decreases n,
{
    let text = hexadecimal(n);
    if n < 16 {
        assert(text.drop_last() =~= Seq::<char>::empty());
        assert(digits_value(text.drop_last(), 16) == Some(0int));
        assert(digit_value(text.last(), 16) == Some(n as int));
    } else {
        lemma_hexadecimal_digits(n / 16);
        assert(text.drop_last() =~= hexadecimal(n / 16));
        assert(digit_value(text.last(), 16) == Some((n % 16) as int));
    }
}

/// A size that the machine can hold, written in hexadecimal, is read as that size, with
/// a chunk extension behind it or without.
pub proof fn law_size_line_reads_back(n: nat, extension: Seq<char>)
    requires
        n <= usize::MAX,
        extension.len() > 0 ==> extension[0] == ';',
    ensures
        chunk_size(encode_utf8(hexadecimal(n) + extension)) == Some(n as int),
{
    reveal(chunk_size);
    let size = hexadecimal(n);
    let text = size + extension;
    encode_utf8_valid_utf8(text);
    encode_utf8_decode_utf8(text);
    lemma_hexadecimal_digits(n);
    assert(before_semicolon(text) =~= size) by {
        lemma_first_found(text, seq![';']);
        assert forall|i: int| 0 <= i < size.len() implies !occurs_at(text, seq![';'], i) by {
            assert(digit_value(size[i], 16) is Some);
            assert(text.subrange(i, i + 1)[0] == size[i]);
        }
        if extension.len() > 0 {
            let at = size.len() as int;
            assert(text.subrange(at, at + 1) =~= seq![';']);
            assert(first_occurs_at(text, seq![';'], at));
            lemma_first_occurrence(text, seq![';'], at);
        }
    }
    assert(digit_value(size[0], 16) is Some);
    assert(digit_value(size.last(), 16) is Some);
}

/// A line end is the bytes thirteen and ten, and a line holds none.
pub proof fn law_what_a_line_is(line: Seq<u8>)
    ensures
        crlf() == seq![13u8, 10u8],
        is_line(line) <==> forall|i: int|
            0 <= i < line.len() - 1 ==> !(#[trigger] line[i] == 13 && line[i + 1] == 10),
{
    let all = line + crlf();
    let len = line.len() as int;
    if is_line(line) {
        lemma_first_found(all, crlf());
        assert forall|i: int| 0 <= i < len - 1 implies !(#[trigger] line[i] == 13 && line[i + 1]
            == 10) by {
            if line[i] == 13 && line[i + 1] == 10 {
                assert(all.subrange(i, i + 2) =~= crlf());
                assert(occurs_at(all, crlf(), i));
            }
        }
    }
    if forall|i: int|
        0 <= i < line.len() - 1 ==> !(#[trigger] line[i] == 13 && line[i + 1] == 10) {
        assert(all.subrange(len, len + 2) =~= crlf());
        assert forall|i: int| 0 <= i < len implies !occurs_at(all, crlf(), i) by {
            if occurs_at(all, crlf(), i) {
                assert(all.subrange(i, i + 2)[0] == all[i] && all.subrange(i, i + 2)[1] == all[i
                    + 1]);
                assert(line[i] == 13);
            }
        }
        assert(first_occurs_at(all, crlf(), len));
        lemma_first_occurrence(all, crlf(), len);
    }
}

/// Whether `c` is neither white space nor a semicolon.
spec fn is_dark(c: char) -> bool {
    !is_white_space(c) && c != ';'
}

/// A size in hexadecimal digits of either case, with any zeros or a plus sign in front,
/// with white space around it and with a chunk extension behind it or without, is read as
/// what its digits make up, and is refused where the machine cannot hold that.
pub proof fn law_size_line_is_read(
    before: Seq<char>,
    plus: bool,
    size: Seq<char>,
    digits: Seq<int>,
    behind: Seq<char>,
    extension: Seq<char>,
)
    requires
        forall|i: int| 0 <= i < before.len() ==> is_white_space(#[trigger] before[i]),
        forall|i: int| 0 <= i < behind.len() ==> is_white_space(#[trigger] behind[i]),
        size.len() > 0,
        writes_digits(size, digits, 16),
        extension.len() > 0 ==> extension[0] == ';',
    ensures
        chunk_size(encode_utf8(before + (sign(plus) + size) + behind + extension)) == if numeral(
            digits,
            16,
        ) <= usize::MAX {
            Some(numeral(digits, 16))
        } else {
            None
        },
{
    reveal(chunk_size);
    let core = sign(plus) + size;
    let front = before + core + behind;
    let text = front + extension;
    encode_utf8_valid_utf8(text);
    encode_utf8_decode_utf8(text);
    assert forall|i: int| 0 <= i < core.len() implies is_dark(#[trigger] core[i]) by {
        if i >= sign(plus).len() {
            let j = i - sign(plus).len();
            assert(core[i] == size[j]);
            assert(writes_digit(size[j], digits[j]));
        }
    }
    assert(is_dark(core[0]) && is_dark(core.last()));
    assert forall|i: int| 0 <= i < front.len() implies front[i] != ';' by {
        if i < before.len() {
            assert(front[i] == before[i]);
        } else if i < before.len() + core.len() {
            assert(front[i] == core[i - before.len()]);
        } else {
            assert(front[i] == behind[i - before.len() - core.len()]);
        }
    }
    lemma_before_semicolon(front, extension);
    law_trim_takes_white_space(before, core, behind);
    law_number_is_read(size, digits, plus, 16, usize::MAX as int);
}

/// What stands before the first semicolon is found.
proof fn lemma_before_semicolon(front: Seq<char>, extension: Seq<char>)
    requires
        forall|i: int| 0 <= i < front.len() ==> #[trigger] front[i] != ';',
        extension.len() > 0 ==> extension[0] == ';',
    ensures
        before_semicolon(front + extension) == front,
{
    let text = front + extension;
    lemma_first_found(text, seq![';']);
    assert forall|i: int| 0 <= i < front.len() implies !occurs_at(text, seq![';'], i) by {
        assert(front[i] != ';');
        assert(text.subrange(i, i + 1)[0] == front[i]);
    }
    if extension.len() > 0 {
        let at = front.len() as int;
        assert(text.subrange(at, at + 1) =~= seq![';']);
        assert(first_occurs_at(text, seq![';'], at));
        lemma_first_occurrence(text, seq![';'], at);
        assert(text.take(at) =~= front);
    } else {
        assert(text =~= front);
        if let Some(at) = first_occurrence(text, seq![';']) {
            assert(text.subrange(at, at + 1)[0] == front[at]);
        }
    }
}

/// The parts of a size line.
pub struct SizeLine {
    pub before: Seq<char>,
    pub plus: bool,
    pub size: Seq<char>,
    pub digits: Seq<int>,
    pub behind: Seq<char>,
    pub extension: Seq<char>,
}

/// Nothing else is read as a size: where one is read, the line is text with hexadecimal
/// digits and at most a plus sign, white space and an extension around them, and the
/// digits make up the size.
pub proof fn law_size_was_written(line: Seq<u8>) -> (parts: SizeLine)
    requires
        chunk_size(line) is Some,
    ensures
        valid_utf8(line),
        decode_utf8(line) == parts.before + (sign(parts.plus) + parts.size) + parts.behind
            + parts.extension,
        forall|i: int| 0 <= i < parts.before.len() ==> is_white_space(#[trigger] parts.before[i]),
        forall|i: int| 0 <= i < parts.behind.len() ==> is_white_space(#[trigger] parts.behind[i]),
        parts.size.len() > 0,
        writes_digits(parts.size, parts.digits, 16),
        parts.extension.len() > 0 ==> parts.extension[0] == ';',
        chunk_size(line) == Some(numeral(parts.digits, 16)),
        0 <= numeral(parts.digits, 16) <= usize::MAX,
{
    reveal(chunk_size);
    let text = decode_utf8(line);
    let front = before_semicolon(text);
    lemma_first_found(text, seq![';']);
    let extension = match first_occurrence(text, seq![';']) {
        Some(at) => text.skip(at),
        None => Seq::empty(),
    };
    if let Some(at) = first_occurrence(text, seq![';']) {
        assert(text.subrange(at, at + 1)[0] == text[at]);
    }
    assert(text =~= front + extension);
    let core = trim(front);
    let (before, behind) = law_trimmed_was_white_space(front);
    let (plus, digits) = law_number_was_written(core, 16, usize::MAX as int);
    let size = core.skip(sign(plus).len() as int);
    assert(core =~= sign(plus) + size);
    SizeLine { before, plus, size, digits, behind, extension }
}

/// What breaks a body off: a line that gives no size, or a chunk that is not followed by a
/// line end.
pub struct Breach {
    pub line: Seq<u8>,
    pub data: Seq<u8>,
    pub tail: Seq<u8>,
}

/// Whether a body cannot go on like this.
pub open spec fn breaks_off(breach: Breach) -> bool {
    &&& is_line(breach.line)
    &&& {
        ||| chunk_size(breach.line) is None
        ||| {
            &&& breach.data.len() > 0
            &&& chunk_size(breach.line) == Some(breach.data.len() as int)
            &&& breach.tail.len() >= 2
            &&& !(breach.tail[0] == 13 && breach.tail[1] == 10)
        }
    }
}

/// A breach as it is sent.
pub open spec fn encoded_breach(breach: Breach) -> Seq<u8> {
    breach.line + crlf() + (breach.data + breach.tail)
}

/// Chunks and then something that no body goes on with are refused.
pub proof fn law_breach_is_refused(chunks: Seq<Chunk>, breach: Breach)
    requires
        forall|i: int| 0 <= i < chunks.len() ==> valid_chunk(#[trigger] chunks[i]),
        breaks_off(breach),
    ensures
        scan(encoded_chunks(chunks) + encoded_breach(breach), 0, ChunkState::Size)
            == ScanResult::Malformed,
    decreases chunks.len(),
{
    let bad = encoded_breach(breach);
    if chunks.len() == 0 {
        let data = encoded_chunks(chunks) + bad;
        assert(data =~= bad);
        assert(data.skip(0) =~= data);
        lemma_line_found(breach.line, breach.data + breach.tail);
        assert(data.subrange(0, breach.line.len() as int) =~= breach.line);
        if let Some(size) = chunk_size(breach.line) {
            lemma_chunk_size_bound(breach.line);
            let bytes = (breach.line.len() + 2) as int;
            let ended = bytes + size;
            let state = ChunkState::Data { remaining: size as usize };
            assert(scan_step(data, 0, ChunkState::Size) == Some((state, bytes)));
            assert(scan_step(data, bytes, state) == Some((ChunkState::DataCRLF, ended)));
            assert(data.skip(ended) =~= breach.tail);
            lemma_starts_with_crlf(breach.tail);
            assert(scan_step(data, ended, ChunkState::DataCRLF) is None);
            assert(scan(data, ended, ChunkState::DataCRLF) == ScanResult::Malformed);
            assert(scan(data, bytes, state) == scan(data, ended, ChunkState::DataCRLF));
        }
    } else {
        let others = chunks.skip(1);
        assert(valid_chunk(chunks[0]));
        assert forall|i: int| 0 <= i < others.len() implies valid_chunk(#[trigger] others[i]) by {
            assert(others[i] == chunks[i + 1]);
        }
        law_breach_is_refused(others, breach);
        let next = encoded_chunks(others) + bad;
        lemma_chunk_passed(chunks[0], next);
        assert(encoded_chunks(chunks) + bad =~= chunk_then(chunks[0], next));
    }
}

/// Trailers are never refused.
proof fn lemma_trailers_not_refused(data: Seq<u8>, offset: int)
    requires
        0 <= offset <= data.len(),
    ensures
        scan(data, offset, ChunkState::Trailer) != ScanResult::Malformed,
    decreases data.len() - offset,
{
    lemma_step_moves(data, offset, ChunkState::Trailer);
    if let Some((next, at)) = scan_step(data, offset, ChunkState::Trailer) {
        lemma_trailers_not_refused(data, at);
    }
}

/// Nothing else is refused: what is refused is chunks and then something that no body goes
/// on with.
#[verifier::rlimit(40)]
pub proof fn law_refused_is_breach(data: Seq<u8>) -> (parts: (Seq<Chunk>, Breach))
    requires
        scan(data, 0, ChunkState::Size) == ScanResult::Malformed,
    ensures
        forall|i: int| 0 <= i < parts.0.len() ==> valid_chunk(#[trigger] parts.0[i]),
        breaks_off(parts.1),
        data == encoded_chunks(parts.0) + encoded_breach(parts.1),
    decreases data.len(),
{
    let none = Seq::<Chunk>::empty();
    assert(encoded_chunks(none) =~= Seq::<u8>::empty());
    assert(data.skip(0) =~= data);
    lemma_found_is_line(data);
    let pos = first_occurrence(data, crlf())->0;
    let line = data.take(pos);
    let rest = data.skip(pos + 2);
    let bytes = pos + 2;
    assert(data.subrange(0, pos) =~= line);
    match chunk_size(line) {
        None => {
            let breach = Breach { line, data: Seq::empty(), tail: rest };
            assert(rest =~= Seq::<u8>::empty() + rest);
            assert(data =~= encoded_chunks(none) + encoded_breach(breach));
            (none, breach)
        },
        Some(size) => {
            lemma_chunk_size_bound(line);
            if size == 0 {
                assert(scan_step(data, 0, ChunkState::Size) == Some((ChunkState::Trailer, bytes)));
                lemma_trailers_not_refused(data, bytes);
                (none, Breach { line, data: rest, tail: rest })
            } else {
                let state = ChunkState::Data { remaining: size as usize };
                let ended = bytes + size;
                assert(scan_step(data, 0, ChunkState::Size) == Some((state, bytes)));
                assert(scan(data, bytes, state) == ScanResult::Malformed);
                assert(scan_step(data, bytes, state) == Some((ChunkState::DataCRLF, ended)));
                assert(scan(data, ended, ChunkState::DataCRLF) == ScanResult::Malformed);
                let chunk = Chunk { line, data: data.subrange(bytes, ended) };
                let tail = data.skip(ended);
                lemma_starts_with_crlf(tail);
                assert(rest =~= chunk.data + tail);
                if scan_step(data, ended, ChunkState::DataCRLF) is None {
                    let breach = Breach { line, data: chunk.data, tail };
                    assert(data =~= encoded_chunks(none) + encoded_breach(breach));
                    (none, breach)
                } else {
                    let next = data.skip(ended + 2);
                    assert(tail =~= crlf() + next);
                    assert(data =~= chunk_then(chunk, next));
                    lemma_chunk_passed(chunk, next);
                    let (chunks, breach) = law_refused_is_breach(next);
                    let all = seq![chunk] + chunks;
                    assert(all.skip(1) =~= chunks);
                    assert(encoded_chunks(all) == chunk.line + crlf() + chunk.data + crlf()
                        + encoded_chunks(chunks));
                    assert(data =~= encoded_chunks(all) + encoded_breach(breach));
                    assert forall|i: int| 0 <= i < all.len() implies valid_chunk(
                        #[trigger] all[i],
                    ) by {
                        if i > 0 {
                            assert(all[i] == chunks[i - 1]);
                        }
                    }
                    (all, breach)
                }
            }
        },
    }
}

/// Where more is asked for, the scanner has taken all that it could: it stands at the end
/// of the data with bytes of a chunk to come, before less than a line end, or before a line
/// that has not ended.
pub proof fn law_scanner_takes_all_it_can(data: Seq<u8>, offset: int, state: ChunkState)
    requires
        0 <= offset <= data.len(),
    ensures
        scan(data, offset, state) matches ScanResult::More { state: next, offset: at } ==> {
            &&& offset <= at <= data.len()
            &&& match next {
                ChunkState::Data { remaining } => at == data.len() && remaining > 0,
                ChunkState::DataCRLF => data.len() - at < 2,
                _ => forall|i: int|
                    at <= i < data.len() - 1 ==> !(#[trigger] data[i] == 13 && data[i + 1] == 10),
            }
        },
    decreases data.len() - offset, scan_rank(state),
{
    lemma_step_moves(data, offset, state);
    if let Some((next, at)) = scan_step(data, offset, state) {
        law_scanner_takes_all_it_can(data, at, next);
    } else {
        let rest = data.skip(offset);
        lemma_first_found(rest, crlf());
        if first_occurrence(rest, crlf()) is None {
            assert forall|i: int| offset <= i < data.len() - 1 implies !(#[trigger] data[i] == 13
                && data[i + 1] == 10) by {
                if data[i] == 13 && data[i + 1] == 10 {
                    assert(rest.subrange(i - offset, i - offset + 2) =~= crlf());
                    lemma_has_first(rest, crlf(), i - offset);
                }
            }
        }
    }
}

} // verus!
