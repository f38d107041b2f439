//! The chunked transfer coding of a response body.
//!
//! A body is a series of chunks, each a line that gives the size in hexadecimal, that
//! many bytes and a line end; then a line that gives the size zero, any number of
//! trailer lines, and an empty line. The scanner looks for the end of such a body in
//! what has arrived so far and, where it is not there yet, tells where to go on.

use crate::ascii::{CR, LF};
use crate::seek::{
    crlf, find_char, find_crlf, first_occurrence, first_occurs_at, lemma_first_found,
    lemma_first_occurrence,
};
use crate::text::{parse_unsigned, to_chars, trim, trim_bounds, unsigned_value, utf8_text};
use vstd::prelude::*;
use vstd::slice::slice_subrange;
use vstd::utf8::*;

verus! {

/// What the scanner expects next.
#[derive(Clone, Copy, Debug, PartialEq, Eq, Structural)]
pub enum ChunkState {
    /// A line with the size of a chunk.
    Size,
    /// The rest of the bytes of a chunk.
    Data { remaining: usize },
    /// The line end behind the bytes of a chunk.
    DataCRLF,
    /// A trailer line, or the empty line that ends the body.
    Trailer,
}

/// What the scanner found.
#[derive(Clone, Copy, Debug, PartialEq, Eq, Structural)]
pub enum ChunkScan {
    /// The body goes on behind the data: continue at `offset`.
    More { state: ChunkState, offset: usize },
    /// The body ends at `offset`.
    Complete { offset: usize },
    /// This is no chunked body.
    Malformed,
}

/// What the scanner finds, over positions of any size.
pub enum ScanResult {
    More { state: ChunkState, offset: int },
    Complete { offset: int },
    Malformed,
}

impl View for ChunkScan {
    type V = ScanResult;

    open spec fn view(&self) -> ScanResult {
        match *self {
            ChunkScan::More { state, offset } => ScanResult::More { state, offset: offset as int },
            ChunkScan::Complete { offset } => ScanResult::Complete { offset: offset as int },
            ChunkScan::Malformed => ScanResult::Malformed,
        }
    }
}

/// The size that the line `line` gives: a hexadecimal number with white space around
/// it, and perhaps a semicolon and anything else behind it.
#[verifier::opaque]
pub open spec fn chunk_size(line: Seq<u8>) -> Option<int> {
    if valid_utf8(line) {
        unsigned_value(trim(before_semicolon(decode_utf8(line))), 16, usize::MAX as int)
    } else {
        None
    }
}

/// `text` up to its first semicolon.
pub open spec fn before_semicolon(text: Seq<char>) -> Seq<char> {
    match first_occurrence(text, seq![';']) {
        Some(at) => text.take(at),
        None => text,
    }
}

/// One step of the scanner: `Some` of the state and position to continue with, or
/// `None` where the scan is over.
pub open spec fn scan_step(data: Seq<u8>, offset: int, state: ChunkState) -> Option<
    (ChunkState, int),
> {
    let line_end = first_occurrence(data.skip(offset), crlf());
    match state {
        ChunkState::Size => match line_end {
            Some(pos) => match chunk_size(data.subrange(offset, offset + pos)) {
                Some(size) => Some(
                    (
                        if size == 0 {
                            ChunkState::Trailer
                        } else {
                            ChunkState::Data { remaining: size as usize }
                        },
                        offset + pos + 2,
                    ),
                ),
                None => None,
            },
            None => None,
        },
        ChunkState::Data { remaining } => if data.len() - offset >= remaining {
            Some((ChunkState::DataCRLF, offset + remaining))
        } else {
            None
        },
        ChunkState::DataCRLF => if line_end == Some(0int) {
            Some((ChunkState::Size, offset + 2))
        } else {
            None
        },
        ChunkState::Trailer => match line_end {
            Some(pos) if pos > 0 => Some((ChunkState::Trailer, offset + pos + 2)),
            _ => None,
        },
    }
}

/// What the scanner has found where no step is left to take.
pub open spec fn scan_verdict(data: Seq<u8>, offset: int, state: ChunkState) -> ScanResult {
    let line_end = first_occurrence(data.skip(offset), crlf());
    match state {
        ChunkState::Size => match line_end {
            Some(_) => ScanResult::Malformed,
            None => ScanResult::More { state, offset },
        },
        ChunkState::Data { remaining } => ScanResult::More {
            state: ChunkState::Data { remaining: (remaining - (data.len() - offset)) as usize },
            offset: data.len() as int,
        },
        ChunkState::DataCRLF => if data.len() - offset >= 2 {
            ScanResult::Malformed
        } else {
            ScanResult::More { state, offset }
        },
        ChunkState::Trailer => match line_end {
            Some(_) => ScanResult::Complete { offset: offset + 2 },
            None => ScanResult::More { state, offset },
        },
    }
}

/// What falls in a step that moves on by no byte, over an empty rest of a chunk.
pub open spec fn scan_rank(state: ChunkState) -> int {
    if state is Data {
        1
    } else {
        0
    }
}

/// What the scanner finds in `data` from `offset` on, in the state `state`.
pub open spec fn scan(data: Seq<u8>, offset: int, state: ChunkState) -> ScanResult
    decreases data.len() - offset, scan_rank(state),
    when 0 <= offset <= data.len()
{
    match scan_step(data, offset, state) {
        Some((next, at)) => {
            proof {
                lemma_step_moves(data, offset, state);
            }
            scan(data, at, next)
        },
        None => scan_verdict(data, offset, state),
    }
}

/// A step stays within the data and moves on.
pub proof fn lemma_step_moves(data: Seq<u8>, offset: int, state: ChunkState)
    requires
        0 <= offset <= data.len(),
    ensures
        scan_step(data, offset, state) matches Some((next, at)) ==> {
            &&& offset <= at <= data.len()
            &&& at > offset || scan_rank(next) < scan_rank(state)
        },
{
    let rest = data.skip(offset);
    if let Some(pos) = first_occurrence(rest, crlf()) {
        lemma_first_found(rest, crlf());
    }
}

/// The size that the line `line` gives.
pub fn parse_chunk_size(line: &[u8]) -> (size: Option<usize>)
    ensures
        match size {
            Some(n) => chunk_size(line@) == Some(n as int),
            None => chunk_size(line@) is None,
        },
{
    reveal(chunk_size);
    let text = match utf8_text(line) {
        Some(text) => text,
        None => {
            return None;
        },
    };
    let chars = to_chars(text);
    let len: usize = chars.len();
    assert(chars@.subrange(0, len as int) =~= chars@);
    let end: usize = match find_char(&chars, 0, len, ';') {
        Some(at) => {
            proof {
                lemma_first_found(chars@, seq![';']);
            }
            at
        },
        None => len,
    };
    assert(chars@.subrange(0, end as int) =~= before_semicolon(chars@));
    let (from, to) = trim_bounds(&chars, 0, end);
    parse_unsigned(&chars, from, to, 16, usize::MAX)
}

/// Looks for the end of a chunked body in `data`, from `offset` on.
pub fn scan_chunks(data: &[u8], offset: usize, state: ChunkState) -> (found: ChunkScan)
    requires
        offset <= data@.len(),
    ensures
        found@ == scan(data@, offset as int, state),
        found matches ChunkScan::More { offset: at, .. } ==> offset <= at <= data@.len(),
        found matches ChunkScan::Complete { offset: at } ==> offset <= at <= data@.len(),
{
    let len: usize = data.len();
    let mut at: usize = offset;
    let mut expected: ChunkState = state;
    loop
        invariant
            offset <= at <= len,
            len == data@.len(),
            scan(data@, offset as int, state) == scan(data@, at as int, expected),
        decreases len - at, scan_rank(expected),
    {
        proof {
            lemma_step_moves(data@, at as int, expected);
            assert(data@.subrange(at as int, len as int) =~= data@.skip(at as int));
            lemma_starts_with_crlf(data@.skip(at as int));
        }
        match expected {
            ChunkState::Size => {
                match find_crlf(data, at, len) {
                    Some(pos) => {
                        proof {
                            lemma_first_found(data@.skip(at as int), crlf());
                        }
                        match parse_chunk_size(slice_subrange(data, at, at + pos)) {
                            Some(size) => {
                                at = at + pos + 2;
                                if size == 0 {
                                    expected = ChunkState::Trailer;
                                } else {
                                    expected = ChunkState::Data { remaining: size };
                                }
                            },
                            None => {
                                return ChunkScan::Malformed;
                            },
                        }
                    },
                    None => {
                        return ChunkScan::More { state: expected, offset: at };
                    },
                }
            },
            ChunkState::Data { remaining } => {
                let available: usize = len - at;
                if available >= remaining {
                    at = at + remaining;
                    expected = ChunkState::DataCRLF;
                } else {
                    at = at + available;
                    expected = ChunkState::Data { remaining: remaining - available };
                    return ChunkScan::More { state: expected, offset: at };
                }
            },
            ChunkState::DataCRLF => {
                let available: usize = len - at;
                if available >= 2 {
                    if data[at] == CR && data[at + 1] == LF {
                        at = at + 2;
                        expected = ChunkState::Size;
                    } else {
                        return ChunkScan::Malformed;
                    }
                } else {
                    return ChunkScan::More { state: expected, offset: at };
                }
            },
            ChunkState::Trailer => {
                match find_crlf(data, at, len) {
                    Some(pos) => {
                        proof {
                            lemma_first_found(data@.skip(at as int), crlf());
                        }
                        at = at + pos + 2;
                        if pos == 0 {
                            return ChunkScan::Complete { offset: at };
                        }
                    },
                    None => {
                        return ChunkScan::More { state: expected, offset: at };
                    },
                }
            },
        }
    }
}

/// A sequence has its first line end at its beginning just where it starts with one.
pub proof fn lemma_starts_with_crlf(s: Seq<u8>)
    ensures
        first_occurrence(s, crlf()) == Some(0int) <==> s.len() >= 2 && s[0] == CR && s[1] == LF,
{
    if s.len() >= 2 && s[0] == CR && s[1] == LF {
        assert(s.subrange(0, 2) =~= crlf());
        assert(first_occurs_at(s, crlf(), 0));
        lemma_first_occurrence(s, crlf(), 0);
    }
    if first_occurrence(s, crlf()) == Some(0int) {
        lemma_first_found(s, crlf());
        assert(s.subrange(0, 2)[0] == s[0] && s.subrange(0, 2)[1] == s[1]);
    }
}

} // verus!
