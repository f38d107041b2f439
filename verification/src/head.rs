//! The head of a response: its status line and its headers.

use crate::headers::{header_views, Header, HeaderView};
use vstd::prelude::*;

verus! {

/// What was found at the beginning of a response.
#[derive(Debug)]
pub enum ParsedHead<'a> {
    /// A whole head, which ends at `header_len`.
    Complete { header_len: usize, code: Option<u16>, headers: Vec<Header<'a>> },
    /// The beginning of a head.
    Partial,
    /// No head of a response.
    Invalid,
}

/// What is found at the beginning of a response, as sequences of bytes.
pub enum HeadView {
    Complete { header_len: int, code: Option<u16>, headers: Seq<HeaderView> },
    Partial,
    Invalid,
}

impl<'a> View for ParsedHead<'a> {
    type V = HeadView;

    open spec fn view(&self) -> HeadView {
        match *self {
            ParsedHead::Complete { header_len, code, headers } => HeadView::Complete {
                header_len: header_len as int,
                code,
                headers: header_views(headers@),
            },
            ParsedHead::Partial => HeadView::Partial,
            ParsedHead::Invalid => HeadView::Invalid,
        }
    }
}

/// What `httparse` finds at the beginning of `bytes` with room for `slots` headers.
pub uninterp spec fn response_head(bytes: Seq<u8>, slots: int) -> HeadView;

/// What is found at the beginning of `bytes` with room for `slots` headers. A head is whole
/// only where it ends within the bytes, as every head that `parse_head` finds does.
pub open spec fn found_head(bytes: Seq<u8>, slots: int) -> HeadView {
    match response_head(bytes, slots) {
        HeadView::Complete { header_len, code, headers } => if 0 <= header_len <= bytes.len() {
            HeadView::Complete { header_len, code, headers }
        } else {
            HeadView::Invalid
        },
        other => other,
    }
}

/// Calls `httparse::Response::parse` with room for `slots` headers. The result depends on
/// the bytes and the room alone. A head that is complete ends within the bytes, and no
/// more headers are found than there is room for.
#[verifier::external_body]
pub(crate) fn parse_head<'a>(bytes: &'a [u8], slots: usize) -> (head: ParsedHead<'a>)
    ensures
        head@ == response_head(bytes@, slots as int),
        head matches ParsedHead::Complete { header_len, headers, .. } ==> header_len <= bytes@.len()
            && headers@.len() <= slots,
{
    let mut room = vec![httparse::EMPTY_HEADER; slots];
    let mut response = httparse::Response::new(&mut room);
    match response.parse(bytes) {
        Ok(httparse::Status::Complete(header_len)) => ParsedHead::Complete {
            header_len,
            code: response.code,
            headers: response.headers.iter().map(
                |h| Header { name: h.name.as_bytes(), value: h.value },
            ).collect(),
        },
        Ok(httparse::Status::Partial) => ParsedHead::Partial,
        Err(_) => ParsedHead::Invalid,
    }
}

} // verus!
