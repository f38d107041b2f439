use ruk::chunked::{parse_chunk_size, scan_chunks, ChunkScan, ChunkState};

fn more(state: ChunkState, offset: usize) -> ChunkScan {
    ChunkScan::More { state, offset }
}

#[test]
fn size_line_is_hexadecimal() {
    assert_eq!(parse_chunk_size(b"0"), Some(0));
    assert_eq!(parse_chunk_size(b"1a"), Some(26));
    assert_eq!(parse_chunk_size(b"FF"), Some(255));
    assert_eq!(parse_chunk_size(b"0010"), Some(16));
}

#[test]
fn size_line_may_have_spaces_sign_and_extension() {
    assert_eq!(parse_chunk_size(b" 1f\t"), Some(31));
    assert_eq!(parse_chunk_size(b"+7"), Some(7));
    assert_eq!(parse_chunk_size(b"5;name=value"), Some(5));
    assert_eq!(parse_chunk_size(b"5 ; a ; b"), Some(5));
    assert_eq!(parse_chunk_size("\u{2003}c\u{a0}".as_bytes()), Some(12));
}

#[test]
fn size_line_without_a_number_is_refused() {
    assert_eq!(parse_chunk_size(b""), None);
    assert_eq!(parse_chunk_size(b"+"), None);
    assert_eq!(parse_chunk_size(b"-1"), None);
    assert_eq!(parse_chunk_size(b"0x10"), None);
    assert_eq!(parse_chunk_size(b"1 2"), None);
    assert_eq!(parse_chunk_size(b";a=b"), None);
    assert_eq!(parse_chunk_size(b"g"), None);
}

#[test]
fn size_line_that_is_no_text_is_refused() {
    assert_eq!(parse_chunk_size(b"5;\xff"), None);
    assert_eq!(parse_chunk_size(b"\xc3"), None);
}

#[test]
fn size_line_is_limited_by_the_machine() {
    let largest = format!("{:x}", usize::MAX);
    assert_eq!(parse_chunk_size(largest.as_bytes()), Some(usize::MAX));
    let larger = format!("{}0", largest);
    assert_eq!(parse_chunk_size(larger.as_bytes()), None);
}

#[test]
fn whole_body_is_found() {
    let body = b"4\r\nRust\r\n0\r\n\r\n";
    assert_eq!(scan_chunks(body, 0, ChunkState::Size), ChunkScan::Complete { offset: 14 });
}

#[test]
fn trailers_belong_to_the_body() {
    let body = b"2\r\nhi\r\n0\r\nA: b\r\nC: d\r\n\r\nrest";
    assert_eq!(
        scan_chunks(body, 0, ChunkState::Size),
        ChunkScan::Complete { offset: body.len() - 4 }
    );
}

#[test]
fn scan_starts_where_it_is_told() {
    let data = b"head3\r\nabc\r\n0\r\n\r\n";
    assert_eq!(
        scan_chunks(data, 4, ChunkState::Size),
        ChunkScan::Complete { offset: data.len() }
    );
}

#[test]
fn scan_asks_for_more() {
    assert_eq!(scan_chunks(b"", 0, ChunkState::Size), more(ChunkState::Size, 0));
    assert_eq!(scan_chunks(b"4\r", 0, ChunkState::Size), more(ChunkState::Size, 0));
    assert_eq!(
        scan_chunks(b"4\r\nRu", 0, ChunkState::Size),
        more(ChunkState::Data { remaining: 2 }, 5)
    );
    assert_eq!(scan_chunks(b"4\r\nRust", 0, ChunkState::Size), more(ChunkState::DataCRLF, 7));
    assert_eq!(scan_chunks(b"4\r\nRust\r", 0, ChunkState::Size), more(ChunkState::DataCRLF, 7));
    assert_eq!(scan_chunks(b"4\r\nRust\r\n", 0, ChunkState::Size), more(ChunkState::Size, 9));
    assert_eq!(scan_chunks(b"0\r\n\r", 0, ChunkState::Size), more(ChunkState::Trailer, 3));
    assert_eq!(scan_chunks(b"0\r\nA: b\r\n", 0, ChunkState::Size), more(ChunkState::Trailer, 9));
}

#[test]
fn malformed_bodies_are_refused() {
    assert_eq!(scan_chunks(b"zz\r\n", 0, ChunkState::Size), ChunkScan::Malformed);
    assert_eq!(scan_chunks(b"\r\n", 0, ChunkState::Size), ChunkScan::Malformed);
    assert_eq!(scan_chunks(b"4\r\nRustXY", 0, ChunkState::Size), ChunkScan::Malformed);
}

#[test]
fn rest_of_nothing_is_followed_by_a_line_end() {
    assert_eq!(
        scan_chunks(b"\r\n0\r\n\r\n", 0, ChunkState::Data { remaining: 0 }),
        ChunkScan::Complete { offset: 7 }
    );
}

/// Every way to cut a body in two is judged like the whole, with the scanned part dropped.
#[test]
fn pieces_are_judged_like_the_whole() {
    let body = b"4;x=y\r\nRust\r\n1\r\n.\r\n00\r\nTrailer: yes\r\n\r\n";
    for cut in 0..body.len() {
        match scan_chunks(&body[..cut], 0, ChunkState::Size) {
            ChunkScan::More { state, offset } => {
                let rest = &body[offset..];
                assert_eq!(
                    scan_chunks(rest, 0, state),
                    ChunkScan::Complete { offset: rest.len() }
                );
                assert_eq!(
                    scan_chunks(body, offset, state),
                    ChunkScan::Complete { offset: body.len() }
                );
            }
            other => panic!("cut at {}: {:?}", cut, other),
        }
    }
}
