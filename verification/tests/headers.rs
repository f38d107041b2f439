use ruk::headers::{
    bytes_contains_chunked, bytes_eq_close, checked_leading_number, classify_headers,
    content_lengths_fit, parse_usize, BodyInfo, Header, HeaderInfo, NumberTooLarge,
};

fn header<'a>(name: &'a str, value: &'a [u8]) -> Header<'a> {
    Header { name: name.as_bytes(), value }
}

fn info(body_info: BodyInfo, connection_close: bool) -> HeaderInfo {
    HeaderInfo { body_info, connection_close }
}

#[test]
fn numbers_are_read() {
    assert_eq!(parse_usize(b"0"), Some(0));
    assert_eq!(parse_usize(b"1234"), Some(1234));
    assert_eq!(parse_usize(b" \t42"), Some(42));
    assert_eq!(parse_usize(b"42abc7"), Some(42));
    assert_eq!(parse_usize(b"1 2\t3"), Some(123));
}

#[test]
fn missing_numbers_are_none() {
    assert_eq!(parse_usize(b""), None);
    assert_eq!(parse_usize(b"  "), None);
    assert_eq!(parse_usize(b"abc"), None);
    assert_eq!(parse_usize(b"-1"), None);
}

#[test]
fn numbers_read_back() {
    for n in [0usize, 9, 10, 99, 100, 65536, usize::MAX] {
        let text = format!("\t{}\r\n", n);
        assert_eq!(parse_usize(text.as_bytes()), Some(n));
    }
}

#[test]
fn large_numbers_are_noticed() {
    let largest = format!("{}", usize::MAX);
    assert_eq!(checked_leading_number(largest.as_bytes()), Ok(Some(usize::MAX)));
    let larger = format!("{}0", largest);
    assert_eq!(checked_leading_number(larger.as_bytes()), Err(NumberTooLarge));
    assert_eq!(checked_leading_number(b"18446744073709551616"), Err(NumberTooLarge));
    assert_eq!(checked_leading_number(b"x"), Ok(None));
}

#[test]
fn chunked_is_found_anywhere_in_any_case() {
    assert!(bytes_contains_chunked(b"chunked"));
    assert!(bytes_contains_chunked(b"gzip, ChUnKeD"));
    assert!(bytes_contains_chunked(b"xchunkedx"));
    assert!(!bytes_contains_chunked(b"chunke"));
    assert!(!bytes_contains_chunked(b"chunk ed"));
    assert!(!bytes_contains_chunked(b""));
}

#[test]
fn close_stands_alone_in_any_case() {
    assert!(bytes_eq_close(b"close"));
    assert!(bytes_eq_close(b" \tCLOSE \r\n"));
    assert!(!bytes_eq_close(b"closed"));
    assert!(!bytes_eq_close(b"keep-alive, close"));
    assert!(!bytes_eq_close(b"\r\nclose"));
    assert!(!bytes_eq_close(b""));
    assert!(!bytes_eq_close(b"   "));
}

#[test]
fn headers_are_classified() {
    assert_eq!(classify_headers(&[]), info(BodyInfo::UntilClose, false));
    assert_eq!(
        classify_headers(&[header("Content-Length", b"12"), header("Connection", b"close")]),
        info(BodyInfo::ContentLength(12), true)
    );
    assert_eq!(
        classify_headers(&[header("TRANSFER-ENCODING", b"Chunked")]),
        info(BodyInfo::Chunked, false)
    );
    assert_eq!(
        classify_headers(&[header("connection", b"close")]),
        info(BodyInfo::UntilClose, true)
    );
}

#[test]
fn length_counts_more_than_coding() {
    assert_eq!(
        classify_headers(&[
            header("Content-Length", b"5"),
            header("Transfer-Encoding", b"chunked"),
        ]),
        info(BodyInfo::ContentLength(5), false)
    );
}

#[test]
fn later_header_counts() {
    assert_eq!(
        classify_headers(&[
            header("Content-Length", b"5"),
            header("Connection", b"close"),
            header("content-length", b"7"),
            header("CONNECTION", b"keep-alive"),
        ]),
        info(BodyInfo::ContentLength(7), false)
    );
    assert_eq!(
        classify_headers(&[header("Content-Length", b"5"), header("Content-Length", b"none")]),
        info(BodyInfo::UntilClose, false)
    );
}

#[test]
fn other_headers_do_not_matter() {
    assert_eq!(
        classify_headers(&[
            header("Content-Lengths", b"5"),
            header("", b""),
            header("X-Connection", b"close"),
            header("Content-Length", b"3"),
            header("Server", b"chunked close 9"),
        ]),
        info(BodyInfo::ContentLength(3), false)
    );
}

#[test]
fn lengths_beyond_the_machine_are_noticed() {
    assert!(content_lengths_fit(&[]));
    assert!(content_lengths_fit(&[header("Content-Length", b"99"), header("Age", b"9")]));
    assert!(content_lengths_fit(&[header("X", b"99999999999999999999999999")]));
    assert!(!content_lengths_fit(&[
        header("content-length", b"99999999999999999999999999"),
        header("content-length", b"1"),
    ]));
}

#[test]
fn any_number_of_other_headers_does_not_matter() {
    let known = [
        header("Connection", b"close"),
        header("transfer-encoding", b"chunked"),
        header("CONNECTION", b"keep-alive"),
    ];
    let mut padded = Vec::new();
    for h in known {
        padded.extend([header("", b""), header("Server", b"x"), h, header("Content", b"7")]);
    }
    assert_eq!(classify_headers(&padded), classify_headers(&known));
    assert_eq!(classify_headers(&padded), info(BodyInfo::Chunked, false));
}

#[test]
fn nothing_announced_lasts_until_close() {
    let padding = [header("", b""); 16];
    assert_eq!(classify_headers(&padding), info(BodyInfo::UntilClose, false));
    assert_eq!(classify_headers(&padding[..0]), info(BodyInfo::UntilClose, false));
}
