use ruk::chunked::ChunkState;
use ruk::connection::{
    accepts_read, accepts_write, complete_request, handle_head, handle_read, handle_write, parse_chunked_body, reconnect_conn,
    resume_conn, Action, ConnState, Connection, ReadEvent, WriteEvent, RECVBUF,
};
use ruk::headers::{BodyInfo, HeaderInfo};
use ruk::stats::WorkerStats;
use ruk::worker::Worker;

const MICRO: u64 = 1000;

/// A connection that has sent its request.
fn awaiting() -> Connection {
    let mut conn = Connection::new();
    let mut stats = WorkerStats::default();
    assert_eq!(
        handle_write(&mut conn, &mut stats, WriteEvent::Ready, 30, false, 0),
        Action::Check
    );
    assert_eq!(
        handle_write(&mut conn, &mut stats, WriteEvent::Checked(true), 30, false, 5 * MICRO),
        Action::Write
    );
    assert_eq!(
        handle_write(&mut conn, &mut stats, WriteEvent::Sent(30), 30, false, 0),
        Action::AwaitReadable
    );
    conn
}

fn receive(
    conn: &mut Connection,
    stats: &mut WorkerStats,
    bytes: &[u8],
    recording: bool,
    now: u64,
) -> Action {
    let start = conn.read_len;
    conn.buf[start..start + bytes.len()].copy_from_slice(bytes);
    handle_read(conn, stats, ReadEvent::Received(bytes.len()), recording, now)
}

#[test]
fn new_connection_is_being_set_up() {
    let conn = Connection::new();
    assert_eq!(conn.state, ConnState::Connecting);
    assert_eq!(conn.start_time, None);
    assert_eq!(conn.buf, vec![0u8; RECVBUF]);
    assert_eq!((conn.read_len, conn.written_len, conn.close_connection), (0, 0, false));
}

#[test]
fn request_is_sent_in_pieces() {
    let mut conn = Connection::new();
    let mut stats = WorkerStats::default();
    handle_write(&mut conn, &mut stats, WriteEvent::Checked(true), 30, true, 9);
    assert_eq!(conn.state, ConnState::Writing);
    assert_eq!(conn.start_time, Some(9));
    assert_eq!(handle_write(&mut conn, &mut stats, WriteEvent::Ready, 30, true, 10), Action::Write);
    assert_eq!(
        handle_write(&mut conn, &mut stats, WriteEvent::Sent(12), 30, true, 10),
        Action::Write
    );
    assert_eq!(
        handle_write(&mut conn, &mut stats, WriteEvent::WouldBlock, 30, true, 10),
        Action::Wait
    );
    assert_eq!(conn.written_len, 12);
    assert_eq!(
        handle_write(&mut conn, &mut stats, WriteEvent::Sent(18), 30, true, 10),
        Action::AwaitReadable
    );
    assert_eq!(conn.state, ConnState::ReadingHeaders);
    assert_eq!(conn.written_len, 30);
    assert_eq!(
        handle_write(&mut conn, &mut stats, WriteEvent::Ready, 30, true, 10),
        Action::AwaitReadable
    );
    assert_eq!(stats.total_requests, 0);
}

#[test]
fn failure_to_connect_is_a_network_error() {
    let mut conn = Connection::new();
    let mut stats = WorkerStats::default();
    assert_eq!(
        handle_write(&mut conn, &mut stats, WriteEvent::Checked(false), 30, true, 1),
        Action::Reconnect
    );
    assert_eq!((stats.total_requests, stats.status_codes[0]), (1, 1));
    handle_write(&mut conn, &mut stats, WriteEvent::Checked(false), 30, false, 1);
    assert_eq!((stats.total_requests, stats.status_codes[0]), (1, 1));
}

#[test]
fn failure_to_send_is_a_network_error() {
    let mut conn = Connection::new();
    let mut stats = WorkerStats::default();
    handle_write(&mut conn, &mut stats, WriteEvent::Checked(true), 30, true, 1);
    assert_eq!(
        handle_write(&mut conn, &mut stats, WriteEvent::Failed, 30, true, 1),
        Action::Reconnect
    );
    assert_eq!((stats.total_requests, stats.status_codes[0]), (1, 1));
}

#[test]
fn response_with_a_length_in_one_piece() {
    let mut conn = awaiting();
    let mut stats = WorkerStats::default();
    let response = b"HTTP/1.1 200 OK\r\nContent-Length: 5\r\n\r\nhello";
    let action = receive(&mut conn, &mut stats, response, true, 12 * MICRO + 999);
    assert_eq!(action, Action::AwaitWritable);
    assert_eq!(conn.state, ConnState::Writing);
    assert_eq!((conn.read_len, conn.written_len), (0, 0));
    assert_eq!(conn.start_time, Some(12 * MICRO + 999));
    assert_eq!((stats.total_requests, stats.successful_requests), (1, 1));
    assert_eq!(stats.status_codes[200], 1);
    assert_eq!(stats.total_bytes, response.len() as u64);
    assert_eq!(stats.latency_hist.samples(), vec![(7, 1)]);
}

#[test]
fn response_with_a_length_in_pieces() {
    let mut conn = awaiting();
    let mut stats = WorkerStats::default();
    assert_eq!(receive(&mut conn, &mut stats, b"HTTP/1.1 404 Not", true, 0), Action::Wait);
    assert_eq!(conn.read_len, 16);
    assert_eq!(stats.total_requests, 0);
    let rest = b" Found\r\nContent-Length: 10\r\n\r\nabc";
    assert_eq!(receive(&mut conn, &mut stats, rest, true, 0), Action::Read);
    assert_eq!(conn.state, ConnState::ReadingBody { remaining: 7 });
    assert_eq!(conn.read_len, 0);
    assert_eq!(receive(&mut conn, &mut stats, b"defg", true, 0), Action::Read);
    assert_eq!(conn.state, ConnState::ReadingBody { remaining: 3 });
    assert_eq!(receive(&mut conn, &mut stats, b"hij", true, 6 * MICRO), Action::AwaitWritable);
    assert_eq!((stats.total_requests, stats.successful_requests), (1, 0));
    assert_eq!(stats.status_codes[404], 1);
    assert_eq!(stats.total_bytes, (16 + rest.len() + 7) as u64);
    assert_eq!(stats.latency_hist.samples(), vec![(1, 1)]);
}

#[test]
fn warm_up_counts_nothing() {
    let mut conn = awaiting();
    let mut stats = WorkerStats::default();
    let response = b"HTTP/1.1 200 OK\r\nContent-Length: 0\r\n\r\n";
    assert_eq!(receive(&mut conn, &mut stats, response, false, 9), Action::AwaitWritable);
    assert_eq!((stats.total_requests, stats.total_bytes), (0, 0));
    assert!(stats.latency_hist.samples().is_empty());
}

#[test]
fn connection_that_the_server_closes_is_set_up_again() {
    let mut conn = awaiting();
    let mut stats = WorkerStats::default();
    let response = b"HTTP/1.1 204 No Content\r\nConnection: close\r\nContent-Length: 0\r\n\r\n";
    assert_eq!(receive(&mut conn, &mut stats, response, true, 0), Action::Reconnect);
    assert!(conn.close_connection);
    assert_eq!(stats.total_requests, 1);
    reconnect_conn(&mut conn, true);
    assert_eq!(conn.state, ConnState::Connecting);
    assert_eq!(conn.start_time, None);
    assert_eq!((conn.read_len, conn.written_len, conn.close_connection), (0, 0, false));
    reconnect_conn(&mut conn, false);
    assert_eq!(conn.state, ConnState::Reconnecting);
    resume_conn(&mut conn, false);
    assert_eq!(conn.state, ConnState::Reconnecting);
    resume_conn(&mut conn, true);
    assert_eq!(conn.state, ConnState::Connecting);
}

#[test]
fn only_a_lost_connection_is_resumed() {
    let mut conn = awaiting();
    resume_conn(&mut conn, true);
    assert_eq!(conn.state, ConnState::ReadingHeaders);
}

#[test]
fn response_until_close() {
    let mut conn = awaiting();
    let mut stats = WorkerStats::default();
    let head = b"HTTP/1.0 200 OK\r\n\r\nabc";
    assert_eq!(receive(&mut conn, &mut stats, head, true, 0), Action::Read);
    assert_eq!(conn.state, ConnState::ReadingUntilClose);
    assert_eq!(receive(&mut conn, &mut stats, b"defgh", true, 0), Action::Read);
    assert_eq!(conn.read_len, 0);
    assert_eq!(stats.total_bytes, (head.len() + 5) as u64);
    let action = handle_read(&mut conn, &mut stats, ReadEvent::Received(0), true, 8 * MICRO);
    assert_eq!(action, Action::AwaitWritable);
    assert_eq!(stats.total_requests, 1);
    assert_eq!(stats.latency_hist.samples(), vec![(3, 1)]);
}

#[test]
fn connection_that_is_cut_off_is_a_network_error() {
    let mut conn = awaiting();
    let mut stats = WorkerStats::default();
    assert_eq!(
        handle_read(&mut conn, &mut stats, ReadEvent::Received(0), true, 0),
        Action::Reconnect
    );
    assert_eq!((stats.total_requests, stats.status_codes[0]), (1, 1));
}

#[test]
fn response_that_is_cut_off_counts_twice() {
    let mut conn = awaiting();
    let mut stats = WorkerStats::default();
    receive(&mut conn, &mut stats, b"HTTP/1.1 200 OK\r\nContent-Length: 9\r\n\r\n", true, 0);
    handle_read(&mut conn, &mut stats, ReadEvent::Received(0), true, 0);
    assert_eq!((stats.total_requests, stats.successful_requests), (2, 1));
    assert_eq!((stats.status_codes[200], stats.status_codes[0]), (1, 1));
}

#[test]
fn invalid_response_is_not_counted() {
    let mut conn = awaiting();
    let mut stats = WorkerStats::default();
    assert_eq!(receive(&mut conn, &mut stats, b"SMTP ready\r\n", true, 0), Action::Reconnect);
    assert_eq!(stats.total_requests, 0);
}

#[test]
fn too_many_headers_are_refused() {
    let mut response = b"HTTP/1.1 200 OK\r\n".to_vec();
    for _ in 0..16 {
        response.extend_from_slice(b"A: b\r\n");
    }
    let mut allowed = response.clone();
    allowed.extend_from_slice(b"\r\n");
    let mut conn = awaiting();
    let mut stats = WorkerStats::default();
    assert_eq!(receive(&mut conn, &mut stats, &allowed, true, 0), Action::Read);
    response.extend_from_slice(b"A: b\r\n\r\n");
    let mut conn = awaiting();
    assert_eq!(receive(&mut conn, &mut stats, &response, true, 0), Action::Reconnect);
}

#[test]
fn length_beyond_the_machine_is_told() {
    let mut conn = awaiting();
    let mut stats = WorkerStats::default();
    let response = b"HTTP/1.1 200 OK\r\nContent-Length: 99999999999999999999999\r\n\r\n";
    assert_eq!(receive(&mut conn, &mut stats, response, true, 0), Action::LengthOverflow);
    assert_eq!(conn.read_len, 0);
    assert_eq!(stats.total_requests, 0);
}

#[test]
fn chunked_response_in_one_piece() {
    let mut conn = awaiting();
    let mut stats = WorkerStats::default();
    let response =
        b"HTTP/1.1 200 OK\r\nTransfer-Encoding: chunked\r\n\r\n4\r\nRust\r\n0\r\n\r\n";
    assert_eq!(receive(&mut conn, &mut stats, response, true, 0), Action::AwaitWritable);
    assert_eq!(conn.state, ConnState::Writing);
    assert_eq!(stats.total_bytes, response.len() as u64);
}

#[test]
fn chunked_response_in_pieces() {
    let head = b"HTTP/1.1 200 OK\r\nTransfer-Encoding: chunked\r\n\r\n";
    let body = b"4\r\nRust\r\n3;x\r\nabc\r\n0\r\nT: u\r\n\r\n";
    for cut in 1..body.len() {
        let mut conn = awaiting();
        let mut stats = WorkerStats::default();
        let mut first = head.to_vec();
        first.extend_from_slice(&body[..cut]);
        assert_eq!(receive(&mut conn, &mut stats, &first, true, 0), Action::Read);
        assert_eq!(
            receive(&mut conn, &mut stats, &body[cut..], true, 0),
            Action::AwaitWritable,
            "cut at {}",
            cut
        );
        assert_eq!(stats.total_bytes, (head.len() + body.len()) as u64);
        assert_eq!(stats.total_requests, 1);
    }
}

#[test]
fn chunked_response_waits_for_more() {
    let mut conn = awaiting();
    let mut stats = WorkerStats::default();
    let head = b"HTTP/1.1 200 OK\r\nTransfer-Encoding: chunked\r\n\r\n";
    assert_eq!(receive(&mut conn, &mut stats, head, true, 0), Action::Read);
    assert_eq!(receive(&mut conn, &mut stats, b"ff\r\nab", true, 0), Action::Wait);
    assert_eq!(
        conn.state,
        ConnState::ReadingChunked {
            chunk_state: ChunkState::Data { remaining: 253 },
            parsed_offset: head.len() + 6,
        }
    );
    assert_eq!(conn.read_len, head.len() + 6);
}

#[test]
fn malformed_chunked_response_is_given_up() {
    let mut conn = awaiting();
    let mut stats = WorkerStats::default();
    let response = b"HTTP/1.1 200 OK\r\nTransfer-Encoding: chunked\r\n\r\nnone\r\n";
    assert_eq!(receive(&mut conn, &mut stats, response, true, 0), Action::Reconnect);
    assert_eq!(stats.total_requests, 1);
}

#[test]
fn chunked_response_that_closes() {
    let mut conn = awaiting();
    let mut stats = WorkerStats::default();
    let response =
        b"HTTP/1.1 200 OK\r\nConnection: close\r\nTransfer-Encoding: chunked\r\n\r\n0\r\n\r\n";
    assert_eq!(receive(&mut conn, &mut stats, response, true, 6 * MICRO), Action::Reconnect);
    assert_eq!(
        conn.state,
        ConnState::ReadingChunked {
            chunk_state: ChunkState::Trailer,
            parsed_offset: response.len(),
        }
    );
    assert_eq!(stats.latency_hist.samples(), vec![(1, 1)]);
}

/// A connection in the middle of a chunked body, with `bytes` in its buffer.
fn in_chunks(bytes: &[u8], chunk_state: ChunkState, parsed_offset: usize) -> Connection {
    let mut conn = awaiting();
    conn.buf[..bytes.len()].copy_from_slice(bytes);
    conn.read_len = bytes.len();
    conn.state = ConnState::ReadingChunked { chunk_state, parsed_offset };
    conn
}

#[test]
fn scanned_bytes_are_dropped() {
    let mut stats = WorkerStats::default();
    let mut bytes = vec![b'x'; 8193];
    bytes.extend_from_slice(b"\r\n12\r");
    let state = ChunkState::Data { remaining: 8193 };
    let mut conn = in_chunks(&bytes, state, 0);
    assert_eq!(parse_chunked_body(&mut conn, &mut stats, true, 0), None);
    assert_eq!(
        conn.state,
        ConnState::ReadingChunked { chunk_state: ChunkState::Size, parsed_offset: 0 }
    );
    assert_eq!(conn.read_len, 3);
    assert_eq!(&conn.buf[..3], b"12\r");
    assert_eq!(conn.buf.len(), RECVBUF);
    assert_eq!(conn.buf[3], b'x');
}

#[test]
fn long_chunked_response_fits_the_buffer() {
    let head = b"HTTP/1.1 200 OK\r\nTransfer-Encoding: chunked\r\n\r\n";
    let mut body = Vec::new();
    for size in [5000usize, 9000, 20000, 1] {
        body.extend_from_slice(format!("{:x}\r\n", size).as_bytes());
        body.extend_from_slice(&vec![b'y'; size]);
        body.extend_from_slice(b"\r\n");
    }
    body.extend_from_slice(b"0\r\n\r\n");
    let mut conn = awaiting();
    let mut stats = WorkerStats::default();
    assert_eq!(receive(&mut conn, &mut stats, head, true, 0), Action::Read);
    let pieces: Vec<&[u8]> = body.chunks(3000).collect();
    for (i, piece) in pieces.iter().enumerate() {
        let expected = if i + 1 < pieces.len() { Action::Wait } else { Action::AwaitWritable };
        assert_eq!(receive(&mut conn, &mut stats, piece, true, 0), expected);
    }
    assert_eq!(stats.total_bytes, (head.len() + body.len()) as u64);
    assert_eq!(stats.status_codes[200], 1);
}

#[test]
fn few_scanned_bytes_are_kept() {
    let mut stats = WorkerStats::default();
    let bytes = vec![b'x'; 8192];
    let state = ChunkState::Data { remaining: 10000 };
    let mut conn = in_chunks(&bytes, state, 0);
    assert_eq!(parse_chunked_body(&mut conn, &mut stats, true, 0), None);
    assert_eq!(
        conn.state,
        ConnState::ReadingChunked {
            chunk_state: ChunkState::Data { remaining: 1808 },
            parsed_offset: 8192,
        }
    );
    assert_eq!(conn.read_len, 8192);
    let mut other = awaiting();
    assert_eq!(parse_chunked_body(&mut other, &mut stats, true, 0), None);
    assert_eq!(other.state, ConnState::ReadingHeaders);
}

#[test]
fn full_buffer_is_given_up() {
    let mut conn = awaiting();
    let mut stats = WorkerStats::default();
    conn.read_len = RECVBUF - 1;
    assert_eq!(handle_read(&mut conn, &mut stats, ReadEvent::Ready, true, 0), Action::Read);
    conn.read_len = RECVBUF;
    assert_eq!(handle_read(&mut conn, &mut stats, ReadEvent::Ready, true, 0), Action::Reconnect);
    assert_eq!(stats.total_requests, 0);
}

#[test]
fn reading_waits_and_fails() {
    let mut conn = awaiting();
    let mut stats = WorkerStats::default();
    assert_eq!(handle_read(&mut conn, &mut stats, ReadEvent::WouldBlock, true, 0), Action::Wait);
    assert_eq!(handle_read(&mut conn, &mut stats, ReadEvent::Failed, true, 0), Action::Reconnect);
    assert_eq!(stats.total_requests, 0);
}

#[test]
fn bytes_before_the_request_are_kept() {
    let mut conn = Connection::new();
    let mut stats = WorkerStats::default();
    assert_eq!(receive(&mut conn, &mut stats, b"early", true, 0), Action::Read);
    assert_eq!(conn.read_len, 5);
    assert_eq!((stats.total_requests, stats.total_bytes), (0, 0));
}

#[test]
fn head_is_handled_for_every_body() {
    let mut stats = WorkerStats::default();
    let mut conn = awaiting();
    conn.read_len = 100;
    let info = HeaderInfo { body_info: BodyInfo::ContentLength(60), connection_close: true };
    let action = handle_head(&mut conn, &mut stats, 50, None, info, true, 0);
    assert_eq!(action, Action::Read);
    assert_eq!(conn.state, ConnState::ReadingBody { remaining: 10 });
    assert!(conn.close_connection);
    assert_eq!((stats.total_requests, stats.status_codes[0], stats.total_bytes), (1, 1, 100));
}

#[test]
fn body_with_the_head_or_later_is_the_same() {
    let info = HeaderInfo { body_info: BodyInfo::ContentLength(8), connection_close: false };
    let mut one = awaiting();
    let mut one_stats = WorkerStats::default();
    one.read_len = 58;
    let at_once = handle_head(&mut one, &mut one_stats, 50, Some(200), info, true, 9000);
    let mut two = awaiting();
    let mut two_stats = WorkerStats::default();
    two.read_len = 53;
    handle_head(&mut two, &mut two_stats, 50, Some(200), info, true, 9000);
    let later = receive(&mut two, &mut two_stats, b"12345", true, 9000);
    assert_eq!(at_once, later);
    assert_eq!(one.state, two.state);
    assert_eq!(one_stats.total_bytes, two_stats.total_bytes);
    assert_eq!(one_stats.latency_hist.samples(), two_stats.latency_hist.samples());
}

#[test]
fn clock_that_stands_still_counts_zero() {
    let mut conn = awaiting();
    let mut stats = WorkerStats::default();
    assert_eq!(complete_request(&mut conn, &mut stats, true, 0), Action::AwaitWritable);
    assert_eq!(stats.latency_hist.samples(), vec![(0, 1)]);
}

#[test]
fn events_are_accepted_that_fit() {
    let mut conn = awaiting();
    let mut stats = WorkerStats::default();
    assert!(accepts_read(&conn, &stats, ReadEvent::Received(RECVBUF), true));
    assert!(!accepts_read(&conn, &stats, ReadEvent::Received(RECVBUF + 1), false));
    conn.read_len = 10;
    assert!(!accepts_read(&conn, &stats, ReadEvent::Received(RECVBUF - 9), false));
    stats.total_bytes = u64::MAX - 14;
    assert!(accepts_read(&conn, &stats, ReadEvent::Received(4), true));
    assert!(!accepts_read(&conn, &stats, ReadEvent::Received(5), true));
    assert!(accepts_read(&conn, &stats, ReadEvent::Received(5), false));
    stats.total_bytes = 0;
    stats.total_requests = u64::MAX;
    assert!(!accepts_read(&conn, &stats, ReadEvent::Received(0), true));
    assert!(!accepts_read(&conn, &stats, ReadEvent::Received(4), true));
    conn.state = ConnState::ReadingUntilClose;
    assert!(accepts_read(&conn, &stats, ReadEvent::Received(0), true));
    conn.state = ConnState::ReadingBody { remaining: 9 };
    assert!(accepts_read(&conn, &stats, ReadEvent::Received(4), true));
    assert!(!accepts_read(&conn, &stats, ReadEvent::Received(0), true));
    assert!(accepts_read(&conn, &stats, ReadEvent::Failed, true));
}

#[test]
fn events_are_accepted_in_their_state() {
    let mut conn = Connection::new();
    let mut stats = WorkerStats::default();
    assert!(accepts_write(&conn, &stats, WriteEvent::Checked(false), 9, true));
    assert!(!accepts_write(&conn, &stats, WriteEvent::Sent(1), 9, true));
    assert!(!accepts_write(&conn, &stats, WriteEvent::Failed, 9, true));
    conn.state = ConnState::Writing;
    conn.written_len = 4;
    assert!(!accepts_write(&conn, &stats, WriteEvent::Checked(true), 9, true));
    assert!(accepts_write(&conn, &stats, WriteEvent::Sent(5), 9, true));
    assert!(!accepts_write(&conn, &stats, WriteEvent::Sent(6), 9, true));
    assert!(accepts_write(&conn, &stats, WriteEvent::WouldBlock, 9, true));
    stats.total_requests = u64::MAX;
    assert!(!accepts_write(&conn, &stats, WriteEvent::Failed, 9, true));
    assert!(accepts_write(&conn, &stats, WriteEvent::Failed, 9, false));
    assert!(accepts_write(&conn, &stats, WriteEvent::Ready, 9, true));
}

#[test]
fn worker_handles_its_connections() {
    let mut worker = Worker::new();
    assert_eq!(worker.add_connection(), 0);
    assert_eq!(worker.add_connection(), 1);
    assert_eq!(worker.write_event(1, WriteEvent::Checked(true), 4, true, 0), Some(Action::Write));
    assert_eq!(
        worker.write_event(1, WriteEvent::Sent(4), 4, true, 0),
        Some(Action::AwaitReadable)
    );
    assert_eq!(worker.connections[0].state, ConnState::Connecting);
    assert_eq!(worker.connections[1].state, ConnState::ReadingHeaders);
    assert_eq!(
        worker.read_event(1, ReadEvent::Received(0), true, 0),
        Some(Action::Reconnect)
    );
    assert_eq!(worker.stats.status_codes[0], 1);
    worker.reconnected(1, false);
    assert!(worker.is_lost(1));
    assert!(!worker.is_lost(0));
    worker.resumed(1, true);
    assert!(!worker.is_lost(1));
    assert_eq!(worker.connections[1].state, ConnState::Connecting);
}

#[test]
fn worker_ignores_other_tokens() {
    let mut worker = Worker::new();
    worker.add_connection();
    assert!(worker.accepts_read(1, ReadEvent::Received(RECVBUF + 1), true));
    assert!(!worker.accepts_read(0, ReadEvent::Received(RECVBUF + 1), true));
    assert!(worker.accepts_write(1, WriteEvent::Sent(5), 4, true));
    assert!(!worker.accepts_write(0, WriteEvent::Sent(5), 4, true));
    assert_eq!(worker.read_event(1, ReadEvent::Ready, true, 0), None);
    assert_eq!(worker.write_event(7, WriteEvent::Ready, 4, true, 0), None);
    worker.reconnected(1, false);
    worker.resumed(1, true);
    assert!(!worker.is_lost(1));
    assert_eq!(worker.connections.len(), 1);
}

/// Reads `response` in pieces that end at `cuts`, each piece a call of its own or not, and
/// then the end of the connection where the response lasts until then.
fn counts_once(response: &[u8], cuts: &[usize], until_close: bool) {
    let mut conn = awaiting();
    let mut stats = WorkerStats::default();
    let mut from = 0;
    let mut last = Action::Wait;
    for &to in cuts.iter().chain([response.len()].iter()) {
        assert!(matches!(last, Action::Read | Action::Wait));
        if last == Action::Wait {
            last = handle_read(&mut conn, &mut stats, ReadEvent::Ready, true, 0);
            assert_eq!(last, Action::Read);
        }
        if from < to {
            last = receive(&mut conn, &mut stats, &response[from..to], true, 0);
        }
        from = to;
        assert!(conn.read_len <= conn.buf.len());
        assert_eq!(conn.buf.len(), RECVBUF);
    }
    if until_close {
        last = handle_read(&mut conn, &mut stats, ReadEvent::Received(0), true, 0);
    }
    assert_eq!(last, Action::AwaitWritable);
    assert_eq!(stats.total_bytes, response.len() as u64);
    assert_eq!(stats.total_requests, 1);
}

#[test]
fn response_counts_once_however_it_is_split() {
    let responses: [(&[u8], bool); 3] = [
        (b"HTTP/1.1 200 OK\r\nContent-Length: 7\r\n\r\n1234567", false),
        (b"HTTP/1.1 404 No\r\nTransfer-Encoding: chunked\r\n\r\n3\r\nabc\r\n0\r\n\r\n", false),
        (b"HTTP/1.1 200 OK\r\nA: b\r\n\r\nuntil the end", true),
    ];
    for (response, until_close) in responses {
        for first in 0..response.len() {
            for second in first..response.len() {
                counts_once(response, &[first, second], until_close);
            }
        }
    }
}
